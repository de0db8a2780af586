//! The transitive closure of shared objects reachable from the requested
//! event classes, with its reachability argument.

use vstd::prelude::*;

use crate::schema::{
    entries_view, table_get, table_has, AttributeView, ClassView, ObjectView, OcsfAttribute,
    OcsfClass, OcsfObject, OcsfSchema, SchemaView,
};
use crate::strutil;
use crate::strutil::strictly_sorted;
use crate::type_map;
use crate::type_map::canon_of;

use crate::codegen::{lookup_object, lookup_object_view, scan_by_canon};

verus! {

// ── Object graph resolution ────────────────────────────────────────────

/// The object references of an attribute table, in attribute order.
pub open spec fn refs_of(attrs: Seq<(Seq<char>, AttributeView)>) -> Seq<Seq<char>>
    decreases attrs.len(),
{
    if attrs.len() == 0 {
        Seq::<Seq<char>>::empty()
    } else {
        refs_of(attrs.drop_last()) + (match attrs.last().1.object_type {
            Some(t) => seq![t],
            None => Seq::<Seq<char>>::empty(),
        })
    }
}

/// The object references on the requested classes, in request order.
pub open spec fn seed_refs(classes: Seq<(Seq<char>, ClassView)>, names: Seq<Seq<char>>) -> Seq<
    Seq<char>,
>
    decreases names.len(),
{
    if names.len() == 0 {
        Seq::<Seq<char>>::empty()
    } else {
        seed_refs(classes, names.drop_last()) + (match table_get(classes, names.last()) {
            Some(c) => refs_of(c.attributes),
            None => Seq::<Seq<char>>::empty(),
        })
    }
}

/// The object references of the object a name resolves to.
pub open spec fn succs(objects: Seq<(Seq<char>, ObjectView)>, orig: Seq<char>) -> Seq<Seq<char>> {
    match lookup_object_view(objects, orig) {
        Some(o) => refs_of(o.attributes),
        None => Seq::<Seq<char>>::empty(),
    }
}

/// A chain of reference hops: it starts at a reference on a requested
/// class, and each next name is referenced by the object the previous
/// name resolves to.
pub open spec fn is_ref_chain(sv: SchemaView, names: Seq<Seq<char>>, p: Seq<Seq<char>>) -> bool {
    &&& p.len() > 0
    &&& seed_refs(sv.classes, names).contains(p[0])
    &&& forall|i: int|
        0 <= i < p.len() - 1 ==> succs(sv.objects, #[trigger] p[i]).contains(p[i + 1])
}

/// A name reachable by reference hops from the requested classes.
pub open spec fn reachable_orig(sv: SchemaView, names: Seq<Seq<char>>, orig: Seq<char>) -> bool {
    exists|p: Seq<Seq<char>>| is_ref_chain(sv, names, p) && p.last() == orig
}

/// Membership in the needed-object set: the sanitized form of some
/// reachable reference.
pub open spec fn in_needed_closure(sv: SchemaView, names: Seq<Seq<char>>, can: Seq<char>) -> bool {
    exists|orig: Seq<char>| reachable_orig(sv, names, orig) && canon_of(orig) == can
}

pub open spec fn all_object_refs(objects: Seq<(Seq<char>, ObjectView)>) -> Seq<Seq<char>>
    decreases objects.len(),
{
    if objects.len() == 0 {
        Seq::<Seq<char>>::empty()
    } else {
        all_object_refs(objects.drop_last()) + refs_of(objects.last().1.attributes)
    }
}

/// Every object reference a run can encounter.
pub open spec fn all_refs(sv: SchemaView, names: Seq<Seq<char>>) -> Seq<Seq<char>> {
    seed_refs(sv.classes, names) + all_object_refs(sv.objects)
}

/// No two distinct reference names sanitize to the same base name. Under
/// this hypothesis membership in the needed set is exactly reachability;
/// with a collision, whichever name is discovered first is the one
/// expanded, and objects behind the other may be missed.
pub open spec fn no_canon_collision(sv: SchemaView, names: Seq<Seq<char>>) -> bool {
    forall|o1: Seq<char>, o2: Seq<char>|
        all_refs(sv, names).contains(o1) && all_refs(sv, names).contains(o2) && canon_of(o1)
            == canon_of(o2) ==> o1 == o2
}

/// What the needed-object set satisfies: sorted, sound for reachability,
/// and complete when names do not collide.
pub open spec fn closure_post(sv: SchemaView, names: Seq<Seq<char>>, needed: Seq<Seq<char>>) -> bool {
    &&& strictly_sorted(needed)
    &&& forall|c: Seq<char>| #[trigger] needed.contains(c) ==> in_needed_closure(sv, names, c)
    &&& no_canon_collision(sv, names) ==> forall|c: Seq<char>|
        in_needed_closure(sv, names, c) ==> #[trigger] needed.contains(c)
}

proof fn lemma_contains_concat_l<A>(a: Seq<A>, b: Seq<A>, x: A)
    requires
        a.contains(x),
    ensures
        (a + b).contains(x),
{
    let i = choose|i: int| 0 <= i < a.len() && a[i] == x;
    assert((a + b)[i] == x);
}

proof fn lemma_contains_concat_r<A>(a: Seq<A>, b: Seq<A>, x: A)
    requires
        b.contains(x),
    ensures
        (a + b).contains(x),
{
    let i = choose|i: int| 0 <= i < b.len() && b[i] == x;
    assert((a + b)[a.len() + i] == x);
}

proof fn lemma_contains_concat_split<A>(a: Seq<A>, b: Seq<A>, x: A)
    requires
        (a + b).contains(x),
    ensures
        a.contains(x) || b.contains(x),
{
    let i = choose|i: int| 0 <= i < (a + b).len() && (a + b)[i] == x;
    if i < a.len() {
        assert(a[i] == x);
    } else {
        assert(b[i - a.len()] == x);
    }
}

proof fn lemma_strictly_sorted_nodup(s: Seq<Seq<char>>)
    requires
        strictly_sorted(s),
    ensures
        s.no_duplicates(),
{
    assert forall|i: int, j: int|
        0 <= i < s.len() && 0 <= j < s.len() && i != j implies s[i] != s[j] by {
        if i < j {
            if s[i] == s[j] {
                strutil::lemma_lex_lt_irrefl(s[i]);
            }
        } else {
            if s[i] == s[j] {
                strutil::lemma_lex_lt_irrefl(s[j]);
            }
        }
    }
}

/// A duplicate-free list of sanitized names drawn from `base` cannot be
/// longer than `base`.
proof fn lemma_canon_image_card(s: Seq<Seq<char>>, base: Seq<Seq<char>>)
    requires
        strictly_sorted(s),
        forall|i: int|
            0 <= i < s.len() ==> exists|j: int|
                0 <= j < base.len() && canon_of(base[j]) == #[trigger] s[i],
    ensures
        s.len() <= base.len(),
{
    broadcast use vstd::seq_lib::seq_to_set_is_finite;

    lemma_strictly_sorted_nodup(s);
    let img = base.map_values(|t: Seq<char>| canon_of(t));
    assert forall|c: Seq<char>| s.to_set().contains(c) implies img.to_set().contains(c) by {
        let i = choose|i: int| 0 <= i < s.len() && s[i] == c;
        let j = choose|j: int| 0 <= j < base.len() && canon_of(base[j]) == s[i];
        assert(img[j] == c);
        assert(img.contains(c));
    }
    s.unique_seq_to_set();
    img.lemma_cardinality_of_set();
    assert(s.to_set() <= img.to_set());
    vstd::set_lib::lemma_len_subset(s.to_set(), img.to_set());
}

proof fn lemma_refs_of_member(attrs: Seq<(Seq<char>, AttributeView)>, j: int, t: Seq<char>)
    requires
        0 <= j < attrs.len(),
        attrs[j].1.object_type == Some(t),
    ensures
        refs_of(attrs).contains(t),
    decreases attrs.len(),
{
    if j == attrs.len() - 1 {
        let r0 = refs_of(attrs.drop_last());
        assert(refs_of(attrs) == r0 + seq![t]);
        assert((r0 + seq![t])[r0.len() as int] == t);
    } else {
        assert(attrs.drop_last()[j] == attrs[j]);
        lemma_refs_of_member(attrs.drop_last(), j, t);
        match attrs.last().1.object_type {
            Some(u) => {
                lemma_contains_concat_l(refs_of(attrs.drop_last()), seq![u], t);
            },
            None => {
                lemma_contains_concat_l(
                    refs_of(attrs.drop_last()),
                    Seq::<Seq<char>>::empty(),
                    t,
                );
            },
        }
    }
}

proof fn lemma_seed_refs_include(
    classes: Seq<(Seq<char>, ClassView)>,
    names: Seq<Seq<char>>,
    k: int,
    t: Seq<char>,
)
    requires
        0 <= k < names.len(),
        table_get(classes, names[k]) matches Some(c) && refs_of(c.attributes).contains(t),
    ensures
        seed_refs(classes, names).contains(t),
    decreases names.len(),
{
    let rest = match table_get(classes, names.last()) {
        Some(c) => refs_of(c.attributes),
        None => Seq::<Seq<char>>::empty(),
    };
    if k == names.len() - 1 {
        lemma_contains_concat_r(seed_refs(classes, names.drop_last()), rest, t);
    } else {
        assert(names.drop_last()[k] == names[k]);
        lemma_seed_refs_include(classes, names.drop_last(), k, t);
        lemma_contains_concat_l(seed_refs(classes, names.drop_last()), rest, t);
    }
}

proof fn lemma_table_get_member<V>(s: Seq<(Seq<char>, V)>, k: Seq<char>)
    requires
        table_get(s, k) is Some,
    ensures
        exists|i: int| 0 <= i < s.len() && (#[trigger] s[i]).1 == table_get(s, k)->0,
    decreases s.len(),
{
    if s.len() > 0 {
        if s[0].0 == k {
            assert(s[0].1 == table_get(s, k)->0);
        } else {
            lemma_table_get_member(s.drop_first(), k);
            let i = choose|i: int|
                0 <= i < s.drop_first().len() && (#[trigger] s.drop_first()[i]).1 == table_get(
                    s.drop_first(),
                    k,
                )->0;
            assert(s[i + 1].1 == table_get(s, k)->0);
        }
    }
}

proof fn lemma_scan_member(objs: Seq<(Seq<char>, ObjectView)>, can: Seq<char>)
    requires
        scan_by_canon(objs, can) is Some,
    ensures
        exists|i: int| 0 <= i < objs.len() && (#[trigger] objs[i]).1 == scan_by_canon(objs, can)->0,
    decreases objs.len(),
{
    if objs.len() > 0 {
        if canon_of(objs[0].1.name) == can {
            assert(objs[0].1 == scan_by_canon(objs, can)->0);
        } else {
            lemma_scan_member(objs.drop_first(), can);
            let i = choose|i: int|
                0 <= i < objs.drop_first().len() && (#[trigger] objs.drop_first()[i]).1
                    == scan_by_canon(objs.drop_first(), can)->0;
            assert(objs[i + 1].1 == scan_by_canon(objs, can)->0);
        }
    }
}

proof fn lemma_lookup_member(objs: Seq<(Seq<char>, ObjectView)>, name: Seq<char>)
    requires
        lookup_object_view(objs, name) is Some,
    ensures
        exists|i: int|
            0 <= i < objs.len() && (#[trigger] objs[i]).1 == lookup_object_view(objs, name)->0,
{
    if table_has(objs, name) {
        lemma_table_get_member(objs, name);
    } else if table_has(objs, canon_of(name)) {
        lemma_table_get_member(objs, canon_of(name));
    } else {
        lemma_scan_member(objs, canon_of(name));
    }
}

proof fn lemma_obj_refs_in_all(objs: Seq<(Seq<char>, ObjectView)>, idx: int, t: Seq<char>)
    requires
        0 <= idx < objs.len(),
        refs_of(objs[idx].1.attributes).contains(t),
    ensures
        all_object_refs(objs).contains(t),
    decreases objs.len(),
{
    if idx == objs.len() - 1 {
        lemma_contains_concat_r(
            all_object_refs(objs.drop_last()),
            refs_of(objs.last().1.attributes),
            t,
        );
    } else {
        assert(objs.drop_last()[idx] == objs[idx]);
        lemma_obj_refs_in_all(objs.drop_last(), idx, t);
        lemma_contains_concat_l(
            all_object_refs(objs.drop_last()),
            refs_of(objs.last().1.attributes),
            t,
        );
    }
}

proof fn lemma_succs_in_all_refs(sv: SchemaView, names: Seq<Seq<char>>, x: Seq<char>, t: Seq<char>)
    requires
        succs(sv.objects, x).contains(t),
    ensures
        all_refs(sv, names).contains(t),
{
    lemma_lookup_member(sv.objects, x);
    let o = lookup_object_view(sv.objects, x)->0;
    let i = choose|i: int| 0 <= i < sv.objects.len() && (#[trigger] sv.objects[i]).1 == o;
    lemma_obj_refs_in_all(sv.objects, i, t);
    lemma_contains_concat_r(seed_refs(sv.classes, names), all_object_refs(sv.objects), t);
}

proof fn lemma_chain_elem_in_all_refs(sv: SchemaView, names: Seq<Seq<char>>, p: Seq<Seq<char>>, k: int)
    requires
        is_ref_chain(sv, names, p),
        0 <= k < p.len(),
    ensures
        all_refs(sv, names).contains(p[k]),
    decreases k,
{
    if k == 0 {
        lemma_contains_concat_l(seed_refs(sv.classes, names), all_object_refs(sv.objects), p[0]);
    } else {
        assert(succs(sv.objects, p[k - 1]).contains(p[k]));
        lemma_succs_in_all_refs(sv, names, p[k - 1], p[k]);
    }
}

/// The worklist invariant: the needed set is sorted, pairs off with the
/// worklist of discovered names, and each discovered name is reachable,
/// drawn from the run's references, and contributes a fresh base name.
pub open spec fn closure_inv(
    sv: SchemaView,
    names: Seq<Seq<char>>,
    ndv: Seq<Seq<char>>,
    ogv: Seq<Seq<char>>,
) -> bool {
    &&& strictly_sorted(ndv)
    &&& ndv.len() == ogv.len()
    &&& ogv.len() <= all_refs(sv, names).len()
    &&& forall|j: int| 0 <= j < ogv.len() ==> ndv.contains(canon_of(#[trigger] ogv[j]))
    &&& forall|j1: int, j2: int|
        0 <= j1 < j2 < ogv.len() ==> canon_of(#[trigger] ogv[j1]) != canon_of(#[trigger] ogv[j2])
    &&& forall|i: int|
        0 <= i < ndv.len() ==> exists|j: int|
            0 <= j < all_refs(sv, names).len() && canon_of(all_refs(sv, names)[j]) == #[trigger] ndv[i]
    &&& forall|j: int| 0 <= j < ogv.len() ==> reachable_orig(sv, names, #[trigger] ogv[j])
    &&& forall|j: int| 0 <= j < ogv.len() ==> all_refs(sv, names).contains(#[trigger] ogv[j])
}

/// Since base names pair off one-to-one with needed entries, every needed
/// entry is the base name of some discovered name.
proof fn lemma_canon_surjective(ndv: Seq<Seq<char>>, ogv: Seq<Seq<char>>)
    requires
        strictly_sorted(ndv),
        ndv.len() == ogv.len(),
        forall|j: int| 0 <= j < ogv.len() ==> ndv.contains(canon_of(#[trigger] ogv[j])),
        forall|j1: int, j2: int|
            0 <= j1 < j2 < ogv.len() ==> canon_of(#[trigger] ogv[j1]) != canon_of(
                #[trigger] ogv[j2],
            ),
    ensures
        forall|c: Seq<char>|
            #[trigger] ndv.contains(c) ==> exists|j: int| 0 <= j < ogv.len() && canon_of(ogv[j]) == c,
{
    broadcast use vstd::seq_lib::seq_to_set_is_finite;

    lemma_strictly_sorted_nodup(ndv);
    let cimg = ogv.map_values(|t: Seq<char>| canon_of(t));
    assert(cimg.no_duplicates()) by {
        assert forall|i: int, j: int|
            0 <= i < cimg.len() && 0 <= j < cimg.len() && i != j implies cimg[i] != cimg[j] by {
            if i < j {
                assert(canon_of(ogv[i]) != canon_of(ogv[j]));
            } else {
                assert(canon_of(ogv[j]) != canon_of(ogv[i]));
            }
        }
    }
    cimg.unique_seq_to_set();
    ndv.unique_seq_to_set();
    assert(cimg.to_set().subset_of(ndv.to_set())) by {
        assert forall|c: Seq<char>| cimg.to_set().contains(c) implies ndv.to_set().contains(c) by {
            let i = choose|i: int| 0 <= i < cimg.len() && cimg[i] == c;
            assert(ndv.contains(canon_of(ogv[i])));
        }
    }
    vstd::set_lib::lemma_subset_equality(cimg.to_set(), ndv.to_set());
    assert forall|c: Seq<char>| #[trigger] ndv.contains(c) implies exists|j: int|
        0 <= j < ogv.len() && canon_of(ogv[j]) == c by {
        assert(ndv.to_set().contains(c));
        assert(cimg.to_set().contains(c));
        assert(cimg.contains(c));
        let j = choose|j: int| 0 <= j < cimg.len() && cimg[j] == c;
        assert(canon_of(ogv[j]) == c);
    }
}

/// Record one discovered reference: its sanitized form joins the needed
/// set, and a newly seen name joins the worklist.
#[verifier::loop_isolation(false)]
#[verifier::rlimit(60)]
fn discover(
    needed: &mut Vec<String>,
    origs: &mut Vec<String>,
    ot: &String,
    Ghost(sv): Ghost<SchemaView>,
    Ghost(names): Ghost<Seq<Seq<char>>>,
)
    requires
        closure_inv(sv, names, strutil::dv(old(needed)@), strutil::dv(old(origs)@)),
        reachable_orig(sv, names, ot@),
        all_refs(sv, names).contains(ot@),
    ensures
        closure_inv(sv, names, strutil::dv(final(needed)@), strutil::dv(final(origs)@)),
        forall|c: Seq<char>|
            #[trigger] strutil::dv(final(needed)@).contains(c) <==> strutil::dv(
                old(needed)@,
            ).contains(c) || c == canon_of(ot@),
        old(origs)@.len() <= final(origs)@.len(),
        forall|j: int| 0 <= j < old(origs)@.len() ==> final(origs)@[j] == old(origs)@[j],
{
    let ghost nd0 = strutil::dv(needed@);
    let ghost og0 = strutil::dv(origs@);
    proof {
        strutil::lemma_sorted_set_insert_props(nd0, canon_of(ot@));
    }
    let can = type_map::sanitize_object_name(ot.as_str());
    let added = strutil::set_insert(needed, can);
    if added {
        origs.push(ot.clone());
        proof {
            let nd1 = strutil::dv(needed@);
            let og1 = strutil::dv(origs@);
            assert(og1 =~= og0 + seq![ot@]);
            assert(nd1.len() == nd0.len() + 1);
            assert forall|j: int| 0 <= j < og1.len() implies nd1.contains(
                canon_of(#[trigger] og1[j]),
            ) by {
                if j < og0.len() {
                    assert(nd0.contains(canon_of(og0[j])));
                } else {
                    assert(og1[j] == ot@);
                }
            }
            // newly added, so its base name is distinct from every earlier one
            assert(!nd0.contains(canon_of(ot@)));
            assert forall|j1: int, j2: int| 0 <= j1 < j2 < og1.len() implies canon_of(
                #[trigger] og1[j1],
            ) != canon_of(#[trigger] og1[j2]) by {
                if j2 == og0.len() {
                    assert(og1[j2] == ot@);
                    assert(nd0.contains(canon_of(og0[j1])));
                } else {
                    assert(og1[j1] == og0[j1] && og1[j2] == og0[j2]);
                }
            }
            assert forall|i: int| 0 <= i < nd1.len() implies exists|j: int|
                0 <= j < all_refs(sv, names).len() && canon_of(all_refs(sv, names)[j])
                    == #[trigger] nd1[i] by {
                assert(nd1.contains(nd1[i]));
                if nd0.contains(nd1[i]) {
                    let i0 = choose|i0: int| 0 <= i0 < nd0.len() && nd0[i0] == nd1[i];
                    assert(nd0[i0] == nd1[i]);
                } else {
                    assert(nd1[i] == canon_of(ot@));
                    let k = choose|k: int|
                        0 <= k < all_refs(sv, names).len() && all_refs(sv, names)[k] == ot@;
                    assert(canon_of(all_refs(sv, names)[k]) == nd1[i]);
                }
            }
            lemma_canon_image_card(nd1, all_refs(sv, names));
        }
    } else {
        proof {
            assert(strutil::dv(needed@) == nd0);
        }
    }
}


/// Every reference in `rs` has its sanitized form in `ndv`.
pub open spec fn canons_in(ndv: Seq<Seq<char>>, rs: Seq<Seq<char>>) -> bool {
    forall|t: Seq<char>| #[trigger] rs.contains(t) ==> ndv.contains(canon_of(t))
}

proof fn lemma_chain_in(
    sv: SchemaView,
    names: Seq<Seq<char>>,
    ndv: Seq<Seq<char>>,
    ogv: Seq<Seq<char>>,
    p: Seq<Seq<char>>,
)
    requires
        is_ref_chain(sv, names, p),
        no_canon_collision(sv, names),
        canons_in(ndv, seed_refs(sv.classes, names)),
        forall|c: Seq<char>|
            #[trigger] ndv.contains(c) ==> exists|j: int| 0 <= j < ogv.len() && canon_of(ogv[j]) == c,
        forall|j: int| 0 <= j < ogv.len() ==> all_refs(sv, names).contains(#[trigger] ogv[j]),
        forall|j: int| 0 <= j < ogv.len() ==> canons_in(ndv, succs(sv.objects, #[trigger] ogv[j])),
    ensures
        ndv.contains(canon_of(p.last())),
    decreases p.len(),
{
    if p.len() == 1 {
        assert(seed_refs(sv.classes, names).contains(p[0]));
        assert(ndv.contains(canon_of(p[0])));
    } else {
        let p0 = p.drop_last();
        assert(is_ref_chain(sv, names, p0)) by {
            assert(p0[0] == p[0]);
            assert(forall|i: int|
                0 <= i < p0.len() - 1 ==> succs(sv.objects, #[trigger] p0[i]).contains(p0[i + 1]))
                by {
                assert(forall|i: int| 0 <= i < p0.len() ==> p0[i] == p[i]);
            }
        }
        lemma_chain_in(sv, names, ndv, ogv, p0);
        lemma_chain_elem_in_all_refs(sv, names, p, p.len() - 2);
        assert(p0.last() == p[p.len() - 2]);
        let c0 = canon_of(p0.last());
        let j = choose|j: int| 0 <= j < ogv.len() && canon_of(ogv[j]) == c0;
        assert(all_refs(sv, names).contains(ogv[j]));
        assert(all_refs(sv, names).contains(p0.last()));
        assert(ogv[j] == p0.last());
        assert(succs(sv.objects, p[p.len() - 2]).contains(p.last())) by {
            assert(succs(sv.objects, p[p.len() - 2]).contains(p[p.len() - 1]));
        }
        assert(canons_in(ndv, succs(sv.objects, ogv[j])));
        assert(ndv.contains(canon_of(p.last())));
    }
}



/// Record every reference of one attribute table, where `reach_from`
/// justifies reachability: either the table belongs to the requested
/// class at `names[src_idx]` (then `via` is `None`), or to the object a
/// reachable name `via` resolves to.
#[verifier::loop_isolation(false)]
#[verifier::rlimit(100)]
fn discover_attr_refs(
    needed: &mut Vec<String>,
    origs: &mut Vec<String>,
    attrs: &Vec<(String, OcsfAttribute)>,
    Ghost(sv): Ghost<SchemaView>,
    Ghost(names): Ghost<Seq<Seq<char>>>,
    Ghost(src_idx): Ghost<int>,
    Ghost(via): Ghost<Option<Seq<char>>>,
)
    requires
        closure_inv(sv, names, strutil::dv(old(needed)@), strutil::dv(old(origs)@)),
        match via {
            None => 0 <= src_idx < names.len() && (table_get(sv.classes, names[src_idx]) matches
                Some(c) && c.attributes == entries_view(attrs@)),
            Some(orig) => reachable_orig(sv, names, orig) && (lookup_object_view(
                sv.objects,
                orig,
            ) matches Some(o) && o.attributes == entries_view(attrs@)),
        },
    ensures
        closure_inv(sv, names, strutil::dv(final(needed)@), strutil::dv(final(origs)@)),
        canons_in(strutil::dv(final(needed)@), refs_of(entries_view(attrs@))),
        forall|c: Seq<char>|
            strutil::dv(old(needed)@).contains(c) ==> strutil::dv(final(needed)@).contains(c),
        old(origs)@.len() <= final(origs)@.len(),
        forall|j: int| 0 <= j < old(origs)@.len() ==> final(origs)@[j] == old(origs)@[j],
{
    let ghost av = entries_view(attrs@);
    let ghost nd_start = strutil::dv(needed@);
    let ghost og_start = origs@;
    let mut aj: usize = 0;
    proof {
        assert(refs_of(av.take(0)) =~= Seq::<Seq<char>>::empty());
    }
    while aj < attrs.len()
        invariant
            aj <= attrs.len(),
            closure_inv(sv, names, strutil::dv(needed@), strutil::dv(origs@)),
            canons_in(strutil::dv(needed@), refs_of(av.take(aj as int))),
            forall|c: Seq<char>| nd_start.contains(c) ==> strutil::dv(needed@).contains(c),
            og_start.len() <= origs@.len(),
            forall|j: int| 0 <= j < og_start.len() ==> origs@[j] == og_start[j],
        decreases attrs.len() - aj,
    {
        proof {
            assert(av.take(aj + 1 as int).drop_last() =~= av.take(aj as int));
            assert(av.take(aj + 1 as int).last() == av[aj as int]);
            let ghost ae = attrs@[aj as int];
            assert(av[aj as int] == (ae.0@, ae.1@));
        }
        let ghost nd_before = strutil::dv(needed@);
        if let Some(ot) = &attrs[aj].1.object_type {
            proof {
                assert(av[aj as int].1.object_type == Some(ot@));
                lemma_refs_of_member(av, aj as int, ot@);
                match via {
                    None => {
                        lemma_seed_refs_include(sv.classes, names, src_idx, ot@);
                        lemma_contains_concat_l(
                            seed_refs(sv.classes, names),
                            all_object_refs(sv.objects),
                            ot@,
                        );
                        let p = seq![ot@];
                        assert(p[0] == ot@);
                        assert(is_ref_chain(sv, names, p));
                        assert(p.last() == ot@);
                        assert(reachable_orig(sv, names, ot@));
                    },
                    Some(orig) => {
                        assert(succs(sv.objects, orig).contains(ot@));
                        lemma_succs_in_all_refs(sv, names, orig, ot@);
                        let p = choose|p: Seq<Seq<char>>|
                            is_ref_chain(sv, names, p) && p.last() == orig;
                        let p2 = p.push(ot@);
                        assert(is_ref_chain(sv, names, p2)) by {
                            assert(p2[0] == p[0]);
                            assert forall|k: int| 0 <= k < p2.len() - 1 implies succs(
                                sv.objects,
                                #[trigger] p2[k],
                            ).contains(p2[k + 1]) by {
                                if k < p.len() - 1 {
                                    assert(p2[k] == p[k]);
                                    assert(p2[k + 1] == p[k + 1]);
                                } else {
                                    assert(p2[k] == p.last());
                                    assert(p2[k + 1] == ot@);
                                }
                            }
                        }
                        assert(p2.last() == ot@);
                        assert(reachable_orig(sv, names, ot@));
                    },
                }
            }
            discover(needed, origs, ot, Ghost(sv), Ghost(names));
            proof {
                assert forall|t: Seq<char>| #[trigger] refs_of(av.take(aj + 1 as int)).contains(
                    t,
                ) implies strutil::dv(needed@).contains(canon_of(t)) by {
                    lemma_contains_concat_split(refs_of(av.take(aj as int)), seq![ot@], t);
                    if refs_of(av.take(aj as int)).contains(t) {
                        assert(nd_before.contains(canon_of(t)));
                    } else {
                        assert(t == ot@);
                    }
                }
            }
        } else {
            proof {
                assert(av[aj as int].1.object_type is None);
                assert(refs_of(av.take(aj + 1 as int)) =~= refs_of(av.take(aj as int)) + Seq::<
                    Seq<char>,
                >::empty());
                assert forall|t: Seq<char>| #[trigger] refs_of(av.take(aj + 1 as int)).contains(
                    t,
                ) implies strutil::dv(needed@).contains(canon_of(t)) by {
                    lemma_contains_concat_split(
                        refs_of(av.take(aj as int)),
                        Seq::<Seq<char>>::empty(),
                        t,
                    );
                }
            }
        }
        aj = aj + 1;
    }
    proof {
        assert(av.take(attrs@.len() as int) =~= av);
    }
}



#[verifier::loop_isolation(false)]
#[verifier::rlimit(100)]
fn seed_graph(
    schema: &OcsfSchema,
    class_names: &Vec<String>,
    needed: &mut Vec<String>,
    origs: &mut Vec<String>,
)
    requires
        old(needed)@.len() == 0,
        old(origs)@.len() == 0,
    ensures
        closure_inv(
            schema@,
            strutil::dv(class_names@),
            strutil::dv(final(needed)@),
            strutil::dv(final(origs)@),
        ),
        canons_in(
            strutil::dv(final(needed)@),
            seed_refs(schema@.classes, strutil::dv(class_names@)),
        ),
{
    let ghost sv = schema@;
    let ghost names = strutil::dv(class_names@);
    proof {
        assert(strutil::dv(needed@) =~= Seq::<Seq<char>>::empty());
        assert(strutil::dv(origs@) =~= Seq::<Seq<char>>::empty());
        assert(names.take(0) =~= Seq::<Seq<char>>::empty());
    }
    let mut ni: usize = 0;
    while ni < class_names.len()
        invariant
            ni <= class_names.len(),
            closure_inv(sv, names, strutil::dv(needed@), strutil::dv(origs@)),
            canons_in(strutil::dv(needed@), seed_refs(sv.classes, names.take(ni as int))),
        decreases class_names.len() - ni,
    {
        proof {
            assert(names.take(ni + 1 as int).drop_last() =~= names.take(ni as int));
            assert(names.take(ni + 1 as int).last() == names[ni as int]);
            assert(names[ni as int] == class_names@[ni as int]@);
        }
        match crate::schema::entry_find(&schema.classes, class_names[ni].as_str()) {
            Some(ci) => {
                let cls = &schema.classes[ci].1;
                proof {
                    assert(table_get(sv.classes, names[ni as int]) == Some(cls@));
                }
                discover_attr_refs(
                    needed,
                    origs,
                    &cls.attributes,
                    Ghost(sv),
                    Ghost(names),
                    Ghost(ni as int),
                    Ghost(None),
                );
                proof {
                    assert forall|t: Seq<char>| #[trigger] seed_refs(
                        sv.classes,
                        names.take(ni + 1 as int),
                    ).contains(t) implies strutil::dv(needed@).contains(canon_of(t)) by {
                        lemma_contains_concat_split(
                            seed_refs(sv.classes, names.take(ni as int)),
                            refs_of(cls@.attributes),
                            t,
                        );
                    }
                }
            },
            None => {
                proof {
                    assert(seed_refs(sv.classes, names.take(ni + 1 as int)) =~= seed_refs(
                        sv.classes,
                        names.take(ni as int),
                    ) + Seq::<Seq<char>>::empty());
                    assert forall|t: Seq<char>| #[trigger] seed_refs(
                        sv.classes,
                        names.take(ni + 1 as int),
                    ).contains(t) implies strutil::dv(needed@).contains(canon_of(t)) by {
                        lemma_contains_concat_split(
                            seed_refs(sv.classes, names.take(ni as int)),
                            Seq::<Seq<char>>::empty(),
                            t,
                        );
                    }
                }
            },
        }
        ni = ni + 1;
    }
    proof {
        assert(names.take(class_names@.len() as int) =~= names);
    }
}

/// The needed set covers the references of the object `orig` resolves
/// to. Kept opaque so outer quantifiers stay cheap.
#[verifier::opaque]
pub open spec fn succs_covered(sv: SchemaView, ndv: Seq<Seq<char>>, orig: Seq<char>) -> bool {
    canons_in(ndv, succs(sv.objects, orig))
}

proof fn lemma_succs_covered_mono(
    sv: SchemaView,
    nd1: Seq<Seq<char>>,
    nd2: Seq<Seq<char>>,
    orig: Seq<char>,
)
    requires
        succs_covered(sv, nd1, orig),
        forall|c: Seq<char>| nd1.contains(c) ==> nd2.contains(c),
    ensures
        succs_covered(sv, nd2, orig),
{
    reveal(succs_covered);
    assert forall|t: Seq<char>| #[trigger] succs(sv.objects, orig).contains(t) implies nd2.contains(
        canon_of(t),
    ) by {
        assert(nd1.contains(canon_of(t)));
    }
}

/// Process one worklist entry: record every reference of the object it
/// resolves to.
#[verifier::loop_isolation(false)]
#[verifier::rlimit(100)]
fn expand_one(
    schema: &OcsfSchema,
    needed: &mut Vec<String>,
    origs: &mut Vec<String>,
    i: usize,
    Ghost(names): Ghost<Seq<Seq<char>>>,
)
    requires
        closure_inv(schema@, names, strutil::dv(old(needed)@), strutil::dv(old(origs)@)),
        i < old(origs)@.len(),
    ensures
        closure_inv(schema@, names, strutil::dv(final(needed)@), strutil::dv(final(origs)@)),
        succs_covered(schema@, strutil::dv(final(needed)@), strutil::dv(final(origs)@)[i as int]),
        forall|c: Seq<char>|
            strutil::dv(old(needed)@).contains(c) ==> strutil::dv(final(needed)@).contains(c),
        old(origs)@.len() <= final(origs)@.len(),
        forall|j: int| 0 <= j < old(origs)@.len() ==> final(origs)@[j] == old(origs)@[j],
{
    let ghost sv = schema@;
    let orig = origs[i].clone();
    proof {
        assert(orig@ == strutil::dv(origs@)[i as int]);
        assert(reachable_orig(sv, names, orig@));
    }
    match lookup_object(schema, orig.as_str()) {
        Some(obj) => {
            proof {
                assert(lookup_object_view(sv.objects, orig@) == Some(obj@));
                assert(succs(sv.objects, orig@) == refs_of(obj@.attributes));
            }
            discover_attr_refs(
                needed,
                origs,
                &obj.attributes,
                Ghost(sv),
                Ghost(names),
                Ghost(0),
                Ghost(Some(orig@)),
            );
            proof {
                reveal(succs_covered);
            }
        },
        None => {
            proof {
                reveal(succs_covered);
                assert(succs(sv.objects, orig@) =~= Seq::<Seq<char>>::empty());
            }
        },
    }
}

#[verifier::rlimit(100)]
fn expand_graph(schema: &OcsfSchema, needed: &mut Vec<String>, origs: &mut Vec<String>, Ghost(
    names,
): Ghost<Seq<Seq<char>>>)
    requires
        closure_inv(schema@, names, strutil::dv(old(needed)@), strutil::dv(old(origs)@)),
        canons_in(strutil::dv(old(needed)@), seed_refs(schema@.classes, names)),
    ensures
        closure_inv(schema@, names, strutil::dv(final(needed)@), strutil::dv(final(origs)@)),
        canons_in(strutil::dv(final(needed)@), seed_refs(schema@.classes, names)),
        forall|j: int|
            0 <= j < final(origs)@.len() ==> succs_covered(
                schema@,
                strutil::dv(final(needed)@),
                #[trigger] strutil::dv(final(origs)@)[j],
            ),
{
    let ghost sv = schema@;
    let mut i: usize = 0;
    while i < origs.len()
        invariant
            sv == schema@,
            i <= origs.len(),
            closure_inv(sv, names, strutil::dv(needed@), strutil::dv(origs@)),
            canons_in(strutil::dv(needed@), seed_refs(sv.classes, names)),
            forall|j: int|
                0 <= j < i ==> succs_covered(
                    sv,
                    strutil::dv(needed@),
                    #[trigger] strutil::dv(origs@)[j],
                ),
        decreases all_refs(sv, names).len() - i,
    {
        let ghost nd_before = strutil::dv(needed@);
        let ghost og_before = origs@;
        expand_one(schema, needed, origs, i, Ghost(names));
        proof {
            assert forall|j: int| 0 <= j < i + 1 implies succs_covered(
                sv,
                strutil::dv(needed@),
                #[trigger] strutil::dv(origs@)[j],
            ) by {
                if j < i {
                    assert(origs@[j] == og_before[j]);
                    assert(strutil::dv(origs@)[j] == og_before[j]@);
                    assert(strutil::dv(og_before)[j] == og_before[j]@);
                    assert(succs_covered(sv, nd_before, strutil::dv(og_before)[j]));
                    lemma_succs_covered_mono(
                        sv,
                        nd_before,
                        strutil::dv(needed@),
                        og_before[j]@,
                    );
                }
            }
        }
        i = i + 1;
    }
}

proof fn lemma_closure_complete(
    sv: SchemaView,
    names: Seq<Seq<char>>,
    ndv: Seq<Seq<char>>,
    ogv: Seq<Seq<char>>,
)
    requires
        no_canon_collision(sv, names),
        canons_in(ndv, seed_refs(sv.classes, names)),
        forall|c: Seq<char>|
            #[trigger] ndv.contains(c) ==> exists|j: int| 0 <= j < ogv.len() && canon_of(ogv[j]) == c,
        forall|j: int| 0 <= j < ogv.len() ==> all_refs(sv, names).contains(#[trigger] ogv[j]),
        forall|j: int| 0 <= j < ogv.len() ==> canons_in(ndv, succs(sv.objects, #[trigger] ogv[j])),
    ensures
        forall|c: Seq<char>| in_needed_closure(sv, names, c) ==> #[trigger] ndv.contains(c),
{
    assert forall|c: Seq<char>| in_needed_closure(sv, names, c) implies #[trigger] ndv.contains(
        c,
    ) by {
        let orig = choose|orig: Seq<char>| reachable_orig(sv, names, orig) && canon_of(orig) == c;
        let p = choose|p: Seq<Seq<char>>| is_ref_chain(sv, names, p) && p.last() == orig;
        lemma_chain_in(sv, names, ndv, ogv, p);
    }
}





/// Compute the transitive closure of all objects referenced by the
/// requested event classes, as a sorted set of sanitized object names.
///
/// The result is sound: every member is the sanitized form of a name
/// reachable by reference hops from the requested classes. When no two
/// distinct reference names sanitize to the same base name, it is also
/// complete: it holds exactly the reachable names' sanitized forms. With
/// such a collision, only the first-discovered of the colliding names is
/// expanded, as the lookup tolerance cannot tell them apart.
#[verifier::rlimit(100)]
pub fn resolve_object_graph(schema: &OcsfSchema, class_names: &Vec<String>) -> (r: Vec<String>)
    ensures
        closure_post(schema@, strutil::dv(class_names@), strutil::dv(r@)),
{
    let ghost sv = schema@;
    let ghost names = strutil::dv(class_names@);
    let mut needed: Vec<String> = Vec::new();
    let mut origs: Vec<String> = Vec::new();
    seed_graph(schema, class_names, &mut needed, &mut origs);
    expand_graph(schema, &mut needed, &mut origs, Ghost(names));
    proof {
        let ndv = strutil::dv(needed@);
        let ogv = strutil::dv(origs@);
        lemma_canon_surjective(ndv, ogv);
        assert forall|c: Seq<char>| #[trigger] ndv.contains(c) implies in_needed_closure(
            sv,
            names,
            c,
        ) by {
            let j = choose|j: int| 0 <= j < ogv.len() && canon_of(ogv[j]) == c;
            assert(reachable_orig(sv, names, ogv[j]));
        }
        if no_canon_collision(sv, names) {
            assert forall|j: int| 0 <= j < ogv.len() implies canons_in(
                ndv,
                succs(sv.objects, #[trigger] ogv[j]),
            ) by {
                reveal(succs_covered);
                assert(succs_covered(sv, ndv, ogv[j]));
            }
            lemma_closure_complete(sv, names, ndv, ogv);
        }
    }
    needed
}

} // verus!

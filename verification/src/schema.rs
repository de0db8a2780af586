//! The OCSF schema model: classes, objects, attributes, and enum value
//! tables. Name-keyed tables are sorted vectors of entries, kept in strict
//! lexicographic key order — the iteration order is part of the output
//! contract, so it is the type's invariant rather than a container detail.

use vstd::prelude::*;

use crate::strutil;
use crate::strutil::{lex_lt, strictly_sorted};

verus! {

/// A single value in an OCSF enum definition.
#[derive(Debug, Clone)]
pub struct OcsfEnumValue {
    /// Human-readable enum variant name (for example `Logon`).
    pub caption: String,
    /// Variant description.
    pub description: Option<String>,
}

pub ghost struct EnumValueView {
    pub caption: Seq<char>,
    pub description: Option<Seq<char>>,
}

impl View for OcsfEnumValue {
    type V = EnumValueView;

    open spec fn view(&self) -> EnumValueView {
        EnumValueView {
            caption: self.caption@,
            description: match self.description {
                Some(ref d) => Some(d@),
                None => None,
            },
        }
    }
}

/// Deprecation metadata for an attribute.
#[derive(Debug, Clone)]
pub struct OcsfDeprecated {
    /// Deprecation message.
    pub message: String,
    /// OCSF version since which the attribute is deprecated.
    pub since: String,
}

pub ghost struct DeprecatedView {
    pub message: Seq<char>,
    pub since: Seq<char>,
}

impl View for OcsfDeprecated {
    type V = DeprecatedView;

    open spec fn view(&self) -> DeprecatedView {
        DeprecatedView { message: self.message@, since: self.since@ }
    }
}

/// A single attribute in an event class or object.
#[derive(Debug, Clone)]
pub struct OcsfAttribute {
    /// OCSF type tag (for example `string_t`, `integer_t`, `object_t`).
    pub type_tag: String,
    /// Human-readable name (for example `Activity ID`).
    pub caption: String,
    /// Attribute description.
    pub description: String,
    /// Requirement level: `required`, `recommended`, or `optional`.
    pub requirement: Option<String>,
    /// Whether this attribute is an array (proto `repeated`).
    pub is_array: bool,
    /// For `object_t` attributes, the referenced object type name, possibly
    /// extension-prefixed (for example `win/win_service`).
    pub object_type: Option<String>,
    /// Attribute group.
    pub group: Option<String>,
    /// Sibling attribute name.
    pub sibling: Option<String>,
    /// Profile that contributed this attribute.
    pub profile: Option<String>,
    /// Enum value definitions, keyed by value string, in key order.
    pub enum_values: Option<Vec<(String, OcsfEnumValue)>>,
    /// Deprecation information; present means the attribute is excluded
    /// from all output.
    pub deprecated: Option<OcsfDeprecated>,
}

pub ghost struct AttributeView {
    pub type_tag: Seq<char>,
    pub caption: Seq<char>,
    pub description: Seq<char>,
    pub requirement: Option<Seq<char>>,
    pub is_array: bool,
    pub object_type: Option<Seq<char>>,
    pub group: Option<Seq<char>>,
    pub sibling: Option<Seq<char>>,
    pub profile: Option<Seq<char>>,
    pub enum_values: Option<Seq<(Seq<char>, EnumValueView)>>,
    pub deprecated: Option<DeprecatedView>,
}

pub open spec fn opt_str_view(o: Option<String>) -> Option<Seq<char>> {
    match o {
        Some(s) => Some(s@),
        None => None,
    }
}

/// The view of a key-to-value entry list.
pub open spec fn entries_view<T: View>(s: Seq<(String, T)>) -> Seq<(Seq<char>, T::V)> {
    s.map_values(|p: (String, T)| (p.0@, p.1@))
}

/// The keys of an entry list, in stored order.
pub open spec fn table_keys<V>(s: Seq<(Seq<char>, V)>) -> Seq<Seq<char>> {
    s.map_values(|p: (Seq<char>, V)| p.0)
}

/// The first value stored under a key.
pub open spec fn table_get<V>(s: Seq<(Seq<char>, V)>, k: Seq<char>) -> Option<V>
    decreases s.len(),
{
    if s.len() == 0 {
        None
    } else if s[0].0 == k {
        Some(s[0].1)
    } else {
        table_get(s.drop_first(), k)
    }
}

pub open spec fn table_has<V>(s: Seq<(Seq<char>, V)>, k: Seq<char>) -> bool {
    table_get(s, k) is Some
}

impl View for OcsfAttribute {
    type V = AttributeView;

    open spec fn view(&self) -> AttributeView {
        AttributeView {
            type_tag: self.type_tag@,
            caption: self.caption@,
            description: self.description@,
            requirement: opt_str_view(self.requirement),
            is_array: self.is_array,
            object_type: opt_str_view(self.object_type),
            group: opt_str_view(self.group),
            sibling: opt_str_view(self.sibling),
            profile: opt_str_view(self.profile),
            enum_values: match self.enum_values {
                Some(ref t) => Some(entries_view(t@)),
                None => None,
            },
            deprecated: match self.deprecated {
                Some(ref d) => Some(d@),
                None => None,
            },
        }
    }
}

/// An OCSF event class.
#[derive(Debug, Clone)]
pub struct OcsfClass {
    /// Snake_case class name (for example `authentication`).
    pub name: String,
    /// Unique class identifier.
    pub uid: u32,
    /// Human-readable class name.
    pub caption: String,
    /// Class description.
    pub description: String,
    /// Parent class name.
    pub extends: String,
    /// Category name (for example `iam`).
    pub category: String,
    /// Category UID.
    pub category_uid: u32,
    /// Category display name.
    pub category_name: String,
    /// Active profiles.
    pub profiles: Vec<String>,
    /// Attributes keyed by name, in strict name order.
    pub attributes: Vec<(String, OcsfAttribute)>,
}

pub ghost struct ClassView {
    pub name: Seq<char>,
    pub uid: u32,
    pub caption: Seq<char>,
    pub description: Seq<char>,
    pub extends: Seq<char>,
    pub category: Seq<char>,
    pub category_uid: u32,
    pub category_name: Seq<char>,
    pub profiles: Seq<Seq<char>>,
    pub attributes: Seq<(Seq<char>, AttributeView)>,
}

impl View for OcsfClass {
    type V = ClassView;

    open spec fn view(&self) -> ClassView {
        ClassView {
            name: self.name@,
            uid: self.uid,
            caption: self.caption@,
            description: self.description@,
            extends: self.extends@,
            category: self.category@,
            category_uid: self.category_uid,
            category_name: self.category_name@,
            profiles: strutil::dv(self.profiles@),
            attributes: entries_view(self.attributes@),
        }
    }
}

/// An OCSF object type.
#[derive(Debug, Clone)]
pub struct OcsfObject {
    /// Snake_case object name (for example `network_endpoint`).
    pub name: String,
    /// Human-readable name.
    pub caption: String,
    /// Object description.
    pub description: String,
    /// Parent object name.
    pub extends: Option<String>,
    /// Attributes keyed by name, in strict name order.
    pub attributes: Vec<(String, OcsfAttribute)>,
    /// Observable type number.
    pub observable: Option<u32>,
}

pub ghost struct ObjectView {
    pub name: Seq<char>,
    pub caption: Seq<char>,
    pub description: Seq<char>,
    pub extends: Option<Seq<char>>,
    pub attributes: Seq<(Seq<char>, AttributeView)>,
    pub observable: Option<u32>,
}

impl View for OcsfObject {
    type V = ObjectView;

    open spec fn view(&self) -> ObjectView {
        ObjectView {
            name: self.name@,
            caption: self.caption@,
            description: self.description@,
            extends: opt_str_view(self.extends),
            attributes: entries_view(self.attributes@),
            observable: self.observable,
        }
    }
}

/// The full OCSF schema export: all event classes and objects for one
/// OCSF version, with inherited attributes already merged.
#[derive(Debug, Clone)]
pub struct OcsfSchema {
    /// OCSF version string (for example `1.7.0`).
    pub version: String,
    /// All event classes keyed by name, in strict name order.
    pub classes: Vec<(String, OcsfClass)>,
    /// All object types keyed by name, in strict name order.
    pub objects: Vec<(String, OcsfObject)>,
}

pub ghost struct SchemaView {
    pub version: Seq<char>,
    pub classes: Seq<(Seq<char>, ClassView)>,
    pub objects: Seq<(Seq<char>, ObjectView)>,
}

impl View for OcsfSchema {
    type V = SchemaView;

    open spec fn view(&self) -> SchemaView {
        SchemaView {
            version: self.version@,
            classes: entries_view(self.classes@),
            objects: entries_view(self.objects@),
        }
    }
}

/// Sorted-map insertion into an entry list: the entry lands in key order,
/// and an equal key has its value replaced.
pub open spec fn sorted_entry_insert<V>(s: Seq<(Seq<char>, V)>, k: Seq<char>, v: V) -> Seq<
    (Seq<char>, V),
>
    decreases s.len(),
{
    if s.len() == 0 {
        seq![(k, v)]
    } else if lex_lt(s.last().0, k) {
        s + seq![(k, v)]
    } else if s.last().0 == k {
        s.drop_last() + seq![(k, v)]
    } else {
        sorted_entry_insert(s.drop_last(), k, v) + seq![s.last()]
    }
}

/// Insert an entry into a key-sorted entry list, keeping it sorted and
/// replacing the value when the key is already present.
pub fn entry_insert<T: View>(v: &mut Vec<(String, T)>, key: String, val: T)
    ensures
        entries_view(final(v)@) == sorted_entry_insert(entries_view(old(v)@), key@, val@),
{
    let ghost s = entries_view(v@);
    let mut i: usize = v.len();
    proof {
        assert(s.take(s.len() as int) =~= s);
        assert(s.skip(s.len() as int) =~= Seq::<(Seq<char>, T::V)>::empty());
        assert(sorted_entry_insert(s, key@, val@) + Seq::<(Seq<char>, T::V)>::empty()
            =~= sorted_entry_insert(s, key@, val@));
    }
    while i > 0 && strutil::string_lt(&key, &v[i - 1].0)
        invariant
            i <= v.len(),
            entries_view(v@) == s,
            sorted_entry_insert(s, key@, val@) == sorted_entry_insert(s.take(i as int), key@, val@)
                + s.skip(i as int),
        decreases i,
    {
        proof {
            let t = s.take(i as int);
            assert(t.last() == s[i - 1]);
            assert(s[i - 1].0 == v@[i - 1].0@);
            assert(lex_lt(key@, t.last().0));
            if lex_lt(t.last().0, key@) {
                strutil::lemma_lex_lt_asym(key@, t.last().0);
                assert(false);
            }
            if t.last().0 == key@ {
                strutil::lemma_lex_lt_irrefl(key@);
                assert(false);
            }
            assert(t.drop_last() =~= s.take(i - 1 as int));
            assert(sorted_entry_insert(s.take(i - 1 as int), key@, val@) + seq![s[i - 1]] + s.skip(
                i as int,
            ) =~= sorted_entry_insert(s.take(i - 1 as int), key@, val@) + s.skip(i - 1 as int));
        }
        i = i - 1;
    }
    if i > 0 && key.eq(&v[i - 1].0) {
        proof {
            let t = s.take(i as int);
            assert(t.last() == s[i - 1]);
            assert(s[i - 1].0 == v@[i - 1].0@);
            assert(t.last().0 == key@);
            strutil::lemma_lex_lt_irrefl(key@);
            assert(sorted_entry_insert(t, key@, val@) == t.drop_last() + seq![(key@, val@)]);
            assert(t.drop_last() =~= s.take(i - 1 as int));
        }
        let ghost old_v = v@;
        v.remove(i - 1);
        v.insert(i - 1, (key, val));
        proof {
            assert(entries_view(v@) =~= entries_view(old_v).take(i - 1 as int) + seq![
                (v@[i - 1].0@, v@[i - 1].1@),
            ] + entries_view(old_v).skip(i as int));
            assert(entries_view(old_v).take(i - 1 as int) =~= s.take(i - 1 as int));
            assert(entries_view(old_v).skip(i as int) =~= s.skip(i as int));
            assert(entries_view(v@) =~= sorted_entry_insert(s.take(i as int), key@, val@) + s.skip(
                i as int,
            ));
        }
    } else {
        proof {
            let t = s.take(i as int);
            if i > 0 {
                assert(t.last() == s[i - 1]);
                assert(s[i - 1].0 == v@[i - 1].0@);
                assert(!lex_lt(key@, t.last().0));
                assert(t.last().0 != key@);
                strutil::lemma_lex_lt_connex(t.last().0, key@);
                assert(lex_lt(t.last().0, key@));
                assert(sorted_entry_insert(t, key@, val@) == t + seq![(key@, val@)]);
            } else {
                assert(t =~= Seq::<(Seq<char>, T::V)>::empty());
                assert(sorted_entry_insert(t, key@, val@) =~= seq![(key@, val@)]);
                assert(t + seq![(key@, val@)] =~= seq![(key@, val@)]);
            }
        }
        let ghost old_v = v@;
        v.insert(i, (key, val));
        proof {
            assert(entries_view(v@) =~= entries_view(old_v).take(i as int) + seq![
                (v@[i as int].0@, v@[i as int].1@),
            ] + entries_view(old_v).skip(i as int));
            assert(entries_view(old_v).take(i as int) =~= s.take(i as int));
            assert(entries_view(old_v).skip(i as int) =~= s.skip(i as int));
            assert(entries_view(v@) =~= s.take(i as int) + seq![(key@, val@)] + s.skip(i as int));
        }
    }
}

/// Find the position of a key in an entry list.
pub fn entry_find<T: View>(v: &Vec<(String, T)>, key: &str) -> (r: Option<usize>)
    ensures
        r matches Some(i) ==> i < v@.len() && v@[i as int].0@ == key@ && table_get(
            entries_view(v@),
            key@,
        ) == Some(v@[i as int].1@),
        r is None ==> table_get(entries_view(v@), key@) is None,
{
    let ghost s = entries_view(v@);
    let mut i: usize = 0;
    proof {
        assert(s.skip(0) =~= s);
    }
    while i < v.len()
        invariant
            i <= v.len(),
            entries_view(v@) == s,
            table_get(s, key@) == table_get(s.skip(i as int), key@),
        decreases v.len() - i,
    {
        proof {
            assert(s.skip(i as int)[0] == s[i as int]);
            assert(s.skip(i as int).drop_first() =~= s.skip(i + 1 as int));
        }
        if crate::text::str_eq(v[i].0.as_str(), key) {
            return Some(i);
        }
        i = i + 1;
    }
    proof {
        assert(s.skip(v@.len() as int) =~= Seq::<(Seq<char>, T::V)>::empty());
    }
    None
}

/// A well-formed enum table: keys in strict lexicographic order.
pub open spec fn attr_wf(a: AttributeView) -> bool {
    match a.enum_values {
        Some(t) => strictly_sorted(table_keys(t)),
        None => true,
    }
}

pub open spec fn attrs_wf(attrs: Seq<(Seq<char>, AttributeView)>) -> bool {
    &&& strictly_sorted(table_keys(attrs))
    &&& forall|i: int| 0 <= i < attrs.len() ==> attr_wf(#[trigger] attrs[i].1)
}

pub open spec fn class_wf(c: ClassView) -> bool {
    attrs_wf(c.attributes)
}

pub open spec fn object_wf(o: ObjectView) -> bool {
    attrs_wf(o.attributes)
}

/// A well-formed schema: every name-keyed table in strict key order.
pub open spec fn schema_wf(s: SchemaView) -> bool {
    &&& strictly_sorted(table_keys(s.classes))
    &&& strictly_sorted(table_keys(s.objects))
    &&& forall|i: int| 0 <= i < s.classes.len() ==> class_wf(#[trigger] s.classes[i].1)
    &&& forall|i: int| 0 <= i < s.objects.len() ==> object_wf(#[trigger] s.objects[i].1)
}

proof fn lemma_sorted_from_adjacent_pair(s: Seq<Seq<char>>, i: int, j: int)
    requires
        forall|k: int| 0 <= k < s.len() - 1 ==> lex_lt(#[trigger] s[k], s[k + 1]),
        0 <= i < j < s.len(),
    ensures
        lex_lt(s[i], s[j]),
    decreases j - i,
{
    if j > i + 1 {
        lemma_sorted_from_adjacent_pair(s, i, j - 1);
        strutil::lemma_lex_lt_trans(s[i], s[j - 1], s[j]);
    }
}

/// Check that the keys of an entry list are in strict lexicographic order.
pub fn keys_sorted_check<T: View>(v: &Vec<(String, T)>) -> (r: bool)
    ensures
        r == strictly_sorted(table_keys(entries_view(v@))),
{
    let ghost ks = table_keys(entries_view(v@));
    let mut i: usize = 1;
    while i < v.len()
        invariant
            1 <= i,
            i <= v.len() || v.len() == 0,
            ks == table_keys(entries_view(v@)),
            ks.len() == v@.len(),
            forall|k: int| 0 <= k < i - 1 && k < ks.len() - 1 ==> lex_lt(#[trigger] ks[k], ks[k + 1]),
        decreases v.len() - i,
    {
        proof {
            assert(ks[i - 1] == v@[i - 1].0@);
            assert(ks[i as int] == v@[i as int].0@);
        }
        if !strutil::string_lt(&v[i - 1].0, &v[i].0) {
            proof {
                assert(!lex_lt(ks[i - 1], ks[i as int]));
            }
            return false;
        }
        i = i + 1;
    }
    proof {
        assert forall|a: int, b: int| 0 <= a < b < ks.len() implies lex_lt(ks[a], ks[b]) by {
            lemma_sorted_from_adjacent_pair(ks, a, b);
        }
    }
    true
}

/// Check that an attribute's enum table, if any, is well formed.
pub fn attr_wf_check(a: &OcsfAttribute) -> (r: bool)
    ensures
        r == attr_wf(a@),
{
    match &a.enum_values {
        Some(t) => keys_sorted_check(t),
        None => true,
    }
}

fn attr_table_wf_check(attrs: &Vec<(String, OcsfAttribute)>) -> (r: bool)
    ensures
        r == attrs_wf(entries_view(attrs@)),
{
    if !keys_sorted_check(attrs) {
        return false;
    }
    let ghost s = entries_view(attrs@);
    let mut i: usize = 0;
    while i < attrs.len()
        invariant
            i <= attrs.len(),
            s == entries_view(attrs@),
            strictly_sorted(table_keys(s)),
            forall|k: int| 0 <= k < i ==> attr_wf(#[trigger] s[k].1),
        decreases attrs.len() - i,
    {
        if !attr_wf_check(&attrs[i].1) {
            proof {
                assert(s[i as int].1 == attrs@[i as int].1@);
            }
            return false;
        }
        proof {
            assert(s[i as int].1 == attrs@[i as int].1@);
        }
        i = i + 1;
    }
    true
}

/// Check that a class's attribute table is well formed.
pub fn class_wf_check(c: &OcsfClass) -> (r: bool)
    ensures
        r == class_wf(c@),
{
    attr_table_wf_check(&c.attributes)
}

/// Check that an object's attribute table is well formed.
pub fn object_wf_check(o: &OcsfObject) -> (r: bool)
    ensures
        r == object_wf(o@),
{
    attr_table_wf_check(&o.attributes)
}

/// Check that every table of a schema is in strict key order. The loader
/// hands over tables in this order; this checks it at the boundary.
pub fn schema_wf_check(s: &OcsfSchema) -> (r: bool)
    ensures
        r == schema_wf(s@),
{
    if !keys_sorted_check(&s.classes) {
        return false;
    }
    if !keys_sorted_check(&s.objects) {
        return false;
    }
    let ghost sv = s@;
    let mut i: usize = 0;
    while i < s.classes.len()
        invariant
            i <= s.classes.len(),
            sv == s@,
            forall|k: int| 0 <= k < i ==> class_wf(#[trigger] sv.classes[k].1),
        decreases s.classes.len() - i,
    {
        if !class_wf_check(&s.classes[i].1) {
            proof {
                assert(sv.classes[i as int].1 == s.classes@[i as int].1@);
            }
            return false;
        }
        proof {
            assert(sv.classes[i as int].1 == s.classes@[i as int].1@);
        }
        i = i + 1;
    }
    let mut j: usize = 0;
    while j < s.objects.len()
        invariant
            j <= s.objects.len(),
            sv == s@,
            forall|k: int| 0 <= k < j ==> object_wf(#[trigger] sv.objects[k].1),
        decreases s.objects.len() - j,
    {
        if !object_wf_check(&s.objects[j].1) {
            proof {
                assert(sv.objects[j as int].1 == s.objects@[j as int].1@);
            }
            return false;
        }
        proof {
            assert(sv.objects[j as int].1 == s.objects@[j as int].1@);
        }
        j = j + 1;
    }
    true
}

} // verus!

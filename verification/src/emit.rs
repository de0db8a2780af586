//! Byte-exact emission of proto text: enum definitions, message fields,
//! event and object files, and the enum value map.

use vstd::prelude::*;

use crate::schema::{
    entries_view, table_get, AttributeView, ClassView, EnumValueView, ObjectView, OcsfAttribute,
    OcsfClass, OcsfEnumValue, OcsfObject, OcsfSchema, SchemaView,
};
use crate::strutil;
use crate::type_map;
use crate::type_map::{pascal_of, str_upper};

use crate::codegen::{
    event_enum_ns, field_stats_after, field_type_spec, is_integer_enum, is_integer_table,
    lookup_object, lookup_object_view, object_enum_ns, resolve_field_type, sat_add, sat_inc,
    GenerationStats,
};

verus! {

// ── Enum definition emission ───────────────────────────────────────────

/// The (value, member identifier) pairs of a value table, in table order,
/// keeping only keys that parse.
pub open spec fn enum_entries(t: Seq<(Seq<char>, EnumValueView)>) -> Seq<(int, Seq<char>)>
    decreases t.len(),
{
    if t.len() == 0 {
        Seq::<(int, Seq<char>)>::empty()
    } else {
        enum_entries(t.drop_last()) + (if strutil::is_i32_numeral(t.last().0) {
            seq![
                (
                    strutil::i32_numeral_val(t.last().0),
                    type_map::variant_of(t.last().1.caption),
                ),
            ]
        } else {
            Seq::<(int, Seq<char>)>::empty()
        })
    }
}

/// Stable insertion: the entry lands after every entry with a key not
/// above its own.
pub open spec fn insert_by_key(s: Seq<(int, Seq<char>)>, e: (int, Seq<char>)) -> Seq<
    (int, Seq<char>),
>
    decreases s.len(),
{
    if s.len() == 0 {
        seq![e]
    } else if s.last().0 > e.0 {
        insert_by_key(s.drop_last(), e) + seq![s.last()]
    } else {
        s + seq![e]
    }
}

/// Stable sort by key, ascending.
pub open spec fn sort_entries(s: Seq<(int, Seq<char>)>) -> Seq<(int, Seq<char>)>
    decreases s.len(),
{
    if s.len() == 0 {
        Seq::<(int, Seq<char>)>::empty()
    } else {
        insert_by_key(sort_entries(s.drop_last()), s.last())
    }
}

/// The enum's entries, sorted ascending by value.
pub open spec fn sorted_enum_entries(t: Seq<(Seq<char>, EnumValueView)>) -> Seq<(int, Seq<char>)> {
    sort_entries(enum_entries(t))
}

pub open spec fn entries_have_zero(s: Seq<(int, Seq<char>)>) -> bool {
    exists|i: int| 0 <= i < s.len() && (#[trigger] s[i]).0 == 0
}

pub open spec fn enum_member_line(enum_name: Seq<char>, variant: Seq<char>, key: int) -> Seq<
    char,
> {
    "\t"@ + enum_name + "_"@ + variant + " = "@ + strutil::int_str(key) + ";\n"@
}

pub open spec fn enum_members_text(enum_name: Seq<char>, s: Seq<(int, Seq<char>)>) -> Seq<char>
    decreases s.len(),
{
    if s.len() == 0 {
        Seq::<char>::empty()
    } else {
        enum_members_text(enum_name, s.drop_last()) + enum_member_line(
            enum_name,
            s.last().1,
            s.last().0,
        )
    }
}

/// The full text of one proto enum definition. A sentinel `_UNSPECIFIED`
/// member with value 0 is synthesized exactly when the table defines no
/// zero value, since proto3 requires the first enum value to be zero.
pub open spec fn enum_def_text(enum_name: Seq<char>, t: Seq<(Seq<char>, EnumValueView)>) -> Seq<
    char,
> {
    let es = sorted_enum_entries(t);
    "\n"@ + "enum "@ + enum_name + " {\n"@ + (if !entries_have_zero(es) {
        "\t"@ + enum_name + "_UNSPECIFIED = 0;\n"@
    } else {
        Seq::<char>::empty()
    }) + enum_members_text(enum_name, es) + "}\n"@
}

pub open spec fn pairs_view(s: Seq<(i32, String)>) -> Seq<(int, Seq<char>)> {
    s.map_values(|p: (i32, String)| (p.0 as int, p.1@))
}

/// Append one proto enum definition to the output.
#[verifier::loop_isolation(false)]
#[verifier::rlimit(60)]
pub fn write_enum_definition(
    out: &mut String,
    enum_name: &str,
    enum_vals: &Vec<(String, OcsfEnumValue)>,
)
    ensures
        final(out)@ == old(out)@ + enum_def_text(enum_name@, entries_view(enum_vals@)),
{
    let ghost tv = entries_view(enum_vals@);
    // collect entries whose keys parse, sorted ascending by value
    let mut entries: Vec<(i32, String)> = Vec::new();
    let mut j: usize = 0;
    proof {
        assert(tv.take(0) =~= Seq::<(Seq<char>, EnumValueView)>::empty());
    }
    while j < enum_vals.len()
        invariant
            j <= enum_vals.len(),
            pairs_view(entries@) == sort_entries(enum_entries(tv.take(j as int))),
        decreases enum_vals.len() - j,
    {
        proof {
            assert(tv.take(j + 1 as int).drop_last() =~= tv.take(j as int));
            assert(tv.take(j + 1 as int).last() == tv[j as int]);
            assert(tv[j as int] == (enum_vals@[j as int].0@, enum_vals@[j as int].1@));
        }
        match strutil::parse_i32(enum_vals[j].0.as_str()) {
            Some(key) => {
                let variant = type_map::to_enum_variant_name(enum_vals[j].1.caption.as_str());
                let ghost sorted = pairs_view(entries@);
                let ghost e = (key as int, variant@);
                let mut p: usize = entries.len();
                proof {
                    assert(sorted.take(sorted.len() as int) =~= sorted);
                    assert(sorted.skip(sorted.len() as int) =~= Seq::<(int, Seq<char>)>::empty());
                    assert(insert_by_key(sorted, e) + Seq::<(int, Seq<char>)>::empty()
                        =~= insert_by_key(sorted, e));
                }
                while p > 0 && entries[p - 1].0 > key
                    invariant
                        p <= entries.len(),
                        pairs_view(entries@) == sorted,
                        insert_by_key(sorted, e) == insert_by_key(sorted.take(p as int), e)
                            + sorted.skip(p as int),
                    decreases p,
                {
                    proof {
                        let t = sorted.take(p as int);
                        assert(t.last() == sorted[p - 1]);
                        assert(sorted[p - 1] == (entries@[p - 1].0 as int, entries@[p - 1].1@));
                        assert(t.drop_last() =~= sorted.take(p - 1 as int));
                        assert(insert_by_key(sorted.take(p - 1 as int), e) + seq![sorted[p - 1]]
                            + sorted.skip(p as int) =~= insert_by_key(
                            sorted.take(p - 1 as int),
                            e,
                        ) + sorted.skip(p - 1 as int));
                    }
                    p = p - 1;
                }
                proof {
                    let t = sorted.take(p as int);
                    if p > 0 {
                        assert(t.last() == sorted[p - 1]);
                        assert(sorted[p - 1] == (entries@[p - 1].0 as int, entries@[p - 1].1@));
                        assert(!(t.last().0 > e.0));
                        assert(insert_by_key(t, e) == t + seq![e]);
                    } else {
                        assert(t =~= Seq::<(int, Seq<char>)>::empty());
                        assert(insert_by_key(t, e) =~= seq![e]);
                        assert(t + seq![e] =~= seq![e]);
                    }
                    assert(insert_by_key(sorted, e) =~= t + seq![e] + sorted.skip(p as int));
                }
                let ghost old_entries = entries@;
                entries.insert(p, (key, variant));
                proof {
                    assert(pairs_view(entries@) =~= pairs_view(old_entries).take(p as int) + seq![
                        (entries@[p as int].0 as int, entries@[p as int].1@),
                    ] + pairs_view(old_entries).skip(p as int));
                    assert(pairs_view(old_entries).take(p as int) =~= sorted.take(p as int));
                    assert(pairs_view(old_entries).skip(p as int) =~= sorted.skip(p as int));
                    assert(pairs_view(entries@) =~= insert_by_key(sorted, e));
                    assert(enum_entries(tv.take(j + 1 as int)) =~= enum_entries(tv.take(j as int))
                        + seq![e]);
                    assert(sort_entries(enum_entries(tv.take(j + 1 as int))) == insert_by_key(
                        sort_entries(enum_entries(tv.take(j as int))),
                        e,
                    )) by {
                        assert(enum_entries(tv.take(j + 1 as int)).drop_last() =~= enum_entries(
                            tv.take(j as int),
                        ));
                        assert(enum_entries(tv.take(j + 1 as int)).last() == e);
                    }
                }
            },
            None => {
                proof {
                    assert(enum_entries(tv.take(j + 1 as int)) =~= enum_entries(tv.take(j as int)));
                }
            },
        }
        j = j + 1;
    }
    proof {
        assert(tv.take(enum_vals@.len() as int) =~= tv);
    }
    let ghost es = sorted_enum_entries(tv);
    // detect a schema-defined zero value
    let mut has_zero: bool = false;
    let mut q: usize = 0;
    while q < entries.len()
        invariant
            q <= entries.len(),
            pairs_view(entries@) == es,
            has_zero == exists|i: int| 0 <= i < q && (#[trigger] es[i]).0 == 0,
        decreases entries.len() - q,
    {
        proof {
            assert(es[q as int] == (entries@[q as int].0 as int, entries@[q as int].1@));
        }
        if entries[q].0 == 0 {
            has_zero = true;
        }
        q = q + 1;
    }
    proof {
        assert(has_zero == entries_have_zero(es));
    }
    let ghost out0 = out@;
    out.append("\n");
    out.append("enum ");
    out.append(enum_name);
    out.append(" {\n");
    if !has_zero {
        // Proto3 requires the first enum value to be 0; synthesize one
        // when the table does not define it.
        out.append("\t");
        out.append(enum_name);
        out.append("_UNSPECIFIED = 0;\n");
    }
    let ghost head = out@;
    let mut k: usize = 0;
    proof {
        assert(es.take(0) =~= Seq::<(int, Seq<char>)>::empty());
        assert(head + enum_members_text(enum_name@, es.take(0)) =~= head);
    }
    while k < entries.len()
        invariant
            k <= entries.len(),
            pairs_view(entries@) == es,
            out@ == head + enum_members_text(enum_name@, es.take(k as int)),
        decreases entries.len() - k,
    {
        proof {
            assert(es[k as int] == (entries@[k as int].0 as int, entries@[k as int].1@));
            assert(es.take(k + 1 as int).drop_last() =~= es.take(k as int));
            assert(es.take(k + 1 as int).last() == es[k as int]);
        }
        out.append("\t");
        out.append(enum_name);
        out.append("_");
        out.append(entries[k].1.as_str());
        out.append(" = ");
        let ks = strutil::i64_to_string(entries[k].0 as i64);
        out.append(ks.as_str());
        out.append(";\n");
        proof {
            assert(out@ =~= head + enum_members_text(enum_name@, es.take(k + 1 as int)));
        }
        k = k + 1;
    }
    out.append("}\n");
    proof {
        assert(es.take(entries@.len() as int) =~= es);
        assert(out@ =~= out0 + enum_def_text(enum_name@, tv));
    }
}


// ── Message emission ───────────────────────────────────────────────────

/// How many fields a message gets: its non-deprecated attributes.
pub open spec fn emitted_count(attrs: Seq<(Seq<char>, AttributeView)>) -> nat
    decreases attrs.len(),
{
    if attrs.len() == 0 {
        0
    } else {
        emitted_count(attrs.drop_last()) + (if attrs.last().1.deprecated is Some {
            0nat
        } else {
            1nat
        })
    }
}

/// One field line of a message.
pub open spec fn field_line(
    attr_name: Seq<char>,
    attr: AttributeView,
    ftype: Seq<char>,
    num: nat,
) -> Seq<char> {
    "\t"@ + (if attr.is_array {
        "repeated "@
    } else {
        Seq::<char>::empty()
    }) + ftype + " "@ + attr_name + " = "@ + strutil::dec_str(num) + "; // Caption: "@
        + attr.caption + ";\n"@
}

/// The field lines of a message: attributes in stored (name) order,
/// deprecated ones skipped, numbered densely from 1 over emitted fields.
pub open spec fn fields_text(
    attrs: Seq<(Seq<char>, AttributeView)>,
    owner_upper: Seq<char>,
    enum_ns: Seq<char>,
    slug: Seq<char>,
    objects: Seq<(Seq<char>, ObjectView)>,
) -> Seq<char>
    decreases attrs.len(),
{
    if attrs.len() == 0 {
        Seq::<char>::empty()
    } else {
        let rest = fields_text(attrs.drop_last(), owner_upper, enum_ns, slug, objects);
        if attrs.last().1.deprecated is Some {
            rest
        } else {
            rest + field_line(
                attrs.last().0,
                attrs.last().1,
                field_type_spec(
                    attrs.last().1,
                    attrs.last().0,
                    owner_upper,
                    enum_ns,
                    slug,
                    objects,
                ),
                emitted_count(attrs.drop_last()) + 1,
            )
        }
    }
}

/// The statistics after emitting a message's fields.
pub open spec fn fields_stats(
    attrs: Seq<(Seq<char>, AttributeView)>,
    objects: Seq<(Seq<char>, ObjectView)>,
    stats: GenerationStats,
) -> GenerationStats
    decreases attrs.len(),
{
    if attrs.len() == 0 {
        stats
    } else {
        let s1 = fields_stats(attrs.drop_last(), objects, stats);
        if attrs.last().1.deprecated is Some {
            GenerationStats {
                deprecated_fields_skipped: sat_add(s1.deprecated_fields_skipped, 1),
                ..s1
            }
        } else {
            field_stats_after(s1, objects, attrs.last().1)
        }
    }
}

#[verifier::loop_isolation(false)]
#[verifier::rlimit(100)]
fn write_message_fields(
    out: &mut String,
    attrs: &Vec<(String, OcsfAttribute)>,
    owner_upper: &str,
    enum_ns: &str,
    version_slug: &str,
    objects: &Vec<(String, OcsfObject)>,
    stats: &mut GenerationStats,
)
    ensures
        final(out)@ == old(out)@ + fields_text(
            entries_view(attrs@),
            owner_upper@,
            enum_ns@,
            version_slug@,
            entries_view(objects@),
        ),
        *final(stats) == fields_stats(entries_view(attrs@), entries_view(objects@), *old(stats)),
{
    let ghost av = entries_view(attrs@);
    let ghost objs = entries_view(objects@);
    let ghost out0 = out@;
    let ghost st0 = *stats;
    let mut count: usize = 0;
    let mut j: usize = 0;
    proof {
        assert(av.take(0) =~= Seq::<(Seq<char>, AttributeView)>::empty());
        assert(out0 + fields_text(av.take(0), owner_upper@, enum_ns@, version_slug@, objs)
            =~= out0);
    }
    while j < attrs.len()
        invariant
            j <= attrs.len(),
            count == emitted_count(av.take(j as int)),
            count <= j,
            out@ == out0 + fields_text(av.take(j as int), owner_upper@, enum_ns@, version_slug@, objs),
            *stats == fields_stats(av.take(j as int), objs, st0),
        decreases attrs.len() - j,
    {
        proof {
            assert(av.take(j + 1 as int).drop_last() =~= av.take(j as int));
            assert(av.take(j + 1 as int).last() == av[j as int]);
            assert(av[j as int] == (attrs@[j as int].0@, attrs@[j as int].1@));
        }
        if attrs[j].1.deprecated.is_some() {
            stats.deprecated_fields_skipped = sat_inc(stats.deprecated_fields_skipped);
            proof {
                assert(av[j as int].1.deprecated is Some);
            }
        } else {
            proof {
                assert(av[j as int].1.deprecated is None);
            }
            let (repeated, ftype) = resolve_field_type(
                &attrs[j].1,
                attrs[j].0.as_str(),
                owner_upper,
                enum_ns,
                version_slug,
                objects,
                stats,
            );
            let num_str = strutil::u64_to_string((count + 1) as u64);
            let mut line = String::new();
            line.append("\t");
            if repeated {
                line.append("repeated ");
            }
            line.append(ftype.as_str());
            line.append(" ");
            line.append(attrs[j].0.as_str());
            line.append(" = ");
            line.append(num_str.as_str());
            line.append("; // Caption: ");
            line.append(attrs[j].1.caption.as_str());
            line.append(";\n");
            proof {
                assert(num_str@ == strutil::dec_str((count + 1) as nat));
                assert(line@ =~= field_line(av[j as int].0, av[j as int].1, ftype@, (count
                    + 1) as nat));
            }
            out.append(line.as_str());
            proof {
                let ft = fields_text(av.take(j + 1 as int), owner_upper@, enum_ns@, version_slug@, objs);
                assert(ft == fields_text(av.take(j as int), owner_upper@, enum_ns@, version_slug@, objs)
                    + field_line(
                    av[j as int].0,
                    av[j as int].1,
                    field_type_spec(
                        av[j as int].1,
                        av[j as int].0,
                        owner_upper@,
                        enum_ns@,
                        version_slug@,
                        objs,
                    ),
                    emitted_count(av.take(j as int)) + 1,
                ));
                assert(out@ =~= out0 + ft);
            }
            count = count + 1;
        }
        j = j + 1;
    }
    proof {
        assert(av.take(attrs@.len() as int) =~= av);
    }
}

/// The views of a list of borrowed classes.
pub open spec fn class_views(s: Seq<&OcsfClass>) -> Seq<ClassView> {
    s.map_values(|c: &OcsfClass| c@)
}

/// The header of an events proto file.
pub open spec fn events_header(slug: Seq<char>, category: Seq<char>) -> Seq<char> {
    "syntax = \"proto3\";\n"@ + "\n"@ + "package ocsf."@ + slug + ".events."@ + category
        + ";\n"@ + "\n"@ + "import \"ocsf/"@ + slug + "/events/"@ + category
        + "/enums/enums.proto\";\n"@ + "\n"@ + "import \"ocsf/"@ + slug
        + "/objects/objects.proto\";\n"@
}

/// One event class message.
pub open spec fn class_msg_text(
    cls: ClassView,
    category: Seq<char>,
    slug: Seq<char>,
    objects: Seq<(Seq<char>, ObjectView)>,
) -> Seq<char> {
    "\n"@ + "// Event: "@ + category + "\n"@ + "// Class UID: "@ + strutil::dec_str(
        cls.uid as nat,
    ) + "\n"@ + "message "@ + pascal_of(cls.name) + " {\n"@ + fields_text(
        cls.attributes,
        str_upper(cls.name),
        event_enum_ns(slug, category),
        slug,
        objects,
    ) + "}\n"@
}

pub open spec fn classes_msgs_text(
    classes: Seq<ClassView>,
    category: Seq<char>,
    slug: Seq<char>,
    objects: Seq<(Seq<char>, ObjectView)>,
) -> Seq<char>
    decreases classes.len(),
{
    if classes.len() == 0 {
        Seq::<char>::empty()
    } else {
        classes_msgs_text(classes.drop_last(), category, slug, objects) + class_msg_text(
            classes.last(),
            category,
            slug,
            objects,
        )
    }
}

/// The full text of one category's events proto file.
pub open spec fn events_file_text(
    classes: Seq<ClassView>,
    category: Seq<char>,
    slug: Seq<char>,
    objects: Seq<(Seq<char>, ObjectView)>,
) -> Seq<char> {
    events_header(slug, category) + classes_msgs_text(classes, category, slug, objects)
}

pub open spec fn classes_msgs_stats(
    classes: Seq<ClassView>,
    objects: Seq<(Seq<char>, ObjectView)>,
    stats: GenerationStats,
) -> GenerationStats
    decreases classes.len(),
{
    if classes.len() == 0 {
        stats
    } else {
        fields_stats(
            classes.last().attributes,
            objects,
            classes_msgs_stats(classes.drop_last(), objects, stats),
        )
    }
}

/// Generate one category's events proto file: one message per class, in
/// request order, fields in attribute-name order.
#[verifier::loop_isolation(false)]
#[verifier::rlimit(100)]
#[verifier::spinoff_prover]
pub fn generate_events_proto(
    version_slug: &str,
    category: &str,
    classes: &Vec<&OcsfClass>,
    objects: &Vec<(String, OcsfObject)>,
    stats: &mut GenerationStats,
) -> (r: String)
    ensures
        r@ == events_file_text(
            class_views(classes@),
            category@,
            version_slug@,
            entries_view(objects@),
        ),
        *final(stats) == classes_msgs_stats(
            class_views(classes@),
            entries_view(objects@),
            *old(stats),
        ),
{
    let ghost cvs = class_views(classes@);
    let ghost objs = entries_view(objects@);
    let ghost st0 = *stats;
    let mut out = String::new();
    out.append("syntax = \"proto3\";\n");
    out.append("\n");
    out.append("package ocsf.");
    out.append(version_slug);
    out.append(".events.");
    out.append(category);
    out.append(";\n");
    out.append("\n");
    out.append("import \"ocsf/");
    out.append(version_slug);
    out.append("/events/");
    out.append(category);
    out.append("/enums/enums.proto\";\n");
    out.append("\n");
    out.append("import \"ocsf/");
    out.append(version_slug);
    out.append("/objects/objects.proto\";\n");
    proof {
        assert(out@ =~= events_header(version_slug@, category@));
    }
    let ghost header = out@;
    let mut ns = String::new();
    ns.append("ocsf.");
    ns.append(version_slug);
    ns.append(".events.");
    ns.append(category);
    ns.append(".enums.");
    proof {
        assert(ns@ =~= event_enum_ns(version_slug@, category@));
    }
    let mut ci: usize = 0;
    proof {
        assert(cvs.take(0) =~= Seq::<ClassView>::empty());
        assert(header + classes_msgs_text(cvs.take(0), category@, version_slug@, objs) =~= header);
    }
    while ci < classes.len()
        invariant
            ci <= classes.len(),
            out@ == header + classes_msgs_text(cvs.take(ci as int), category@, version_slug@, objs),
            *stats == classes_msgs_stats(cvs.take(ci as int), objs, st0),
        decreases classes.len() - ci,
    {
        proof {
            assert(cvs.take(ci + 1 as int).drop_last() =~= cvs.take(ci as int));
            assert(cvs.take(ci + 1 as int).last() == cvs[ci as int]);
            assert(cvs[ci as int] == classes@[ci as int]@);
        }
        let cls: &OcsfClass = classes[ci];
        let class_upper = type_map::to_screaming_snake(cls.name.as_str());
        let pascal = type_map::to_pascal_case(cls.name.as_str());
        let uid_str = strutil::u64_to_string(cls.uid as u64);
        out.append("\n");
        out.append("// Event: ");
        out.append(category);
        out.append("\n");
        out.append("// Class UID: ");
        out.append(uid_str.as_str());
        out.append("\n");
        out.append("message ");
        out.append(pascal.as_str());
        out.append(" {\n");
        write_message_fields(
            &mut out,
            &cls.attributes,
            class_upper.as_str(),
            ns.as_str(),
            version_slug,
            objects,
            stats,
        );
        out.append("}\n");
        proof {
            assert(out@ =~= header + classes_msgs_text(
                cvs.take(ci + 1 as int),
                category@,
                version_slug@,
                objs,
            ));
        }
        ci = ci + 1;
    }
    proof {
        assert(cvs.take(classes@.len() as int) =~= cvs);
    }
    out
}

// ── Enum file emission ─────────────────────────────────────────────────

/// Whether an attribute yields a synthesized enum: not deprecated, with an
/// integer-keyed value table.
pub open spec fn attr_makes_enum(attr: AttributeView) -> bool {
    &&& attr.deprecated is None
    &&& attr.enum_values matches Some(t) && is_integer_table(t)
}

/// The synthesized enum type name for an owner and attribute.
pub open spec fn enum_type_name(owner_upper: Seq<char>, attr_name: Seq<char>) -> Seq<char> {
    owner_upper + "_"@ + str_upper(attr_name)
}

pub open spec fn attr_enum_table(attr: AttributeView) -> Seq<(Seq<char>, EnumValueView)> {
    match attr.enum_values {
        Some(t) => t,
        None => Seq::<(Seq<char>, EnumValueView)>::empty(),
    }
}

/// The enum definitions of one owner's attributes.
pub open spec fn attrs_enums_text(
    attrs: Seq<(Seq<char>, AttributeView)>,
    owner_upper: Seq<char>,
) -> Seq<char>
    decreases attrs.len(),
{
    if attrs.len() == 0 {
        Seq::<char>::empty()
    } else {
        attrs_enums_text(attrs.drop_last(), owner_upper) + (if attr_makes_enum(attrs.last().1) {
            enum_def_text(
                enum_type_name(owner_upper, attrs.last().0),
                attr_enum_table(attrs.last().1),
            )
        } else {
            Seq::<char>::empty()
        })
    }
}

pub open spec fn attrs_enums_stats(
    attrs: Seq<(Seq<char>, AttributeView)>,
    stats: GenerationStats,
) -> GenerationStats
    decreases attrs.len(),
{
    if attrs.len() == 0 {
        stats
    } else {
        let s1 = attrs_enums_stats(attrs.drop_last(), stats);
        if attr_makes_enum(attrs.last().1) {
            GenerationStats { enums_generated: sat_add(s1.enums_generated, 1), ..s1 }
        } else {
            s1
        }
    }
}

#[verifier::loop_isolation(false)]
#[verifier::rlimit(60)]
fn write_attr_enums(
    out: &mut String,
    attrs: &Vec<(String, OcsfAttribute)>,
    owner_upper: &str,
    stats: &mut GenerationStats,
)
    ensures
        final(out)@ == old(out)@ + attrs_enums_text(entries_view(attrs@), owner_upper@),
        *final(stats) == attrs_enums_stats(entries_view(attrs@), *old(stats)),
{
    let ghost av = entries_view(attrs@);
    let ghost out0 = out@;
    let ghost st0 = *stats;
    let mut j: usize = 0;
    proof {
        assert(av.take(0) =~= Seq::<(Seq<char>, AttributeView)>::empty());
        assert(out0 + attrs_enums_text(av.take(0), owner_upper@) =~= out0);
    }
    while j < attrs.len()
        invariant
            j <= attrs.len(),
            out@ == out0 + attrs_enums_text(av.take(j as int), owner_upper@),
            *stats == attrs_enums_stats(av.take(j as int), st0),
        decreases attrs.len() - j,
    {
        proof {
            assert(av.take(j + 1 as int).drop_last() =~= av.take(j as int));
            assert(av.take(j + 1 as int).last() == av[j as int]);
            assert(av[j as int] == (attrs@[j as int].0@, attrs@[j as int].1@));
        }
        if attrs[j].1.deprecated.is_none() {
            if let Some(t) = &attrs[j].1.enum_values {
                if is_integer_enum(t) {
                    let attr_upper = type_map::to_screaming_snake(attrs[j].0.as_str());
                    let mut enum_name = String::new();
                    enum_name.append(owner_upper);
                    enum_name.append("_");
                    enum_name.append(attr_upper.as_str());
                    proof {
                        assert(enum_name@ =~= enum_type_name(owner_upper@, av[j as int].0));
                        assert(attr_makes_enum(av[j as int].1));
                        assert(attr_enum_table(av[j as int].1) == entries_view(t@));
                    }
                    write_enum_definition(out, enum_name.as_str(), t);
                    stats.enums_generated = sat_inc(stats.enums_generated);
                } else {
                    proof {
                        assert(!attr_makes_enum(av[j as int].1));
                    }
                }
            } else {
                proof {
                    assert(!attr_makes_enum(av[j as int].1));
                }
            }
        } else {
            proof {
                assert(!attr_makes_enum(av[j as int].1));
            }
        }
        j = j + 1;
    }
    proof {
        assert(av.take(attrs@.len() as int) =~= av);
    }
}

/// The header of a category's enums proto file.
pub open spec fn class_enums_header(slug: Seq<char>, category: Seq<char>) -> Seq<char> {
    "syntax = \"proto3\";\n"@ + "\n"@ + "package ocsf."@ + slug + ".events."@ + category
        + ".enums;\n"@
}

pub open spec fn classes_enums_text(
    classes: Seq<ClassView>,
    slug: Seq<char>,
) -> Seq<char>
    decreases classes.len(),
{
    if classes.len() == 0 {
        Seq::<char>::empty()
    } else {
        classes_enums_text(classes.drop_last(), slug) + attrs_enums_text(
            classes.last().attributes,
            str_upper(classes.last().name),
        )
    }
}

pub open spec fn class_enums_file_text(
    classes: Seq<ClassView>,
    category: Seq<char>,
    slug: Seq<char>,
) -> Seq<char> {
    class_enums_header(slug, category) + classes_enums_text(classes, slug)
}

pub open spec fn classes_enums_stats(
    classes: Seq<ClassView>,
    stats: GenerationStats,
) -> GenerationStats
    decreases classes.len(),
{
    if classes.len() == 0 {
        stats
    } else {
        attrs_enums_stats(
            classes.last().attributes,
            classes_enums_stats(classes.drop_last(), stats),
        )
    }
}

/// Generate one category's enums proto file: one enum per qualifying
/// (class, attribute) pair.
#[verifier::loop_isolation(false)]
pub fn generate_class_enums_proto(
    version_slug: &str,
    category: &str,
    classes: &Vec<&OcsfClass>,
    stats: &mut GenerationStats,
) -> (r: String)
    ensures
        r@ == class_enums_file_text(class_views(classes@), category@, version_slug@),
        *final(stats) == classes_enums_stats(class_views(classes@), *old(stats)),
{
    let ghost cvs = class_views(classes@);
    let ghost st0 = *stats;
    let mut out = String::new();
    out.append("syntax = \"proto3\";\n");
    out.append("\n");
    out.append("package ocsf.");
    out.append(version_slug);
    out.append(".events.");
    out.append(category);
    out.append(".enums;\n");
    proof {
        assert(out@ =~= class_enums_header(version_slug@, category@));
    }
    let ghost header = out@;
    let mut ci: usize = 0;
    proof {
        assert(cvs.take(0) =~= Seq::<ClassView>::empty());
        assert(header + classes_enums_text(cvs.take(0), version_slug@) =~= header);
    }
    while ci < classes.len()
        invariant
            ci <= classes.len(),
            out@ == header + classes_enums_text(cvs.take(ci as int), version_slug@),
            *stats == classes_enums_stats(cvs.take(ci as int), st0),
        decreases classes.len() - ci,
    {
        proof {
            assert(cvs.take(ci + 1 as int).drop_last() =~= cvs.take(ci as int));
            assert(cvs.take(ci + 1 as int).last() == cvs[ci as int]);
            assert(cvs[ci as int] == classes@[ci as int]@);
        }
        let cls: &OcsfClass = classes[ci];
        let class_upper = type_map::to_screaming_snake(cls.name.as_str());
        write_attr_enums(&mut out, &cls.attributes, class_upper.as_str(), stats);
        proof {
            assert(out@ =~= header + classes_enums_text(cvs.take(ci + 1 as int), version_slug@));
        }
        ci = ci + 1;
    }
    proof {
        assert(cvs.take(classes@.len() as int) =~= cvs);
    }
    out
}


// ── Object file emission ───────────────────────────────────────────────

pub open spec fn objects_header(slug: Seq<char>) -> Seq<char> {
    "syntax = \"proto3\";\n"@ + "\n"@ + "package ocsf."@ + slug + ".objects;\n"@ + "\n"@
        + "import \"ocsf/"@ + slug + "/objects/enums/enums.proto\";\n"@
}

/// One object message, named after the needed-set (sanitized) name.
pub open spec fn object_msg_text(
    name: Seq<char>,
    o: ObjectView,
    slug: Seq<char>,
    objects: Seq<(Seq<char>, ObjectView)>,
) -> Seq<char> {
    "\n"@ + "message "@ + pascal_of(name) + " {\n"@ + fields_text(
        o.attributes,
        str_upper(name),
        object_enum_ns(slug),
        slug,
        objects,
    ) + "}\n"@
}

/// The messages of the needed objects, in needed-set order; a name the
/// lookup cannot find is skipped.
pub open spec fn needed_msgs_text(
    objects: Seq<(Seq<char>, ObjectView)>,
    needed: Seq<Seq<char>>,
    slug: Seq<char>,
) -> Seq<char>
    decreases needed.len(),
{
    if needed.len() == 0 {
        Seq::<char>::empty()
    } else {
        needed_msgs_text(objects, needed.drop_last(), slug) + (match lookup_object_view(
            objects,
            needed.last(),
        ) {
            None => Seq::<char>::empty(),
            Some(o) => object_msg_text(needed.last(), o, slug, objects),
        })
    }
}

pub open spec fn needed_msgs_stats(
    objects: Seq<(Seq<char>, ObjectView)>,
    needed: Seq<Seq<char>>,
    stats: GenerationStats,
) -> GenerationStats
    decreases needed.len(),
{
    if needed.len() == 0 {
        stats
    } else {
        let s1 = needed_msgs_stats(objects, needed.drop_last(), stats);
        match lookup_object_view(objects, needed.last()) {
            None => s1,
            Some(o) => fields_stats(o.attributes, objects, s1),
        }
    }
}

pub open spec fn objects_file_text(
    objects: Seq<(Seq<char>, ObjectView)>,
    needed: Seq<Seq<char>>,
    slug: Seq<char>,
) -> Seq<char> {
    objects_header(slug) + needed_msgs_text(objects, needed, slug)
}

/// Generate the shared objects proto file: one message per object in the
/// needed set, in sorted order.
#[verifier::loop_isolation(false)]
#[verifier::rlimit(60)]
pub fn generate_objects_proto(
    version_slug: &str,
    schema: &OcsfSchema,
    needed_objects: &Vec<String>,
    stats: &mut GenerationStats,
) -> (r: String)
    ensures
        r@ == objects_file_text(schema@.objects, strutil::dv(needed_objects@), version_slug@),
        *final(stats) == needed_msgs_stats(
            schema@.objects,
            strutil::dv(needed_objects@),
            *old(stats),
        ),
{
    let ghost objs = schema@.objects;
    let ghost nd = strutil::dv(needed_objects@);
    let ghost st0 = *stats;
    let mut out = String::new();
    out.append("syntax = \"proto3\";\n");
    out.append("\n");
    out.append("package ocsf.");
    out.append(version_slug);
    out.append(".objects;\n");
    out.append("\n");
    out.append("import \"ocsf/");
    out.append(version_slug);
    out.append("/objects/enums/enums.proto\";\n");
    proof {
        assert(out@ =~= objects_header(version_slug@));
    }
    let ghost header = out@;
    let mut ns = String::new();
    ns.append("ocsf.");
    ns.append(version_slug);
    ns.append(".objects.enums.");
    proof {
        assert(ns@ =~= object_enum_ns(version_slug@));
    }
    let mut i: usize = 0;
    proof {
        assert(nd.take(0) =~= Seq::<Seq<char>>::empty());
        assert(header + needed_msgs_text(objs, nd.take(0), version_slug@) =~= header);
    }
    while i < needed_objects.len()
        invariant
            i <= needed_objects.len(),
            out@ == header + needed_msgs_text(objs, nd.take(i as int), version_slug@),
            *stats == needed_msgs_stats(objs, nd.take(i as int), st0),
        decreases needed_objects.len() - i,
    {
        proof {
            assert(nd.take(i + 1 as int).drop_last() =~= nd.take(i as int));
            assert(nd.take(i + 1 as int).last() == nd[i as int]);
            assert(nd[i as int] == needed_objects@[i as int]@);
        }
        match lookup_object(schema, needed_objects[i].as_str()) {
            None => {
                // the object is referenced but absent from the schema; its
                // message is simply not emitted
            },
            Some(obj) => {
                let obj_upper = type_map::to_screaming_snake(needed_objects[i].as_str());
                let pascal = type_map::to_pascal_case(needed_objects[i].as_str());
                out.append("\n");
                out.append("message ");
                out.append(pascal.as_str());
                out.append(" {\n");
                write_message_fields(
                    &mut out,
                    &obj.attributes,
                    obj_upper.as_str(),
                    ns.as_str(),
                    version_slug,
                    &schema.objects,
                    stats,
                );
                out.append("}\n");
            },
        }
        proof {
            assert(out@ =~= header + needed_msgs_text(objs, nd.take(i + 1 as int), version_slug@));
        }
        i = i + 1;
    }
    proof {
        assert(nd.take(needed_objects@.len() as int) =~= nd);
    }
    out
}

pub open spec fn object_enums_header(slug: Seq<char>) -> Seq<char> {
    "syntax = \"proto3\";\n"@ + "\n"@ + "package ocsf."@ + slug + ".objects.enums;\n"@
}

pub open spec fn needed_enums_text(
    objects: Seq<(Seq<char>, ObjectView)>,
    needed: Seq<Seq<char>>,
) -> Seq<char>
    decreases needed.len(),
{
    if needed.len() == 0 {
        Seq::<char>::empty()
    } else {
        needed_enums_text(objects, needed.drop_last()) + (match lookup_object_view(
            objects,
            needed.last(),
        ) {
            None => Seq::<char>::empty(),
            Some(o) => attrs_enums_text(o.attributes, str_upper(needed.last())),
        })
    }
}

pub open spec fn needed_enums_stats(
    objects: Seq<(Seq<char>, ObjectView)>,
    needed: Seq<Seq<char>>,
    stats: GenerationStats,
) -> GenerationStats
    decreases needed.len(),
{
    if needed.len() == 0 {
        stats
    } else {
        let s1 = needed_enums_stats(objects, needed.drop_last(), stats);
        match lookup_object_view(objects, needed.last()) {
            None => s1,
            Some(o) => attrs_enums_stats(o.attributes, s1),
        }
    }
}

pub open spec fn object_enums_file_text(
    objects: Seq<(Seq<char>, ObjectView)>,
    needed: Seq<Seq<char>>,
    slug: Seq<char>,
) -> Seq<char> {
    object_enums_header(slug) + needed_enums_text(objects, needed)
}

/// Generate the shared objects enums proto file: one enum per qualifying
/// (object, attribute) pair over the needed set.
#[verifier::loop_isolation(false)]
pub fn generate_object_enums_proto(
    version_slug: &str,
    schema: &OcsfSchema,
    needed_objects: &Vec<String>,
    stats: &mut GenerationStats,
) -> (r: String)
    ensures
        r@ == object_enums_file_text(schema@.objects, strutil::dv(needed_objects@), version_slug@),
        *final(stats) == needed_enums_stats(
            schema@.objects,
            strutil::dv(needed_objects@),
            *old(stats),
        ),
{
    let ghost objs = schema@.objects;
    let ghost nd = strutil::dv(needed_objects@);
    let ghost st0 = *stats;
    let mut out = String::new();
    out.append("syntax = \"proto3\";\n");
    out.append("\n");
    out.append("package ocsf.");
    out.append(version_slug);
    out.append(".objects.enums;\n");
    proof {
        assert(out@ =~= object_enums_header(version_slug@));
    }
    let ghost header = out@;
    let mut i: usize = 0;
    proof {
        assert(nd.take(0) =~= Seq::<Seq<char>>::empty());
        assert(header + needed_enums_text(objs, nd.take(0)) =~= header);
    }
    while i < needed_objects.len()
        invariant
            i <= needed_objects.len(),
            out@ == header + needed_enums_text(objs, nd.take(i as int)),
            *stats == needed_enums_stats(objs, nd.take(i as int), st0),
        decreases needed_objects.len() - i,
    {
        proof {
            assert(nd.take(i + 1 as int).drop_last() =~= nd.take(i as int));
            assert(nd.take(i + 1 as int).last() == nd[i as int]);
            assert(nd[i as int] == needed_objects@[i as int]@);
        }
        match lookup_object(schema, needed_objects[i].as_str()) {
            None => {},
            Some(obj) => {
                let obj_upper = type_map::to_screaming_snake(needed_objects[i].as_str());
                write_attr_enums(&mut out, &obj.attributes, obj_upper.as_str(), stats);
            },
        }
        proof {
            assert(out@ =~= header + needed_enums_text(objs, nd.take(i + 1 as int)));
        }
        i = i + 1;
    }
    proof {
        assert(nd.take(needed_objects@.len() as int) =~= nd);
    }
    out
}


// ── Enum value map ─────────────────────────────────────────────────────

/// The view of the enum value map under construction: fully qualified
/// member name to (caption, numeric value).
pub open spec fn map_view(s: Seq<(String, (String, i32))>) -> Seq<(Seq<char>, (Seq<char>, int))> {
    s.map_values(|e: (String, (String, i32))| (e.0@, (e.1.0@, e.1.1 as int)))
}

/// Add one enum's members to the map, in table order; a later entry with
/// the same member name replaces an earlier one.
pub open spec fn map_add_entries(
    enum_name: Seq<char>,
    t: Seq<(Seq<char>, EnumValueView)>,
    acc: Seq<(Seq<char>, (Seq<char>, int))>,
) -> Seq<(Seq<char>, (Seq<char>, int))>
    decreases t.len(),
{
    if t.len() == 0 {
        acc
    } else {
        map_add_entries(enum_name, t.drop_first(), if strutil::is_i32_numeral(t[0].0) {
            crate::schema::sorted_entry_insert(
                acc,
                enum_name + "_"@ + type_map::variant_of(t[0].1.caption),
                (t[0].1.caption, strutil::i32_numeral_val(t[0].0)),
            )
        } else {
            acc
        })
    }
}

/// Add one owner's enum members to the map: exactly the attributes that
/// yield a synthesized enumeration, so a deprecated attribute — excluded
/// from all output — contributes nothing here either.
pub open spec fn map_add_attrs(
    prefix: Seq<char>,
    attrs: Seq<(Seq<char>, AttributeView)>,
    acc: Seq<(Seq<char>, (Seq<char>, int))>,
) -> Seq<(Seq<char>, (Seq<char>, int))>
    decreases attrs.len(),
{
    if attrs.len() == 0 {
        acc
    } else {
        map_add_attrs(prefix, attrs.drop_first(), if attr_makes_enum(attrs[0].1) {
            map_add_entries(enum_type_name(prefix, attrs[0].0), attr_enum_table(attrs[0].1), acc)
        } else {
            acc
        })
    }
}

pub open spec fn map_add_classes(
    classes: Seq<(Seq<char>, ClassView)>,
    names: Seq<Seq<char>>,
    acc: Seq<(Seq<char>, (Seq<char>, int))>,
) -> Seq<(Seq<char>, (Seq<char>, int))>
    decreases names.len(),
{
    if names.len() == 0 {
        acc
    } else {
        map_add_classes(classes, names.drop_first(), match table_get(classes, names[0]) {
            Some(c) => map_add_attrs(str_upper(c.name), c.attributes, acc),
            None => acc,
        })
    }
}

pub open spec fn map_add_objects(
    objects: Seq<(Seq<char>, ObjectView)>,
    needed: Seq<Seq<char>>,
    acc: Seq<(Seq<char>, (Seq<char>, int))>,
) -> Seq<(Seq<char>, (Seq<char>, int))>
    decreases needed.len(),
{
    if needed.len() == 0 {
        acc
    } else {
        map_add_objects(objects, needed.drop_first(), match lookup_object_view(
            objects,
            needed[0],
        ) {
            Some(o) => map_add_attrs(str_upper(needed[0]), o.attributes, acc),
            None => acc,
        })
    }
}

/// The finished enum value map for a run.
pub open spec fn enum_map_entries(
    schema: SchemaView,
    names: Seq<Seq<char>>,
    needed: Seq<Seq<char>>,
) -> Seq<(Seq<char>, (Seq<char>, int))> {
    map_add_objects(
        schema.objects,
        needed,
        map_add_classes(schema.classes, names, Seq::<(Seq<char>, (Seq<char>, int))>::empty()),
    )
}

/// One member of the map as pretty-printed JSON, at one level of nesting.
pub open spec fn json_entry_text(k: Seq<char>, cap: Seq<char>, v: int) -> Seq<char> {
    "  \""@ + strutil::json_escape(k) + "\": {\n    \"name\": \""@ + strutil::json_escape(cap)
        + "\",\n    \"value\": "@ + strutil::int_str(v) + "\n  }"@
}

pub open spec fn json_entries_text(m: Seq<(Seq<char>, (Seq<char>, int))>) -> Seq<char>
    decreases m.len(),
{
    if m.len() == 0 {
        Seq::<char>::empty()
    } else if m.len() == 1 {
        json_entry_text(m[0].0, m[0].1.0, m[0].1.1)
    } else {
        json_entries_text(m.drop_last()) + ",\n"@ + json_entry_text(
            m.last().0,
            m.last().1.0,
            m.last().1.1,
        )
    }
}

/// The pretty-printed JSON object for the whole map.
pub open spec fn json_map_text(m: Seq<(Seq<char>, (Seq<char>, int))>) -> Seq<char> {
    if m.len() == 0 {
        "{}"@
    } else {
        "{\n"@ + json_entries_text(m) + "\n}"@
    }
}

/// Insert one member into the map, keeping it sorted by member name and
/// replacing the value under an equal name.
fn map_insert(v: &mut Vec<(String, (String, i32))>, key: String, cap: String, val: i32)
    ensures
        map_view(final(v)@) == crate::schema::sorted_entry_insert(
            map_view(old(v)@),
            key@,
            (cap@, val as int),
        ),
{
    let ghost s = map_view(v@);
    let ghost e = (cap@, val as int);
    let mut i: usize = v.len();
    proof {
        assert(s.take(s.len() as int) =~= s);
        assert(s.skip(s.len() as int) =~= Seq::<(Seq<char>, (Seq<char>, int))>::empty());
        assert(crate::schema::sorted_entry_insert(s, key@, e) + Seq::<
            (Seq<char>, (Seq<char>, int)),
        >::empty() =~= crate::schema::sorted_entry_insert(s, key@, e));
    }
    while i > 0 && strutil::string_lt(&key, &v[i - 1].0)
        invariant
            i <= v.len(),
            map_view(v@) == s,
            crate::schema::sorted_entry_insert(s, key@, e) == crate::schema::sorted_entry_insert(
                s.take(i as int),
                key@,
                e,
            ) + s.skip(i as int),
        decreases i,
    {
        proof {
            let t = s.take(i as int);
            assert(t.last() == s[i - 1]);
            assert(s[i - 1].0 == v@[i - 1].0@);
            assert(strutil::lex_lt(key@, t.last().0));
            if strutil::lex_lt(t.last().0, key@) {
                strutil::lemma_lex_lt_asym(key@, t.last().0);
                assert(false);
            }
            if t.last().0 == key@ {
                strutil::lemma_lex_lt_irrefl(key@);
                assert(false);
            }
            assert(t.drop_last() =~= s.take(i - 1 as int));
            assert(crate::schema::sorted_entry_insert(s.take(i - 1 as int), key@, e) + seq![
                s[i - 1],
            ] + s.skip(i as int) =~= crate::schema::sorted_entry_insert(
                s.take(i - 1 as int),
                key@,
                e,
            ) + s.skip(i - 1 as int));
        }
        i = i - 1;
    }
    if i > 0 && key.eq(&v[i - 1].0) {
        proof {
            let t = s.take(i as int);
            assert(t.last() == s[i - 1]);
            assert(s[i - 1].0 == v@[i - 1].0@);
            assert(t.last().0 == key@);
            strutil::lemma_lex_lt_irrefl(key@);
            assert(crate::schema::sorted_entry_insert(t, key@, e) == t.drop_last() + seq![
                (key@, e),
            ]);
            assert(t.drop_last() =~= s.take(i - 1 as int));
        }
        let ghost old_v = v@;
        v.remove(i - 1);
        v.insert(i - 1, (key, (cap, val)));
        proof {
            assert(map_view(v@) =~= map_view(old_v).take(i - 1 as int) + seq![
                (v@[i - 1].0@, (v@[i - 1].1.0@, v@[i - 1].1.1 as int)),
            ] + map_view(old_v).skip(i as int));
            assert(map_view(old_v).take(i - 1 as int) =~= s.take(i - 1 as int));
            assert(map_view(old_v).skip(i as int) =~= s.skip(i as int));
            assert(map_view(v@) =~= crate::schema::sorted_entry_insert(s.take(i as int), key@, e)
                + s.skip(i as int));
        }
    } else {
        proof {
            let t = s.take(i as int);
            if i > 0 {
                assert(t.last() == s[i - 1]);
                assert(s[i - 1].0 == v@[i - 1].0@);
                assert(!strutil::lex_lt(key@, t.last().0));
                assert(t.last().0 != key@);
                strutil::lemma_lex_lt_connex(t.last().0, key@);
                assert(strutil::lex_lt(t.last().0, key@));
                assert(crate::schema::sorted_entry_insert(t, key@, e) == t + seq![(key@, e)]);
            } else {
                assert(t =~= Seq::<(Seq<char>, (Seq<char>, int))>::empty());
                assert(crate::schema::sorted_entry_insert(t, key@, e) =~= seq![(key@, e)]);
                assert(t + seq![(key@, e)] =~= seq![(key@, e)]);
            }
        }
        let ghost old_v = v@;
        v.insert(i, (key, (cap, val)));
        proof {
            assert(map_view(v@) =~= map_view(old_v).take(i as int) + seq![
                (v@[i as int].0@, (v@[i as int].1.0@, v@[i as int].1.1 as int)),
            ] + map_view(old_v).skip(i as int));
            assert(map_view(old_v).take(i as int) =~= s.take(i as int));
            assert(map_view(old_v).skip(i as int) =~= s.skip(i as int));
            assert(map_view(v@) =~= s.take(i as int) + seq![(key@, e)] + s.skip(i as int));
        }
    }
}

#[verifier::loop_isolation(false)]
#[verifier::rlimit(100)]
fn collect_enum_entries(
    map: &mut Vec<(String, (String, i32))>,
    prefix: &str,
    attrs: &Vec<(String, OcsfAttribute)>,
)
    ensures
        map_view(final(map)@) == map_add_attrs(prefix@, entries_view(attrs@), map_view(old(map)@)),
{
    let ghost av = entries_view(attrs@);
    let ghost m0 = map_view(map@);
    let mut j: usize = 0;
    proof {
        assert(av.skip(0) =~= av);
    }
    while j < attrs.len()
        invariant
            j <= attrs.len(),
            map_add_attrs(prefix@, av, m0) == map_add_attrs(
                prefix@,
                av.skip(j as int),
                map_view(map@),
            ),
        decreases attrs.len() - j,
    {
        proof {
            assert(av.skip(j as int)[0] == av[j as int]);
            assert(av.skip(j as int).drop_first() =~= av.skip(j + 1 as int));
            assert(av[j as int] == (attrs@[j as int].0@, attrs@[j as int].1@));
        }
        if attrs[j].1.deprecated.is_some() {
            proof {
                assert(!attr_makes_enum(av[j as int].1));
            }
        } else if let Some(t) = &attrs[j].1.enum_values {
            if is_integer_enum(t) {
                let ghost tv = entries_view(t@);
                proof {
                    assert(attr_makes_enum(av[j as int].1));
                    assert(attr_enum_table(av[j as int].1) == tv);
                }
                let attr_upper = type_map::to_screaming_snake(attrs[j].0.as_str());
                let mut enum_name = String::new();
                enum_name.append(prefix);
                enum_name.append("_");
                enum_name.append(attr_upper.as_str());
                proof {
                    assert(enum_name@ =~= enum_type_name(prefix@, av[j as int].0));
                }
                let ghost acc0 = map_view(map@);
                let mut e: usize = 0;
                proof {
                    assert(tv.skip(0) =~= tv);
                }
                while e < t.len()
                    invariant
                        e <= t.len(),
                        map_add_entries(enum_name@, tv, acc0) == map_add_entries(
                            enum_name@,
                            tv.skip(e as int),
                            map_view(map@),
                        ),
                    decreases t.len() - e,
                {
                    proof {
                        assert(tv.skip(e as int)[0] == tv[e as int]);
                        assert(tv.skip(e as int).drop_first() =~= tv.skip(e + 1 as int));
                        assert(tv[e as int] == (t@[e as int].0@, t@[e as int].1@));
                    }
                    match strutil::parse_i32(t[e].0.as_str()) {
                        Some(key_val) => {
                            let variant = type_map::to_enum_variant_name(t[e].1.caption.as_str());
                            let mut full = String::new();
                            full.append(enum_name.as_str());
                            full.append("_");
                            full.append(variant.as_str());
                            proof {
                                assert(full@ =~= enum_name@ + "_"@ + type_map::variant_of(
                                    tv[e as int].1.caption,
                                ));
                            }
                            let cap = t[e].1.caption.clone();
                            map_insert(map, full, cap, key_val);
                        },
                        None => {},
                    }
                    e = e + 1;
                }
                proof {
                    assert(tv.skip(t@.len() as int) =~= Seq::<(Seq<char>, EnumValueView)>::empty());
                }
            } else {
                proof {
                    assert(!attr_makes_enum(av[j as int].1));
                }
            }
        } else {
            proof {
                assert(!attr_makes_enum(av[j as int].1));
            }
        }
        j = j + 1;
    }
    proof {
        assert(av.skip(attrs@.len() as int) =~= Seq::<(Seq<char>, AttributeView)>::empty());
    }
}

/// Build the flat enum value map for the run and render it as pretty
/// JSON: fully qualified member name to caption and numeric value.
#[verifier::loop_isolation(false)]
#[verifier::rlimit(60)]
pub fn generate_enum_value_map(
    schema: &OcsfSchema,
    class_names: &Vec<String>,
    needed_objects: &Vec<String>,
) -> (r: String)
    ensures
        r@ == json_map_text(
            enum_map_entries(schema@, strutil::dv(class_names@), strutil::dv(needed_objects@)),
        ),
{
    let ghost names = strutil::dv(class_names@);
    let ghost nd = strutil::dv(needed_objects@);
    let mut map: Vec<(String, (String, i32))> = Vec::new();
    let ghost m0 = map_view(map@);
    proof {
        assert(m0 =~= Seq::<(Seq<char>, (Seq<char>, int))>::empty());
    }
    let mut i: usize = 0;
    proof {
        assert(names.skip(0) =~= names);
    }
    while i < class_names.len()
        invariant
            i <= class_names.len(),
            map_add_classes(schema@.classes, names, m0) == map_add_classes(
                schema@.classes,
                names.skip(i as int),
                map_view(map@),
            ),
        decreases class_names.len() - i,
    {
        proof {
            assert(names.skip(i as int)[0] == names[i as int]);
            assert(names.skip(i as int).drop_first() =~= names.skip(i + 1 as int));
            assert(names[i as int] == class_names@[i as int]@);
        }
        match crate::schema::entry_find(&schema.classes, class_names[i].as_str()) {
            Some(ci) => {
                let cls = &schema.classes[ci].1;
                let class_upper = type_map::to_screaming_snake(cls.name.as_str());
                collect_enum_entries(&mut map, class_upper.as_str(), &cls.attributes);
            },
            None => {},
        }
        i = i + 1;
    }
    proof {
        assert(names.skip(class_names@.len() as int) =~= Seq::<Seq<char>>::empty());
    }
    let ghost mc = map_view(map@);
    proof {
        assert(mc == map_add_classes(schema@.classes, names, m0));
    }
    let mut k: usize = 0;
    proof {
        assert(nd.skip(0) =~= nd);
    }
    while k < needed_objects.len()
        invariant
            k <= needed_objects.len(),
            map_add_objects(schema@.objects, nd, mc) == map_add_objects(
                schema@.objects,
                nd.skip(k as int),
                map_view(map@),
            ),
        decreases needed_objects.len() - k,
    {
        proof {
            assert(nd.skip(k as int)[0] == nd[k as int]);
            assert(nd.skip(k as int).drop_first() =~= nd.skip(k + 1 as int));
            assert(nd[k as int] == needed_objects@[k as int]@);
        }
        match lookup_object(schema, needed_objects[k].as_str()) {
            Some(obj) => {
                let obj_upper = type_map::to_screaming_snake(needed_objects[k].as_str());
                collect_enum_entries(&mut map, obj_upper.as_str(), &obj.attributes);
            },
            None => {},
        }
        k = k + 1;
    }
    proof {
        assert(nd.skip(needed_objects@.len() as int) =~= Seq::<Seq<char>>::empty());
        assert(map_view(map@) == enum_map_entries(schema@, names, nd));
    }
    let ghost mv = map_view(map@);
    // render as pretty JSON
    let mut out = String::new();
    if map.len() == 0 {
        out.append("{}");
        proof {
            assert(out@ =~= "{}"@);
        }
        return out;
    }
    out.append("{\n");
    let ghost head = out@;
    let mut q: usize = 0;
    while q < map.len()
        invariant
            q <= map.len(),
            map.len() > 0,
            mv == map_view(map@),
            q == 0 ==> out@ == head,
            q > 0 ==> out@ == head + json_entries_text(mv.take(q as int)),
        decreases map.len() - q,
    {
        proof {
            let ghost me = map@[q as int];
            assert(mv[q as int] == (me.0@, (me.1.0@, me.1.1 as int)));
            assert(mv.take(q + 1 as int).drop_last() =~= mv.take(q as int));
            assert(mv.take(q + 1 as int).last() == mv[q as int]);
        }
        if q > 0 {
            out.append(",\n");
        }
        out.append("  \"");
        strutil::append_json_escaped(&mut out, map[q].0.as_str());
        out.append("\": {\n    \"name\": \"");
        strutil::append_json_escaped(&mut out, map[q].1.0.as_str());
        out.append("\",\n    \"value\": ");
        let vs = strutil::i64_to_string(map[q].1.1 as i64);
        out.append(vs.as_str());
        out.append("\n  }");
        proof {
            assert(out@ =~= head + json_entries_text(mv.take(q + 1 as int)));
        }
        q = q + 1;
    }
    out.append("\n}");
    proof {
        assert(mv.take(map@.len() as int) =~= mv);
        assert(out@ =~= json_map_text(mv));
    }
    out
}



// ── Stated properties of the emitted text ──────────────────────────────

/// The attributes that become fields: the non-deprecated ones, in order.
pub open spec fn emitted_entries(attrs: Seq<(Seq<char>, AttributeView)>) -> Seq<
    (Seq<char>, AttributeView),
>
    decreases attrs.len(),
{
    if attrs.len() == 0 {
        Seq::<(Seq<char>, AttributeView)>::empty()
    } else {
        emitted_entries(attrs.drop_last()) + (if attrs.last().1.deprecated is Some {
            Seq::<(Seq<char>, AttributeView)>::empty()
        } else {
            seq![attrs.last()]
        })
    }
}

/// Field lines for an already-filtered attribute list: the entry at
/// position `k` carries field number `k + 1`, densely.
pub open spec fn fields_lines(
    fs: Seq<(Seq<char>, AttributeView)>,
    owner_upper: Seq<char>,
    enum_ns: Seq<char>,
    slug: Seq<char>,
    objects: Seq<(Seq<char>, ObjectView)>,
) -> Seq<char>
    decreases fs.len(),
{
    if fs.len() == 0 {
        Seq::<char>::empty()
    } else {
        fields_lines(fs.drop_last(), owner_upper, enum_ns, slug, objects) + field_line(
            fs.last().0,
            fs.last().1,
            field_type_spec(fs.last().1, fs.last().0, owner_upper, enum_ns, slug, objects),
            fs.len() as nat,
        )
    }
}

/// Deprecation exclusion: a message's field lines are exactly the field
/// lines of its non-deprecated attributes, numbered densely from 1 in
/// stored order — a deprecated attribute neither appears nor consumes a
/// field number, and every non-deprecated attribute appears.
pub proof fn lemma_deprecated_excluded(
    attrs: Seq<(Seq<char>, AttributeView)>,
    owner_upper: Seq<char>,
    enum_ns: Seq<char>,
    slug: Seq<char>,
    objects: Seq<(Seq<char>, ObjectView)>,
)
    ensures
        fields_text(attrs, owner_upper, enum_ns, slug, objects) == fields_lines(
            emitted_entries(attrs),
            owner_upper,
            enum_ns,
            slug,
            objects,
        ),
        emitted_count(attrs) == emitted_entries(attrs).len(),
        forall|k: int|
            0 <= k < emitted_entries(attrs).len() ==> (#[trigger] emitted_entries(attrs)[
                k
            ]).1.deprecated is None,
        forall|i: int|
            0 <= i < attrs.len() && (#[trigger] attrs[i]).1.deprecated is None ==> emitted_entries(
                attrs,
            ).contains(attrs[i]),
    decreases attrs.len(),
{
    if attrs.len() > 0 {
        let a0 = attrs.drop_last();
        lemma_deprecated_excluded(a0, owner_upper, enum_ns, slug, objects);
        let e0 = emitted_entries(a0);
        if attrs.last().1.deprecated is Some {
            assert(emitted_entries(attrs) =~= e0);
            assert forall|i: int|
                0 <= i < attrs.len() && (#[trigger] attrs[i]).1.deprecated is None implies emitted_entries(
                attrs,
            ).contains(attrs[i]) by {
                assert(i < attrs.len() - 1);
                assert(a0[i] == attrs[i]);
                assert(e0.contains(attrs[i]));
            }
        } else {
            let e1 = emitted_entries(attrs);
            assert(e1 == e0 + seq![attrs.last()]);
            assert(e1.drop_last() =~= e0);
            assert(e1.last() == attrs.last());
            assert(e1.len() as nat == emitted_count(a0) + 1);
            assert(fields_lines(e1, owner_upper, enum_ns, slug, objects) == fields_lines(
                e0,
                owner_upper,
                enum_ns,
                slug,
                objects,
            ) + field_line(
                attrs.last().0,
                attrs.last().1,
                field_type_spec(
                    attrs.last().1,
                    attrs.last().0,
                    owner_upper,
                    enum_ns,
                    slug,
                    objects,
                ),
                emitted_count(a0) + 1,
            ));
            assert forall|k: int| 0 <= k < e1.len() implies (#[trigger] e1[k]).1.deprecated
                is None by {
                if k < e0.len() {
                    assert(e1[k] == e0[k]);
                } else {
                    assert(e1[k] == attrs.last());
                }
            }
            assert forall|i: int|
                0 <= i < attrs.len() && (#[trigger] attrs[i]).1.deprecated is None implies e1.contains(
                attrs[i],
            ) by {
                if i < attrs.len() - 1 {
                    assert(a0[i] == attrs[i]);
                    assert(e0.contains(attrs[i]));
                    let k = choose|k: int| 0 <= k < e0.len() && e0[k] == attrs[i];
                    assert(e1[k] == attrs[i]);
                } else {
                    assert(e1[e0.len() as int] == attrs[i]);
                }
            }
        }
    }
}

/// Whether entries are in non-decreasing value order.
pub open spec fn sorted_by_val(s: Seq<(int, Seq<char>)>) -> bool {
    forall|i: int, j: int| 0 <= i < j < s.len() ==> (#[trigger] s[i]).0 <= (#[trigger] s[j]).0
}

proof fn lemma_insert_by_key_props(s: Seq<(int, Seq<char>)>, e: (int, Seq<char>))
    requires
        sorted_by_val(s),
    ensures
        sorted_by_val(insert_by_key(s, e)),
        insert_by_key(s, e).len() == s.len() + 1,
        forall|x: (int, Seq<char>)|
            #[trigger] insert_by_key(s, e).contains(x) <==> s.contains(x) || x == e,
    decreases s.len(),
{
    let r = insert_by_key(s, e);
    if s.len() == 0 {
        assert(r =~= seq![e]);
        assert(r[0] == e);
        assert(forall|x: (int, Seq<char>)| #[trigger] r.contains(x) ==> x == e);
    } else if s.last().0 > e.0 {
        let s0 = s.drop_last();
        assert(sorted_by_val(s0)) by {
            assert(forall|i: int, j: int|
                0 <= i < j < s0.len() ==> (#[trigger] s0[i]).0 <= (#[trigger] s0[j]).0);
        }
        lemma_insert_by_key_props(s0, e);
        let r0 = insert_by_key(s0, e);
        assert(r =~= r0 + seq![s.last()]);
        assert forall|x: (int, Seq<char>)| r0.contains(x) implies x.0 <= s.last().0 by {
            if s0.contains(x) {
                let i = choose|i: int| 0 <= i < s0.len() && s0[i] == x;
                assert(s[i] == x);
                if i < s.len() - 1 {
                    assert(s[i].0 <= s[s.len() - 1].0);
                }
            } else {
                assert(x == e);
            }
        }
        assert forall|i: int, j: int| 0 <= i < j < r.len() implies (#[trigger] r[i]).0 <= (
        #[trigger] r[j]).0 by {
            if j < r.len() - 1 {
                assert(r[i] == r0[i] && r[j] == r0[j]);
            } else {
                assert(r0.contains(r0[i]));
            }
        }
        assert forall|x: (int, Seq<char>)| #[trigger] r.contains(x) implies s.contains(x) || x
            == e by {
            let i = choose|i: int| 0 <= i < r.len() && r[i] == x;
            if i < r0.len() {
                assert(r0.contains(x));
                if s0.contains(x) {
                    let k = choose|k: int| 0 <= k < s0.len() && s0[k] == x;
                    assert(s[k] == x);
                }
            } else {
                assert(x == s.last());
                assert(s[s.len() - 1] == x);
            }
        }
        assert forall|x: (int, Seq<char>)| s.contains(x) || x == e implies #[trigger] r.contains(
            x,
        ) by {
            if s.contains(x) {
                let i = choose|i: int| 0 <= i < s.len() && s[i] == x;
                if i < s.len() - 1 {
                    assert(s0[i] == x);
                    assert(r0.contains(x));
                    let k = choose|k: int| 0 <= k < r0.len() && r0[k] == x;
                    assert(r[k] == x);
                } else {
                    assert(r[r.len() - 1] == x);
                }
            } else {
                assert(r0.contains(e));
                let k = choose|k: int| 0 <= k < r0.len() && r0[k] == e;
                assert(r[k] == e);
            }
        }
    } else {
        assert(r =~= s + seq![e]);
        assert(r[s.len() as int] == e);
        assert forall|i: int, j: int| 0 <= i < j < r.len() implies (#[trigger] r[i]).0 <= (
        #[trigger] r[j]).0 by {
            if j == s.len() as int {
                if i < s.len() - 1 {
                    assert(s[i].0 <= s[s.len() - 1].0);
                }
            } else {
                assert(r[i] == s[i] && r[j] == s[j]);
            }
        }
        assert forall|x: (int, Seq<char>)| #[trigger] r.contains(x) implies s.contains(x) || x
            == e by {
            let i = choose|i: int| 0 <= i < r.len() && r[i] == x;
            if i < s.len() {
                assert(s[i] == x);
            }
        }
        assert forall|x: (int, Seq<char>)| s.contains(x) implies r.contains(x) by {
            let i = choose|i: int| 0 <= i < s.len() && s[i] == x;
            assert(r[i] == x);
        }
    }
}

proof fn lemma_sort_entries_props(s: Seq<(int, Seq<char>)>)
    ensures
        sorted_by_val(sort_entries(s)),
        sort_entries(s).len() == s.len(),
        forall|x: (int, Seq<char>)| #[trigger] sort_entries(s).contains(x) <==> s.contains(x),
    decreases s.len(),
{
    if s.len() > 0 {
        let s0 = s.drop_last();
        lemma_sort_entries_props(s0);
        lemma_insert_by_key_props(sort_entries(s0), s.last());
        assert forall|x: (int, Seq<char>)| #[trigger] sort_entries(s).contains(x) implies s.contains(
            x,
        ) by {
            if sort_entries(s0).contains(x) {
                assert(s0.contains(x));
                let i = choose|i: int| 0 <= i < s0.len() && s0[i] == x;
                assert(s[i] == x);
            } else {
                assert(x == s.last());
                assert(s[s.len() - 1] == x);
            }
        }
        assert forall|x: (int, Seq<char>)| s.contains(x) implies sort_entries(s).contains(x) by {
            let i = choose|i: int| 0 <= i < s.len() && s[i] == x;
            if i < s.len() - 1 {
                assert(s0[i] == x);
            }
        }
    }
}

/// The numeric values of an emitted enumeration, in written order: the
/// synthesized sentinel first when the table defines no zero, then the
/// schema-derived values ascending.
pub open spec fn enum_member_values(t: Seq<(Seq<char>, EnumValueView)>) -> Seq<int> {
    let es = sorted_enum_entries(t);
    (if entries_have_zero(es) {
        Seq::<int>::empty()
    } else {
        seq![0int]
    }) + es.map_values(|e: (int, Seq<char>)| e.0)
}

/// Zero-value invariant: an emitted enumeration's values are strictly
/// ascending and contain the value 0 exactly once — schema-derived, or
/// the synthesized sentinel exactly when the table lacks a zero key.
/// Stated for tables whose keys parse to pairwise distinct values, and
/// which define a zero value or no negative one; a table with keys such
/// as `0` and `00`, or `-1` without `0`, falls outside it.
pub proof fn lemma_enum_zero_value(t: Seq<(Seq<char>, EnumValueView)>)
    requires
        forall|i: int, j: int|
            0 <= i < j < enum_entries(t).len() ==> (#[trigger] enum_entries(t)[i]).0 != (
            #[trigger] enum_entries(t)[j]).0,
        entries_have_zero(sorted_enum_entries(t)) || forall|i: int|
            0 <= i < enum_entries(t).len() ==> (#[trigger] enum_entries(t)[i]).0 >= 0,
    ensures
        exists|k: int| 0 <= k < enum_member_values(t).len() && enum_member_values(t)[k] == 0,
        forall|k1: int, k2: int|
            0 <= k1 < k2 < enum_member_values(t).len() ==> #[trigger] enum_member_values(t)[k1]
                < #[trigger] enum_member_values(t)[k2],
{
    broadcast use vstd::seq_lib::seq_to_set_is_finite;

    let en = enum_entries(t);
    let es = sorted_enum_entries(t);
    lemma_sort_entries_props(en);
    // distinct values make the entries pairwise distinct, in both lists
    assert(en.no_duplicates()) by {
        assert forall|i: int, j: int|
            0 <= i < en.len() && 0 <= j < en.len() && i != j implies en[i] != en[j] by {
            if i < j {
                assert(en[i].0 != en[j].0);
            } else {
                assert(en[j].0 != en[i].0);
            }
        }
    }
    en.unique_seq_to_set();
    assert(es.to_set() =~= en.to_set()) by {
        assert forall|x: (int, Seq<char>)| es.to_set().contains(x) implies en.to_set().contains(
            x,
        ) by {
            assert(es.contains(x));
        }
        assert forall|x: (int, Seq<char>)| en.to_set().contains(x) implies es.to_set().contains(
            x,
        ) by {
            assert(en.contains(x));
        }
    }
    es.lemma_no_dup_set_cardinality();
    // strictly ascending over the sorted entries
    assert forall|k1: int, k2: int| 0 <= k1 < k2 < es.len() implies (#[trigger] es[k1]).0 < (
    #[trigger] es[k2]).0 by {
        assert(es[k1].0 <= es[k2].0);
        if es[k1].0 == es[k2].0 {
            assert(es[k1] != es[k2]);
            assert(es.contains(es[k1]));
            assert(es.contains(es[k2]));
            assert(en.contains(es[k1]));
            assert(en.contains(es[k2]));
            let i1 = choose|i: int| 0 <= i < en.len() && en[i] == es[k1];
            let i2 = choose|i: int| 0 <= i < en.len() && en[i] == es[k2];
            assert(i1 != i2);
            if i1 < i2 {
                assert(en[i1].0 != en[i2].0);
            } else {
                assert(en[i2].0 != en[i1].0);
            }
            assert(false);
        }
    }
    let vals = enum_member_values(t);
    if entries_have_zero(es) {
        let k = choose|k: int| 0 <= k < es.len() && (#[trigger] es[k]).0 == 0;
        assert(vals[k] == 0);
    } else {
        assert(vals[0] == 0);
        // all schema-derived values are then strictly positive
        assert forall|k: int| 0 <= k < es.len() implies (#[trigger] es[k]).0 > 0 by {
            assert(es.contains(es[k]));
            assert(en.contains(es[k]));
            let i = choose|i: int| 0 <= i < en.len() && en[i] == es[k];
            assert(en[i].0 >= 0);
            assert(es[k].0 != 0);
        }
    }
    assert forall|k1: int, k2: int| 0 <= k1 < k2 < vals.len() implies #[trigger] vals[k1]
        < #[trigger] vals[k2] by {
        if entries_have_zero(es) {
            assert(vals[k1] == es[k1].0 && vals[k2] == es[k2].0);
        } else {
            if k1 == 0 {
                assert(vals[k2] == es[k2 - 1].0);
                assert(es.contains(es[k2 - 1]));
            } else {
                assert(vals[k1] == es[k1 - 1].0 && vals[k2] == es[k2 - 1].0);
            }
        }
    }
}

} // verus!

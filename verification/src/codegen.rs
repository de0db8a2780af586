//! Protocol Buffer code generation from an OCSF schema: event class and
//! object messages, per-class and shared-object enum definitions, and an
//! enum value map. Every emitted text is pinned to a specification-level
//! rendering of the input, so identical input gives byte-identical output.

pub use crate::emit::{
    generate_class_enums_proto, generate_enum_value_map, generate_events_proto,
    generate_object_enums_proto, generate_objects_proto, write_enum_definition,
};
pub use crate::graph::resolve_object_graph;

use vstd::prelude::*;

use crate::error::Error;
use crate::schema::{
    entries_view, table_get, table_has, AttributeView, ClassView, EnumValueView, ObjectView,
    OcsfAttribute, OcsfClass, OcsfEnumValue, OcsfObject, OcsfSchema, SchemaView,
};
use crate::strutil;
use crate::strutil::strictly_sorted;
use crate::text;
use crate::type_map;
use crate::type_map::{canon_of, pascal_of, str_upper};

verus! {

/// A version string becomes a package slug: `.` and `-` become `_`, with a
/// leading `v`.
pub open spec fn slug_of(version: Seq<char>) -> Seq<char>
    decreases version.len(),
{
    if version.len() == 0 {
        Seq::<char>::empty()
    } else {
        slug_of(version.drop_last()) + seq![
            if version.last() == '.' || version.last() == '-' {
                '_'
            } else {
                version.last()
            },
        ]
    }
}

/// Convert an OCSF version string to a proto package slug, for example
/// `1.7.0` to `v1_7_0`.
pub fn version_to_slug(version: &str) -> (r: String)
    ensures
        r@ == seq!['v'] + slug_of(version@),
{
    let cs = text::chars_vec(version);
    let mut out = String::new();
    text::push_char(&mut out, 'v');
    let mut i: usize = 0;
    while i < cs.len()
        invariant
            i <= cs.len(),
            cs@ == version@,
            out@ == seq!['v'] + slug_of(version@.take(i as int)),
        decreases cs.len() - i,
    {
        let c = cs[i];
        let mapped: char = if c == '.' || c == '-' {
            '_'
        } else {
            c
        };
        text::push_char(&mut out, mapped);
        proof {
            assert(version@.take(i + 1 as int).drop_last() =~= version@.take(i as int));
            assert(version@.take(i + 1 as int).last() == version@[i as int]);
        }
        i = i + 1;
    }
    proof {
        assert(version@.take(version@.len() as int) =~= version@);
    }
    out
}

/// Statistics collected during generation for reporting. Counters saturate
/// at `usize::MAX` instead of overflowing.
#[derive(Debug, Clone, Copy, PartialEq, Eq, Structural)]
pub struct GenerationStats {
    pub classes_generated: usize,
    pub objects_generated: usize,
    pub enums_generated: usize,
    pub deprecated_fields_skipped: usize,
    pub string_enum_fields_skipped: usize,
    pub unknown_types_defaulted: usize,
}

pub open spec fn stats_zero() -> GenerationStats {
    GenerationStats {
        classes_generated: 0,
        objects_generated: 0,
        enums_generated: 0,
        deprecated_fields_skipped: 0,
        string_enum_fields_skipped: 0,
        unknown_types_defaulted: 0,
    }
}

impl Default for GenerationStats {
    fn default() -> (s: Self)
        ensures
            s == stats_zero(),
    {
        GenerationStats {
            classes_generated: 0,
            objects_generated: 0,
            enums_generated: 0,
            deprecated_fields_skipped: 0,
            string_enum_fields_skipped: 0,
            unknown_types_defaulted: 0,
        }
    }
}

/// Addition that stops at `usize::MAX`.
pub open spec fn sat_add(x: usize, d: nat) -> usize {
    if x as nat + d > usize::MAX as nat {
        usize::MAX
    } else {
        (x + d) as usize
    }
}

pub(crate) fn sat_inc(x: usize) -> (r: usize)
    ensures
        r == sat_add(x, 1),
{
    if x < usize::MAX {
        x + 1
    } else {
        x
    }
}

// ── Object lookup ──────────────────────────────────────────────────────

/// The first object whose own name sanitizes to `can`.
pub open spec fn scan_by_canon(objs: Seq<(Seq<char>, ObjectView)>, can: Seq<char>) -> Option<
    ObjectView,
>
    decreases objs.len(),
{
    if objs.len() == 0 {
        None
    } else if canon_of(objs[0].1.name) == can {
        Some(objs[0].1)
    } else {
        scan_by_canon(objs.drop_first(), can)
    }
}

/// The tolerant object lookup: try the name as given, then its sanitized
/// form, then a scan comparing sanitized object names.
pub open spec fn lookup_object_view(objs: Seq<(Seq<char>, ObjectView)>, name: Seq<char>) -> Option<
    ObjectView,
> {
    if table_has(objs, name) {
        table_get(objs, name)
    } else if table_has(objs, canon_of(name)) {
        table_get(objs, canon_of(name))
    } else {
        scan_by_canon(objs, canon_of(name))
    }
}

fn lookup_object_in<'a>(objects: &'a Vec<(String, OcsfObject)>, name: &str) -> (r: Option<
    &'a OcsfObject,
>)
    ensures
        r matches Some(o) ==> lookup_object_view(entries_view(objects@), name@) == Some(o@),
        r is None ==> lookup_object_view(entries_view(objects@), name@) is None,
{
    let ghost objs = entries_view(objects@);
    if let Some(i) = crate::schema::entry_find(objects, name) {
        return Some(&objects[i].1);
    }
    let sanitized = type_map::sanitize_object_name(name);
    if let Some(i) = crate::schema::entry_find(objects, sanitized.as_str()) {
        return Some(&objects[i].1);
    }
    let mut i: usize = 0;
    proof {
        assert(objs.skip(0) =~= objs);
    }
    while i < objects.len()
        invariant
            i <= objects.len(),
            objs == entries_view(objects@),
            sanitized@ == canon_of(name@),
            table_get(objs, name@) is None,
            table_get(objs, canon_of(name@)) is None,
            scan_by_canon(objs, canon_of(name@)) == scan_by_canon(
                objs.skip(i as int),
                canon_of(name@),
            ),
        decreases objects.len() - i,
    {
        proof {
            assert(objs.skip(i as int)[0] == objs[i as int]);
            assert(objs.skip(i as int).drop_first() =~= objs.skip(i + 1 as int));
            assert(objs[i as int].1 == objects@[i as int].1@);
        }
        let can = type_map::sanitize_object_name(objects[i].1.name.as_str());
        if can.eq(&sanitized) {
            proof {
                assert(canon_of(objs[i as int].1.name) == canon_of(name@));
                assert(scan_by_canon(objs.skip(i as int), canon_of(name@)) == Some(
                    objs[i as int].1,
                ));
            }
            return Some(&objects[i].1);
        }
        i = i + 1;
    }
    proof {
        assert(objs.skip(objects@.len() as int) =~= Seq::<(Seq<char>, ObjectView)>::empty());
    }
    None
}

/// Look up an object by name, handling extension-prefixed names: the
/// original name first, then the sanitized name, then a scan over all
/// objects by sanitized name.
pub fn lookup_object<'a>(schema: &'a OcsfSchema, name: &str) -> (r: Option<&'a OcsfObject>)
    ensures
        r matches Some(o) ==> lookup_object_view(schema@.objects, name@) == Some(o@),
        r is None ==> lookup_object_view(schema@.objects, name@) is None,
{
    lookup_object_in(&schema.objects, name)
}

// ── Enum table classification ──────────────────────────────────────────

/// A table whose keys all parse as `i32`.
pub open spec fn is_integer_table(t: Seq<(Seq<char>, EnumValueView)>) -> bool {
    forall|i: int| 0 <= i < t.len() ==> strutil::is_i32_numeral(#[trigger] t[i].0)
}

/// Check whether an enum table has integer keys (a valid proto enum) as
/// opposed to string keys (documentation only).
pub fn is_integer_enum(enum_values: &Vec<(String, OcsfEnumValue)>) -> (r: bool)
    ensures
        r == is_integer_table(entries_view(enum_values@)),
{
    let ghost t = entries_view(enum_values@);
    let mut i: usize = 0;
    while i < enum_values.len()
        invariant
            i <= enum_values.len(),
            t == entries_view(enum_values@),
            forall|k: int| 0 <= k < i ==> strutil::is_i32_numeral(#[trigger] t[k].0),
        decreases enum_values.len() - i,
    {
        proof {
            assert(t[i as int].0 == enum_values@[i as int].0@);
        }
        if strutil::parse_i32(enum_values[i].0.as_str()).is_none() {
            return false;
        }
        i = i + 1;
    }
    true
}

// ── Field type resolution ──────────────────────────────────────────────

/// Whether an object has any non-deprecated attribute to emit.
pub open spec fn has_emittable_attrs(o: ObjectView) -> bool {
    exists|i: int| 0 <= i < o.attributes.len() && (#[trigger] o.attributes[i].1.deprecated) is None
}

fn object_has_emittable(o: &OcsfObject) -> (r: bool)
    ensures
        r == has_emittable_attrs(o@),
{
    let mut i: usize = 0;
    while i < o.attributes.len()
        invariant
            i <= o.attributes.len(),
            forall|k: int| 0 <= k < i ==> (#[trigger] o@.attributes[k].1.deprecated) is Some,
        decreases o.attributes.len() - i,
    {
        proof {
            assert(o@.attributes[i as int].1 == o.attributes@[i as int].1@);
        }
        if o.attributes[i].1.deprecated.is_none() {
            proof {
                assert(o@.attributes[i as int].1.deprecated is None);
            }
            return true;
        }
        i = i + 1;
    }
    false
}

/// The object name an `object_t` attribute refers to.
pub open spec fn ref_target(attr: AttributeView) -> Seq<char> {
    match attr.object_type {
        Some(t) => t,
        None => "unknown"@,
    }
}

/// The proto type for an object reference: a qualified message reference,
/// degrading to `string` when the object is missing or has no emittable
/// attributes (an empty proto message cannot carry data).
pub open spec fn object_ref_type(
    objects: Seq<(Seq<char>, ObjectView)>,
    attr: AttributeView,
    slug: Seq<char>,
) -> Seq<char> {
    match lookup_object_view(objects, ref_target(attr)) {
        None => "string"@,
        Some(o) => if !has_emittable_attrs(o) {
            "string"@
        } else {
            "ocsf."@ + slug + ".objects."@ + pascal_of(ref_target(attr))
        },
    }
}

/// 1 when resolving this object reference falls back for want of the
/// referenced object.
pub open spec fn unknown_ref_delta(
    objects: Seq<(Seq<char>, ObjectView)>,
    attr: AttributeView,
) -> nat {
    if lookup_object_view(objects, ref_target(attr)) is None {
        1
    } else {
        0
    }
}

fn resolve_object_ref(
    attr: &OcsfAttribute,
    version_slug: &str,
    objects: &Vec<(String, OcsfObject)>,
    repeated: bool,
    stats: &mut GenerationStats,
) -> (r: (bool, String))
    ensures
        r.0 == repeated,
        r.1@ == object_ref_type(entries_view(objects@), attr@, version_slug@),
        *final(stats) == (GenerationStats {
            unknown_types_defaulted: sat_add(
                old(stats).unknown_types_defaulted,
                unknown_ref_delta(entries_view(objects@), attr@),
            ),
            ..*old(stats)
        }),
{
    let obj_type: &str = match &attr.object_type {
        Some(s) => s.as_str(),
        None => "unknown",
    };
    proof {
        assert(obj_type@ == ref_target(attr@));
    }
    let found = lookup_object_in(objects, obj_type);
    match found {
        None => {
            stats.unknown_types_defaulted = sat_inc(stats.unknown_types_defaulted);
            let mut out = String::new();
            out.append("string");
            proof {
                assert(out@ =~= "string"@);
            }
            (repeated, out)
        },
        Some(obj) => {
            if !object_has_emittable(obj) {
                // Empty objects (no non-deprecated attributes) would produce
                // empty proto messages that cannot hold data; emit `string`
                // so the field can carry the payload as JSON.
                let mut out = String::new();
                out.append("string");
                proof {
                    assert(out@ =~= "string"@);
                }
                (repeated, out)
            } else {
                let sanitized = type_map::sanitize_object_name(obj_type);
                let pascal = type_map::to_pascal_case(sanitized.as_str());
                proof {
                    type_map::lemma_canon_idempotent(obj_type@);
                    assert(pascal@ == pascal_of(ref_target(attr@)));
                }
                let mut out = String::new();
                out.append("ocsf.");
                out.append(version_slug);
                out.append(".objects.");
                out.append(pascal.as_str());
                proof {
                    assert(out@ =~= "ocsf."@ + version_slug@ + ".objects."@ + pascal_of(
                        ref_target(attr@),
                    ));
                }
                (repeated, out)
            }
        },
    }
}

/// The scalar type for a tag, `string` as the fallback.
pub open spec fn scalar_or_string(tag: Seq<char>) -> Seq<char> {
    match type_map::scalar_type_of(tag) {
        Some(p) => p,
        None => "string"@,
    }
}

/// The proto type of one attribute, given the enum namespace prefix and
/// owner prefix for synthesized enum references.
pub open spec fn field_type_spec(
    attr: AttributeView,
    attr_name: Seq<char>,
    owner_upper: Seq<char>,
    enum_ns: Seq<char>,
    slug: Seq<char>,
    objects: Seq<(Seq<char>, ObjectView)>,
) -> Seq<char> {
    if attr.type_tag == "object_t"@ {
        object_ref_type(objects, attr, slug)
    } else if attr.enum_values matches Some(t) && is_integer_table(t) {
        enum_ns + owner_upper + "_"@ + str_upper(attr_name)
    } else {
        scalar_or_string(attr.type_tag)
    }
}

/// The enum namespace for a class attribute's synthesized enums.
pub open spec fn event_enum_ns(slug: Seq<char>, category: Seq<char>) -> Seq<char> {
    "ocsf."@ + slug + ".events."@ + category + ".enums."@
}

/// The enum namespace for an object attribute's synthesized enums.
pub open spec fn object_enum_ns(slug: Seq<char>) -> Seq<char> {
    "ocsf."@ + slug + ".objects.enums."@
}

/// 1 when the attribute carries a string-keyed value table that is skipped
/// rather than emitted as an enum.
pub open spec fn string_enum_delta(attr: AttributeView) -> nat {
    if attr.type_tag != "object_t"@ && (attr.enum_values matches Some(t) && !is_integer_table(t)) {
        1
    } else {
        0
    }
}

/// 1 when the attribute's type falls back to `string`: a missing object
/// reference, or an unrecognized tag without a value table.
pub open spec fn unknown_delta(objects: Seq<(Seq<char>, ObjectView)>, attr: AttributeView) -> nat {
    if attr.type_tag == "object_t"@ {
        unknown_ref_delta(objects, attr)
    } else if attr.enum_values is Some {
        0
    } else if !type_map::is_known_tag(attr.type_tag) {
        1
    } else {
        0
    }
}

/// The statistics after resolving one field.
pub open spec fn field_stats_after(
    stats: GenerationStats,
    objects: Seq<(Seq<char>, ObjectView)>,
    attr: AttributeView,
) -> GenerationStats {
    GenerationStats {
        string_enum_fields_skipped: sat_add(stats.string_enum_fields_skipped, string_enum_delta(attr)),
        unknown_types_defaulted: sat_add(stats.unknown_types_defaulted, unknown_delta(objects, attr)),
        ..stats
    }
}

pub(crate) fn resolve_field_type(
    attr: &OcsfAttribute,
    attr_name: &str,
    owner_upper: &str,
    enum_ns: &str,
    version_slug: &str,
    objects: &Vec<(String, OcsfObject)>,
    stats: &mut GenerationStats,
) -> (r: (bool, String))
    ensures
        r.0 == attr@.is_array,
        r.1@ == field_type_spec(
            attr@,
            attr_name@,
            owner_upper@,
            enum_ns@,
            version_slug@,
            entries_view(objects@),
        ),
        *final(stats) == field_stats_after(*old(stats), entries_view(objects@), attr@),
{
    let repeated = attr.is_array;
    if text::str_eq(attr.type_tag.as_str(), "object_t") {
        return resolve_object_ref(attr, version_slug, objects, repeated, stats);
    }
    if let Some(t) = &attr.enum_values {
        if is_integer_enum(t) {
            let attr_upper = type_map::to_screaming_snake(attr_name);
            let mut out = String::new();
            out.append(enum_ns);
            out.append(owner_upper);
            out.append("_");
            out.append(attr_upper.as_str());
            proof {
                assert(out@ =~= enum_ns@ + owner_upper@ + "_"@ + str_upper(attr_name@));
            }
            return (repeated, out);
        }
        stats.string_enum_fields_skipped = sat_inc(stats.string_enum_fields_skipped);
        let proto = match type_map::ocsf_to_proto_type(attr.type_tag.as_str()) {
            Some(p) => p,
            None => "string",
        };
        let mut out = String::new();
        out.append(proto);
        proof {
            assert(out@ =~= scalar_or_string(attr@.type_tag));
        }
        return (repeated, out);
    }
    if !type_map::known_type_tag(attr.type_tag.as_str()) {
        stats.unknown_types_defaulted = sat_inc(stats.unknown_types_defaulted);
    }
    let proto = match type_map::ocsf_to_proto_type(attr.type_tag.as_str()) {
        Some(p) => p,
        None => "string",
    };
    let mut out = String::new();
    out.append(proto);
    proof {
        assert(out@ =~= scalar_or_string(attr@.type_tag));
    }
    (repeated, out)
}

/// The proto type for an event class attribute: object references become
/// qualified message references, integer-keyed enum tables become
/// references to the class's synthesized enum, everything else a scalar.
pub fn resolve_event_field_type(
    attr: &OcsfAttribute,
    attr_name: &str,
    class_upper: &str,
    version_slug: &str,
    category: &str,
    objects: &Vec<(String, OcsfObject)>,
    stats: &mut GenerationStats,
) -> (r: (bool, String))
    ensures
        r.0 == attr@.is_array,
        r.1@ == field_type_spec(
            attr@,
            attr_name@,
            class_upper@,
            event_enum_ns(version_slug@, category@),
            version_slug@,
            entries_view(objects@),
        ),
        *final(stats) == field_stats_after(*old(stats), entries_view(objects@), attr@),
{
    let mut ns = String::new();
    ns.append("ocsf.");
    ns.append(version_slug);
    ns.append(".events.");
    ns.append(category);
    ns.append(".enums.");
    proof {
        assert(ns@ =~= event_enum_ns(version_slug@, category@));
    }
    resolve_field_type(attr, attr_name, class_upper, ns.as_str(), version_slug, objects, stats)
}

/// The proto type for an object attribute: as for event attributes, but
/// synthesized enum references point at the shared objects enum package.
pub fn resolve_object_field_type(
    attr: &OcsfAttribute,
    attr_name: &str,
    obj_upper: &str,
    version_slug: &str,
    objects: &Vec<(String, OcsfObject)>,
    stats: &mut GenerationStats,
) -> (r: (bool, String))
    ensures
        r.0 == attr@.is_array,
        r.1@ == field_type_spec(
            attr@,
            attr_name@,
            obj_upper@,
            object_enum_ns(version_slug@),
            version_slug@,
            entries_view(objects@),
        ),
        *final(stats) == field_stats_after(*old(stats), entries_view(objects@), attr@),
{
    let mut ns = String::new();
    ns.append("ocsf.");
    ns.append(version_slug);
    ns.append(".objects.enums.");
    proof {
        assert(ns@ =~= object_enum_ns(version_slug@));
    }
    resolve_field_type(attr, attr_name, obj_upper, ns.as_str(), version_slug, objects, stats)
}



// ── Orchestration ──────────────────────────────────────────────────────

/// One generated output file, named by its path below the output root.
#[derive(Debug, Clone)]
pub struct GeneratedFile {
    pub path: String,
    pub content: String,
}

pub ghost struct FileView {
    pub path: Seq<char>,
    pub content: Seq<char>,
}

impl View for GeneratedFile {
    type V = FileView;

    open spec fn view(&self) -> FileView {
        FileView { path: self.path@, content: self.content@ }
    }
}

pub open spec fn files_view(s: Seq<GeneratedFile>) -> Seq<FileView> {
    s.map_values(|f: GeneratedFile| f@)
}

/// Everything one generation run produces: the files and the statistics.
#[derive(Debug)]
pub struct GenerationOutput {
    pub files: Vec<GeneratedFile>,
    pub stats: GenerationStats,
}

/// The first requested class name that the schema does not define.
pub open spec fn first_missing(classes: Seq<(Seq<char>, ClassView)>, names: Seq<Seq<char>>) -> Option<
    Seq<char>,
>
    decreases names.len(),
{
    if names.len() == 0 {
        None
    } else if !table_has(classes, names[0]) {
        Some(names[0])
    } else {
        first_missing(classes, names.drop_first())
    }
}

/// The hint listing known class names, truncated to ten plus a count.
pub open spec fn available_hint(classes: Seq<(Seq<char>, ClassView)>) -> Seq<char> {
    let ks = crate::schema::table_keys(classes);
    if ks.len() > 10 {
        strutil::join_comma(ks.take(10)) + " ... and "@ + strutil::dec_str((ks.len() - 10) as nat)
            + " more"@
    } else {
        strutil::join_comma(ks)
    }
}

/// The categories of the requested classes, as a sorted set.
pub open spec fn categories_of(
    classes: Seq<(Seq<char>, ClassView)>,
    names: Seq<Seq<char>>,
) -> Seq<Seq<char>>
    decreases names.len(),
{
    if names.len() == 0 {
        Seq::<Seq<char>>::empty()
    } else {
        let acc = categories_of(classes, names.drop_last());
        match table_get(classes, names.last()) {
            Some(c) => strutil::sorted_set_insert(acc, c.category),
            None => acc,
        }
    }
}

/// The requested classes of one category, in request order.
pub open spec fn classes_in_category(
    classes: Seq<(Seq<char>, ClassView)>,
    names: Seq<Seq<char>>,
    cat: Seq<char>,
) -> Seq<ClassView>
    decreases names.len(),
{
    if names.len() == 0 {
        Seq::<ClassView>::empty()
    } else {
        let acc = classes_in_category(classes, names.drop_last(), cat);
        match table_get(classes, names.last()) {
            Some(c) => if c.category == cat {
                acc.push(c)
            } else {
                acc
            },
            None => acc,
        }
    }
}

pub open spec fn events_file_path(slug: Seq<char>, cat: Seq<char>) -> Seq<char> {
    "ocsf/"@ + slug + "/events/"@ + cat + "/"@ + cat + ".proto"@
}

pub open spec fn class_enums_file_path(slug: Seq<char>, cat: Seq<char>) -> Seq<char> {
    "ocsf/"@ + slug + "/events/"@ + cat + "/enums/enums.proto"@
}

/// The two files of one category.
pub open spec fn category_files(
    sv: SchemaView,
    names: Seq<Seq<char>>,
    cat: Seq<char>,
    slug: Seq<char>,
) -> Seq<FileView> {
    let cls = classes_in_category(sv.classes, names, cat);
    seq![
        FileView {
            path: events_file_path(slug, cat),
            content: crate::emit::events_file_text(cls, cat, slug, sv.objects),
        },
        FileView {
            path: class_enums_file_path(slug, cat),
            content: crate::emit::class_enums_file_text(cls, cat, slug),
        },
    ]
}

pub open spec fn render_categories(
    sv: SchemaView,
    names: Seq<Seq<char>>,
    cats: Seq<Seq<char>>,
    slug: Seq<char>,
) -> Seq<FileView>
    decreases cats.len(),
{
    if cats.len() == 0 {
        Seq::<FileView>::empty()
    } else {
        render_categories(sv, names, cats.drop_last(), slug) + category_files(
            sv,
            names,
            cats.last(),
            slug,
        )
    }
}

pub open spec fn stats_categories(
    sv: SchemaView,
    names: Seq<Seq<char>>,
    cats: Seq<Seq<char>>,
    st: GenerationStats,
) -> GenerationStats
    decreases cats.len(),
{
    if cats.len() == 0 {
        st
    } else {
        let st1 = stats_categories(sv, names, cats.drop_last(), st);
        let cls = classes_in_category(sv.classes, names, cats.last());
        crate::emit::classes_enums_stats(
            cls,
            crate::emit::classes_msgs_stats(cls, sv.objects, st1),
        )
    }
}

/// The whole output file list of one run, given the needed-object set.
pub open spec fn render_all(sv: SchemaView, names: Seq<Seq<char>>, needed: Seq<Seq<char>>) -> Seq<
    FileView,
> {
    let slug = seq!['v'] + slug_of(sv.version);
    render_categories(sv, names, categories_of(sv.classes, names), slug) + seq![
        FileView {
            path: "ocsf/"@ + slug + "/objects/objects.proto"@,
            content: crate::emit::objects_file_text(sv.objects, needed, slug),
        },
        FileView {
            path: "ocsf/"@ + slug + "/objects/enums/enums.proto"@,
            content: crate::emit::object_enums_file_text(sv.objects, needed, slug),
        },
        FileView {
            path: "ocsf/"@ + slug + "/enum-value-map.json"@,
            content: crate::emit::json_map_text(crate::emit::enum_map_entries(sv, names, needed)),
        },
    ]
}

/// The statistics of one run, given the needed-object set.
pub open spec fn stats_all(sv: SchemaView, names: Seq<Seq<char>>, needed: Seq<Seq<char>>) -> GenerationStats {
    let st1 = stats_categories(sv, names, categories_of(sv.classes, names), stats_zero());
    let st2 = GenerationStats { classes_generated: names.len() as usize, ..st1 };
    let st3 = crate::emit::needed_msgs_stats(sv.objects, needed, st2);
    let st4 = crate::emit::needed_enums_stats(sv.objects, needed, st3);
    GenerationStats { objects_generated: needed.len() as usize, ..st4 }
}

/// What a successful run returns: the files and statistics rendered from
/// the input and a needed-object set that satisfies the closure contract.
pub open spec fn generate_post(
    sv: SchemaView,
    names: Seq<Seq<char>>,
    files: Seq<FileView>,
    stats: GenerationStats,
) -> bool {
    exists|needed: Seq<Seq<char>>|
        #[trigger] crate::graph::closure_post(sv, names, needed) && files == render_all(
            sv,
            names,
            needed,
        ) && stats == stats_all(sv, names, needed)
}

#[verifier::loop_isolation(false)]
fn collect_category_classes<'a>(
    schema: &'a OcsfSchema,
    class_names: &Vec<String>,
    cat: &str,
) -> (r: Vec<&'a OcsfClass>)
    requires
        first_missing(schema@.classes, strutil::dv(class_names@)) is None,
    ensures
        crate::emit::class_views(r@) == classes_in_category(
            schema@.classes,
            strutil::dv(class_names@),
            cat@,
        ),
{
    let ghost sv = schema@;
    let ghost names = strutil::dv(class_names@);
    let mut out: Vec<&'a OcsfClass> = Vec::new();
    let mut i: usize = 0;
    proof {
        assert(names.take(0) =~= Seq::<Seq<char>>::empty());
        assert(crate::emit::class_views(out@) =~= classes_in_category(
            sv.classes,
            names.take(0),
            cat@,
        ));
    }
    while i < class_names.len()
        invariant
            i <= class_names.len(),
            crate::emit::class_views(out@) == classes_in_category(
                sv.classes,
                names.take(i as int),
                cat@,
            ),
        decreases class_names.len() - i,
    {
        proof {
            assert(names.take(i + 1 as int).drop_last() =~= names.take(i as int));
            assert(names.take(i + 1 as int).last() == names[i as int]);
            assert(names[i as int] == class_names@[i as int]@);
        }
        match crate::schema::entry_find(&schema.classes, class_names[i].as_str()) {
            Some(ci) => {
                let cls = &schema.classes[ci].1;
                if text::str_eq(cls.category.as_str(), cat) {
                    out.push(cls);
                    proof {
                        assert(crate::emit::class_views(out@) =~= classes_in_category(
                            sv.classes,
                            names.take(i + 1 as int),
                            cat@,
                        ));
                    }
                } else {
                    proof {
                        assert(crate::emit::class_views(out@) =~= classes_in_category(
                            sv.classes,
                            names.take(i + 1 as int),
                            cat@,
                        ));
                    }
                }
            },
            None => {
                proof {
                    // validated: every requested name is present
                    lemma_first_missing_found(sv.classes, names, i as int);
                    assert(false);
                }
            },
        }
        i = i + 1;
    }
    proof {
        assert(names.take(class_names@.len() as int) =~= names);
    }
    out
}

proof fn lemma_first_missing_found(
    classes: Seq<(Seq<char>, ClassView)>,
    names: Seq<Seq<char>>,
    k: int,
)
    requires
        first_missing(classes, names) is None,
        0 <= k < names.len(),
    ensures
        table_has(classes, names[k]),
    decreases k,
{
    if k > 0 {
        assert(names.drop_first()[k - 1] == names[k]);
        lemma_first_missing_found(classes, names.drop_first(), k - 1);
    }
}

/// Generate the proto files and enum value map for the requested event
/// classes: validate the class names, resolve the needed objects, and
/// render every file. The whole output is a function of the schema and
/// the request, so identical input gives byte-identical output.
#[verifier::loop_isolation(false)]
#[verifier::rlimit(100)]
pub fn generate(schema: &OcsfSchema, class_names: &Vec<String>) -> (r: Result<
    GenerationOutput,
    Error,
>)
    ensures
        r is Err <==> first_missing(schema@.classes, strutil::dv(class_names@)) is Some,
        (match r {
            Err(e) => match e {
                Error::ClassNotFound { name, available } => {
                    &&& Some(name@) == first_missing(schema@.classes, strutil::dv(class_names@))
                    &&& available@ == available_hint(schema@.classes)
                },
            },
            Ok(out) => generate_post(
                schema@,
                strutil::dv(class_names@),
                files_view(out.files@),
                out.stats,
            ),
        }),
{
    let ghost sv = schema@;
    let ghost names = strutil::dv(class_names@);
    // Validate that all requested classes exist.
    let mut vi: usize = 0;
    proof {
        assert(names.skip(0) =~= names);
    }
    while vi < class_names.len()
        invariant
            vi <= class_names.len(),
            first_missing(sv.classes, names) == first_missing(sv.classes, names.skip(vi as int)),
        decreases class_names.len() - vi,
    {
        proof {
            assert(names.skip(vi as int)[0] == names[vi as int]);
            assert(names.skip(vi as int).drop_first() =~= names.skip(vi + 1 as int));
            assert(names[vi as int] == class_names@[vi as int]@);
        }
        if crate::schema::entry_find(&schema.classes, class_names[vi].as_str()).is_none() {
            // Build the hint of available class names.
            let mut keys: Vec<String> = Vec::new();
            let mut ki: usize = 0;
            proof {
                assert(strutil::dv(keys@) =~= crate::schema::table_keys(sv.classes).take(0));
            }
            while ki < schema.classes.len()
                invariant
                    ki <= schema.classes.len(),
                    keys@.len() == ki,
                    strutil::dv(keys@) == crate::schema::table_keys(sv.classes).take(ki as int),
                decreases schema.classes.len() - ki,
            {
                keys.push(schema.classes[ki].0.clone());
                proof {
                    assert(crate::schema::table_keys(sv.classes)[ki as int] == schema.classes@[
                        ki as int
                    ].0@);
                    assert(strutil::dv(keys@) =~= crate::schema::table_keys(sv.classes).take(
                        ki + 1 as int,
                    ));
                }
                ki = ki + 1;
            }
            proof {
                assert(crate::schema::table_keys(sv.classes).take(schema.classes@.len() as int)
                    =~= crate::schema::table_keys(sv.classes));
                assert(crate::schema::table_keys(sv.classes).len() == schema.classes@.len());
            }
            let available: String = if keys.len() > 10 {
                let mut a = strutil::join_first(&keys, 10);
                a.append(" ... and ");
                let cnt = strutil::u64_to_string((keys.len() - 10) as u64);
                a.append(cnt.as_str());
                a.append(" more");
                proof {
                    assert(a@ =~= available_hint(sv.classes));
                }
                a
            } else {
                let a = strutil::join_first(&keys, keys.len());
                proof {
                    assert(strutil::dv(keys@).take(keys@.len() as int) =~= strutil::dv(keys@));
                }
                a
            };
            return Err(Error::ClassNotFound { name: class_names[vi].clone(), available });
        }
        vi = vi + 1;
    }
    proof {
        assert(names.skip(class_names@.len() as int) =~= Seq::<Seq<char>>::empty());
    }
    let slug = version_to_slug(schema.version.as_str());
    let ghost slugv = seq!['v'] + slug_of(sv.version);
    // Resolve which objects are needed across the whole run.
    let needed_objects = resolve_object_graph(schema, class_names);
    let ghost nd = strutil::dv(needed_objects@);
    let mut stats = GenerationStats::default();
    let mut files: Vec<GeneratedFile> = Vec::new();
    // Collect the categories of the requested classes, sorted.
    let mut cats: Vec<String> = Vec::new();
    let mut gi: usize = 0;
    proof {
        assert(names.take(0) =~= Seq::<Seq<char>>::empty());
        assert(strutil::dv(cats@) =~= categories_of(sv.classes, names.take(0)));
        assert(strutil::strictly_sorted(strutil::dv(cats@)));
    }
    while gi < class_names.len()
        invariant
            gi <= class_names.len(),
            strutil::dv(cats@) == categories_of(sv.classes, names.take(gi as int)),
            strutil::strictly_sorted(strutil::dv(cats@)),
        decreases class_names.len() - gi,
    {
        proof {
            assert(names.take(gi + 1 as int).drop_last() =~= names.take(gi as int));
            assert(names.take(gi + 1 as int).last() == names[gi as int]);
            assert(names[gi as int] == class_names@[gi as int]@);
        }
        match crate::schema::entry_find(&schema.classes, class_names[gi].as_str()) {
            Some(ci) => {
                let cls = &schema.classes[ci].1;
                strutil::set_insert(&mut cats, cls.category.clone());
            },
            None => {
                proof {
                    lemma_first_missing_found(sv.classes, names, gi as int);
                    assert(false);
                }
            },
        }
        gi = gi + 1;
    }
    proof {
        assert(names.take(class_names@.len() as int) =~= names);
    }
    let ghost catsv = strutil::dv(cats@);
    // Emit the per-category files.
    let mut ci: usize = 0;
    proof {
        assert(catsv.take(0) =~= Seq::<Seq<char>>::empty());
        assert(files_view(files@) =~= render_categories(sv, names, catsv.take(0), slugv));
    }
    while ci < cats.len()
        invariant
            ci <= cats.len(),
            files_view(files@) == render_categories(sv, names, catsv.take(ci as int), slugv),
            stats == stats_categories(sv, names, catsv.take(ci as int), stats_zero()),
        decreases cats.len() - ci,
    {
        proof {
            assert(catsv.take(ci + 1 as int).drop_last() =~= catsv.take(ci as int));
            assert(catsv.take(ci + 1 as int).last() == catsv[ci as int]);
            assert(catsv[ci as int] == cats@[ci as int]@);
        }
        let cat = &cats[ci];
        let selected = collect_category_classes(schema, class_names, cat.as_str());
        let events_text = generate_events_proto(
            slug.as_str(),
            cat.as_str(),
            &selected,
            &schema.objects,
            &mut stats,
        );
        let enums_text = generate_class_enums_proto(
            slug.as_str(),
            cat.as_str(),
            &selected,
            &mut stats,
        );
        let mut p1 = String::new();
        p1.append("ocsf/");
        p1.append(slug.as_str());
        p1.append("/events/");
        p1.append(cat.as_str());
        p1.append("/");
        p1.append(cat.as_str());
        p1.append(".proto");
        let mut p2 = String::new();
        p2.append("ocsf/");
        p2.append(slug.as_str());
        p2.append("/events/");
        p2.append(cat.as_str());
        p2.append("/enums/enums.proto");
        proof {
            assert(p1@ =~= events_file_path(slugv, catsv[ci as int]));
            assert(p2@ =~= class_enums_file_path(slugv, catsv[ci as int]));
        }
        files.push(GeneratedFile { path: p1, content: events_text });
        files.push(GeneratedFile { path: p2, content: enums_text });
        proof {
            assert(files_view(files@) =~= render_categories(
                sv,
                names,
                catsv.take(ci + 1 as int),
                slugv,
            ));
        }
        ci = ci + 1;
    }
    proof {
        assert(catsv.take(cats@.len() as int) =~= catsv);
    }
    stats.classes_generated = class_names.len();
    // Emit the shared object files.
    let objects_text = generate_objects_proto(slug.as_str(), schema, &needed_objects, &mut stats);
    let object_enums_text = generate_object_enums_proto(
        slug.as_str(),
        schema,
        &needed_objects,
        &mut stats,
    );
    stats.objects_generated = needed_objects.len();
    let map_text = generate_enum_value_map(schema, class_names, &needed_objects);
    let ghost files_before = files_view(files@);
    let mut p3 = String::new();
    p3.append("ocsf/");
    p3.append(slug.as_str());
    p3.append("/objects/objects.proto");
    let mut p4 = String::new();
    p4.append("ocsf/");
    p4.append(slug.as_str());
    p4.append("/objects/enums/enums.proto");
    let mut p5 = String::new();
    p5.append("ocsf/");
    p5.append(slug.as_str());
    p5.append("/enum-value-map.json");
    proof {
        assert(p3@ =~= "ocsf/"@ + slugv + "/objects/objects.proto"@);
        assert(p4@ =~= "ocsf/"@ + slugv + "/objects/enums/enums.proto"@);
        assert(p5@ =~= "ocsf/"@ + slugv + "/enum-value-map.json"@);
    }
    files.push(GeneratedFile { path: p3, content: objects_text });
    files.push(GeneratedFile { path: p4, content: object_enums_text });
    files.push(GeneratedFile { path: p5, content: map_text });
    proof {
        assert(files_view(files@) =~= render_all(sv, names, nd));
        assert(stats == stats_all(sv, names, nd));
        assert(crate::graph::closure_post(sv, names, nd));
    }
    Ok(GenerationOutput { files, stats })
}


// ── Stated properties ──────────────────────────────────────────────────

/// Determinism: two runs over the same schema and class list produce the
/// same files and the same statistics. Stated for schemas whose reference
/// names do not collide after sanitizing; with a collision the needed-set
/// contract pins only soundness, not the full set.
pub proof fn lemma_generate_deterministic(
    sv: SchemaView,
    names: Seq<Seq<char>>,
    f1: Seq<FileView>,
    s1: GenerationStats,
    f2: Seq<FileView>,
    s2: GenerationStats,
)
    requires
        crate::graph::no_canon_collision(sv, names),
        generate_post(sv, names, f1, s1),
        generate_post(sv, names, f2, s2),
    ensures
        f1 == f2,
        s1 == s2,
{
    let n1 = choose|needed: Seq<Seq<char>>|
        #[trigger] crate::graph::closure_post(sv, names, needed) && f1 == render_all(
            sv,
            names,
            needed,
        ) && s1 == stats_all(sv, names, needed);
    let n2 = choose|needed: Seq<Seq<char>>|
        #[trigger] crate::graph::closure_post(sv, names, needed) && f2 == render_all(
            sv,
            names,
            needed,
        ) && s2 == stats_all(sv, names, needed);
    assert forall|c: Seq<char>| #[trigger] n1.contains(c) implies #[trigger] n2.contains(c) by {
        assert(crate::graph::in_needed_closure(sv, names, c));
    }
    assert forall|c: Seq<char>| #[trigger] n2.contains(c) implies #[trigger] n1.contains(c) by {
        assert(crate::graph::in_needed_closure(sv, names, c));
    }
    strutil::lemma_sorted_same_membership(n1, n2);
}

/// An attribute whose value table is all integer-keyed always yields a
/// reference to its synthesized enumeration; a table with any
/// non-integer key always yields the plain scalar type instead.
pub proof fn lemma_enum_scalar_split(
    attr: AttributeView,
    attr_name: Seq<char>,
    owner_upper: Seq<char>,
    enum_ns: Seq<char>,
    slug: Seq<char>,
    objects: Seq<(Seq<char>, ObjectView)>,
)
    requires
        attr.type_tag != "object_t"@,
        attr.enum_values is Some,
    ensures
        is_integer_table(attr.enum_values->0) ==> field_type_spec(
            attr,
            attr_name,
            owner_upper,
            enum_ns,
            slug,
            objects,
        ) == enum_ns + owner_upper + "_"@ + str_upper(attr_name),
        !is_integer_table(attr.enum_values->0) ==> field_type_spec(
            attr,
            attr_name,
            owner_upper,
            enum_ns,
            slug,
            objects,
        ) == scalar_or_string(attr.type_tag),
{
}

/// An object reference to an object with no emittable attribute always
/// degrades to a plain string field, whatever the rest of the attribute
/// says: a deliberate degradation, not an error, so no fallback counter
/// moves either.
pub proof fn lemma_empty_object_degrades(
    attr: AttributeView,
    attr_name: Seq<char>,
    owner_upper: Seq<char>,
    enum_ns: Seq<char>,
    slug: Seq<char>,
    objects: Seq<(Seq<char>, ObjectView)>,
    stats: GenerationStats,
)
    requires
        attr.type_tag == "object_t"@,
        lookup_object_view(objects, ref_target(attr)) matches Some(o) && !has_emittable_attrs(o),
    ensures
        object_ref_type(objects, attr, slug) == "string"@,
        field_type_spec(attr, attr_name, owner_upper, enum_ns, slug, objects) == "string"@,
        unknown_delta(objects, attr) == 0,
        string_enum_delta(attr) == 0,
        field_stats_after(stats, objects, attr) == stats,
{
}

} // verus!

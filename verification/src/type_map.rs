//! Maps OCSF attribute type tags to Protocol Buffer type strings, and OCSF
//! names and captions to proto identifiers.

use vstd::prelude::*;

use crate::text;

verus! {

/// The string-family type tags, all of which map to `string`.
pub open spec fn is_string_family(t: Seq<char>) -> bool {
    ||| t == "string_t"@
    ||| t == "hostname_t"@
    ||| t == "ip_t"@
    ||| t == "mac_t"@
    ||| t == "url_t"@
    ||| t == "email_t"@
    ||| t == "file_path_t"@
    ||| t == "file_name_t"@
    ||| t == "file_hash_t"@
    ||| t == "subnet_t"@
    ||| t == "uuid_t"@
    ||| t == "username_t"@
    ||| t == "process_name_t"@
    ||| t == "resource_uid_t"@
    ||| t == "datetime_t"@
    ||| t == "bytestring_t"@
    ||| t == "reg_key_path_t"@
}

/// The proto scalar type for an OCSF type tag: `None` only for `object_t`,
/// and `string` for any unrecognized tag.
pub open spec fn scalar_type_of(t: Seq<char>) -> Option<Seq<char>> {
    if is_string_family(t) {
        Some("string"@)
    } else if t == "json_t"@ {
        Some("string"@)
    } else if t == "integer_t"@ || t == "port_t"@ {
        Some("int32"@)
    } else if t == "long_t"@ || t == "timestamp_t"@ {
        Some("int64"@)
    } else if t == "float_t"@ {
        Some("double"@)
    } else if t == "boolean_t"@ {
        Some("bool"@)
    } else if t == "object_t"@ {
        None
    } else {
        Some("string"@)
    }
}

/// Whether the tag is one the mapping table recognizes; an unrecognized
/// tag still maps to `string`, but callers count it as a fallback.
pub open spec fn is_known_tag(t: Seq<char>) -> bool {
    ||| is_string_family(t)
    ||| t == "json_t"@
    ||| t == "integer_t"@
    ||| t == "port_t"@
    ||| t == "long_t"@
    ||| t == "timestamp_t"@
    ||| t == "float_t"@
    ||| t == "boolean_t"@
    ||| t == "object_t"@
}

fn is_string_family_tag(type_tag: &str) -> (r: bool)
    ensures
        r == is_string_family(type_tag@),
{
    let t = type_tag;
    text::str_eq(t, "string_t") || text::str_eq(t, "hostname_t") || text::str_eq(t, "ip_t")
        || text::str_eq(t, "mac_t") || text::str_eq(t, "url_t") || text::str_eq(t, "email_t")
        || text::str_eq(t, "file_path_t") || text::str_eq(t, "file_name_t") || text::str_eq(
        t,
        "file_hash_t",
    ) || text::str_eq(t, "subnet_t") || text::str_eq(t, "uuid_t") || text::str_eq(t, "username_t")
        || text::str_eq(t, "process_name_t") || text::str_eq(t, "resource_uid_t") || text::str_eq(
        t,
        "datetime_t",
    ) || text::str_eq(t, "bytestring_t") || text::str_eq(t, "reg_key_path_t")
}

/// Map an OCSF type name to a proto3 scalar type string.
///
/// Returns `None` for `object_t`: object references are resolved by the
/// caller from the attribute's object type. Unrecognized tags fall back
/// to `string`.
pub fn ocsf_to_proto_type(type_tag: &str) -> (r: Option<&'static str>)
    ensures
        r is Some <==> scalar_type_of(type_tag@) is Some,
        r matches Some(p) ==> Some(p@) == scalar_type_of(type_tag@),
{
    if is_string_family_tag(type_tag) {
        Some("string")
    } else if text::str_eq(type_tag, "json_t") {
        // json_t maps to string, not a structured dynamic type, which would
        // break the serialization guarantees of the generated types.
        Some("string")
    } else if text::str_eq(type_tag, "integer_t") || text::str_eq(type_tag, "port_t") {
        Some("int32")
    } else if text::str_eq(type_tag, "long_t") || text::str_eq(type_tag, "timestamp_t") {
        Some("int64")
    } else if text::str_eq(type_tag, "float_t") {
        Some("double")
    } else if text::str_eq(type_tag, "boolean_t") {
        Some("bool")
    } else if text::str_eq(type_tag, "object_t") {
        None
    } else {
        Some("string")
    }
}

/// Whether the mapping table recognizes this tag.
pub fn known_type_tag(type_tag: &str) -> (r: bool)
    ensures
        r == is_known_tag(type_tag@),
{
    is_string_family_tag(type_tag) || text::str_eq(type_tag, "json_t") || text::str_eq(
        type_tag,
        "integer_t",
    ) || text::str_eq(type_tag, "port_t") || text::str_eq(type_tag, "long_t") || text::str_eq(
        type_tag,
        "timestamp_t",
    ) || text::str_eq(type_tag, "float_t") || text::str_eq(type_tag, "boolean_t") || text::str_eq(
        type_tag,
        "object_t",
    )
}

/// The part of a name after its last `/`: extension-prefixed names such as
/// `win/win_service` collapse to their base name.
pub open spec fn canon_of(s: Seq<char>) -> Seq<char>
    decreases s.len(),
{
    if s.len() == 0 {
        Seq::<char>::empty()
    } else if s.last() == '/' {
        Seq::<char>::empty()
    } else {
        canon_of(s.drop_last()) + seq![s.last()]
    }
}

/// Sanitize an OCSF object name for use as a lookup key by stripping any
/// extension prefix: `win/win_service` becomes `win_service`.
pub fn sanitize_object_name(s: &str) -> (r: String)
    ensures
        r@ == canon_of(s@),
{
    let cs = text::chars_vec(s);
    let mut i: usize = cs.len();
    proof {
        assert(s@.take(cs@.len() as int) =~= s@);
        assert(s@.skip(cs@.len() as int) =~= Seq::<char>::empty());
        assert(canon_of(s@) + Seq::<char>::empty() =~= canon_of(s@));
    }
    while i > 0 && cs[i - 1] != '/'
        invariant
            i <= cs.len(),
            cs@ == s@,
            canon_of(s@) == canon_of(s@.take(i as int)) + s@.skip(i as int),
        decreases i,
    {
        proof {
            let t = s@.take(i as int);
            assert(t.last() == s@[i - 1]);
            assert(t.drop_last() =~= s@.take(i - 1 as int));
            assert(canon_of(s@.take(i - 1 as int)) + seq![s@[i - 1]] + s@.skip(i as int) =~= canon_of(
                s@.take(i - 1 as int),
            ) + s@.skip(i - 1 as int));
        }
        i = i - 1;
    }
    proof {
        if i > 0 {
            let t = s@.take(i as int);
            assert(t.last() == s@[i - 1]);
            assert(canon_of(t) =~= Seq::<char>::empty());
            assert(canon_of(s@) =~= s@.skip(i as int));
        } else {
            assert(s@.take(0) =~= Seq::<char>::empty());
            assert(canon_of(Seq::<char>::empty()) =~= Seq::<char>::empty());
            assert(canon_of(s@) =~= s@.skip(0));
        }
    }
    let mut out = String::new();
    let mut j: usize = i;
    while j < cs.len()
        invariant
            i <= j <= cs.len(),
            cs@ == s@,
            canon_of(s@) == s@.skip(i as int),
            out@ == s@.skip(i as int).take(j - i),
        decreases cs.len() - j,
    {
        text::push_char(&mut out, cs[j]);
        proof {
            assert(s@.skip(i as int).take(j + 1 - i) =~= s@.skip(i as int).take(j - i) + seq![
                s@[j as int],
            ]);
        }
        j = j + 1;
    }
    proof {
        assert(s@.skip(i as int).take(cs@.len() - i) =~= s@.skip(i as int));
    }
    out
}


pub proof fn lemma_canon_no_slash(s: Seq<char>)
    ensures
        forall|i: int| 0 <= i < canon_of(s).len() ==> #[trigger] canon_of(s)[i] != '/',
    decreases s.len(),
{
    if s.len() > 0 && s.last() != '/' {
        lemma_canon_no_slash(s.drop_last());
        assert forall|i: int| 0 <= i < canon_of(s).len() implies #[trigger] canon_of(s)[i] != '/' by {
            if i < canon_of(s).len() - 1 {
                assert(canon_of(s)[i] == canon_of(s.drop_last())[i]);
            } else {
                assert(canon_of(s)[i] == s.last());
            }
        }
    }
}

pub proof fn lemma_canon_of_slash_free(s: Seq<char>)
    requires
        forall|i: int| 0 <= i < s.len() ==> #[trigger] s[i] != '/',
    ensures
        canon_of(s) == s,
    decreases s.len(),
{
    if s.len() > 0 {
        assert(s.last() != '/');
        let s0 = s.drop_last();
        assert(forall|i: int| 0 <= i < s0.len() ==> #[trigger] s0[i] != '/') by {
            assert(forall|i: int| 0 <= i < s0.len() ==> s0[i] == s[i]);
        }
        lemma_canon_of_slash_free(s0);
        assert(canon_of(s) =~= s);
    }
}

/// Sanitizing is idempotent: a canonical name has no separator left.
pub proof fn lemma_canon_idempotent(s: Seq<char>)
    ensures
        canon_of(canon_of(s)) == canon_of(s),
{
    lemma_canon_no_slash(s);
    lemma_canon_of_slash_free(canon_of(s));
}

/// PascalCase rendering of the remainder of a name: `_` separates segments,
/// the first character of each segment gets its full uppercase mapping, and
/// the rest pass through unchanged.
pub open spec fn pascal_seq(s: Seq<char>, at_start: bool) -> Seq<char>
    decreases s.len(),
{
    if s.len() == 0 {
        Seq::<char>::empty()
    } else if s[0] == '_' {
        pascal_seq(s.drop_first(), true)
    } else if at_start {
        text::char_upper(s[0]) + pascal_seq(s.drop_first(), false)
    } else {
        seq![s[0]] + pascal_seq(s.drop_first(), false)
    }
}

/// The PascalCase form of a name, after stripping any extension prefix.
pub open spec fn pascal_of(s: Seq<char>) -> Seq<char> {
    pascal_seq(canon_of(s), true)
}

/// Convert a snake_case OCSF name to PascalCase for proto message names,
/// stripping extension prefixes: `win/win_service` becomes `WinService`.
pub fn to_pascal_case(s: &str) -> (r: String)
    ensures
        r@ == pascal_of(s@),
{
    let base = sanitize_object_name(s);
    let cs = text::chars_vec(base.as_str());
    let mut out = String::new();
    let mut at_start: bool = true;
    let mut i: usize = 0;
    proof {
        assert(cs@.skip(0) =~= cs@);
    }
    while i < cs.len()
        invariant
            i <= cs.len(),
            cs@ == canon_of(s@),
            pascal_of(s@) == out@ + pascal_seq(cs@.skip(i as int), at_start),
        decreases cs.len() - i,
    {
        let c = cs[i];
        proof {
            assert(cs@.skip(i as int)[0] == c);
            assert(cs@.skip(i as int).drop_first() =~= cs@.skip(i + 1 as int));
        }
        if c == '_' {
            at_start = true;
        } else if at_start {
            let u = text::upper_char_vec(c);
            let ghost pre = out@;
            let mut k: usize = 0;
            proof {
                assert(text::char_upper(c).take(0) =~= Seq::<char>::empty());
                assert(pre + text::char_upper(c).take(0) =~= pre);
            }
            while k < u.len()
                invariant
                    k <= u.len(),
                    u@ == text::char_upper(c),
                    out@ == pre + text::char_upper(c).take(k as int),
                decreases u.len() - k,
            {
                text::push_char(&mut out, u[k]);
                proof {
                    assert(text::char_upper(c).take(k + 1 as int) =~= text::char_upper(c).take(
                        k as int,
                    ) + seq![text::char_upper(c)[k as int]]);
                }
                k = k + 1;
            }
            proof {
                assert(text::char_upper(c).take(u@.len() as int) =~= text::char_upper(c));
            }
            at_start = false;
        } else {
            text::push_char(&mut out, c);
            at_start = false;
        }
        i = i + 1;
    }
    proof {
        assert(cs@.skip(cs@.len() as int) =~= Seq::<char>::empty());
    }
    out
}

/// The uppercase form of a name: the whole string is taken through
/// `str::to_uppercase`.
pub uninterp spec fn str_upper(s: Seq<char>) -> Seq<char>;

/// Convert a name to SCREAMING_SNAKE_CASE for proto enum type names.
///
/// Relies on `str::to_uppercase`: the uppercase mapping of the string,
/// a function of its characters alone.
#[verifier::external_body]
pub fn to_screaming_snake(s: &str) -> (r: String)
    ensures
        r@ == str_upper(s@),
{
    s.to_uppercase()
}

/// The first character of a character's uppercase mapping, or the character
/// itself if the mapping were empty.
pub open spec fn variant_char(c: char) -> char {
    if text::char_is_alnum(c) {
        if text::char_upper(c).len() > 0 {
            text::char_upper(c)[0]
        } else {
            c
        }
    } else {
        '_'
    }
}

/// Each character mapped through `variant_char`.
pub open spec fn variant_mapped(s: Seq<char>) -> Seq<char> {
    Seq::new(s.len(), |i: int| variant_char(s[i]))
}

/// One left-to-right pass replacing each non-overlapping `__` with `_`.
pub open spec fn collapse_dunder(s: Seq<char>) -> Seq<char>
    decreases s.len(),
{
    if s.len() >= 2 && s[0] == '_' && s[1] == '_' {
        seq!['_'] + collapse_dunder(s.skip(2))
    } else if s.len() >= 1 {
        seq![s[0]] + collapse_dunder(s.skip(1))
    } else {
        Seq::<char>::empty()
    }
}

pub open spec fn trim_front_underscores(s: Seq<char>) -> Seq<char>
    decreases s.len(),
{
    if s.len() > 0 && s[0] == '_' {
        trim_front_underscores(s.drop_first())
    } else {
        s
    }
}

pub open spec fn trim_back_underscores(s: Seq<char>) -> Seq<char>
    decreases s.len(),
{
    if s.len() > 0 && s.last() == '_' {
        trim_back_underscores(s.drop_last())
    } else {
        s
    }
}

/// The enum member identifier derived from a caption: non-alphanumeric
/// characters become `_`, doubled underscores collapse, leading and
/// trailing underscores are trimmed, and letters are uppercased.
pub open spec fn variant_of(s: Seq<char>) -> Seq<char> {
    trim_back_underscores(trim_front_underscores(collapse_dunder(variant_mapped(s))))
}

/// Convert a human-readable caption to a SCREAMING_SNAKE enum variant name:
/// `Service Ticket Request` becomes `SERVICE_TICKET_REQUEST`, and
/// `TLP:AMBER+STRICT` becomes `TLP_AMBER_STRICT`.
pub fn to_enum_variant_name(caption: &str) -> (r: String)
    ensures
        r@ == variant_of(caption@),
{
    let cs = text::chars_vec(caption);
    // map every character
    let mut mv: Vec<char> = Vec::new();
    let mut i: usize = 0;
    while i < cs.len()
        invariant
            i <= cs.len(),
            cs@ == caption@,
            mv@ =~= variant_mapped(caption@).take(i as int),
        decreases cs.len() - i,
    {
        let c = cs[i];
        if text::char_is_alphanumeric(c) {
            let u = text::upper_char_vec(c);
            mv.push(u[0]);
        } else {
            mv.push('_');
        }
        proof {
            assert(variant_mapped(caption@).take(i + 1 as int) =~= variant_mapped(
                caption@,
            ).take(i as int) + seq![variant_char(caption@[i as int])]);
        }
        i = i + 1;
    }
    proof {
        assert(variant_mapped(caption@).take(cs@.len() as int) =~= variant_mapped(caption@));
    }
    let ghost m = variant_mapped(caption@);
    // collapse doubled underscores, one pass, left to right
    let mut cv: Vec<char> = Vec::new();
    let mut j: usize = 0;
    proof {
        assert(m.skip(0) =~= m);
    }
    while j < mv.len()
        invariant
            j <= mv.len(),
            mv@ == m,
            collapse_dunder(m) == cv@ + collapse_dunder(m.skip(j as int)),
        decreases mv.len() - j,
    {
        proof {
            assert(m.skip(j as int)[0] == m[j as int]);
            if j + 1 < m.len() {
                assert(m.skip(j as int)[1] == m[j + 1]);
            }
            assert(m.skip(j as int).skip(1) =~= m.skip(j + 1 as int));
            if j + 2 <= m.len() {
                assert(m.skip(j as int).skip(2) =~= m.skip(j + 2 as int));
            }
        }
        if j + 1 < mv.len() && mv[j] == '_' && mv[j + 1] == '_' {
            cv.push('_');
            j = j + 2;
        } else {
            cv.push(mv[j]);
            j = j + 1;
        }
    }
    proof {
        assert(m.skip(mv@.len() as int) =~= Seq::<char>::empty());
        assert(collapse_dunder(m) == cv@);
    }
    let ghost col = collapse_dunder(m);
    // trim underscores from both ends
    let mut a: usize = 0;
    proof {
        assert(col.skip(0) =~= col);
    }
    while a < cv.len() && cv[a] == '_'
        invariant
            a <= cv.len(),
            cv@ == col,
            trim_front_underscores(col) == trim_front_underscores(col.skip(a as int)),
        decreases cv.len() - a,
    {
        proof {
            assert(col.skip(a as int)[0] == col[a as int]);
            assert(col.skip(a as int).drop_first() =~= col.skip(a + 1 as int));
        }
        a = a + 1;
    }
    proof {
        assert(trim_front_underscores(col) == col.skip(a as int));
    }
    let ghost tf = col.skip(a as int);
    let mut b: usize = cv.len();
    proof {
        assert(tf.take(b - a) =~= tf);
    }
    while b > a && cv[b - 1] == '_'
        invariant
            a <= b <= cv.len(),
            cv@ == col,
            tf == col.skip(a as int),
            trim_back_underscores(tf) == trim_back_underscores(tf.take(b - a)),
        decreases b,
    {
        proof {
            let t = tf.take(b - a);
            assert(t.last() == col[b - 1]);
            assert(t.drop_last() =~= tf.take(b - 1 - a));
        }
        b = b - 1;
    }
    proof {
        let t = tf.take(b - a);
        if b > a {
            assert(t.last() == col[b - 1]);
        }
        assert(trim_back_underscores(t) == t);
        assert(variant_of(caption@) == tf.take(b - a));
    }
    let mut out = String::new();
    let mut k: usize = a;
    while k < b
        invariant
            a <= k <= b <= cv.len(),
            cv@ == col,
            out@ == col.skip(a as int).take(k - a),
        decreases b - k,
    {
        text::push_char(&mut out, cv[k]);
        proof {
            assert(col.skip(a as int).take(k + 1 - a) =~= col.skip(a as int).take(k - a) + seq![
                col[k as int],
            ]);
        }
        k = k + 1;
    }
    out
}

} // verus!

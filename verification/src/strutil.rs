//! Verified string utilities: lexicographic ordering by character code,
//! sorted string sets, decimal numerals, and JSON string escaping.

use vstd::prelude::*;

use crate::text;

verus! {

/// The view of each string in a sequence of strings.
pub open spec fn dv(s: Seq<String>) -> Seq<Seq<char>> {
    s.map_values(|x: String| x@)
}

/// Strict lexicographic order on character sequences, by character code.
/// This is the order `BTreeMap<String, _>` keys have, since UTF-8 byte
/// order agrees with code-point order.
pub open spec fn lex_lt(a: Seq<char>, b: Seq<char>) -> bool
    decreases a.len(),
{
    if b.len() == 0 {
        false
    } else if a.len() == 0 {
        true
    } else if a[0] == b[0] {
        lex_lt(a.drop_first(), b.drop_first())
    } else {
        (a[0] as int) < (b[0] as int)
    }
}

pub proof fn lemma_lex_lt_asym(a: Seq<char>, b: Seq<char>)
    ensures
        !(lex_lt(a, b) && lex_lt(b, a)),
    decreases a.len(),
{
    if a.len() > 0 && b.len() > 0 && a[0] == b[0] {
        lemma_lex_lt_asym(a.drop_first(), b.drop_first());
    }
}

pub proof fn lemma_lex_lt_irrefl(a: Seq<char>)
    ensures
        !lex_lt(a, a),
{
    lemma_lex_lt_asym(a, a);
}

pub proof fn lemma_lex_lt_connex(a: Seq<char>, b: Seq<char>)
    ensures
        lex_lt(a, b) || lex_lt(b, a) || a == b,
    decreases a.len(),
{
    if a.len() == 0 {
        if b.len() == 0 {
            assert(a =~= b);
        }
    } else if b.len() > 0 && a[0] == b[0] {
        lemma_lex_lt_connex(a.drop_first(), b.drop_first());
        if !lex_lt(a, b) && !lex_lt(b, a) {
            assert(a.drop_first() == b.drop_first());
            assert forall|i: int| 0 <= i < a.len() implies a[i] == b[i] by {
                if i > 0 {
                    assert(a.drop_first()[i - 1] == b.drop_first()[i - 1]);
                }
            }
            assert(a =~= b);
        }
    }
}

pub proof fn lemma_lex_lt_trans(a: Seq<char>, b: Seq<char>, c: Seq<char>)
    requires
        lex_lt(a, b),
        lex_lt(b, c),
    ensures
        lex_lt(a, c),
    decreases a.len(),
{
    if a.len() > 0 && b.len() > 0 && c.len() > 0 {
        if a[0] == b[0] && b[0] == c[0] {
            lemma_lex_lt_trans(a.drop_first(), b.drop_first(), c.drop_first());
        }
    }
}

/// Every pair of entries is in strictly increasing lexicographic order.
pub open spec fn strictly_sorted(s: Seq<Seq<char>>) -> bool {
    forall|i: int, j: int| 0 <= i < j < s.len() ==> lex_lt(#[trigger] s[i], #[trigger] s[j])
}

/// Insert a string into a sorted set of strings, keeping it sorted and
/// duplicate-free: entries greater than `x` stay to its right, and an
/// entry equal to `x` leaves the set unchanged.
pub open spec fn sorted_set_insert(s: Seq<Seq<char>>, x: Seq<char>) -> Seq<Seq<char>>
    decreases s.len(),
{
    if s.len() == 0 {
        seq![x]
    } else if lex_lt(s.last(), x) {
        s + seq![x]
    } else if s.last() == x {
        s
    } else {
        sorted_set_insert(s.drop_last(), x) + seq![s.last()]
    }
}

pub proof fn lemma_sorted_set_insert_props(s: Seq<Seq<char>>, x: Seq<char>)
    requires
        strictly_sorted(s),
    ensures
        strictly_sorted(sorted_set_insert(s, x)),
        sorted_set_insert(s, x).contains(x),
        forall|y: Seq<char>|
            #[trigger] sorted_set_insert(s, x).contains(y) <==> s.contains(y) || y == x,
        s.contains(x) ==> sorted_set_insert(s, x) == s,
        !s.contains(x) ==> sorted_set_insert(s, x).len() == s.len() + 1,
    decreases s.len(),
{
    let r = sorted_set_insert(s, x);
    if s.len() == 0 {
        assert(r =~= seq![x]);
        assert(r[0] == x);
        assert(forall|y: Seq<char>| #[trigger] r.contains(y) ==> y == x);
    } else if lex_lt(s.last(), x) {
        assert(r =~= s + seq![x]);
        assert(r[s.len() as int] == x);
        assert forall|i: int, j: int| 0 <= i < j < r.len() implies lex_lt(r[i], r[j]) by {
            if j == s.len() as int {
                if i < s.len() as int - 1 {
                    lemma_lex_lt_trans(s[i], s.last(), x);
                }
            }
        }
        assert forall|y: Seq<char>| s.contains(y) implies !(y == x) by {
            let i = choose|i: int| 0 <= i < s.len() && s[i] == y;
            if i < s.len() - 1 {
                lemma_lex_lt_trans(s[i], s.last(), x);
            }
            assert(lex_lt(y, x));
            lemma_lex_lt_irrefl(x);
        }
        assert(!s.contains(x));
        assert forall|y: Seq<char>| #[trigger] r.contains(y) implies s.contains(y) || y == x by {
            let i = choose|i: int| 0 <= i < r.len() && r[i] == y;
            if i < s.len() {
                assert(s[i] == y);
            }
        }
        assert forall|y: Seq<char>| s.contains(y) implies r.contains(y) by {
            let i = choose|i: int| 0 <= i < s.len() && s[i] == y;
            assert(r[i] == y);
        }
    } else if s.last() == x {
        assert(s[s.len() - 1] == x);
        assert(s.contains(x));
    } else {
        lemma_lex_lt_connex(s.last(), x);
        assert(lex_lt(x, s.last()));
        let s0 = s.drop_last();
        assert(strictly_sorted(s0)) by {
            assert(forall|i: int, j: int|
                0 <= i < j < s0.len() ==> lex_lt(#[trigger] s0[i], #[trigger] s0[j]));
        }
        lemma_sorted_set_insert_props(s0, x);
        let r0 = sorted_set_insert(s0, x);
        assert(r =~= r0 + seq![s.last()]);
        assert(r[r.len() - 1] == s.last());
        // every element of r0 is below s.last()
        assert forall|y: Seq<char>| r0.contains(y) implies lex_lt(y, s.last()) by {
            if s0.contains(y) {
                let i = choose|i: int| 0 <= i < s0.len() && s0[i] == y;
                assert(s[i] == y);
                assert(lex_lt(s[i], s.last()));
            } else {
                assert(y == x);
            }
        }
        assert forall|i: int, j: int| 0 <= i < j < r.len() implies lex_lt(r[i], r[j]) by {
            if j < r.len() - 1 {
                assert(r[i] == r0[i] && r[j] == r0[j]);
            } else {
                assert(r0.contains(r0[i]));
            }
        }
        assert(r0.contains(x));
        let ix = choose|i: int| 0 <= i < r0.len() && r0[i] == x;
        assert(r[ix] == x);
        assert(r.contains(x));
        assert forall|y: Seq<char>| #[trigger] r.contains(y) implies s.contains(y) || y == x by {
            let i = choose|i: int| 0 <= i < r.len() && r[i] == y;
            if i < r0.len() {
                assert(r0.contains(y));
                if s0.contains(y) {
                    let k = choose|k: int| 0 <= k < s0.len() && s0[k] == y;
                    assert(s[k] == y);
                }
            } else {
                assert(y == s.last());
                assert(s[s.len() - 1] == y);
            }
        }
        assert forall|y: Seq<char>| s.contains(y) implies r.contains(y) by {
            let i = choose|i: int| 0 <= i < s.len() && s[i] == y;
            if i < s.len() - 1 {
                assert(s0[i] == y);
                assert(r0.contains(y));
                let k = choose|k: int| 0 <= k < r0.len() && r0[k] == y;
                assert(r[k] == y);
            } else {
                assert(r[r.len() - 1] == y);
            }
        }
        if s.contains(x) {
            // x sits strictly before the last entry, so inserting into the
            // front part changes nothing
            let i = choose|i: int| 0 <= i < s.len() && s[i] == x;
            assert(i < s.len() - 1);
            assert(s0[i] == x);
            assert(s0.contains(x));
            assert(r0 == s0);
            assert(r =~= s);
        } else {
            assert forall|y: Seq<char>| s0.contains(y) implies s.contains(y) by {
                let i = choose|i: int| 0 <= i < s0.len() && s0[i] == y;
                assert(s[i] == y);
            }
            assert(!s0.contains(x));
            assert(r.len() == s.len() + 1);
        }
    }
}

/// Compare two strings in lexicographic character-code order.
pub fn string_lt(a: &String, b: &String) -> (r: bool)
    ensures
        r == lex_lt(a@, b@),
{
    let av = text::chars_vec(a.as_str());
    let bv = text::chars_vec(b.as_str());
    let mut i: usize = 0;
    proof {
        assert(a@.skip(0) =~= a@);
        assert(b@.skip(0) =~= b@);
    }
    while i < av.len() && i < bv.len()
        invariant
            av@ == a@,
            bv@ == b@,
            i <= av.len(),
            i <= bv.len(),
            lex_lt(a@, b@) == lex_lt(a@.skip(i as int), b@.skip(i as int)),
            lex_lt(b@, a@) == lex_lt(b@.skip(i as int), a@.skip(i as int)),
        decreases av.len() - i,
    {
        let ca = av[i];
        let cb = bv[i];
        if ca != cb {
            proof {
                assert(a@.skip(i as int)[0] == ca);
                assert(b@.skip(i as int)[0] == cb);
            }
            return ca < cb;
        }
        proof {
            assert(a@.skip(i as int).drop_first() =~= a@.skip(i + 1 as int));
            assert(b@.skip(i as int).drop_first() =~= b@.skip(i + 1 as int));
        }
        i = i + 1;
    }
    proof {
        assert(a@.skip(i as int).len() == a@.len() - i);
        assert(b@.skip(i as int).len() == b@.len() - i);
    }
    i < bv.len()
}

/// Insert a string into a sorted, duplicate-free vector of strings.
/// Returns whether the string was new.
pub fn set_insert(v: &mut Vec<String>, x: String) -> (added: bool)
    requires
        strictly_sorted(dv(old(v)@)),
    ensures
        dv(final(v)@) == sorted_set_insert(dv(old(v)@), x@),
        strictly_sorted(dv(final(v)@)),
        added == !dv(old(v)@).contains(x@),
{
    let ghost s = dv(v@);
    proof {
        lemma_sorted_set_insert_props(s, x@);
        assert(s.take(s.len() as int) =~= s);
        assert(s.skip(s.len() as int) =~= Seq::<Seq<char>>::empty());
        assert(sorted_set_insert(s, x@) + Seq::<Seq<char>>::empty() =~= sorted_set_insert(s, x@));
    }
    let mut i: usize = v.len();
    while i > 0 && string_lt(&x, &v[i - 1])
        invariant
            i <= v.len(),
            dv(v@) == s,
            strictly_sorted(s),
            sorted_set_insert(s, x@) == sorted_set_insert(s.take(i as int), x@) + s.skip(i as int),
        decreases i,
    {
        proof {
            let t = s.take(i as int);
            assert(t.last() == s[i - 1]);
            assert(s[i - 1] == v@[i - 1]@);
            assert(lex_lt(x@, t.last()));
            lemma_lex_lt_asym(x@, t.last());
            if t.last() == x@ {
                lemma_lex_lt_asym(x@, t.last());
                assert(false);
            }
            assert(sorted_set_insert(t, x@) == sorted_set_insert(t.drop_last(), x@) + seq![
                t.last(),
            ]);
            assert(t.drop_last() =~= s.take(i - 1 as int));
            assert(sorted_set_insert(s.take(i - 1 as int), x@) + seq![s[i - 1]] + s.skip(i as int)
                =~= sorted_set_insert(s.take(i - 1 as int), x@) + s.skip(i - 1 as int));
        }
        i = i - 1;
    }
    if i > 0 && x.eq(&v[i - 1]) {
        proof {
            let t = s.take(i as int);
            assert(t.last() == s[i - 1]);
            assert(t.last() == x@);
            assert(t.len() > 0);
            assert(sorted_set_insert(t, x@) == t) by {
                if lex_lt(t.last(), x@) {
                    lemma_lex_lt_asym(t.last(), x@);
                    assert(lex_lt(x@, x@) == lex_lt(t.last(), x@));
                }
            }
            assert(t + s.skip(i as int) =~= s);
            assert(s[i - 1] == x@);
            assert(s.contains(x@));
        }
        false
    } else {
        proof {
            let t = s.take(i as int);
            if i > 0 {
                assert(t.last() == s[i - 1]);
                assert(s[i - 1] == v@[i - 1]@);
                assert(!lex_lt(x@, t.last()));
                assert(t.last() != x@);
                lemma_lex_lt_connex(t.last(), x@);
                assert(lex_lt(t.last(), x@));
                assert(sorted_set_insert(t, x@) == t + seq![x@]);
            } else {
                assert(t =~= Seq::<Seq<char>>::empty());
                assert(sorted_set_insert(t, x@) =~= seq![x@]);
                assert(t + seq![x@] =~= seq![x@]);
            }
            assert(sorted_set_insert(s, x@) =~= t + seq![x@] + s.skip(i as int));
        }
        let ghost old_v = v@;
        v.insert(i, x);
        proof {
            assert(dv(v@) =~= dv(old_v).take(i as int) + seq![v@[i as int]@] + dv(old_v).skip(
                i as int,
            ));
            assert(dv(old_v).take(i as int) =~= s.take(i as int));
            assert(dv(old_v).skip(i as int) =~= s.skip(i as int));
            if s.contains(x@) {
                lemma_sorted_set_insert_props(s, x@);
                assert(sorted_set_insert(s, x@).len() == s.len());
                assert(dv(v@).len() == s.len() + 1);
                assert(false);
            }
        }
        true
    }
}


/// Two strictly sorted string sets with the same members are the same
/// sequence.
pub proof fn lemma_sorted_same_membership(a: Seq<Seq<char>>, b: Seq<Seq<char>>)
    requires
        strictly_sorted(a),
        strictly_sorted(b),
        forall|c: Seq<char>| #[trigger] a.contains(c) <==> #[trigger] b.contains(c),
    ensures
        a == b,
    decreases a.len(),
{
    if a.len() == 0 {
        if b.len() > 0 {
            assert(b.contains(b[0]));
            assert(a.contains(b[0]));
            assert(false);
        }
        assert(a =~= b);
    } else {
        assert(a.contains(a.last()));
        assert(b.contains(a.last()));
        let i = choose|i: int| 0 <= i < b.len() && b[i] == a.last();
        if i < b.len() - 1 {
            assert(lex_lt(b[i], b[b.len() - 1]));
            assert(b.contains(b.last()));
            assert(a.contains(b.last()));
            let j = choose|j: int| 0 <= j < a.len() && a[j] == b.last();
            if j < a.len() - 1 {
                assert(lex_lt(a[j], a[a.len() - 1]));
                lemma_lex_lt_asym(a.last(), b.last());
                assert(false);
            } else {
                lemma_lex_lt_irrefl(a.last());
                assert(false);
            }
        }
        assert(a.last() == b.last());
        let a0 = a.drop_last();
        let b0 = b.drop_last();
        assert(strictly_sorted(a0)) by {
            assert(forall|x: int, y: int| 0 <= x < y < a0.len() ==> lex_lt(#[trigger] a0[x], #[trigger] a0[y]));
        }
        assert(strictly_sorted(b0)) by {
            assert(forall|x: int, y: int| 0 <= x < y < b0.len() ==> lex_lt(#[trigger] b0[x], #[trigger] b0[y]));
        }
        assert forall|c: Seq<char>| #[trigger] a0.contains(c) implies b0.contains(c) by {
            let k = choose|k: int| 0 <= k < a0.len() && a0[k] == c;
            assert(a[k] == c);
            assert(lex_lt(c, a.last()));
            assert(a.contains(c));
            assert(b.contains(c));
            let m = choose|m: int| 0 <= m < b.len() && b[m] == c;
            if m == b.len() - 1 {
                lemma_lex_lt_irrefl(c);
                assert(false);
            }
            assert(b0[m] == c);
        }
        assert forall|c: Seq<char>| #[trigger] b0.contains(c) implies a0.contains(c) by {
            let k = choose|k: int| 0 <= k < b0.len() && b0[k] == c;
            assert(b[k] == c);
            assert(lex_lt(c, b.last()));
            assert(b.contains(c));
            assert(a.contains(c));
            let m = choose|m: int| 0 <= m < a.len() && a[m] == c;
            if m == a.len() - 1 {
                lemma_lex_lt_irrefl(c);
                assert(false);
            }
            assert(a0[m] == c);
        }
        lemma_sorted_same_membership(a0, b0);
        assert(a.len() == b.len());
        assert forall|k: int| 0 <= k < a.len() implies a[k] == b[k] by {
            if k < a.len() - 1 {
                assert(a0[k] == b0[k]);
            }
        }
        assert(a =~= b);
    }
}

/// The decimal digits of a natural number, most significant first.
pub open spec fn dec_str(n: nat) -> Seq<char>
    decreases n,
{
    if n < 10 {
        seq![digit_char(n)]
    } else {
        dec_str(n / 10) + seq![digit_char(n % 10)]
    }
}

/// The decimal numeral of an integer, with a leading `-` when negative.
pub open spec fn int_str(n: int) -> Seq<char> {
    if n < 0 {
        seq!['-'] + dec_str((-n) as nat)
    } else {
        dec_str(n as nat)
    }
}

pub open spec fn digit_char(d: nat) -> char {
    if d == 0 {
        '0'
    } else if d == 1 {
        '1'
    } else if d == 2 {
        '2'
    } else if d == 3 {
        '3'
    } else if d == 4 {
        '4'
    } else if d == 5 {
        '5'
    } else if d == 6 {
        '6'
    } else if d == 7 {
        '7'
    } else if d == 8 {
        '8'
    } else {
        '9'
    }
}

fn digit_to_char(d: u64) -> (c: char)
    requires
        d < 10,
    ensures
        c == digit_char(d as nat),
{
    if d == 0 {
        '0'
    } else if d == 1 {
        '1'
    } else if d == 2 {
        '2'
    } else if d == 3 {
        '3'
    } else if d == 4 {
        '4'
    } else if d == 5 {
        '5'
    } else if d == 6 {
        '6'
    } else if d == 7 {
        '7'
    } else if d == 8 {
        '8'
    } else {
        '9'
    }
}

/// Render a natural number in decimal.
pub fn u64_to_string(n: u64) -> (r: String)
    ensures
        r@ == dec_str(n as nat),
{
    if n == 0 {
        let mut out = String::new();
        text::push_char(&mut out, '0');
        proof {
            assert(out@ =~= seq!['0']);
        }
        return out;
    }
    let mut digits: Vec<char> = Vec::new();
    let mut m: u64 = n;
    proof {
        assert(digits@.reverse() =~= Seq::<char>::empty());
        assert(dec_str(n as nat) + digits@.reverse() =~= dec_str(n as nat));
    }
    while m > 0
        invariant
            dec_str(n as nat) == if m > 0 {
                dec_str(m as nat) + digits@.reverse()
            } else {
                digits@.reverse()
            },
        decreases m,
    {
        let d = m % 10;
        let ghost old_digits = digits@;
        digits.push(digit_to_char(d));
        let m2 = m / 10;
        proof {
            assert(digits@.reverse() =~= seq![digit_char(d as nat)] + old_digits.reverse());
            if m2 > 0 {
                assert(m >= 10);
                assert(dec_str(m as nat) == dec_str((m as nat) / 10) + seq![
                    digit_char((m as nat) % 10),
                ]);
                assert((m as nat) / 10 == m2 as nat);
                assert((m as nat) % 10 == d as nat);
                assert(dec_str(m2 as nat) + digits@.reverse() =~= dec_str(m as nat)
                    + old_digits.reverse());
            } else {
                assert(m < 10);
                assert(dec_str(m as nat) == seq![digit_char(m as nat)]);
                assert(digits@.reverse() =~= dec_str(m as nat) + old_digits.reverse());
            }
        }
        m = m2;
    }
    let mut out = String::new();
    let mut i: usize = 0;
    while i < digits.len()
        invariant
            i <= digits.len(),
            dec_str(n as nat) == digits@.reverse(),
            out@ == digits@.reverse().take(i as int),
        decreases digits.len() - i,
    {
        let c = digits[digits.len() - 1 - i];
        text::push_char(&mut out, c);
        proof {
            assert(digits@.reverse()[i as int] == digits@[digits@.len() - 1 - i]);
            assert(digits@.reverse().take(i + 1 as int) =~= digits@.reverse().take(i as int)
                + seq![digits@.reverse()[i as int]]);
        }
        i = i + 1;
    }
    proof {
        assert(digits@.reverse().take(digits@.len() as int) =~= digits@.reverse());
    }
    out
}

/// Render a signed integer in decimal.
pub fn i64_to_string(n: i64) -> (r: String)
    ensures
        r@ == int_str(n as int),
{
    if n < 0 {
        let m: u64 = (-(n as i128)) as u64;
        proof {
            assert(m as nat == (-(n as int)) as nat);
        }
        let digits = u64_to_string(m);
        let mut out = String::new();
        text::push_char(&mut out, '-');
        out.append(digits.as_str());
        proof {
            assert(out@ =~= seq!['-'] + dec_str((-(n as int)) as nat));
        }
        out
    } else {
        u64_to_string(n as u64)
    }
}


/// A decimal digit character.
pub open spec fn is_dec_digit(c: char) -> bool {
    ('0' as int) <= (c as int) && (c as int) <= ('9' as int)
}

pub open spec fn digit_of(c: char) -> int {
    (c as int) - ('0' as int)
}

pub open spec fn all_dec_digits(s: Seq<char>) -> bool {
    forall|i: int| 0 <= i < s.len() ==> is_dec_digit(#[trigger] s[i])
}

/// The value of a sequence of decimal digits, most significant first.
pub open spec fn digits_val(s: Seq<char>) -> int
    decreases s.len(),
{
    if s.len() == 0 {
        0
    } else {
        digits_val(s.drop_last()) * 10 + digit_of(s.last())
    }
}

/// The digits after an optional leading sign.
pub open spec fn numeral_body(s: Seq<char>) -> Seq<char> {
    if s.len() > 0 && (s[0] == '+' || s[0] == '-') {
        s.drop_first()
    } else {
        s
    }
}

pub open spec fn numeral_neg(s: Seq<char>) -> bool {
    s.len() > 0 && s[0] == '-'
}

/// Whether `s` is a numeral `str::parse::<i32>` accepts: an optional sign,
/// then one or more decimal digits, with the value in `i32` range.
pub open spec fn is_i32_numeral(s: Seq<char>) -> bool {
    let body = numeral_body(s);
    &&& body.len() > 0
    &&& all_dec_digits(body)
    &&& if numeral_neg(s) {
        digits_val(body) <= 0x8000_0000
    } else {
        digits_val(body) <= 0x7fff_ffff
    }
}

pub open spec fn i32_numeral_val(s: Seq<char>) -> int {
    if numeral_neg(s) {
        -digits_val(numeral_body(s))
    } else {
        digits_val(numeral_body(s))
    }
}

pub proof fn lemma_digits_val_bounds(s: Seq<char>)
    requires
        all_dec_digits(s),
    ensures
        digits_val(s) >= 0,
        s.len() > 0 ==> digits_val(s) >= digits_val(s.drop_last()),
    decreases s.len(),
{
    if s.len() > 0 {
        let s0 = s.drop_last();
        assert(all_dec_digits(s0)) by {
            assert(forall|i: int| 0 <= i < s0.len() ==> s0[i] == s[i]);
        }
        lemma_digits_val_bounds(s0);
        assert(digit_of(s.last()) >= 0);
        assert(digits_val(s0) * 10 >= digits_val(s0));
    }
}

pub proof fn lemma_digits_val_prefix(s: Seq<char>, k: int)
    requires
        all_dec_digits(s),
        0 <= k <= s.len(),
    ensures
        digits_val(s.take(k)) <= digits_val(s),
    decreases s.len() - k,
{
    if k < s.len() {
        let t = s.take(k + 1);
        assert(t.drop_last() =~= s.take(k));
        assert(all_dec_digits(t)) by {
            assert(forall|i: int| 0 <= i < t.len() ==> t[i] == s[i]);
        }
        lemma_digits_val_bounds(t);
        lemma_digits_val_prefix(s, k + 1);
        assert(digits_val(s.take(k)) <= digits_val(t));
    } else {
        assert(s.take(k) =~= s);
    }
}

/// Parse a decimal `i32` exactly as `str::parse::<i32>` does: `Some` for an
/// optional sign followed by one or more digits whose value is in range,
/// `None` otherwise.
pub fn parse_i32(s: &str) -> (r: Option<i32>)
    ensures
        r is Some <==> is_i32_numeral(s@),
        r is Some ==> r->0 as int == i32_numeral_val(s@),
{
    let cs = text::chars_vec(s);
    let (start, neg): (usize, bool) = if cs.len() > 0 && (cs[0] == '+' || cs[0] == '-') {
        (1, cs[0] == '-')
    } else {
        (0, false)
    };
    let ghost body = numeral_body(s@);
    proof {
        assert(body =~= s@.skip(start as int));
        assert(neg == numeral_neg(s@));
    }
    if cs.len() == start {
        proof {
            assert(body.len() == 0);
        }
        return None;
    }
    let mut acc: u64 = 0;
    let mut j: usize = start;
    proof {
        assert(body.take(0) =~= Seq::<char>::empty());
    }
    while j < cs.len()
        invariant
            cs@ == s@,
            start <= j <= cs.len(),
            start <= cs.len(),
            body == s@.skip(start as int),
            body == numeral_body(s@),
            neg == numeral_neg(s@),
            acc as int == digits_val(body.take(j - start)),
            all_dec_digits(body.take(j - start)),
            acc <= 0x8000_0000,
        decreases cs.len() - j,
    {
        let c = cs[j];
        proof {
            assert(body[j - start] == s@[j as int]);
        }
        if c < '0' || '9' < c {
            proof {
                assert(!is_dec_digit(body[j - start]));
                assert(!all_dec_digits(body));
                assert(!is_i32_numeral(s@));
            }
            return None;
        }
        let d: u64 = ((text::char_code(c) - 48) as u64);
        proof {
            assert(d as int == digit_of(c));
        }
        let acc2: u64 = acc * 10 + d;
        proof {
            let t = body.take(j + 1 - start);
            assert(t.drop_last() =~= body.take(j - start));
            assert(t.last() == body[j - start]);
            assert(acc2 as int == digits_val(t));
            assert(all_dec_digits(t)) by {
                assert(forall|i: int|
                    0 <= i < t.len() - 1 ==> t[i] == body.take(j - start)[i]);
            }
        }
        if acc2 > 0x8000_0000 {
            proof {
                if is_i32_numeral(s@) {
                    assert(all_dec_digits(body));
                    lemma_digits_val_prefix(body, j + 1 - start);
                    assert(digits_val(body) >= digits_val(body.take(j + 1 - start)));
                    assert(false);
                }
            }
            return None;
        }
        acc = acc2;
        j = j + 1;
    }
    proof {
        assert(body.take(j - start) =~= body);
    }
    if neg {
        if acc == 0x8000_0000 {
            Some(i32::MIN)
        } else {
            Some(-(acc as i32))
        }
    } else {
        if acc > 0x7fff_ffff {
            proof {
                assert(!is_i32_numeral(s@));
            }
            None
        } else {
            Some(acc as i32)
        }
    }
}

/// Entries joined with `, `.
pub open spec fn join_comma(s: Seq<Seq<char>>) -> Seq<char>
    decreases s.len(),
{
    if s.len() == 0 {
        Seq::<char>::empty()
    } else if s.len() == 1 {
        s[0]
    } else {
        join_comma(s.drop_last()) + seq![',', ' '] + s.last()
    }
}

/// Join the first `upto` strings of `v` with `, `.
pub fn join_first(v: &Vec<String>, upto: usize) -> (r: String)
    requires
        upto <= v.len(),
    ensures
        r@ == join_comma(dv(v@).take(upto as int)),
{
    let mut out = String::new();
    let mut i: usize = 0;
    proof {
        assert(dv(v@).take(0) =~= Seq::<Seq<char>>::empty());
    }
    while i < upto
        invariant
            i <= upto,
            upto <= v.len(),
            out@ == join_comma(dv(v@).take(i as int)),
        decreases upto - i,
    {
        if i > 0 {
            text::push_char(&mut out, ',');
            text::push_char(&mut out, ' ');
        }
        out.append(v[i].as_str());
        proof {
            let t = dv(v@).take(i + 1 as int);
            assert(t.drop_last() =~= dv(v@).take(i as int));
            assert(t.last() == v@[i as int]@);
            if i > 0 {
                assert(out@ =~= join_comma(t.drop_last()) + seq![',', ' '] + t.last());
            } else {
                assert(out@ =~= t[0]);
            }
        }
        i = i + 1;
    }
    out
}

pub open spec fn hex_char(d: int) -> char {
    if d == 0 {
        '0'
    } else if d == 1 {
        '1'
    } else if d == 2 {
        '2'
    } else if d == 3 {
        '3'
    } else if d == 4 {
        '4'
    } else if d == 5 {
        '5'
    } else if d == 6 {
        '6'
    } else if d == 7 {
        '7'
    } else if d == 8 {
        '8'
    } else if d == 9 {
        '9'
    } else if d == 10 {
        'a'
    } else if d == 11 {
        'b'
    } else if d == 12 {
        'c'
    } else if d == 13 {
        'd'
    } else if d == 14 {
        'e'
    } else {
        'f'
    }
}

/// How one character appears inside a JSON string literal: quote and
/// backslash escaped, control characters as short escapes or `\u00XX`.
pub open spec fn json_escape_char(c: char) -> Seq<char> {
    if c == '"' {
        seq!['\\', '"']
    } else if c == '\\' {
        seq!['\\', '\\']
    } else if c == '\u{8}' {
        seq!['\\', 'b']
    } else if c == '\t' {
        seq!['\\', 't']
    } else if c == '\n' {
        seq!['\\', 'n']
    } else if c == '\u{c}' {
        seq!['\\', 'f']
    } else if c == '\r' {
        seq!['\\', 'r']
    } else if (c as int) < 32 {
        seq!['\\', 'u', '0', '0', hex_char(c as int / 16), hex_char(c as int % 16)]
    } else {
        seq![c]
    }
}

pub open spec fn json_escape(s: Seq<char>) -> Seq<char>
    decreases s.len(),
{
    if s.len() == 0 {
        Seq::<char>::empty()
    } else {
        json_escape(s.drop_last()) + json_escape_char(s.last())
    }
}

/// Append the JSON-escaped form of `s` to `out`.
pub fn append_json_escaped(out: &mut String, s: &str)
    ensures
        final(out)@ == old(out)@ + json_escape(s@),
{
    let cs = text::chars_vec(s);
    let mut i: usize = 0;
    proof {
        assert(json_escape(s@.take(0)) =~= Seq::<char>::empty());
        assert(old(out)@ + json_escape(s@.take(0)) =~= old(out)@);
    }
    while i < cs.len()
        invariant
            cs@ == s@,
            i <= cs.len(),
            out@ == old(out)@ + json_escape(s@.take(i as int)),
        decreases cs.len() - i,
    {
        let c = cs[i];
        if c == '"' {
            text::push_char(out, '\\');
            text::push_char(out, '"');
        } else if c == '\\' {
            text::push_char(out, '\\');
            text::push_char(out, '\\');
        } else if c == '\u{8}' {
            text::push_char(out, '\\');
            text::push_char(out, 'b');
        } else if c == '\t' {
            text::push_char(out, '\\');
            text::push_char(out, 't');
        } else if c == '\n' {
            text::push_char(out, '\\');
            text::push_char(out, 'n');
        } else if c == '\u{c}' {
            text::push_char(out, '\\');
            text::push_char(out, 'f');
        } else if c == '\r' {
            text::push_char(out, '\\');
            text::push_char(out, 'r');
        } else if ' ' > c {
            let code: u32 = text::char_code(c);
            text::push_char(out, '\\');
            text::push_char(out, 'u');
            text::push_char(out, '0');
            text::push_char(out, '0');
            let hi: u32 = code / 16;
            let lo: u32 = code % 16;
            let hc: char = if hi == 0 { '0' } else { '1' };
            proof {
                assert(c as int / 16 < 2);
                assert(hc == hex_char(c as int / 16));
            }
            text::push_char(out, hc);
            let lc: char = if lo == 0 {
                '0'
            } else if lo == 1 {
                '1'
            } else if lo == 2 {
                '2'
            } else if lo == 3 {
                '3'
            } else if lo == 4 {
                '4'
            } else if lo == 5 {
                '5'
            } else if lo == 6 {
                '6'
            } else if lo == 7 {
                '7'
            } else if lo == 8 {
                '8'
            } else if lo == 9 {
                '9'
            } else if lo == 10 {
                'a'
            } else if lo == 11 {
                'b'
            } else if lo == 12 {
                'c'
            } else if lo == 13 {
                'd'
            } else if lo == 14 {
                'e'
            } else {
                'f'
            };
            proof {
                assert(lc == hex_char(c as int % 16));
            }
            text::push_char(out, lc);
        } else {
            text::push_char(out, c);
        }
        proof {
            let t = s@.take(i + 1 as int);
            assert(t.drop_last() =~= s@.take(i as int));
            assert(t.last() == s@[i as int]);
            assert(out@ =~= old(out)@ + json_escape(t));
        }
        i = i + 1;
    }
    proof {
        assert(s@.take(s@.len() as int) =~= s@);
    }
}

} // verus!

//! Small executable primitives over strings and characters that the rest of
//! the crate builds on. Character iteration is verified against vstd's
//! iterator specification; each remaining trusted item wraps a single std
//! function, and everything else in the crate is verified against them.

use vstd::prelude::*;
use vstd::std_specs::iter::IteratorSpec;

verus! {

/// The characters of a string, collected through the specified `Chars`
/// iterator.
pub fn chars_vec(s: &str) -> (r: Vec<char>)
    ensures
        r@ == s@,
{
    broadcast use vstd::string::group_string_axioms;

    let mut it = s.chars();
    let mut r: Vec<char> = Vec::new();
    proof {
        assert(r@ + it.remaining() =~= s@);
    }
    loop
        invariant
            it.obeys_prophetic_iter_laws(),
            r@ + it.remaining() == s@,
            it.decrease() is Some,
        ensures
            r@ == s@,
        decreases it.decrease()->0,
    {
        let ghost prev = it;
        match it.next() {
            Some(c) => {
                r.push(c);
                proof {
                    assert(prev.remaining().len() > 0);
                    assert(r@ + it.remaining() =~= s@);
                }
            },
            None => {
                proof {
                    assert(it.remaining() =~= Seq::<char>::empty());
                    assert(r@ =~= s@);
                }
                break;
            },
        }
    }
    r
}

/// Relies on `String::push`: appends the given character to the end of the
/// string.
#[verifier::external_body]
pub fn push_char(s: &mut String, c: char)
    ensures
        final(s)@ == old(s)@ + seq![c],
{
    s.push(c);
}

/// The uppercase mapping of a character: one or more characters, a function
/// of the character alone.
pub uninterp spec fn char_upper(c: char) -> Seq<char>;

/// Whether a character is alphanumeric, a function of the character alone.
pub uninterp spec fn char_is_alnum(c: char) -> bool;

/// Relies on `char::to_uppercase`: yields the uppercase mapping of the
/// character, which is always at least one character.
#[verifier::external_body]
pub fn upper_char_vec(c: char) -> (r: Vec<char>)
    ensures
        r@ == char_upper(c),
        r@.len() >= 1,
{
    c.to_uppercase().collect()
}

/// Relies on `char::is_alphanumeric`.
#[verifier::external_body]
pub fn char_is_alphanumeric(c: char) -> (r: bool)
    ensures
        r == char_is_alnum(c),
{
    c.is_alphanumeric()
}

/// Relies on `u32::from`: the `u32` form of a character is its code point.
#[verifier::external_body]
pub fn char_code(c: char) -> (r: u32)
    ensures
        r as int == c as int,
{
    u32::from(c)
}

/// Relies on `str`'s `PartialEq`: two string slices are equal exactly when
/// they consist of the same characters.
#[verifier::external_body]
pub fn str_eq(a: &str, b: &str) -> (r: bool)
    ensures
        r == (a@ == b@),
{
    a == b
}

} // verus!

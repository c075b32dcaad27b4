//! Key normalization: every key is stored and looked up in uppercase form,
//! which makes the store case-insensitive on keys.

use vstd::prelude::*;

verus! {

/// The uppercase form of a character sequence, as the Unicode uppercasing
/// of the standard library produces it.
pub uninterp spec fn upper_of(s: Seq<char>) -> Seq<char>;

/// The ASCII uppercase form of a single character: letters `a` through `z`
/// map to `A` through `Z`, every other character is unchanged.
pub open spec fn ascii_upper_char(c: char) -> char {
    if 97 <= c as u32 <= 122 {
        ((c as u32 - 32) as u8) as char
    } else {
        c
    }
}

/// The ASCII lowercase form of a single character: letters `A` through `Z`
/// map to `a` through `z`, every other character is unchanged.
pub open spec fn ascii_lower_char(c: char) -> char {
    if 65 <= c as u32 <= 90 {
        ((c as u32 + 32) as u8) as char
    } else {
        c
    }
}

/// The ASCII uppercase form of a character sequence.
pub open spec fn ascii_upper(s: Seq<char>) -> Seq<char> {
    s.map_values(|c: char| ascii_upper_char(c))
}

/// The ASCII lowercase form of a character sequence.
pub open spec fn ascii_lower(s: Seq<char>) -> Seq<char> {
    s.map_values(|c: char| ascii_lower_char(c))
}

/// Relies on str::to_uppercase: the result depends on the characters alone,
/// and on ASCII input it maps each letter to its ASCII uppercase form.
#[verifier::external_body]
pub fn to_upper(s: &str) -> (r: String)
    ensures
        r@ == upper_of(s@),
        vstd::utf8::is_ascii_chars(s@) ==> r@ == ascii_upper(s@),
{
    s.to_uppercase()
}

/// Uppercasing an ASCII sequence erases prior ASCII case changes: the
/// uppercase form of the lowercase (or uppercase) form of `s` is the
/// uppercase form of `s` itself.  This is what makes lookups under a
/// re-cased key reach the slot the original key was stored under.
pub proof fn lemma_ascii_upper_recase(s: Seq<char>)
    ensures
        ascii_upper(ascii_lower(s)) == ascii_upper(s),
        ascii_upper(ascii_upper(s)) == ascii_upper(s),
{
    assert(ascii_upper(ascii_lower(s)) =~= ascii_upper(s));
    assert(ascii_upper(ascii_upper(s)) =~= ascii_upper(s));
}

/// Case normalization: a value inserted under key `k` is found again under
/// the ASCII lowercase and the ASCII uppercase forms of `k`, because every
/// lookup normalizes its key to the same uppercase form.  Restricted to
/// ASCII keys: Unicode case mapping does not promise that uppercasing a
/// lowercased key reproduces the key's own uppercase form.
pub proof fn lemma_case_normalization(m: Map<Seq<char>, Seq<char>>, k: Seq<char>, v: Seq<char>)
    ensures
        m.insert(ascii_upper(k), v).contains_key(ascii_upper(ascii_lower(k))),
        m.insert(ascii_upper(k), v)[ascii_upper(ascii_lower(k))] == v,
        m.insert(ascii_upper(k), v).contains_key(ascii_upper(ascii_upper(k))),
        m.insert(ascii_upper(k), v)[ascii_upper(ascii_upper(k))] == v,
{
    lemma_ascii_upper_recase(k);
}

} // verus!

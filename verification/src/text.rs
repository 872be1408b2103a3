//! Turning bytes into text.
use vstd::prelude::*;
use vstd::utf8::{valid_utf8, decode_utf8};
use vstd::std_specs::iter::IteratorSpec;

verus! {

/// Calls `String::from_utf8`, which std documents to succeed exactly on
/// valid UTF-8 and then to hold the characters those bytes encode; the
/// error it returns otherwise is dropped.
#[verifier::external_body]
pub(crate) fn string_from_utf8(bytes: Vec<u8>) -> (r: Option<String>)
    ensures
        r is Some <==> valid_utf8(bytes@),
        r matches Some(s) ==> s@ == decode_utf8(bytes@),
{
    match String::from_utf8(bytes) {
        Ok(s) => Some(s),
        Err(_) => None,
    }
}

/// Whether two string slices hold the same characters.
pub(crate) fn str_equal(a: &str, b: &str) -> (r: bool)
    ensures
        r == (a@ == b@),
{
    let n = a.unicode_len();
    if n != b.unicode_len() {
        return false;
    }
    let mut i: usize = 0;
    while i < n
        invariant
            n == a@.len(),
            n == b@.len(),
            i <= n,
            forall|j: int| 0 <= j < i ==> a@[j] == b@[j],
        decreases n - i,
    {
        if a.get_char(i) != b.get_char(i) {
            return false;
        }
        i = i + 1;
    }
    assert(a@ =~= b@);
    true
}

/// Calls `String::push`, which std documents to append the character to
/// the end of the string.
#[verifier::external_body]
pub(crate) fn push_char(s: &mut String, c: char)
    ensures
        final(s)@ == old(s)@.push(c),
{
    s.push(c)
}

/// Calls `String::clear`, which std documents to remove all contents.
#[verifier::external_body]
pub(crate) fn clear_text(s: &mut String)
    ensures
        final(s)@ == Seq::<char>::empty(),
{
    s.clear()
}

/// The character whose scalar value is `v`, where there is one: not a
/// surrogate and at most 0x10FFFF.
pub open spec fn scalar(v: u32) -> Option<char> {
    if v <= 0xD7FF || (0xE000 <= v && v <= 0x10FFFF) {
        Some(v as char)
    } else {
        None
    }
}

/// Calls `char::from_u32`, which std documents to give the character whose
/// scalar value is `v`, and `None` for a surrogate or a value above
/// 0x10FFFF.
#[verifier::external_body]
pub(crate) fn char_from_u32(v: u32) -> (r: Option<char>)
    ensures
        r == scalar(v),
{
    char::from_u32(v)
}

/// The next item of an iterator, as `Iterator::next` gives it.
pub(crate) fn next_item<I: Iterator>(iter: &mut I) -> (r: Option<I::Item>)
    ensures
        (*final(iter)).obeys_prophetic_iter_laws() == (*old(iter)).obeys_prophetic_iter_laws(),
        (*final(iter)).obeys_prophetic_iter_laws() ==> ((*old(iter)).decrease() is Some <==> (*final(iter)).decrease() is Some),
        (*final(iter)).obeys_prophetic_iter_laws() ==> ({
            if (*old(iter)).remaining().len() > 0 {
                &&& (*final(iter)).remaining() == (*old(iter)).remaining().drop_first()
                &&& r == Some((*old(iter)).remaining()[0])
            } else {
                (*final(iter)).remaining() === (*old(iter)).remaining() && r === None
            }
        }),
        (*final(iter)).obeys_prophetic_iter_laws() && (*old(iter)).remaining().len() > 0 && (*final(iter)).decrease() is Some
            ==> decreases_to!((*old(iter)).decrease()->0 => (*final(iter)).decrease()->0),
{
    iter.next()
}

/// The characters of a string slice.
pub(crate) fn chars_of(s: &str) -> (r: Vec<char>)
    ensures
        r@ == s@,
{
    let mut out: Vec<char> = Vec::new();
    let mut chars = s.chars();
    let ghost all = chars.remaining();
    proof {
        broadcast use vstd::string::axiom_spec_iter;
    }
    loop
        invariant
            chars.obeys_prophetic_iter_laws(),
            chars.decrease() is Some,
            all == s@,
            all.len() >= chars.remaining().len(),
            chars.remaining() == all.skip(all.len() - chars.remaining().len()),
            out@ == all.take(all.len() - chars.remaining().len()),
        ensures
            out@ == s@,
        decreases chars.decrease()->0,
    {
        let ghost done = all.len() - chars.remaining().len();
        match next_item(&mut chars) {
            Some(c) => {
                proof {
                    assert(all.take(done + 1) =~= all.take(done).push(c));
                    assert(chars.remaining() =~= all.skip(all.len() - chars.remaining().len()));
                }
                out.push(c);
            },
            None => {
                proof {
                    assert(all.take(all.len() as int) =~= all);
                }
                break;
            },
        }
    }
    out
}

} // verus!

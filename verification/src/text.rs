//! Small helpers on strings and lists of strings.

use vstd::prelude::*;
use vstd::string::*;
use vstd::utf8::*;

verus! {

/// The texts that a list of strings holds.
pub open spec fn texts(list: Seq<String>) -> Seq<Seq<char>> {
    list.map_values(|s: String| s@)
}

/// Two character sequences with the same UTF-8 bytes are the same.
pub proof fn lemma_same_bytes_same_text(a: Seq<char>, b: Seq<char>)
    requires
        encode_utf8(a) == encode_utf8(b),
    ensures
        a == b,
{
    encode_utf8_decode_utf8(a);
    encode_utf8_decode_utf8(b);
}

/// Whether two strings hold the same text.
pub fn same_text(a: &str, b: &str) -> (out: bool)
    ensures
        out == (a@ == b@),
{
    let x = a.as_bytes();
    let y = b.as_bytes();
    if x.len() != y.len() {
        return false;
    }
    let mut i: usize = 0;
    while i < x.len()
        invariant
            i <= x@.len(),
            x@.len() == y@.len(),
            x@ == a.spec_bytes(),
            y@ == b.spec_bytes(),
            forall|j: int| 0 <= j < i ==> x@[j] == y@[j],
        decreases x@.len() - i,
    {
        if x[i] != y[i] {
            return false;
        }
        i += 1;
    }
    proof {
        assert(x@ =~= y@);
        lemma_same_bytes_same_text(a@, b@);
    }
    true
}

/// Whether the bytes of `text` end with those of `suffix`.
pub open spec fn ends_with(text: Seq<u8>, suffix: Seq<u8>) -> bool {
    text.len() >= suffix.len() && text.subrange(text.len() - suffix.len(), text.len() as int)
        == suffix
}

/// Whether `text` ends with `suffix`.
pub fn has_suffix(text: &str, suffix: &str) -> (out: bool)
    ensures
        out == ends_with(text.spec_bytes(), suffix.spec_bytes()),
{
    let x = text.as_bytes();
    let y = suffix.as_bytes();
    if x.len() < y.len() {
        return false;
    }
    let start: usize = x.len() - y.len();
    let ghost tail = x@.subrange(start as int, x@.len() as int);
    let mut i: usize = 0;
    while i < y.len()
        invariant
            i <= y@.len(),
            start + y@.len() == x@.len(),
            x@.len() <= usize::MAX,
            x@ == text.spec_bytes(),
            y@ == suffix.spec_bytes(),
            tail == x@.subrange(start as int, x@.len() as int),
            forall|j: int| 0 <= j < i ==> tail[j] == y@[j],
        decreases y@.len() - i,
    {
        if x[start + i] != y[i] {
            assert(tail[i as int] != y@[i as int]);
            return false;
        }
        i += 1;
    }
    assert(tail =~= y@);
    true
}

/// Copies a list of strings.
pub fn copy_texts(list: &Vec<String>) -> (out: Vec<String>)
    ensures
        texts(out@) == texts(list@),
{
    let mut out: Vec<String> = Vec::new();
    let mut i: usize = 0;
    while i < list.len()
        invariant
            i <= list@.len(),
            out@.len() == i,
            forall|j: int| 0 <= j < i ==> out@[j]@ == list@[j]@,
        decreases list@.len() - i,
    {
        out.push(list[i].clone());
        i += 1;
    }
    assert(texts(out@) =~= texts(list@));
    out
}

} // verus!

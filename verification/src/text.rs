use vstd::prelude::*;
use vstd::string::StrSliceExecFns;
use vstd::utf8::{encode_utf8, valid_utf8};

verus! {

/// The characters of `s`, in order.
pub fn chars_of(s: &str) -> (chars: Vec<char>)
    ensures
        chars@ == s@,
{
    let n = s.unicode_len();
    let mut chars: Vec<char> = Vec::new();
    let mut i: usize = 0;
    while i < n
        invariant
            n == s@.len(),
            i <= n,
            chars@ == s@.subrange(0, i as int),
        decreases n - i,
    {
        chars.push(s.get_char(i));
        assert(chars@ =~= s@.subrange(0, i + 1));
        i = i + 1;
    }
    assert(s@.subrange(0, n as int) =~= s@);
    chars
}

/// The string made of `chars`, collected by std's `FromIterator<char>` for
/// `String`. Claimed: the string holds exactly these characters, in order.
#[verifier::external_body]
pub(crate) fn string_from_chars(chars: &Vec<char>) -> (s: String)
    ensures
        s@ == chars@,
{
    chars.iter().collect()
}

/// `String::from_utf8`, the result kept only when it is `Ok`. Claimed of
/// the std function, as its documentation gives it: it succeeds exactly
/// when the bytes are valid UTF-8, and the string then holds these bytes.
#[verifier::external_body]
pub(crate) fn string_from_utf8(bytes: Vec<u8>) -> (s: Option<String>)
    ensures
        s is Some <==> valid_utf8(bytes@),
        s matches Some(t) ==> encode_utf8(t@) == bytes@,
{
    String::from_utf8(bytes).ok()
}

} // verus!

//! Bytes as text.

use vstd::prelude::*;
use vstd::string::StringSliceAdditionalSpecFns;
use vstd::utf8::valid_utf8;

verus! {

/// `core::str::Utf8Error`, carried through as it is: nothing is known of
/// what it holds.
#[verifier::external_type_specification]
#[verifier::external_body]
pub struct ExUtf8Error(core::str::Utf8Error);

/// `core::str::from_utf8`: the bytes are returned as text exactly when they
/// are well-formed UTF-8, and the text then has those bytes. Nothing is
/// claimed about the error.
pub assume_specification<'a>[ core::str::from_utf8 ](v: &'a [u8]) -> (r: Result<
    &'a str,
    core::str::Utf8Error,
>)
    ensures
        r is Ok <==> valid_utf8(v@),
        r matches Ok(s) ==> s.spec_bytes() == v@,
;

/// Two texts with the same bytes are the same text.
pub proof fn lemma_same_bytes_same_text(a: &str, b: &str)
    requires
        a.spec_bytes() == b.spec_bytes(),
    ensures
        a@ == b@,
{
    broadcast use vstd::utf8::encode_utf8_decode_utf8;

    assert(vstd::utf8::decode_utf8(vstd::utf8::encode_utf8(a@)) == a@);
    assert(vstd::utf8::decode_utf8(vstd::utf8::encode_utf8(b@)) == b@);
}

/// The bytes of `text`, read back as text.
pub(crate) fn as_text<'a>(bytes: &'a [u8], Ghost(text): Ghost<&str>) -> (r: &'a str)
    requires
        bytes@ == text.spec_bytes(),
    ensures
        r@ == text@,
        r.spec_bytes() == bytes@,
{
    broadcast use vstd::utf8::encode_utf8_valid_utf8;

    match core::str::from_utf8(bytes) {
        Ok(r) => {
            proof {
                lemma_same_bytes_same_text(r, text);
            }
            r
        },
        Err(_) => vstd::pervasive::unreached(),
    }
}

/// A copy of `data` that owns its elements.
pub fn copy_of<T: Copy>(data: &[T]) -> (r: Vec<T>)
    ensures
        r@ == data@,
{
    let mut r: Vec<T> = Vec::with_capacity(data.len());
    let mut i: usize = 0;
    while i < data.len()
        invariant
            i <= data@.len(),
            r@ == data@.take(i as int),
        decreases data@.len() - i,
    {
        r.push(data[i]);
        i = i + 1;
    }
    assert(data@.take(i as int) == data@);
    r
}

} // verus!

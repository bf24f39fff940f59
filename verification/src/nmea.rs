//! ASCII check of NMEA sentence bytes.
use vstd::prelude::*;
use vstd::string::StringSliceAdditionalSpecFns;

verus! {

/// The bytes are all ASCII (below 128).
pub open spec fn all_ascii(bytes: Seq<u8>) -> bool {
    forall|i: int| 0 <= i < bytes.len() ==> #[trigger] bytes[i] < 128
}

/// The characters that ASCII bytes stand for.
pub open spec fn ascii_chars(bytes: Seq<u8>) -> Seq<char> {
    Seq::new(bytes.len(), |i: int| bytes[i] as char)
}

/// A byte sequence is ASCII exactly when each of its bytes is below 128: the
/// empty sequence is, a single byte is when it is below 128, and a concatenation
/// is when both parts are.
pub proof fn lemma_all_ascii_bytewise(s: Seq<u8>, t: Seq<u8>, b: u8)
    ensures
        all_ascii(Seq::<u8>::empty()),
        all_ascii(seq![b]) == (b < 128),
        all_ascii(s + t) == (all_ascii(s) && all_ascii(t)),
        (forall|i: int| 0 <= i < s.len() ==> #[trigger] s[i] < 128) ==> all_ascii(s),
        (exists|i: int| 0 <= i < s.len() && #[trigger] s[i] >= 128) ==> !all_ascii(s),
{
    assert(seq![b][0] == b);
    if all_ascii(s) && all_ascii(t) {
        assert forall|i: int| 0 <= i < (s + t).len() implies #[trigger] (s + t)[i] < 128 by {
            if i < s.len() {
                assert((s + t)[i] == s[i]);
            } else {
                assert((s + t)[i] == t[i - s.len()]);
            }
        }
    }
    if all_ascii(s + t) {
        assert forall|i: int| 0 <= i < s.len() implies #[trigger] s[i] < 128 by {
            assert((s + t)[i] == s[i]);
        }
        assert forall|i: int| 0 <= i < t.len() implies #[trigger] t[i] < 128 by {
            assert((s + t)[s.len() + i] == t[i]);
        }
    }
}

/// Views ASCII bytes as a string slice, through `core::str::from_utf8`.
/// Claimed of it: ASCII bytes are valid UTF-8, so the call succeeds and the
/// string's bytes are the given bytes, each byte being one character.
#[verifier::external_body]
fn str_of_ascii_bytes(bytes: &[u8]) -> (s: &str)
    requires
        all_ascii(bytes@),
    ensures
        s.spec_bytes() == bytes@,
        s@ == ascii_chars(bytes@),
{
    match core::str::from_utf8(bytes) {
        Ok(s) => s,
        Err(_) => "",
    }
}

/// The bytes as a string slice when they are all ASCII, `Err(())` otherwise.
pub fn get_ascii_str<'a>(buffer: &'a [u8]) -> (r: Result<&'a str, ()>)
    ensures
        r is Ok <==> all_ascii(buffer@),
        r matches Ok(s) ==> s.spec_bytes() == buffer@ && s@ == ascii_chars(buffer@),
{
    let mut i: usize = 0;
    while i < buffer.len()
        invariant
            i <= buffer@.len(),
            forall|j: int| 0 <= j < i ==> #[trigger] buffer@[j] < 128,
        decreases buffer@.len() - i,
    {
        if buffer[i] >= 128 {
            return Err(());
        }
        i += 1;
    }
    Ok(str_of_ascii_bytes(buffer))
}

} // verus!

//! NUL-terminated text fields.
use vstd::prelude::*;
use vstd::utf8::{decode_utf8, encode_utf8, valid_utf8};

use crate::reader::{ByteReader, ReadError};

verus! {

/// What `String::from_utf8_lossy` makes of bytes that are not valid UTF-8.
pub uninterp spec fn lossy_utf8_text(b: Seq<u8>) -> Seq<char>;

/// The text that the bytes of a field stand for: the characters that valid
/// UTF-8 encodes, else the lossy decoding.
pub open spec fn text_from_bytes(b: Seq<u8>) -> Seq<char> {
    if valid_utf8(b) {
        decode_utf8(b)
    } else {
        lossy_utf8_text(b)
    }
}

/// The bytes of a text field: the UTF-8 encoding, then a NUL.
pub open spec fn terminated(t: Seq<char>) -> Seq<u8> {
    encode_utf8(t).push(0u8)
}

/// `i` is the first NUL at or after `start`.
pub open spec fn terminator_at(s: Seq<u8>, start: int, i: int) -> bool {
    &&& 0 <= start <= i < s.len()
    &&& s[i] == 0
    &&& forall|j: int| start <= j < i ==> s[j] != 0
}

/// The text field that starts at `start`, with the position just past its
/// NUL; `None` when no NUL follows.
pub open spec fn text_at(s: Seq<u8>, start: int) -> Option<(Seq<char>, int)> {
    if exists|i: int| terminator_at(s, start, i) {
        let i = choose|i: int| terminator_at(s, start, i);
        Some((text_from_bytes(s.subrange(start, i)), i + 1))
    } else {
        None
    }
}

/// There is at most one first NUL.
pub proof fn lemma_terminator_unique(s: Seq<u8>, start: int, i: int, k: int)
    requires
        terminator_at(s, start, i),
        terminator_at(s, start, k),
    ensures
        i == k,
{
    if i < k {
        assert(s[i] != 0);
    } else if k < i {
        assert(s[k] != 0);
    }
}

/// Where the first NUL at or after `start` is `i`, the field ends there.
pub proof fn lemma_text_at(s: Seq<u8>, start: int, i: int)
    requires
        terminator_at(s, start, i),
    ensures
        text_at(s, start) == Some((text_from_bytes(s.subrange(start, i)), i + 1)),
{
    let k = choose|k: int| terminator_at(s, start, k);
    lemma_terminator_unique(s, start, i, k);
}

/// Relies on `String::from_utf8_lossy`: valid UTF-8 gives the characters it
/// encodes; other bytes give a text that depends on the bytes alone.
#[verifier::external_body]
fn utf8_lossy(b: &[u8]) -> (r: String)
    ensures
        valid_utf8(b@) ==> r@ == decode_utf8(b@),
        !valid_utf8(b@) ==> r@ == lossy_utf8_text(b@),
{
    String::from_utf8_lossy(b).into_owned()
}

/// Reads bytes up to and including the next NUL and decodes those before it,
/// lossily, as text. Fails when the data ends before a NUL.
pub fn read_null_string(input: &mut ByteReader) -> (r: Result<String, ReadError>)
    ensures
        final(input).data() == old(input).data(),
        match text_at(old(input).data(), old(input).cursor() as int) {
            None => r == Err::<String, ReadError>(ReadError::UnexpectedEof),
            Some((t, p)) => r matches Ok(v) && v@ == t && final(input).cursor() == p,
        },
{
    let start_pos = input.position();
    let ghost s = input.data();
    let ghost start = start_pos as int;
    let mut buf: Vec<u8> = Vec::new();
    loop
        invariant
            input.data() == s,
            s == old(input).data(),
            start == old(input).cursor(),
            start <= input.cursor(),
            input.cursor() <= s.len(),
            buf@ == s.subrange(start, input.cursor() as int),
            forall|j: int| start <= j < input.cursor() ==> s[j] != 0,
        decreases s.len() - input.cursor(),
    {
        match input.read_byte() {
            Err(e) => {
                proof {
                    assert(!exists|i: int| terminator_at(s, start, i)) by {
                        if exists|i: int| terminator_at(s, start, i) {
                            let i = choose|i: int| terminator_at(s, start, i);
                            assert(s[i] != 0);
                        }
                    }
                }
                return Err(e);
            },
            Ok(b) => {
                if b == 0 {
                    proof {
                        assert(terminator_at(s, start, input.cursor() - 1));
                        lemma_text_at(s, start, input.cursor() - 1);
                    }
                    return Ok(utf8_lossy(buf.as_slice()));
                }
                buf.push(b);
                assert(buf@ =~= s.subrange(start, input.cursor() as int));
            },
        }
    }
}

/// Appends the UTF-8 bytes of `data`, then a NUL.
pub fn write_null_string(output: &mut Vec<u8>, data: &String)
    ensures
        final(output)@ == old(output)@ + terminated(data@),
{
    let bytes = data.as_str().as_bytes();
    let mut i: usize = 0;
    while i < bytes.len()
        invariant
            bytes@ == encode_utf8(data@),
            i <= bytes@.len(),
            output@ == old(output)@ + bytes@.subrange(0, i as int),
        decreases bytes@.len() - i,
    {
        output.push(bytes[i]);
        i = i + 1;
        assert(output@ =~= old(output)@ + bytes@.subrange(0, i as int));
    }
    output.push(0u8);
    assert(output@ =~= old(output)@ + terminated(data@));
}

} // verus!

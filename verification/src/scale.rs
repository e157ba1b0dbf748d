//! The SCALE encoding of byte strings, as `parity-scale-codec` computes it.
//!
//! The format is written out here as a specification. `encode_with_codec`
//! and `decode_with_codec` call the codec, and their contracts, which are not
//! proved, say that it writes and reads this format. That no byte string's
//! encoding starts another's, and so that reading inverts writing, is proved.

use parity_scale_codec::{Decode, Encode};
use vstd::prelude::*;

verus! {

/// A number below 2^16 as two little-endian bytes.
pub open spec fn le2(x: nat) -> Seq<u8> {
    seq![(x % 256) as u8, (x / 256 % 256) as u8]
}

/// A number below 2^32 as four little-endian bytes.
pub open spec fn le4(x: nat) -> Seq<u8> {
    seq![
        (x % 256) as u8,
        (x / 256 % 256) as u8,
        (x / 256 / 256 % 256) as u8,
        (x / 256 / 256 / 256 % 256) as u8,
    ]
}

/// The compact form of a length up to `u32::MAX`: one, two or four bytes
/// that hold the length times four plus the mode in the two low bits, or,
/// from 2^30 on, the byte 3 and the length in four bytes.
pub open spec fn compact_len(n: nat) -> Seq<u8> {
    if n < 64 {
        seq![(4 * n) as u8]
    } else if n < 16384 {
        le2(4 * n + 1)
    } else if n < 1073741824 {
        le4(4 * n + 2)
    } else {
        seq![3u8] + le4(n)
    }
}

/// The SCALE encoding of a byte string: its length in compact form, then the
/// bytes themselves.
pub open spec fn scale_bytes(value: Seq<u8>) -> Seq<u8> {
    compact_len(value.len()) + value
}

/// The input is the encoding of `value` followed by `rest`.
pub open spec fn starts_with_encoding(input: Seq<u8>, value: Seq<u8>, rest: Seq<u8>) -> bool {
    value.len() <= u32::MAX && input == scale_bytes(value) + rest
}

/// The byte string whose encoding the input starts with, and what follows
/// that encoding; `None` where the input starts with no encoding.
pub open spec fn scale_prefix(input: Seq<u8>) -> Option<(Seq<u8>, Seq<u8>)> {
    if exists|read: (Seq<u8>, Seq<u8>)| starts_with_encoding(input, read.0, read.1) {
        Some(choose|read: (Seq<u8>, Seq<u8>)| starts_with_encoding(input, read.0, read.1))
    } else {
        None
    }
}

/// Whatever byte string the input starts with the encoding of, `read` is that
/// byte string and the rest of the input.
pub open spec fn accepts_every_encoding(input: Seq<u8>, read: Option<(Seq<u8>, Seq<u8>)>) -> bool {
    forall|value: Seq<u8>, rest: Seq<u8>| #[trigger]
        starts_with_encoding(input, value, rest) ==> read == Some((value, rest))
}

/// Four little-endian bytes stand for one number only.
proof fn lemma_le4_injective(x: nat, y: nat)
    requires
        x < 0x1_0000_0000,
        y < 0x1_0000_0000,
        le4(x) == le4(y),
    ensures
        x == y,
{
    assert(le4(x)[0] == le4(y)[0]);
    assert(le4(x)[1] == le4(y)[1]);
    assert(le4(x)[2] == le4(y)[2]);
    assert(le4(x)[3] == le4(y)[3]);
}

/// Two little-endian bytes stand for one number only.
proof fn lemma_le2_injective(x: nat, y: nat)
    requires
        x < 0x1_0000,
        y < 0x1_0000,
        le2(x) == le2(y),
    ensures
        x == y,
{
    assert(le2(x)[0] == le2(y)[0]);
    assert(le2(x)[1] == le2(y)[1]);
}

/// A compact length that starts an input is the only one that does.
proof fn lemma_compact_len_prefix_free(n: nat, m: nat, after_n: Seq<u8>, after_m: Seq<u8>)
    requires
        n <= u32::MAX,
        m <= u32::MAX,
        compact_len(n) + after_n == compact_len(m) + after_m,
    ensures
        n == m,
{
    let a = compact_len(n);
    let b = compact_len(m);
    let whole = a + after_n;
    assert(whole[0] == a[0]);
    assert(whole[0] == b[0]);
    assert(a[0] % 4 == b[0] % 4);
    if n < 64 {
    } else if n < 16384 {
        assert(whole[1] == a[1]);
        assert(whole[1] == b[1]);
        assert(le2(4 * n + 1) =~= le2(4 * m + 1));
        lemma_le2_injective(4 * n + 1, 4 * m + 1);
    } else if n < 1073741824 {
        assert(whole[1] == a[1] && whole[2] == a[2] && whole[3] == a[3]);
        assert(whole[1] == b[1] && whole[2] == b[2] && whole[3] == b[3]);
        assert(le4(4 * n + 2) =~= le4(4 * m + 2));
        lemma_le4_injective(4 * n + 2, 4 * m + 2);
    } else {
        assert(whole[1] == a[1] && whole[2] == a[2] && whole[3] == a[3] && whole[4] == a[4]);
        assert(whole[1] == b[1] && whole[2] == b[2] && whole[3] == b[3] && whole[4] == b[4]);
        assert(le4(n) =~= a.skip(1));
        assert(le4(m) =~= b.skip(1));
        assert(le4(n) =~= le4(m));
        lemma_le4_injective(n, m);
    }
}

/// No encoding starts another: an input starts with the encoding of at most
/// one byte string.
pub proof fn lemma_encoding_is_prefix_free(
    input: Seq<u8>,
    value: Seq<u8>,
    rest: Seq<u8>,
    other: Seq<u8>,
    other_rest: Seq<u8>,
)
    requires
        starts_with_encoding(input, value, rest),
        starts_with_encoding(input, other, other_rest),
    ensures
        value == other,
        rest == other_rest,
{
    let n = value.len();
    let m = other.len();
    assert(scale_bytes(value) + rest =~= compact_len(n) + (value + rest));
    assert(scale_bytes(other) + other_rest =~= compact_len(m) + (other + other_rest));
    lemma_compact_len_prefix_free(n, m, value + rest, other + other_rest);
    let width = compact_len(n).len();
    assert(value + rest =~= input.skip(width as int));
    assert(other + other_rest =~= input.skip(width as int));
    assert(value =~= (value + rest).take(n as int));
    assert(other =~= (other + other_rest).take(n as int));
    assert(rest =~= (value + rest).skip(n as int));
    assert(other_rest =~= (other + other_rest).skip(n as int));
}

/// An input that starts with the encoding of a byte string is read as that
/// byte string and what follows.
pub proof fn lemma_scale_prefix(input: Seq<u8>, value: Seq<u8>, rest: Seq<u8>)
    requires
        starts_with_encoding(input, value, rest),
    ensures
        scale_prefix(input) == Some((value, rest)),
{
    let witness = (value, rest);
    assert(starts_with_encoding(input, witness.0, witness.1));
    let read = choose|read: (Seq<u8>, Seq<u8>)| starts_with_encoding(input, read.0, read.1);
    lemma_encoding_is_prefix_free(input, value, rest, read.0, read.1);
}

/// What is read from an input is a byte string whose encoding starts it, and
/// the rest of it.
pub proof fn lemma_scale_prefix_is_encoding(input: Seq<u8>)
    ensures
        scale_prefix(input) matches Some(read) ==> starts_with_encoding(input, read.0, read.1),
{
}

/// Calls `Encode::encode` on a `Vec<u8>`.
///
/// Claims that the output is the compact length followed by the bytes. The
/// codec panics on a value longer than `u32::MAX`, which the precondition
/// excludes.
#[verifier::external_body]
fn encode_with_codec(value: &Vec<u8>) -> (out: Vec<u8>)
    requires
        value@.len() <= u32::MAX,
    ensures
        out@ == scale_bytes(value@),
{
    value.encode()
}

/// Calls `Decode::decode` for `Vec<u8>` on a byte slice, and returns what it
/// read together with the input it left unread, or `None` where the codec
/// reports an error.
///
/// Claims that on success the input is the encoding of the first component
/// followed by the second (the codec refuses a length that is not in its
/// shortest form) and the first is no longer than `u32::MAX` (its length is
/// read as a compact `u32`); and that an input which starts with the encoding
/// of a byte string is read as that byte string and the rest, so that an
/// error means that the input starts with no encoding.
#[verifier::external_body]
fn decode_with_codec(input: &[u8]) -> (out: Option<(Vec<u8>, Vec<u8>)>)
    ensures
        out matches Some(read) ==> starts_with_encoding(input@, read.0@, read.1@),
        accepts_every_encoding(
            input@,
            match out {
                Some(read) => Some((read.0@, read.1@)),
                None => None,
            },
        ),
{
    let mut rest: &[u8] = input;
    match Vec::<u8>::decode(&mut rest) {
        Ok(value) => Some((value, rest.to_vec())),
        Err(_) => None,
    }
}

/// Encodes a byte string: its compact length, then its bytes.
pub fn encode_bytes(value: &Vec<u8>) -> (out: Vec<u8>)
    requires
        value@.len() <= u32::MAX,
    ensures
        out@ == scale_bytes(value@),
        scale_prefix(out@) == Some((value@, Seq::<u8>::empty())),
{
    let out = encode_with_codec(value);
    proof {
        assert(out@ =~= scale_bytes(value@) + Seq::<u8>::empty());
        lemma_scale_prefix(out@, value@, Seq::<u8>::empty());
    }
    out
}

/// Reads an encoded byte string from the front of an input, and returns it
/// with the input that follows it; `None` where the input starts with no
/// encoding.
pub fn decode_bytes(input: &[u8]) -> (out: Option<(Vec<u8>, Vec<u8>)>)
    ensures
        match out {
            Some(read) => scale_prefix(input@) == Some((read.0@, read.1@))
                && starts_with_encoding(input@, read.0@, read.1@),
            None => scale_prefix(input@) is None,
        },
{
    let out = decode_with_codec(input);
    proof {
        if out is Some {
            lemma_scale_prefix(input@, out.unwrap().0@, out.unwrap().1@);
        } else if scale_prefix(input@) is Some {
            let read = choose|read: (Seq<u8>, Seq<u8>)|
                starts_with_encoding(input@, read.0, read.1);
            assert(starts_with_encoding(input@, read.0, read.1));
        }
    }
    out
}

} // verus!

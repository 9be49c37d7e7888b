//! Unsigned LEB128: a number in groups of seven bits, the lowest first, each
//! byte but the last with its high bit set.

use vstd::prelude::*;

verus! {

/// Why a number could not be read.
#[derive(Clone, Copy, Debug, PartialEq, Eq, Structural)]
pub enum LebError {
    /// The bytes end before the number does.
    Truncated,
    /// The number does not fit into 64 bits.
    Overflow,
}

/// The bytes of `v`, with `n` bytes before the last at most.
pub open spec fn leb_bytes(v: u64, n: nat) -> Seq<u8>
    decreases n,
{
    if n == 0 || v >> 7 == 0 {
        seq![(v & 0x7f) as u8]
    } else {
        seq![((v & 0x7f) | 0x80) as u8] + leb_bytes(v >> 7, (n - 1) as nat)
    }
}

/// The bytes that stand for `v`: ten at most.
pub open spec fn leb128(v: u64) -> Seq<u8> {
    leb_bytes(v, 9)
}

/// Whether the bytes of `input` hold one without the high bit, at which a
/// number that is passed over ends.
pub open spec fn number_ends(input: Seq<u8>) -> bool
    decreases input.len(),
{
    input.len() > 0 && (input[0] & 0x80 == 0 || number_ends(input.skip(1)))
}

/// What reading a number from the front of `input` gives, where the groups
/// read so far make up `acc` and the next group belongs `shift` bits up: the
/// number and the bytes after it, or the error. A byte at bit 63 that holds
/// more than that one bit makes the number too large; the rest of such a
/// number is passed over before the error is given.
pub open spec fn leb_read(input: Seq<u8>, shift: nat, acc: u64) -> Result<(u64, Seq<u8>), LebError>
    decreases input.len(),
{
    if input.len() == 0 {
        Err(LebError::Truncated)
    } else if shift >= 63 && input[0] != 0 && input[0] != 1 {
        if number_ends(input) {
            Err(LebError::Overflow)
        } else {
            Err(LebError::Truncated)
        }
    } else {
        let value = acc | (((input[0] & 0x7f) as u64) << (shift as u64));
        if input[0] & 0x80 == 0 {
            Ok((value, input.skip(1)))
        } else {
            leb_read(input.skip(1), shift + 7, value)
        }
    }
}

/// The number at the front of `input`, or the error.
pub open spec fn leb_result(input: Seq<u8>) -> Result<u64, LebError> {
    match leb_read(input, 0, 0) {
        Ok(pair) => Ok(pair.0),
        Err(e) => Err(e),
    }
}

/// The bytes of `input` after the number at its front.
pub open spec fn leb_rest(input: Seq<u8>) -> Seq<u8> {
    match leb_read(input, 0, 0) {
        Ok(pair) => pair.1,
        Err(e) => Seq::empty(),
    }
}

/// Calls `leb128::write::unsigned` on the vector, which appends the bytes
/// that stand for `val`: its groups of seven bits from the lowest on, each
/// byte but the last with the high bit set, up to the last group that is
/// not zero. Writing to a vector does not fail.
#[verifier::external_body]
pub(crate) fn write_unsigned(out: &mut Vec<u8>, val: u64)
    ensures
        final(out)@ == old(out)@ + leb128(val),
{
    let _ = leb128::write::unsigned(out, val);
}

/// Calls `leb128::read::unsigned` on the slice, which reads bytes up to the
/// first without the high bit and puts their low seven bits together, the
/// first byte lowest. It gives the number and the bytes after it; or that
/// the slice ended too early; or, where the byte at bit 63 holds more than
/// that bit, that the number is too large.
#[verifier::external_body]
pub(crate) fn read_unsigned<'a>(input: &'a [u8]) -> (r: (Result<u64, LebError>, &'a [u8]))
    ensures
        r.0 == leb_result(input@),
        r.0 is Ok ==> r.1@ == leb_rest(input@),
{
    let mut rest = input;
    let value = match leb128::read::unsigned(&mut rest) {
        Ok(value) => Ok(value),
        Err(leb128::read::Error::Overflow) => Err(LebError::Overflow),
        Err(leb128::read::Error::IoError(_)) => Err(LebError::Truncated),
    };
    (value, rest)
}

/// The bytes of a number hold one byte at least.
pub proof fn lemma_leb_bytes_len(v: u64, n: nat)
    ensures
        1 <= leb_bytes(v, n).len() <= n + 1,
    decreases n,
{
    if !(n == 0 || v >> 7 == 0) {
        lemma_leb_bytes_len(v >> 7, (n - 1) as nat);
    }
}

/// Reading the bytes of the rest of a number, after its first `k` groups
/// were read, gives the number and leaves what follows.
pub proof fn lemma_read_leb_bytes(v: u64, k: nat, tail: Seq<u8>)
    requires
        k <= 9,
    ensures
        leb_read(
            leb_bytes(v >> ((7 * k) as u64), (9 - k) as nat) + tail,
            7 * k,
            v & ((1u64 << ((7 * k) as u64)) - 1) as u64,
        ) == Ok::<(u64, Seq<u8>), LebError>((v, tail)),
    decreases 9 - k,
{
    let s = (7 * k) as u64;
    let x = v >> s;
    let acc = v & ((1u64 << s) - 1) as u64;
    let bytes = leb_bytes(x, (9 - k) as nat);
    let input = bytes + tail;
    lemma_leb_bytes_len(x, (9 - k) as nat);
    assert(input[0] == bytes[0]);
    if k == 9 || x >> 7 == 0 {
        let b = (x & 0x7f) as u8;
        assert(bytes =~= seq![b]);
        assert(input.skip(1) =~= tail);
        assert(s <= 63 && x == v >> s && (s == 63 || x >> 7 == 0) && b == (x & 0x7f) as u8 && acc
            == v & ((1u64 << s) - 1) as u64 ==> {
            &&& b & 0x80 == 0
            &&& (s >= 63 ==> b == 0 || b == 1)
            &&& acc | (((b & 0x7f) as u64) << s) == v
        }) by (bit_vector);
    } else {
        let b = ((x & 0x7f) | 0x80) as u8;
        let rest = leb_bytes(x >> 7, (8 - k) as nat);
        assert(bytes =~= seq![b] + rest);
        assert(input.skip(1) =~= rest + tail);
        let s2 = (7 * (k + 1)) as u64;
        assert(s <= 56 && s2 == s + 7 && x == v >> s && b == ((x & 0x7f) | 0x80) as u8 && acc == v & (
        (1u64 << s) - 1) as u64 ==> {
            &&& b & 0x80 != 0
            &&& acc | (((b & 0x7f) as u64) << s) == v & ((1u64 << s2) - 1) as u64
            &&& x >> 7 == v >> s2
        }) by (bit_vector);
        lemma_read_leb_bytes(v, k + 1, tail);
    }
}

/// Reading what was written gives the number back, and leaves what follows.
pub proof fn lemma_read_after_write(v: u64, tail: Seq<u8>)
    ensures
        leb_result(leb128(v) + tail) == Ok::<u64, LebError>(v),
        leb_rest(leb128(v) + tail) == tail,
{
    assert(v >> 0u64 == v && v & ((1u64 << 0u64) - 1) as u64 == 0) by (bit_vector);
    lemma_read_leb_bytes(v, 0, tail);
}

} // verus!

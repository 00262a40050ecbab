//! Fixed-width integers as bytes, in either byte order.
//!
//! Every file this library reads or writes stores its integers in the byte
//! order of the machine that produced it. The functions here take the order
//! as a value, so that everything built on them holds for both orders.

use vstd::bytes::*;
use vstd::prelude::*;

verus! {

/// The order in which the bytes of an integer are laid out.
#[derive(Clone, Copy, Debug, PartialEq, Eq, Structural)]
pub enum ByteOrder {
    /// Least significant byte first.
    Little,
    /// Most significant byte first.
    Big,
}

/// The eight bytes that store `x` in the given order.
pub open spec fn u64_bytes(x: u64, order: ByteOrder) -> Seq<u8> {
    match order {
        ByteOrder::Little => spec_u64_to_le_bytes(x),
        ByteOrder::Big => spec_u64_to_le_bytes(x).reverse(),
    }
}

/// The integer that eight bytes store in the given order.
pub open spec fn u64_of_bytes(bytes: Seq<u8>, order: ByteOrder) -> u64 {
    match order {
        ByteOrder::Little => spec_u64_from_le_bytes(bytes),
        ByteOrder::Big => spec_u64_from_le_bytes(bytes.reverse()),
    }
}

/// Encoding an integer gives eight bytes, and decoding them gives the integer back.
pub proof fn lemma_u64_bytes_round_trip(x: u64, order: ByteOrder)
    ensures
        u64_bytes(x, order).len() == 8,
        u64_of_bytes(u64_bytes(x, order), order) == x,
{
    lemma_auto_spec_u64_to_from_le_bytes();
    let le = spec_u64_to_le_bytes(x);
    assert(le.reverse().reverse() =~= le);
}

/// Decoding eight bytes and encoding the integer gives the same bytes back.
pub proof fn lemma_u64_of_bytes_round_trip(bytes: Seq<u8>, order: ByteOrder)
    requires
        bytes.len() == 8,
    ensures
        u64_bytes(u64_of_bytes(bytes, order), order) == bytes,
{
    lemma_auto_spec_u64_to_from_le_bytes();
    assert(bytes.reverse().reverse() =~= bytes);
    assert(bytes.reverse().len() == 8);
}

/// Appends the eight bytes of `x` to `out`.
pub fn push_u64(out: &mut Vec<u8>, x: u64, order: ByteOrder)
    ensures
        final(out)@ == old(out)@ + u64_bytes(x, order),
{
    let le = u64_to_le_bytes(x);
    proof {
        lemma_auto_spec_u64_to_from_le_bytes();
    }
    let ghost before = out@;
    let mut i: usize = 0;
    while i < 8
        invariant
            i <= 8,
            le@ == spec_u64_to_le_bytes(x),
            le@.len() == 8,
            out@ == before + u64_bytes(x, order).subrange(0, i as int),
        decreases 8 - i,
    {
        let b = match order {
            ByteOrder::Little => le[i],
            ByteOrder::Big => le[7 - i],
        };
        out.push(b);
        i += 1;
        assert(out@ =~= before + u64_bytes(x, order).subrange(0, i as int));
    }
    assert(u64_bytes(x, order).subrange(0, 8) =~= u64_bytes(x, order));
}

/// Appends a run of bytes to `out`.
pub fn push_bytes(out: &mut Vec<u8>, bytes: &[u8])
    ensures
        final(out)@ == old(out)@ + bytes@,
{
    out.extend_from_slice(bytes);
    assert(out@ =~= old(out)@ + bytes@);
}

/// Reads the integer stored in the eight bytes of `bytes` that start at `at`.
pub fn read_u64(bytes: &[u8], at: usize, order: ByteOrder) -> (x: u64)
    requires
        at + 8 <= bytes@.len(),
    ensures
        x == u64_of_bytes(bytes@.subrange(at as int, at + 8), order),
{
    let ghost word = bytes@.subrange(at as int, at + 8);
    let n = bytes.len();
    let mut le: Vec<u8> = Vec::with_capacity(8);
    let mut i: usize = 0;
    while i < 8
        invariant
            i <= 8,
            n == bytes@.len(),
            at + 8 <= n,
            word == bytes@.subrange(at as int, at + 8),
            le@.len() == i,
            forall|k: int|
                0 <= k < i ==> le@[k] == (match order {
                    ByteOrder::Little => word[k],
                    ByteOrder::Big => word[7 - k],
                }),
        decreases 8 - i,
    {
        let b = match order {
            ByteOrder::Little => bytes[at + i],
            ByteOrder::Big => bytes[at + (7 - i)],
        };
        le.push(b);
        i += 1;
    }
    proof {
        match order {
            ByteOrder::Little => {
                assert(le@ =~= word);
            },
            ByteOrder::Big => {
                assert(le@ =~= word.reverse());
            },
        }
    }
    u64_from_le_bytes(le.as_slice())
}

/// `u64::to_ne_bytes`: the bytes of `x` as this machine keeps them in memory,
/// which is one of the two byte orders.
#[verifier::external_body]
fn native_bytes(x: u64) -> (bytes: [u8; 8])
    ensures
        bytes@ == u64_bytes(x, ByteOrder::Little) || bytes@ == u64_bytes(x, ByteOrder::Big),
{
    x.to_ne_bytes()
}

/// The byte order of the machine that runs this code.
///
/// Nothing is promised about which of the two it is: callers pass the answer
/// on to the functions that encode and decode, which are correct for both.
pub fn native_byte_order() -> (order: ByteOrder) {
    let bytes = native_bytes(1);
    byte_order_of_one(&bytes)
}

/// The byte order in which eight bytes store the integer 1: the least
/// significant byte comes first exactly if the first byte is 1.
pub fn byte_order_of_one(bytes: &[u8; 8]) -> (order: ByteOrder)
    ensures
        order == if bytes@[0] == 1 {
            ByteOrder::Little
        } else {
            ByteOrder::Big
        },
        bytes@ == u64_bytes(1, ByteOrder::Little) || bytes@ == u64_bytes(1, ByteOrder::Big)
            ==> u64_bytes(1, order) == bytes@,
{
    proof {
        lemma_bytes_of_one();
    }
    if bytes[0] == 1 {
        ByteOrder::Little
    } else {
        ByteOrder::Big
    }
}

/// The integer 1 is stored as a byte 1 and seven bytes 0: the byte 1 comes
/// first in the one order and last in the other.
pub proof fn lemma_bytes_of_one()
    ensures
        u64_bytes(1, ByteOrder::Little) == seq![1u8, 0u8, 0u8, 0u8, 0u8, 0u8, 0u8, 0u8],
        u64_bytes(1, ByteOrder::Big) == seq![0u8, 0u8, 0u8, 0u8, 0u8, 0u8, 0u8, 1u8],
{
    spec_u64_to_le_bytes_to_open(1);
    assert(1u64 & 0xff == 1 && (1u64 >> 8) & 0xff == 0 && (1u64 >> 16) & 0xff == 0 && (1u64 >> 24)
        & 0xff == 0 && (1u64 >> 32) & 0xff == 0 && (1u64 >> 40) & 0xff == 0 && (1u64 >> 48) & 0xff
        == 0 && (1u64 >> 56) & 0xff == 0) by (bit_vector);
    let little = seq![1u8, 0u8, 0u8, 0u8, 0u8, 0u8, 0u8, 0u8];
    assert(spec_u64_to_le_bytes(1) =~= little);
    assert(little.reverse() =~= seq![0u8, 0u8, 0u8, 0u8, 0u8, 0u8, 0u8, 1u8]);
}

} // verus!

//! Little-endian integers as they lie in memory shared with a device.
//!
//! Every field of a virtio structure is little-endian. The conversions
//! between integers and their bytes are those of the `endian_num` crate; this
//! module states what they return and builds readers and writers on them.

use vstd::prelude::*;
use endian_num::Le;

verus! {

/// The `n` lowest bytes of `v`, lowest first.
pub open spec fn le_seq(v: nat, n: nat) -> Seq<u8>
    decreases n,
{
    if n == 0 {
        Seq::empty()
    } else {
        seq![(v % 256) as u8] + le_seq(v / 256, (n - 1) as nat)
    }
}

/// The number that the bytes `s` spell, lowest byte first.
pub open spec fn le_value(s: Seq<u8>) -> nat
    decreases s.len(),
{
    if s.len() == 0 {
        0
    } else {
        s[0] as nat + 256 * le_value(s.drop_first())
    }
}

/// `le_seq(v, n)` has `n` bytes.
pub proof fn lemma_le_seq_len(v: nat, n: nat)
    ensures
        le_seq(v, n).len() == n,
    decreases n,
{
    if n > 0 {
        lemma_le_seq_len(v / 256, (n - 1) as nat);
    }
}

/// Bytes that were read as a number are written back unchanged.
pub proof fn lemma_le_seq_of_value(s: Seq<u8>)
    ensures
        le_seq(le_value(s), s.len()) == s,
    decreases s.len(),
{
    if s.len() > 0 {
        let rest = s.drop_first();
        lemma_le_seq_of_value(rest);
        let v = le_value(s);
        assert(v % 256 == s[0] as nat && v / 256 == le_value(rest)) by {
            let k = le_value(rest) as int;
            let b = s[0] as int;
            assert(v == b + 256 * k);
            assert(0 <= b < 256);
            vstd::arithmetic::div_mod::lemma_fundamental_div_mod_converse(v as int, 256, k, b);
        }
        assert(le_seq(v, s.len()) =~= s);
    }
}

/// A 16-bit number that was written as two bytes is read back unchanged.
pub proof fn lemma_le_value_of_u16(v: u16)
    ensures
        le_seq(v as nat, 2).len() == 2,
        le_value(le_seq(v as nat, 2)) == v,
{
    lemma_le_value_of_seq(v as nat, 2);
    assert(pow256(2) == 65536) by {
        reveal_with_fuel(pow256, 3);
    }
}

/// A 32-bit number that was written as four bytes is read back unchanged.
pub proof fn lemma_le_value_of_u32(v: u32)
    ensures
        le_seq(v as nat, 4).len() == 4,
        le_value(le_seq(v as nat, 4)) == v,
{
    lemma_le_value_of_seq(v as nat, 4);
    assert(pow256(4) == 0x1_0000_0000) by {
        reveal_with_fuel(pow256, 5);
    }
}

/// A 64-bit number that was written as eight bytes is read back unchanged.
pub proof fn lemma_le_value_of_u64(v: u64)
    ensures
        le_seq(v as nat, 8).len() == 8,
        le_value(le_seq(v as nat, 8)) == v,
{
    lemma_le_value_of_seq(v as nat, 8);
    assert(pow256(8) == 0x1_0000_0000_0000_0000) by {
        reveal_with_fuel(pow256, 9);
    }
}

/// 256 to the power of `n`.
pub open spec fn pow256(n: nat) -> nat
    decreases n,
{
    if n == 0 {
        1
    } else {
        256 * pow256((n - 1) as nat)
    }
}

/// The `n` lowest bytes of `v` spell `v` where `v` fits into them.
pub proof fn lemma_le_value_of_seq(v: nat, n: nat)
    ensures
        le_seq(v, n).len() == n,
        v < pow256(n) ==> le_value(le_seq(v, n)) == v,
    decreases n,
{
    lemma_le_seq_len(v, n);
    if n > 0 {
        let m = (n - 1) as nat;
        lemma_le_value_of_seq(v / 256, m);
        let s = le_seq(v, n);
        assert(s.drop_first() =~= le_seq(v / 256, m));
        if v < pow256(n) {
            assert(v / 256 < pow256(m));
            assert(v == v % 256 + 256 * (v / 256));
        }
    }
}

/// Two bytes spell a number that fits 16 bits and writes back as the bytes.
pub proof fn lemma_field_2(s: Seq<u8>)
    requires
        s.len() == 2,
    ensures
        le_value(s) <= u16::MAX,
        le_seq(le_value(s), 2) == s,
{
    lemma_le_seq_of_value(s);
    reveal_with_fuel(le_value, 3);
}

/// Four bytes spell a number that fits 32 bits and writes back as the bytes.
pub proof fn lemma_field_4(s: Seq<u8>)
    requires
        s.len() == 4,
    ensures
        le_value(s) <= u32::MAX,
        le_seq(le_value(s), 4) == s,
{
    lemma_le_seq_of_value(s);
    reveal_with_fuel(le_value, 5);
}

/// Eight bytes spell a number that fits 64 bits and writes back as the bytes.
pub proof fn lemma_field_8(s: Seq<u8>)
    requires
        s.len() == 8,
    ensures
        le_value(s) <= u64::MAX,
        le_seq(le_value(s), 8) == s,
{
    lemma_le_seq_of_value(s);
    reveal_with_fuel(le_value, 9);
}

/// The two bytes of `v` in memory, by `endian_num`'s `Le::<u16>::from_ne` and
/// `Le::<u16>::to_le_bytes`: the low byte, then the high byte.
#[verifier::external_body]
fn u16_to_le(v: u16) -> (r: [u8; 2])
    ensures
        r@ == le_seq(v as nat, 2),
{
    Le::<u16>::from_ne(v).to_le_bytes()
}

/// The four bytes of `v` in memory, by `endian_num`'s `Le::<u32>::from_ne`
/// and `Le::<u32>::to_le_bytes`: the lowest byte first.
#[verifier::external_body]
fn u32_to_le(v: u32) -> (r: [u8; 4])
    ensures
        r@ == le_seq(v as nat, 4),
{
    Le::<u32>::from_ne(v).to_le_bytes()
}

/// The eight bytes of `v` in memory, by `endian_num`'s `Le::<u64>::from_ne`
/// and `Le::<u64>::to_le_bytes`: the lowest byte first.
#[verifier::external_body]
fn u64_to_le(v: u64) -> (r: [u8; 8])
    ensures
        r@ == le_seq(v as nat, 8),
{
    Le::<u64>::from_ne(v).to_le_bytes()
}

/// The number that two bytes of memory spell, by `endian_num`'s
/// `Le::<u16>::from_le_bytes` and `Le::<u16>::to_ne`: the first byte is the
/// low one.
#[verifier::external_body]
fn u16_from_le(bytes: [u8; 2]) -> (r: u16)
    ensures
        r == le_value(bytes@),
{
    Le::<u16>::from_le_bytes(bytes).to_ne()
}

/// The number that four bytes of memory spell, by `endian_num`'s
/// `Le::<u32>::from_le_bytes` and `Le::<u32>::to_ne`: the first byte is the
/// lowest one.
#[verifier::external_body]
fn u32_from_le(bytes: [u8; 4]) -> (r: u32)
    ensures
        r == le_value(bytes@),
{
    Le::<u32>::from_le_bytes(bytes).to_ne()
}

/// The number that eight bytes of memory spell, by `endian_num`'s
/// `Le::<u64>::from_le_bytes` and `Le::<u64>::to_ne`: the first byte is the
/// lowest one.
#[verifier::external_body]
fn u64_from_le(bytes: [u8; 8]) -> (r: u64)
    ensures
        r == le_value(bytes@),
{
    Le::<u64>::from_le_bytes(bytes).to_ne()
}

/// Reads the 16-bit field that starts at byte `at`.
pub fn read_u16(bytes: &[u8], at: usize) -> (r: u16)
    requires
        at + 2 <= bytes@.len(),
    ensures
        r == le_value(bytes@.subrange(at as int, at + 2)),
{
    let field = [bytes[at], bytes[at + 1]];
    assert(field@ =~= bytes@.subrange(at as int, at + 2));
    u16_from_le(field)
}

/// Reads the 32-bit field that starts at byte `at`.
pub fn read_u32(bytes: &[u8], at: usize) -> (r: u32)
    requires
        at + 4 <= bytes@.len(),
    ensures
        r == le_value(bytes@.subrange(at as int, at + 4)),
{
    let field = [bytes[at], bytes[at + 1], bytes[at + 2], bytes[at + 3]];
    assert(field@ =~= bytes@.subrange(at as int, at + 4));
    u32_from_le(field)
}

/// Reads the 64-bit field that starts at byte `at`.
pub fn read_u64(bytes: &[u8], at: usize) -> (r: u64)
    requires
        at + 8 <= bytes@.len(),
    ensures
        r == le_value(bytes@.subrange(at as int, at + 8)),
{
    let field = [
        bytes[at],
        bytes[at + 1],
        bytes[at + 2],
        bytes[at + 3],
        bytes[at + 4],
        bytes[at + 5],
        bytes[at + 6],
        bytes[at + 7],
    ];
    assert(field@ =~= bytes@.subrange(at as int, at + 8));
    u64_from_le(field)
}

/// Appends the two bytes of `v`.
pub fn write_u16(out: &mut Vec<u8>, v: u16)
    ensures
        final(out)@ == old(out)@ + le_seq(v as nat, 2),
{
    let field = u16_to_le(v);
    proof {
        lemma_le_seq_len(v as nat, 2);
    }
    out.push(field[0]);
    out.push(field[1]);
    assert(out@ =~= old(out)@ + le_seq(v as nat, 2));
}

/// Appends the four bytes of `v`.
pub fn write_u32(out: &mut Vec<u8>, v: u32)
    ensures
        final(out)@ == old(out)@ + le_seq(v as nat, 4),
{
    let field = u32_to_le(v);
    proof {
        lemma_le_seq_len(v as nat, 4);
    }
    out.push(field[0]);
    out.push(field[1]);
    out.push(field[2]);
    out.push(field[3]);
    assert(out@ =~= old(out)@ + le_seq(v as nat, 4));
}

/// Appends the eight bytes of `v`.
pub fn write_u64(out: &mut Vec<u8>, v: u64)
    ensures
        final(out)@ == old(out)@ + le_seq(v as nat, 8),
{
    let field = u64_to_le(v);
    proof {
        lemma_le_seq_len(v as nat, 8);
    }
    let mut i: usize = 0;
    while i < 8
        invariant
            i <= 8,
            field@ == le_seq(v as nat, 8),
            field@.len() == 8,
            out@ == old(out)@ + field@.subrange(0, i as int),
        decreases 8 - i,
    {
        out.push(field[i]);
        i = i + 1;
        assert(out@ =~= old(out)@ + field@.subrange(0, i as int));
    }
    assert(field@.subrange(0, 8) =~= field@);
}

/// Writes the four bytes of `v` over the 32-bit field that starts at byte
/// `at`.
pub fn store_u32(bytes: &mut [u8], at: usize, v: u32)
    requires
        at + 4 <= old(bytes)@.len(),
    ensures
        final(bytes)@ == old(bytes)@.subrange(0, at as int) + le_seq(v as nat, 4) + old(
            bytes,
        )@.subrange(at + 4, old(bytes)@.len() as int),
{
    let field = u32_to_le(v);
    let n = bytes.len();
    proof {
        lemma_le_seq_len(v as nat, 4);
    }
    let mut i: usize = 0;
    while i < 4
        invariant
            i <= 4,
            at + 4 <= n,
            n == bytes@.len(),
            n == old(bytes)@.len(),
            field@ == le_seq(v as nat, 4),
            field@.len() == 4,
            forall|j: int| 0 <= j < n && !(at <= j < at + i) ==> bytes@[j] == old(bytes)@[j],
            forall|j: int| at <= j < at + i ==> bytes@[j] == field@[j - at],
        decreases 4 - i,
    {
        bytes[at + i] = field[i];
        i = i + 1;
    }
    assert(bytes@ =~= old(bytes)@.subrange(0, at as int) + le_seq(v as nat, 4) + old(
        bytes,
    )@.subrange(at + 4, old(bytes)@.len() as int));
}

} // verus!

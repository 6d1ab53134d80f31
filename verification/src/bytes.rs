//! Big-endian integers in byte sequences, and bytes as UTF-8 text.

use vstd::prelude::*;
use vstd::utf8::{decode_utf8, valid_utf8};

verus! {

/// The two bytes of `v`, high byte first.
pub open spec fn be16(v: u16) -> Seq<u8> {
    seq![(v / 256) as u8, (v % 256) as u8]
}

/// The four bytes of `v`, high byte first.
pub open spec fn be32(v: u32) -> Seq<u8> {
    seq![
        (v / 0x100_0000) as u8,
        (v / 0x1_0000 % 256) as u8,
        (v / 256 % 256) as u8,
        (v % 256) as u8,
    ]
}

/// The eight bytes of `v`, high byte first.
pub open spec fn be64(v: u64) -> Seq<u8> {
    be32((v / 0x1_0000_0000) as u32) + be32((v % 0x1_0000_0000) as u32)
}

/// The number that the two bytes at `pos` spell, high byte first.
pub open spec fn value16(bytes: Seq<u8>, pos: int) -> u16 {
    (bytes[pos] as int * 256 + bytes[pos + 1] as int) as u16
}

/// The number that the four bytes at `pos` spell, high byte first.
pub open spec fn value32(bytes: Seq<u8>, pos: int) -> u32 {
    (value16(bytes, pos) as int * 0x1_0000 + value16(bytes, pos + 2) as int) as u32
}

/// Appends `v`, high byte first.
pub fn push_be16(out: &mut Vec<u8>, v: u16)
    ensures
        final(out)@ == old(out)@ + be16(v),
{
    out.push((v / 256) as u8);
    out.push((v % 256) as u8);
    assert(out@ =~= old(out)@ + be16(v));
}

/// Appends `v`, high byte first.
pub fn push_be32(out: &mut Vec<u8>, v: u32)
    ensures
        final(out)@ == old(out)@ + be32(v),
{
    out.push((v / 0x100_0000) as u8);
    out.push((v / 0x1_0000 % 256) as u8);
    out.push((v / 256 % 256) as u8);
    out.push((v % 256) as u8);
    assert(out@ =~= old(out)@ + be32(v));
}

/// Appends `v`, high byte first.
pub fn push_be64(out: &mut Vec<u8>, v: u64)
    ensures
        final(out)@ == old(out)@ + be64(v),
{
    push_be32(out, (v / 0x1_0000_0000) as u32);
    push_be32(out, (v % 0x1_0000_0000) as u32);
    assert(out@ =~= old(out)@ + be64(v));
}

/// Appends all of `bytes`.
pub fn push_bytes(out: &mut Vec<u8>, bytes: &[u8])
    ensures
        final(out)@ == old(out)@ + bytes@,
{
    let mut i: usize = 0;
    assert(out@ =~= old(out)@ + bytes@.take(0));
    while i < bytes.len()
        invariant
            i <= bytes@.len(),
            out@ == old(out)@ + bytes@.take(i as int),
        decreases bytes.len() - i,
    {
        out.push(bytes[i]);
        assert(out@ =~= old(out)@ + bytes@.take(i + 1));
        i = i + 1;
    }
    assert(bytes@.take(i as int) =~= bytes@);
}

/// Reads the two bytes at `pos`.
pub fn read_be16(bytes: &[u8], pos: usize) -> (r: u16)
    requires
        pos + 2 <= bytes@.len(),
    ensures
        r == value16(bytes@, pos as int),
{
    (bytes[pos] as u16) * 256 + (bytes[pos + 1] as u16)
}

/// Reads the four bytes at `pos`.
pub fn read_be32(bytes: &[u8], pos: usize) -> (r: u32)
    requires
        pos + 4 <= bytes@.len(),
    ensures
        r == value32(bytes@, pos as int),
{
    let end: usize = bytes.len();
    assert(pos + 4 <= end);
    (read_be16(bytes, pos) as u32) * 0x1_0000 + (read_be16(bytes, pos + 2) as u32)
}

/// The bytes of `bytes` in `from..to`.
pub fn bytes_between(bytes: &[u8], from: usize, to: usize) -> (r: Vec<u8>)
    requires
        from <= to <= bytes@.len(),
    ensures
        r@ == bytes@.subrange(from as int, to as int),
{
    let mut out: Vec<u8> = Vec::new();
    let mut i: usize = from;
    while i < to
        invariant
            from <= i <= to <= bytes@.len(),
            out@ == bytes@.subrange(from as int, i as int),
        decreases to - i,
    {
        out.push(bytes[i]);
        assert(out@ =~= bytes@.subrange(from as int, i + 1));
        i = i + 1;
    }
    out
}

/// Sixteen bytes as an array.
pub fn sixteen(bytes: &Vec<u8>) -> (r: [u8; 16])
    requires
        bytes@.len() == 16,
    ensures
        r@ == bytes@,
{
    let r: [u8; 16] = [
        bytes[0],
        bytes[1],
        bytes[2],
        bytes[3],
        bytes[4],
        bytes[5],
        bytes[6],
        bytes[7],
        bytes[8],
        bytes[9],
        bytes[10],
        bytes[11],
        bytes[12],
        bytes[13],
        bytes[14],
        bytes[15],
    ];
    assert(r@ =~= bytes@);
    r
}

/// `String::from_utf8` gives the text that the bytes encode, and fails
/// exactly where they are not UTF-8.
#[verifier::external_body]
pub(crate) fn utf8_text(bytes: Vec<u8>) -> (r: Option<String>)
    ensures
        match r {
            Some(text) => valid_utf8(bytes@) && text@ == decode_utf8(bytes@),
            None => !valid_utf8(bytes@),
        },
{
    String::from_utf8(bytes).ok()
}

/// Sixteen bits survive being written and read.
pub proof fn law_be16_round_trip(front: Seq<u8>, v: u16, back: Seq<u8>)
    ensures
        value16(front + be16(v) + back, front.len() as int) == v,
{
    let all = front + be16(v) + back;
    assert(all[front.len() as int] == be16(v)[0]);
    assert(all[front.len() as int + 1] == be16(v)[1]);
}

/// Thirty-two bits survive being written and read.
pub proof fn law_be32_round_trip(front: Seq<u8>, v: u32, back: Seq<u8>)
    ensures
        value32(front + be32(v) + back, front.len() as int) == v,
{
    let all = front + be32(v) + back;
    assert(all[front.len() as int] == be32(v)[0]);
    assert(all[front.len() as int + 1] == be32(v)[1]);
    assert(all[front.len() as int + 2] == be32(v)[2]);
    assert(all[front.len() as int + 3] == be32(v)[3]);
}

/// The bytes of a number spell it in base 256, high byte first, whatever its
/// width.
pub proof fn law_bytes_spell_number(a: u16, b: u32, c: u64)
    ensures
        be16(a).len() == 2,
        be16(a)[0] * 256 + be16(a)[1] == a,
        be32(b).len() == 4,
        ((be32(b)[0] * 256 + be32(b)[1]) * 256 + be32(b)[2]) * 256 + be32(b)[3] == b,
        be64(c).len() == 8,
        (((be64(c)[0] * 256 + be64(c)[1]) * 256 + be64(c)[2]) * 256 + be64(c)[3]) * 0x1_0000_0000
            + (((be64(c)[4] * 256 + be64(c)[5]) * 256 + be64(c)[6]) * 256 + be64(c)[7]) == c,
{
    lemma_be32_spells(b);
    lemma_be32_spells((c / 0x1_0000_0000) as u32);
    lemma_be32_spells((c % 0x1_0000_0000) as u32);
    let high = be32((c / 0x1_0000_0000) as u32);
    let low = be32((c % 0x1_0000_0000) as u32);
    assert(be64(c)[0] == high[0] && be64(c)[1] == high[1] && be64(c)[2] == high[2] && be64(c)[3]
        == high[3]);
    assert(be64(c)[4] == low[0] && be64(c)[5] == low[1] && be64(c)[6] == low[2] && be64(c)[7]
        == low[3]);
}

proof fn lemma_be32_spells(b: u32)
    ensures
        ((be32(b)[0] * 256 + be32(b)[1]) * 256 + be32(b)[2]) * 256 + be32(b)[3] == b,
{
    assert(be32(b)[0] == b / 0x100_0000);
    assert(be32(b)[1] == b / 0x1_0000 % 256);
    assert(be32(b)[2] == b / 256 % 256);
    assert(be32(b)[3] == b % 256);
}

/// A number is read from the bytes where it stands, high byte first, and
/// from no others.
pub proof fn law_number_read(bytes: Seq<u8>, pos: int)
    requires
        0 <= pos,
        pos + 4 <= bytes.len(),
    ensures
        value16(bytes, pos) == bytes[pos] * 256 + bytes[pos + 1],
        value32(bytes, pos) == bytes[pos] * 0x100_0000 + bytes[pos + 1] * 0x1_0000 + bytes[pos + 2]
            * 256 + bytes[pos + 3],
{
}

} // verus!

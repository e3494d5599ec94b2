use vstd::prelude::*;

verus! {

// Big-endian byte layouts. Every multi-byte integer on the wire is written
// most significant byte first.

pub open spec fn bytes2(x: u16) -> Seq<u8> {
    seq![(x / 256) as u8, (x % 256) as u8]
}

pub open spec fn be2(s: Seq<u8>) -> u16
    recommends
        s.len() == 2,
{
    (s[0] as int * 256 + s[1] as int) as u16
}

pub open spec fn bytes4(x: u32) -> Seq<u8> {
    bytes2((x / 65536) as u16) + bytes2((x % 65536) as u16)
}

pub open spec fn be4(s: Seq<u8>) -> u32
    recommends
        s.len() == 4,
{
    (be2(s.subrange(0, 2)) as int * 65536 + be2(s.subrange(2, 4)) as int) as u32
}

pub open spec fn bytes8(x: u64) -> Seq<u8> {
    bytes4((x / 0x1_0000_0000) as u32) + bytes4((x % 0x1_0000_0000) as u32)
}

pub open spec fn be8(s: Seq<u8>) -> u64
    recommends
        s.len() == 8,
{
    (be4(s.subrange(0, 4)) as int * 0x1_0000_0000 + be4(s.subrange(4, 8)) as int) as u64
}

pub open spec fn bytes16(x: u128) -> Seq<u8> {
    bytes8((x / 0x1_0000_0000_0000_0000) as u64) + bytes8((x % 0x1_0000_0000_0000_0000) as u64)
}

pub open spec fn be16u(s: Seq<u8>) -> u128
    recommends
        s.len() == 16,
{
    (be8(s.subrange(0, 8)) as int * 0x1_0000_0000_0000_0000 + be8(s.subrange(8, 16)) as int) as u128
}

pub proof fn lemma_be2_bytes2(x: u16)
    ensures
        bytes2(x).len() == 2,
        be2(bytes2(x)) == x,
{
}

pub proof fn lemma_be4_bytes4(x: u32)
    ensures
        bytes4(x).len() == 4,
        be4(bytes4(x)) == x,
{
    let hi = (x / 65536) as u16;
    let lo = (x % 65536) as u16;
    lemma_be2_bytes2(hi);
    lemma_be2_bytes2(lo);
    assert(bytes4(x).subrange(0, 2) =~= bytes2(hi));
    assert(bytes4(x).subrange(2, 4) =~= bytes2(lo));
}

pub proof fn lemma_be8_bytes8(x: u64)
    ensures
        bytes8(x).len() == 8,
        be8(bytes8(x)) == x,
{
    let hi = (x / 0x1_0000_0000) as u32;
    let lo = (x % 0x1_0000_0000) as u32;
    lemma_be4_bytes4(hi);
    lemma_be4_bytes4(lo);
    assert(bytes8(x).subrange(0, 4) =~= bytes4(hi));
    assert(bytes8(x).subrange(4, 8) =~= bytes4(lo));
}

pub proof fn lemma_be16u_bytes16(x: u128)
    ensures
        bytes16(x).len() == 16,
        be16u(bytes16(x)) == x,
{
    let hi = (x / 0x1_0000_0000_0000_0000) as u64;
    let lo = (x % 0x1_0000_0000_0000_0000) as u64;
    lemma_be8_bytes8(hi);
    lemma_be8_bytes8(lo);
    assert(bytes16(x).subrange(0, 8) =~= bytes8(hi));
    assert(bytes16(x).subrange(8, 16) =~= bytes8(lo));
}

pub fn write_u8(out: &mut Vec<u8>, x: u8)
    ensures
        final(out)@ == old(out)@.push(x),
{
    out.push(x);
}

pub fn write_u16(out: &mut Vec<u8>, x: u16)
    ensures
        final(out)@ == old(out)@ + bytes2(x),
{
    out.push((x / 256) as u8);
    out.push((x % 256) as u8);
    proof {
        assert(final(out)@ =~= old(out)@ + bytes2(x));
    }
}

pub fn write_u32(out: &mut Vec<u8>, x: u32)
    ensures
        final(out)@ == old(out)@ + bytes4(x),
{
    write_u16(out, (x / 65536) as u16);
    write_u16(out, (x % 65536) as u16);
    proof {
        assert(final(out)@ =~= old(out)@ + bytes4(x));
    }
}

pub fn write_u64(out: &mut Vec<u8>, x: u64)
    ensures
        final(out)@ == old(out)@ + bytes8(x),
{
    write_u32(out, (x / 0x1_0000_0000) as u32);
    write_u32(out, (x % 0x1_0000_0000) as u32);
    proof {
        assert(final(out)@ =~= old(out)@ + bytes8(x));
    }
}

pub fn write_u128(out: &mut Vec<u8>, x: u128)
    ensures
        final(out)@ == old(out)@ + bytes16(x),
{
    write_u64(out, (x / 0x1_0000_0000_0000_0000) as u64);
    write_u64(out, (x % 0x1_0000_0000_0000_0000) as u64);
    proof {
        assert(final(out)@ =~= old(out)@ + bytes16(x));
    }
}

pub fn read_u16(data: &Vec<u8>, pos: usize) -> (r: u16)
    requires
        pos + 2 <= data@.len(),
    ensures
        r == be2(data@.subrange(pos as int, pos as int + 2)),
{
    let _n: usize = data.len();
    let b0 = data[pos];
    let b1 = data[pos + 1];
    b0 as u16 * 256 + b1 as u16
}

pub fn read_u32(data: &Vec<u8>, pos: usize) -> (r: u32)
    requires
        pos + 4 <= data@.len(),
    ensures
        r == be4(data@.subrange(pos as int, pos as int + 4)),
{
    let _n: usize = data.len();
    let hi = read_u16(data, pos);
    let lo = read_u16(data, pos + 2);
    proof {
        assert(data@.subrange(pos as int, pos as int + 4).subrange(0, 2)
            =~= data@.subrange(pos as int, pos as int + 2));
        assert(data@.subrange(pos as int, pos as int + 4).subrange(2, 4)
            =~= data@.subrange(pos as int + 2, pos as int + 4));
    }
    hi as u32 * 65536 + lo as u32
}

pub fn read_u64(data: &Vec<u8>, pos: usize) -> (r: u64)
    requires
        pos + 8 <= data@.len(),
    ensures
        r == be8(data@.subrange(pos as int, pos as int + 8)),
{
    let _n: usize = data.len();
    let hi = read_u32(data, pos);
    let lo = read_u32(data, pos + 4);
    proof {
        assert(data@.subrange(pos as int, pos as int + 8).subrange(0, 4)
            =~= data@.subrange(pos as int, pos as int + 4));
        assert(data@.subrange(pos as int, pos as int + 8).subrange(4, 8)
            =~= data@.subrange(pos as int + 4, pos as int + 8));
    }
    hi as u64 * 0x1_0000_0000 + lo as u64
}

pub fn read_u128(data: &Vec<u8>, pos: usize) -> (r: u128)
    requires
        pos + 16 <= data@.len(),
    ensures
        r == be16u(data@.subrange(pos as int, pos as int + 16)),
{
    let _n: usize = data.len();
    let hi = read_u64(data, pos);
    let lo = read_u64(data, pos + 8);
    proof {
        assert(data@.subrange(pos as int, pos as int + 16).subrange(0, 8)
            =~= data@.subrange(pos as int, pos as int + 8));
        assert(data@.subrange(pos as int, pos as int + 16).subrange(8, 16)
            =~= data@.subrange(pos as int + 8, pos as int + 16));
    }
    hi as u128 * 0x1_0000_0000_0000_0000 + lo as u128
}

} // verus!

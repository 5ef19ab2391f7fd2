//! Little-endian primitive (de)serialization over byte slices and buffers.
//! Reads are bounds-checked and surface `LsmError::Corruption` on short input.

use crate::error::{ErrorView, LsmError, Outcome, Result};
use crate::text::{append_decimal, decimal};
use vstd::arithmetic::div_mod::lemma_div_denominator;
use vstd::arithmetic::power::{lemma_pow0, lemma_pow_positive, pow};
use vstd::prelude::*;

verus! {

/// The `width` lowest bytes of `v`, least significant first.
pub open spec fn le_bytes(v: nat, width: nat) -> Seq<u8>
    decreases width,
{
    if width == 0 {
        Seq::empty()
    } else {
        seq![(v % 256) as u8] + le_bytes(v / 256, (width - 1) as nat)
    }
}

/// The number that little-endian bytes stand for.
pub open spec fn le_value(bytes: Seq<u8>) -> nat
    decreases bytes.len(),
{
    if bytes.len() == 0 {
        0
    } else {
        bytes[0] as nat + 256 * le_value(bytes.skip(1))
    }
}

/// `256` to the power of `width`: how many numbers `width` bytes can hold.
pub open spec fn le_limit(width: nat) -> nat
    decreases width,
{
    if width == 0 {
        1
    } else {
        256 * le_limit((width - 1) as nat)
    }
}

pub proof fn le_bytes_len(v: nat, width: nat)
    ensures
        le_bytes(v, width).len() == width,
    decreases width,
{
    if width > 0 {
        le_bytes_len(v / 256, (width - 1) as nat);
    }
}

/// Reading back what was written gives the number, provided it fits.
pub proof fn le_roundtrip(v: nat, width: nat)
    requires
        v < le_limit(width),
    ensures
        le_value(le_bytes(v, width)) == v,
    decreases width,
{
    if width > 0 {
        le_roundtrip(v / 256, (width - 1) as nat);
        le_bytes_len(v, width);
        assert(le_bytes(v, width).skip(1) =~= le_bytes(v / 256, (width - 1) as nat));
    }
}

/// Writing back what was read gives the bytes.
pub proof fn le_roundtrip_bytes(bytes: Seq<u8>)
    ensures
        le_bytes(le_value(bytes), bytes.len()) == bytes,
    decreases bytes.len(),
{
    if bytes.len() > 0 {
        le_roundtrip_bytes(bytes.skip(1));
        assert(le_bytes(le_value(bytes), bytes.len()) =~= bytes);
    } else {
        assert(le_bytes(le_value(bytes), bytes.len()) =~= bytes);
    }
}

pub proof fn le_value_bound(bytes: Seq<u8>)
    ensures
        le_value(bytes) < le_limit(bytes.len()),
    decreases bytes.len(),
{
    if bytes.len() > 0 {
        le_value_bound(bytes.skip(1));
    }
}

/// The sizes of the widths in use.
pub proof fn le_limits()
    ensures
        le_limit(2) == 0x1_0000,
        le_limit(4) == 0x1_0000_0000,
        le_limit(8) == 0x1_0000_0000_0000_0000,
{
    reveal_with_fuel(le_limit, 9);
}

/// Byte `i` of a stored number is its digit of weight 256 to the power of `i`: the
/// least significant byte comes first.
pub proof fn byte_is_digit(v: nat, width: nat, i: int)
    requires
        0 <= i < width,
    ensures
        le_bytes(v, width).len() == width,
        le_bytes(v, width)[i] as int == (v as int / pow(256, i as nat)) % 256,
    decreases width,
{
    le_bytes_len(v, width);
    lemma_pow_positive(256, i as nat);
    if i == 0 {
        lemma_pow0(256);
    } else {
        let n = (i - 1) as nat;
        byte_is_digit(v / 256, (width - 1) as nat, i - 1);
        lemma_pow_positive(256, n);
        lemma_div_denominator(v as int, 256, pow(256, n));
        assert(pow(256, i as nat) == 256 * pow(256, n)) by {
            reveal(pow);
        }
        le_bytes_len(v / 256, (width - 1) as nat);
    }
}

/// What two, four and eight stored bytes stand for, written out.
pub proof fn bytes_add_up(bytes: Seq<u8>)
    ensures
        bytes.len() == 2 ==> le_value(bytes) == bytes[0] + 0x100 * bytes[1],
        bytes.len() == 4 ==> le_value(bytes) == bytes[0] + 0x100 * bytes[1] + 0x1_0000 * bytes[2]
            + 0x100_0000 * bytes[3],
        bytes.len() == 8 ==> le_value(bytes) == bytes[0] + 0x100 * bytes[1] + 0x1_0000 * bytes[2]
            + 0x100_0000 * bytes[3] + 0x1_0000_0000 * bytes[4] + 0x100_0000_0000 * bytes[5]
            + 0x1_0000_0000_0000 * bytes[6] + 0x100_0000_0000_0000 * bytes[7],
{
    reveal_with_fuel(le_value, 9);
}

/// The text of a read that runs past the end of the buffer.
pub open spec fn short_read_text(size: nat, offset: nat, len: nat) -> Seq<char> {
    if offset + size > usize::MAX {
        "read of "@ + decimal(size) + " bytes overflows usize at offset "@ + decimal(offset)
    } else {
        "read of "@ + decimal(size) + " bytes at offset "@ + decimal(offset)
            + " exceeds buffer length "@ + decimal(len)
    }
}

/// The `size` bytes of `bytes` from `offset` on, if they are there.
pub open spec fn bytes_at(bytes: Seq<u8>, offset: nat, size: nat) -> Outcome<Seq<u8>> {
    if offset + size > bytes.len() {
        Err(ErrorView::Corruption(short_read_text(size, offset, bytes.len())))
    } else {
        Ok(bytes.subrange(offset as int, (offset + size) as int))
    }
}

/// The little-endian number of `size` bytes at `offset`, if it is there.
pub open spec fn number_at(bytes: Seq<u8>, offset: nat, size: nat) -> Outcome<nat> {
    match bytes_at(bytes, offset, size) {
        Ok(b) => Ok(le_value(b)),
        Err(e) => Err(e),
    }
}

/// What is said of a read past the end: how many bytes were asked for, where, and how
/// many there are.
pub proof fn short_read_says_where(bytes: Seq<u8>, offset: nat, size: nat)
    ensures
        offset + size <= bytes.len() <==> bytes_at(bytes, offset, size) is Ok,
        bytes.len() < offset + size <= usize::MAX ==> bytes_at(bytes, offset, size) == Err::<
            Seq<u8>,
            ErrorView,
        >(
            ErrorView::Corruption(
                "read of "@ + decimal(size) + " bytes at offset "@ + decimal(offset)
                    + " exceeds buffer length "@ + decimal(bytes.len()),
            ),
        ),
        bytes.len() < offset + size && offset + size > usize::MAX ==> bytes_at(bytes, offset, size)
            == Err::<Seq<u8>, ErrorView>(
            ErrorView::Corruption(
                "read of "@ + decimal(size) + " bytes overflows usize at offset "@ + decimal(
                    offset,
                ),
            ),
        ),
{
}

/// The middle of three joined parts is found at its place.
pub proof fn middle_part(a: Seq<u8>, b: Seq<u8>, c: Seq<u8>)
    ensures
        (a + b + c).subrange(a.len() as int, (a.len() + b.len()) as int) == b,
        (a + b + c).len() == a.len() + b.len() + c.len(),
{
    assert((a + b + c).subrange(a.len() as int, (a.len() + b.len()) as int) =~= b);
}

/// A number written anywhere in a buffer is read back from there.
pub proof fn number_roundtrip(before: Seq<u8>, v: nat, width: nat, after: Seq<u8>)
    requires
        v < le_limit(width),
    ensures
        number_at(before + le_bytes(v, width) + after, before.len(), width) == Ok::<
            nat,
            ErrorView,
        >(v),
{
    le_bytes_len(v, width);
    le_roundtrip(v, width);
    middle_part(before, le_bytes(v, width), after);
}

/// Copies a slice to the end of a buffer.
pub fn put_bytes(buf: &mut Vec<u8>, bytes: &[u8])
    ensures
        final(buf)@ == old(buf)@ + bytes@,
{
    let ghost before = buf@;
    buf.extend_from_slice(bytes);
    proof {
        assert(buf@ =~= before + bytes@);
    }
}

/// Copies a slice into a buffer of its own.
pub fn copy_bytes(bytes: &[u8]) -> (copy: Vec<u8>)
    ensures
        copy@ == bytes@,
{
    let mut copy: Vec<u8> = Vec::new();
    put_bytes(&mut copy, bytes);
    proof {
        assert(copy@ =~= bytes@);
    }
    copy
}

fn put_le(buf: &mut Vec<u8>, v: u64, width: usize)
    ensures
        final(buf)@ == old(buf)@ + le_bytes(v as nat, width as nat),
{
    let ghost before = buf@;
    let mut rest: u64 = v;
    let mut done: usize = 0;
    proof {
        assert(buf@ + le_bytes(rest as nat, (width - done) as nat) =~= before + le_bytes(
            v as nat,
            width as nat,
        ));
    }
    while done < width
        invariant
            done <= width,
            buf@ + le_bytes(rest as nat, (width - done) as nat) == before + le_bytes(
                v as nat,
                width as nat,
            ),
        decreases width - done,
    {
        let ghost held = buf@;
        let ghost whole = rest;
        buf.push((rest % 256) as u8);
        rest = rest / 256;
        done = done + 1;
        proof {
            assert(buf@ + le_bytes(rest as nat, (width - done) as nat) =~= held + le_bytes(
                whole as nat,
                (width - done + 1) as nat,
            ));
        }
    }
    proof {
        assert(buf@ =~= buf@ + le_bytes(rest as nat, 0));
    }
}

/// Appends `v` in two bytes.
pub fn put_u16(buf: &mut Vec<u8>, v: u16)
    ensures
        final(buf)@ == old(buf)@ + le_bytes(v as nat, 2),
{
    put_le(buf, v as u64, 2);
}

/// Appends `v` in four bytes.
pub fn put_u32(buf: &mut Vec<u8>, v: u32)
    ensures
        final(buf)@ == old(buf)@ + le_bytes(v as nat, 4),
{
    put_le(buf, v as u64, 4);
}

/// Appends `v` in eight bytes.
pub fn put_u64(buf: &mut Vec<u8>, v: u64)
    ensures
        final(buf)@ == old(buf)@ + le_bytes(v as nat, 8),
{
    put_le(buf, v, 8);
}

fn short_read(size: usize, offset: usize, len: usize) -> (e: LsmError)
    ensures
        e@ == ErrorView::Corruption(short_read_text(size as nat, offset as nat, len as nat)),
{
    let mut s: String = String::from_str("read of ");
    append_decimal(&mut s, size as u64);
    if offset > usize::MAX - size {
        s.append(" bytes overflows usize at offset ");
        append_decimal(&mut s, offset as u64);
    } else {
        s.append(" bytes at offset ");
        append_decimal(&mut s, offset as u64);
        s.append(" exceeds buffer length ");
        append_decimal(&mut s, len as u64);
    }
    LsmError::Corruption(s)
}

/// The `size` bytes at `offset`, or `Corruption` if the buffer ends before.
pub fn read_exact(bytes: &[u8], offset: usize, size: usize) -> (r: Result<&[u8]>)
    ensures
        match r {
            Ok(b) => bytes_at(bytes@, offset as nat, size as nat) == Ok::<
                Seq<u8>,
                ErrorView,
            >(b@),
            Err(e) => bytes_at(bytes@, offset as nat, size as nat) == Err::<
                Seq<u8>,
                ErrorView,
            >(e@),
        },
        r is Ok <==> offset + size <= bytes@.len(),
        r matches Ok(b) ==> b@ == bytes@.subrange(offset as int, offset + size),
        r is Err ==> r matches Err(LsmError::Corruption(_)),
{
    if offset > usize::MAX - size || offset + size > bytes.len() {
        return Err(short_read(size, offset, bytes.len()));
    }
    Ok(vstd::slice::slice_subrange(bytes, offset, offset + size))
}

fn read_le(bytes: &[u8], offset: usize, size: usize) -> (r: Result<u64>)
    requires
        size <= 8,
    ensures
        match r {
            Ok(v) => number_at(bytes@, offset as nat, size as nat) == Ok::<nat, ErrorView>(
                v as nat,
            ) && v < le_limit(size as nat),
            Err(e) => number_at(bytes@, offset as nat, size as nat) == Err::<nat, ErrorView>(e@),
        },
{
    let field = match read_exact(bytes, offset, size) {
        Ok(b) => b,
        Err(e) => {
            return Err(e);
        },
    };
    let mut v: u64 = 0;
    let mut left: usize = size;
    proof {
        assert(field@.skip(size as int) =~= Seq::<u8>::empty());
    }
    while left > 0
        invariant
            left <= size <= 8,
            field@.len() == size,
            v as nat == le_value(field@.skip(left as int)),
        decreases left,
    {
        left = left - 1;
        proof {
            assert(field@.skip(left as int).skip(1) =~= field@.skip(left + 1));
            le_value_bound(field@.skip(left as int));
            reveal_with_fuel(le_limit, 9);
        }
        v = field[left] as u64 + 256 * v;
    }
    proof {
        assert(field@.skip(0) =~= field@);
        le_value_bound(field@);
    }
    Ok(v)
}

/// Reads two bytes at `offset`.
pub fn read_u16(bytes: &[u8], offset: usize) -> (r: Result<u16>)
    ensures
        match r {
            Ok(v) => number_at(bytes@, offset as nat, 2) == Ok::<nat, ErrorView>(v as nat),
            Err(e) => number_at(bytes@, offset as nat, 2) == Err::<nat, ErrorView>(e@),
        },
        r is Ok <==> offset + 2 <= bytes@.len(),
        r matches Ok(v) ==> v == bytes@[offset as int] + 0x100 * bytes@[offset + 1],
{
    proof {
        if offset + 2 <= bytes@.len() {
            bytes_add_up(bytes@.subrange(offset as int, offset + 2));
        }
    }
    match read_le(bytes, offset, 2) {
        Ok(v) => {
            proof {
                le_limits();
            }
            Ok(v as u16)
        },
        Err(e) => Err(e),
    }
}

/// Reads four bytes at `offset`.
pub fn read_u32(bytes: &[u8], offset: usize) -> (r: Result<u32>)
    ensures
        match r {
            Ok(v) => number_at(bytes@, offset as nat, 4) == Ok::<nat, ErrorView>(v as nat),
            Err(e) => number_at(bytes@, offset as nat, 4) == Err::<nat, ErrorView>(e@),
        },
        r is Ok <==> offset + 4 <= bytes@.len(),
        r matches Ok(v) ==> v == bytes@[offset as int] + 0x100 * bytes@[offset + 1] + 0x1_0000
            * bytes@[offset + 2] + 0x100_0000 * bytes@[offset + 3],
{
    proof {
        if offset + 4 <= bytes@.len() {
            bytes_add_up(bytes@.subrange(offset as int, offset + 4));
        }
    }
    match read_le(bytes, offset, 4) {
        Ok(v) => {
            proof {
                le_limits();
            }
            Ok(v as u32)
        },
        Err(e) => Err(e),
    }
}

/// Reads eight bytes at `offset`.
pub fn read_u64(bytes: &[u8], offset: usize) -> (r: Result<u64>)
    ensures
        match r {
            Ok(v) => number_at(bytes@, offset as nat, 8) == Ok::<nat, ErrorView>(v as nat),
            Err(e) => number_at(bytes@, offset as nat, 8) == Err::<nat, ErrorView>(e@),
        },
        r is Ok <==> offset + 8 <= bytes@.len(),
        r matches Ok(v) ==> v == bytes@[offset as int] + 0x100 * bytes@[offset + 1] + 0x1_0000
            * bytes@[offset + 2] + 0x100_0000 * bytes@[offset + 3] + 0x1_0000_0000 * bytes@[offset
            + 4] + 0x100_0000_0000 * bytes@[offset + 5] + 0x1_0000_0000_0000 * bytes@[offset + 6]
            + 0x100_0000_0000_0000 * bytes@[offset + 7],
{
    proof {
        if offset + 8 <= bytes@.len() {
            bytes_add_up(bytes@.subrange(offset as int, offset + 8));
        }
    }
    read_le(bytes, offset, 8)
}

} // verus!

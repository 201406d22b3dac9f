//! Reading and writing an 8-bit field at any bit position of a byte buffer.

use vstd::prelude::*;

verus! {

/// Location of one 8-bit field: the byte that holds its first bit, and the
/// position of that bit counted from the most significant bit (0 to 7).
#[derive(Debug, Clone, Copy, PartialEq, Eq, Structural)]
pub struct GainLocation {
    pub byte_offset: usize,
    pub bit_offset: u8,
}

impl GainLocation {
    pub open spec fn wf(&self) -> bool {
        self.bit_offset < 8
    }
}

/// The value of the field at byte `idx`, bit `off`. Bits that lie past the
/// end of the buffer read as zero; a field that starts past the end reads as 0.
pub open spec fn field_value(d: Seq<u8>, idx: int, off: u8) -> u8 {
    if idx < 0 || idx >= d.len() {
        0
    } else if off == 0 {
        d[idx]
    } else if idx + 1 < d.len() {
        ((d[idx] << off) as u8) | (d[idx + 1] >> ((8 - off) as u8))
    } else {
        (d[idx] << off) as u8
    }
}

/// The buffer after the field at byte `idx`, bit `off` is set to `v`: the
/// high `off` bits of byte `idx` and the low `8 - off` bits of byte `idx + 1`
/// are kept, bits past the end are dropped, and all other bytes are kept.
pub open spec fn field_written(d: Seq<u8>, idx: int, off: u8, v: u8) -> Seq<u8> {
    if idx < 0 || idx >= d.len() {
        d
    } else if off == 0 {
        d.update(idx, v)
    } else if idx + 1 < d.len() {
        d.update(idx, (d[idx] & ((0xFFu8 << ((8 - off) as u8)) as u8)) | (v >> off)).update(
            idx + 1,
            (d[idx + 1] & (0xFFu8 >> off)) | ((v << ((8 - off) as u8)) as u8),
        )
    } else {
        d.update(idx, (d[idx] & ((0xFFu8 << ((8 - off) as u8)) as u8)) | (v >> off))
    }
}

/// Reads the 8-bit field at `loc`.
pub fn read_gain_at(data: &[u8], loc: &GainLocation) -> (r: u8)
    requires
        loc.wf(),
    ensures
        r == field_value(data@, loc.byte_offset as int, loc.bit_offset),
{
    let idx = loc.byte_offset;
    if idx >= data.len() {
        return 0;
    }
    if loc.bit_offset == 0 {
        data[idx]
    } else if idx + 1 < data.len() {
        let shift = loc.bit_offset;
        let high = (data[idx] << shift) as u8;
        let low = data[idx + 1] >> (8 - shift);
        high | low
    } else {
        (data[idx] << loc.bit_offset) as u8
    }
}

/// Sets the 8-bit field at `loc` to `value`.
pub fn write_gain_at(data: &mut Vec<u8>, loc: &GainLocation, value: u8)
    requires
        loc.wf(),
    ensures
        final(data)@ == field_written(old(data)@, loc.byte_offset as int, loc.bit_offset, value),
{
    let idx = loc.byte_offset;
    if idx >= data.len() {
        return;
    }
    if loc.bit_offset == 0 {
        data.set(idx, value);
    } else if idx + 1 < data.len() {
        let shift = loc.bit_offset;
        let mask_high = (0xFFu8 << (8 - shift)) as u8;
        let mask_low = 0xFFu8 >> shift;
        let b0 = (data[idx] & mask_high) | (value >> shift);
        let b1 = (data[idx + 1] & mask_low) | ((value << (8 - shift)) as u8);
        data.set(idx, b0);
        data.set(idx + 1, b1);
    } else {
        let shift = loc.bit_offset;
        let mask_high = (0xFFu8 << (8 - shift)) as u8;
        let b0 = (data[idx] & mask_high) | (value >> shift);
        data.set(idx, b0);
    }
}

/// Writing a value into a field and reading the field back gives the value;
/// for a field that starts in the last byte of the buffer only the bits that
/// fit in the buffer survive, and the rest read as zero.
pub proof fn lemma_field_write_then_read(d: Seq<u8>, idx: int, off: u8, v: u8)
    requires
        0 <= idx < d.len(),
        off < 8,
    ensures
        field_written(d, idx, off, v).len() == d.len(),
        field_value(field_written(d, idx, off, v), idx, off) == (if off == 0 || idx + 1 < d.len() {
            v
        } else {
            ((v >> off) << off) as u8
        }),
{
    let w = field_written(d, idx, off, v);
    if off != 0 {
        let a = d[idx];
        if idx + 1 < d.len() {
            let b = d[idx + 1];
            assert(((((a & ((0xFFu8 << ((8 - off) as u8)) as u8)) | (v >> off)) << off) as u8)
                | (((b & (0xFFu8 >> off)) | ((v << ((8 - off) as u8)) as u8)) >> ((8 - off) as u8))
                == v) by (bit_vector)
                requires
                    0 < off < 8,
            ;
        } else {
            assert((((a & ((0xFFu8 << ((8 - off) as u8)) as u8)) | (v >> off)) << off) as u8 == ((
            v >> off) << off) as u8) by (bit_vector)
                requires
                    0 < off < 8,
            ;
        }
    }
}

/// Writing back the value that a field already holds leaves the buffer as it
/// was, also for a field that starts in the last byte.
pub proof fn lemma_field_write_same(d: Seq<u8>, idx: int, off: u8)
    requires
        0 <= idx < d.len(),
        off < 8,
    ensures
        field_written(d, idx, off, field_value(d, idx, off)) == d,
{
    let v = field_value(d, idx, off);
    let w = field_written(d, idx, off, v);
    if off != 0 {
        let a = d[idx];
        if idx + 1 < d.len() {
            let b = d[idx + 1];
            assert((a & ((0xFFu8 << ((8 - off) as u8)) as u8)) | ((((a << off) as u8) | (b >> ((8
                - off) as u8))) >> off) == a) by (bit_vector)
                requires
                    0 < off < 8,
            ;
            assert((b & (0xFFu8 >> off)) | (((((a << off) as u8) | (b >> ((8 - off) as u8))) << ((8
                - off) as u8)) as u8) == b) by (bit_vector)
                requires
                    0 < off < 8,
            ;
        } else {
            assert((a & ((0xFFu8 << ((8 - off) as u8)) as u8)) | (((a << off) as u8) >> off) == a)
                by (bit_vector)
                requires
                    0 < off < 8,
            ;
        }
    }
    assert(w =~= d);
}

} // verus!

//! Byte-level decoding of Fortran unformatted (record-marked) binary data.
use vstd::prelude::*;
use crate::types::{ByteOrder, Precision, Plot3DError, value_width};

verus! {

/// Unsigned value of four bytes, least significant first.
pub open spec fn u32_from_le(b0: u8, b1: u8, b2: u8, b3: u8) -> u32 {
    (b0 as int + b1 as int * 0x100 + b2 as int * 0x1_0000 + b3 as int * 0x100_0000) as u32
}

/// Unsigned value of eight bytes, least significant first.
pub open spec fn u64_from_le(
    b0: u8,
    b1: u8,
    b2: u8,
    b3: u8,
    b4: u8,
    b5: u8,
    b6: u8,
    b7: u8,
) -> u64 {
    (u32_from_le(b0, b1, b2, b3) as int + u32_from_le(b4, b5, b6, b7) as int * 0x1_0000_0000) as u64
}

/// The 32-bit word stored at `p` in the given byte order.
pub open spec fn word32_at(data: Seq<u8>, p: int, order: ByteOrder) -> u32 {
    match order {
        ByteOrder::LittleEndian => u32_from_le(data[p], data[p + 1], data[p + 2], data[p + 3]),
        ByteOrder::BigEndian => u32_from_le(data[p + 3], data[p + 2], data[p + 1], data[p]),
    }
}

/// The 64-bit word stored at `p` in the given byte order.
pub open spec fn word64_at(data: Seq<u8>, p: int, order: ByteOrder) -> u64 {
    match order {
        ByteOrder::LittleEndian => u64_from_le(
            data[p],
            data[p + 1],
            data[p + 2],
            data[p + 3],
            data[p + 4],
            data[p + 5],
            data[p + 6],
            data[p + 7],
        ),
        ByteOrder::BigEndian => u64_from_le(
            data[p + 7],
            data[p + 6],
            data[p + 5],
            data[p + 4],
            data[p + 3],
            data[p + 2],
            data[p + 1],
            data[p],
        ),
    }
}

/// The two's-complement 32-bit integer stored at `p`.
pub open spec fn i32_at(data: Seq<u8>, p: int, order: ByteOrder) -> i32 {
    word32_at(data, p, order) as i32
}

/// Whether `n` bytes are available at `p`.
pub open spec fn has_bytes(data: Seq<u8>, p: int, n: int) -> bool {
    0 <= p && p + n <= data.len()
}

/// Reading a 32-bit integer at `p`: the value and the next position.
pub open spec fn spec_read_i32(data: Seq<u8>, p: int, order: ByteOrder) -> Result<(i32, int), Plot3DError> {
    if has_bytes(data, p, 4) {
        Ok((i32_at(data, p, order), p + 4))
    } else {
        Err(Plot3DError::UnexpectedEof)
    }
}

/// Skipping a 4-byte record marker at `p`.
pub open spec fn spec_skip_marker(data: Seq<u8>, p: int) -> Result<int, Plot3DError> {
    if has_bytes(data, p, 4) {
        Ok(p + 4)
    } else {
        Err(Plot3DError::UnexpectedEof)
    }
}

/// Skipping `n` bytes at `p`.
pub open spec fn spec_skip_bytes(data: Seq<u8>, p: int, n: int) -> Result<int, Plot3DError> {
    if has_bytes(data, p, n) {
        Ok(p + n)
    } else {
        Err(Plot3DError::UnexpectedEof)
    }
}

/// The stored value of width `w` (4 or 8) at `p`, widened to 64 bits.
pub open spec fn value_at(data: Seq<u8>, p: int, w: nat, order: ByteOrder) -> u64 {
    if w == 4 {
        word32_at(data, p, order) as u64
    } else {
        word64_at(data, p, order)
    }
}

/// `count` consecutive stored values of width `w` starting at `p`.
pub open spec fn values_at(data: Seq<u8>, p: int, count: nat, w: nat, order: ByteOrder) -> Seq<u64> {
    Seq::new(count, |n: int| value_at(data, p + n * w, w, order))
}

/// `count` consecutive 32-bit words starting at `p`.
pub open spec fn words32_at(data: Seq<u8>, p: int, count: nat, order: ByteOrder) -> Seq<u32> {
    Seq::new(count, |n: int| word32_at(data, p + n * 4, order))
}

/// `count` consecutive 32-bit integers starting at `p`.
pub open spec fn ints_at(data: Seq<u8>, p: int, count: nat, order: ByteOrder) -> Seq<i32> {
    Seq::new(count, |n: int| i32_at(data, p + n * 4, order))
}

/// Reading `count` values of precision `prec` at `p` (the precision must be
/// F32 or F64).
pub open spec fn spec_read_values(
    data: Seq<u8>,
    p: int,
    count: nat,
    prec: Precision,
    order: ByteOrder,
) -> Result<(Seq<u64>, int), Plot3DError> {
    let w = value_width(prec);
    if has_bytes(data, p, (count * w) as int) {
        Ok((values_at(data, p, count, w, order), p + count * w))
    } else {
        Err(Plot3DError::UnexpectedEof)
    }
}

/// Whether a reader call returned what the specification gives.
pub open spec fn outcome<T>(
    res: Result<T, Plot3DError>,
    new_pos: int,
    expected: Result<(T, int), Plot3DError>,
) -> bool {
    match res {
        Ok(v) => expected == Ok::<(T, int), Plot3DError>((v, new_pos)),
        Err(e) => expected == Err::<(T, int), Plot3DError>(e),
    }
}

/// A cursor over the bytes of a binary file.
pub struct ByteReader<'a> {
    data: &'a [u8],
    pos: usize,
}

impl<'a> ByteReader<'a> {
    #[verifier::type_invariant]
    spec fn inv(&self) -> bool {
        self.pos <= self.data@.len()
    }

    /// The bytes being read.
    pub closed spec fn bytes(&self) -> Seq<u8> {
        self.data@
    }

    /// The position of the next byte to read.
    pub closed spec fn position(&self) -> int {
        self.pos as int
    }

    /// A cursor at the first of the given bytes.
    pub fn new(data: &'a [u8]) -> (r: Self)
        ensures
            r.bytes() == data@,
            r.position() == 0,
    {
        ByteReader { data, pos: 0 }
    }

    /// The position of the next byte to read.
    pub fn pos(&self) -> (p: usize)
        ensures
            p as int == self.position(),
    {
        self.pos
    }

    /// Number of bytes left after the position.
    pub fn remaining(&self) -> (n: usize)
        ensures
            0 <= self.position() <= self.bytes().len(),
            n as int == self.bytes().len() - self.position(),
    {
        proof {
            use_type_invariant(self);
        }
        self.data.len() - self.pos
    }

    /// Takes the next `n` bytes, which must be there.
    pub fn take_bytes(&mut self, n: usize) -> (b: &'a [u8])
        requires
            has_bytes(old(self).bytes(), old(self).position(), n as int),
        ensures
            final(self).bytes() == old(self).bytes(),
            final(self).position() == old(self).position() + n,
            b@ == old(self).bytes().subrange(old(self).position(), old(self).position() + n),
    {
        let start = self.pos;
        let len = self.data.len();
        assert(len == self.data@.len());
        let b = vstd::slice::slice_subrange(self.data, start, start + n);
        self.pos = start + n;
        b
    }

    /// The byte at offset `k` after the position.
    fn byte(&self, k: usize) -> (b: u8)
        requires
            has_bytes(self.bytes(), self.position(), k + 1),
        ensures
            b == self.bytes()[self.position() + k],
    {
        let len = self.data.len();
        assert(len == self.data@.len());
        self.data[self.pos + k]
    }

    /// Moves the position forward by `n` bytes, which must be there.
    fn advance(&mut self, n: usize)
        requires
            has_bytes(old(self).bytes(), old(self).position(), n as int),
        ensures
            final(self).bytes() == old(self).bytes(),
            final(self).position() == old(self).position() + n,
    {
        let len = self.data.len();
        assert(len == self.data@.len());
        self.pos = self.pos + n;
    }

    /// The 32-bit word at the position (not consumed).
    fn peek_word32(&self, order: ByteOrder) -> (w: u32)
        requires
            has_bytes(self.bytes(), self.position(), 4),
        ensures
            w == word32_at(self.bytes(), self.position(), order),
    {
        let (b0, b1, b2, b3) = match order {
            ByteOrder::LittleEndian => (self.byte(0), self.byte(1), self.byte(2), self.byte(3)),
            ByteOrder::BigEndian => (self.byte(3), self.byte(2), self.byte(1), self.byte(0)),
        };
        b0 as u32 + b1 as u32 * 0x100 + b2 as u32 * 0x1_0000 + b3 as u32 * 0x100_0000
    }

    /// The 64-bit word at the position (not consumed).
    fn peek_word64(&self, order: ByteOrder) -> (w: u64)
        requires
            has_bytes(self.bytes(), self.position(), 8),
        ensures
            w == word64_at(self.bytes(), self.position(), order),
    {
        let (b0, b1, b2, b3, b4, b5, b6, b7) = match order {
            ByteOrder::LittleEndian => (
                self.byte(0),
                self.byte(1),
                self.byte(2),
                self.byte(3),
                self.byte(4),
                self.byte(5),
                self.byte(6),
                self.byte(7),
            ),
            ByteOrder::BigEndian => (
                self.byte(7),
                self.byte(6),
                self.byte(5),
                self.byte(4),
                self.byte(3),
                self.byte(2),
                self.byte(1),
                self.byte(0),
            ),
        };
        let lo = b0 as u64 + b1 as u64 * 0x100 + b2 as u64 * 0x1_0000 + b3 as u64 * 0x100_0000;
        let hi = b4 as u64 + b5 as u64 * 0x100 + b6 as u64 * 0x1_0000 + b7 as u64 * 0x100_0000;
        lo + hi * 0x1_0000_0000
    }
}

/// Reads a 32-bit integer in the given byte order.
pub fn read_i32(reader: &mut ByteReader, byte_order: ByteOrder) -> (r: Result<i32, Plot3DError>)
    ensures
        final(reader).bytes() == old(reader).bytes(),
        outcome(r, final(reader).position(), spec_read_i32(old(reader).bytes(), old(reader).position(), byte_order)),
{
    if reader.remaining() < 4 {
        return Err(Plot3DError::UnexpectedEof);
    }
    let w = reader.peek_word32(byte_order);
    reader.advance(4);
    Ok(#[verifier::truncate] (w as i32))
}

/// Reads a Fortran record marker: the length in bytes of the record.
pub fn read_record_marker(reader: &mut ByteReader, byte_order: ByteOrder) -> (r: Result<i32, Plot3DError>)
    ensures
        final(reader).bytes() == old(reader).bytes(),
        outcome(r, final(reader).position(), spec_read_i32(old(reader).bytes(), old(reader).position(), byte_order)),
{
    read_i32(reader, byte_order)
}

/// Skips a Fortran record marker.
pub fn skip_record_marker(reader: &mut ByteReader) -> (r: Result<(), Plot3DError>)
    ensures
        final(reader).bytes() == old(reader).bytes(),
        match r {
            Ok(()) => spec_skip_marker(old(reader).bytes(), old(reader).position()) == Ok::<int, Plot3DError>(final(reader).position()),
            Err(e) => spec_skip_marker(old(reader).bytes(), old(reader).position()) == Err::<int, Plot3DError>(e),
        },
{
    if reader.remaining() < 4 {
        return Err(Plot3DError::UnexpectedEof);
    }
    reader.advance(4);
    Ok(())
}

/// Whether a value is a plausible PLOT3D dimension.
pub open spec fn plausible_dimension(v: i32) -> bool {
    0 < v < 10000
}

/// The byte order that the first four bytes suggest: little-endian when they
/// read as a plausible dimension that way, else big-endian when they read as
/// one that way, else little-endian.
pub open spec fn spec_detect_byte_order(data: Seq<u8>, p: int) -> Result<(ByteOrder, int), Plot3DError> {
    if has_bytes(data, p, 4) {
        let order = if plausible_dimension(i32_at(data, p, ByteOrder::LittleEndian)) {
            ByteOrder::LittleEndian
        } else if plausible_dimension(i32_at(data, p, ByteOrder::BigEndian)) {
            ByteOrder::BigEndian
        } else {
            ByteOrder::LittleEndian
        };
        Ok((order, p + 4))
    } else {
        Err(Plot3DError::UnexpectedEof)
    }
}

/// Guesses the byte order from the first dimension value.
pub fn detect_byte_order(reader: &mut ByteReader) -> (r: Result<ByteOrder, Plot3DError>)
    ensures
        final(reader).bytes() == old(reader).bytes(),
        outcome(r, final(reader).position(), spec_detect_byte_order(old(reader).bytes(), old(reader).position())),
{
    if reader.remaining() < 4 {
        return Err(Plot3DError::UnexpectedEof);
    }
    let le = #[verifier::truncate] (reader.peek_word32(ByteOrder::LittleEndian) as i32);
    let be = #[verifier::truncate] (reader.peek_word32(ByteOrder::BigEndian) as i32);
    reader.advance(4);
    if le > 0 && le < 10000 {
        Ok(ByteOrder::LittleEndian)
    } else if be > 0 && be < 10000 {
        Ok(ByteOrder::BigEndian)
    } else {
        Ok(ByteOrder::LittleEndian)
    }
}


/// Largest element count the array readers take (every product of three
/// dimensions and a small factor is far below it).
pub open spec fn count_bound() -> nat {
    0x1_0000_0000_0000_0000_0000_0000_0000
}

/// Skips `n` bytes.
pub fn skip_bytes(reader: &mut ByteReader, n: u128) -> (r: Result<(), Plot3DError>)
    ensures
        final(reader).bytes() == old(reader).bytes(),
        match r {
            Ok(()) => spec_skip_bytes(old(reader).bytes(), old(reader).position(), n as int) == Ok::<int, Plot3DError>(final(reader).position()),
            Err(e) => spec_skip_bytes(old(reader).bytes(), old(reader).position(), n as int) == Err::<int, Plot3DError>(e),
        },
{
    if (reader.remaining() as u128) < n {
        return Err(Plot3DError::UnexpectedEof);
    }
    reader.advance(n as usize);
    Ok(())
}

/// Reads `count` values of the given precision (F32 or F64), each widened to
/// 64 bits.
pub fn read_values_with_precision(
    reader: &mut ByteReader,
    count: u128,
    byte_order: ByteOrder,
    precision: Precision,
) -> (r: Result<Vec<u64>, Plot3DError>)
    requires
        precision != Precision::Mixed,
        count <= count_bound(),
    ensures
        final(reader).bytes() == old(reader).bytes(),
        outcome(
            match r { Ok(v) => Ok::<Seq<u64>, Plot3DError>(v@), Err(e) => Err(e) },
            final(reader).position(),
            spec_read_values(old(reader).bytes(), old(reader).position(), count as nat, precision, byte_order),
        ),
{
    let w: u128 = match precision {
        Precision::F32 => 4,
        _ => 8,
    };
    if (reader.remaining() as u128) < count * w {
        return Err(Plot3DError::UnexpectedEof);
    }
    let n = count as usize;
    let ghost data = reader.bytes();
    let ghost p0 = reader.position();
    let mut result: Vec<u64> = Vec::new();
    let mut idx: usize = 0;
    match precision {
        Precision::F32 => {
            while idx < n
                invariant
                    reader.bytes() == data,
                    n == count,
                    idx <= n,
                    has_bytes(data, p0, (count * 4) as int),
                    reader.position() == p0 + idx * 4,
                    result@ =~= values_at(data, p0, idx as nat, 4, byte_order),
                decreases n - idx,
            {
                let v = reader.peek_word32(byte_order);
                reader.advance(4);
                result.push(v as u64);
                idx = idx + 1;
            }
        },
        _ => {
            while idx < n
                invariant
                    reader.bytes() == data,
                    n == count,
                    idx <= n,
                    has_bytes(data, p0, (count * 8) as int),
                    reader.position() == p0 + idx * 8,
                    result@ =~= values_at(data, p0, idx as nat, 8, byte_order),
                decreases n - idx,
            {
                let v = reader.peek_word64(byte_order);
                reader.advance(8);
                result.push(v);
                idx = idx + 1;
            }
        },
    }
    Ok(result)
}

/// Reads one single-precision value (its bit pattern).
pub fn read_f32(reader: &mut ByteReader, byte_order: ByteOrder) -> (r: Result<u32, Plot3DError>)
    ensures
        final(reader).bytes() == old(reader).bytes(),
        outcome(
            r,
            final(reader).position(),
            if has_bytes(old(reader).bytes(), old(reader).position(), 4) {
                Ok((word32_at(old(reader).bytes(), old(reader).position(), byte_order), old(reader).position() + 4))
            } else {
                Err(Plot3DError::UnexpectedEof)
            },
        ),
{
    if reader.remaining() < 4 {
        return Err(Plot3DError::UnexpectedEof);
    }
    let w = reader.peek_word32(byte_order);
    reader.advance(4);
    Ok(w)
}

/// Reads `count` double-precision values (their bit patterns).
pub fn read_f64_array(reader: &mut ByteReader, count: u128, byte_order: ByteOrder) -> (r: Result<Vec<u64>, Plot3DError>)
    requires
        count <= count_bound(),
    ensures
        final(reader).bytes() == old(reader).bytes(),
        outcome(
            match r { Ok(v) => Ok::<Seq<u64>, Plot3DError>(v@), Err(e) => Err(e) },
            final(reader).position(),
            spec_read_values(old(reader).bytes(), old(reader).position(), count as nat, Precision::F64, byte_order),
        ),
{
    read_values_with_precision(reader, count, byte_order, Precision::F64)
}

/// Reading `count` 32-bit words at `p`.
pub open spec fn spec_read_words32(data: Seq<u8>, p: int, count: nat, order: ByteOrder) -> Result<(Seq<u32>, int), Plot3DError> {
    if has_bytes(data, p, (count * 4) as int) {
        Ok((words32_at(data, p, count, order), p + count * 4))
    } else {
        Err(Plot3DError::UnexpectedEof)
    }
}

/// Reads `count` single-precision values (their bit patterns).
pub fn read_f32_array(reader: &mut ByteReader, count: u128, byte_order: ByteOrder) -> (r: Result<Vec<u32>, Plot3DError>)
    requires
        count <= count_bound(),
    ensures
        final(reader).bytes() == old(reader).bytes(),
        outcome(
            match r { Ok(v) => Ok::<Seq<u32>, Plot3DError>(v@), Err(e) => Err(e) },
            final(reader).position(),
            spec_read_words32(old(reader).bytes(), old(reader).position(), count as nat, byte_order),
        ),
{
    if (reader.remaining() as u128) < count * 4 {
        return Err(Plot3DError::UnexpectedEof);
    }
    let n = count as usize;
    let ghost data = reader.bytes();
    let ghost p0 = reader.position();
    let mut result: Vec<u32> = Vec::new();
    let mut idx: usize = 0;
    while idx < n
        invariant
            reader.bytes() == data,
            n == count,
            idx <= n,
            has_bytes(data, p0, (count * 4) as int),
            reader.position() == p0 + idx * 4,
            result@ =~= words32_at(data, p0, idx as nat, byte_order),
        decreases n - idx,
    {
        let v = reader.peek_word32(byte_order);
        reader.advance(4);
        result.push(v);
        idx = idx + 1;
    }
    Ok(result)
}

/// Reading `count` 32-bit integers at `p`.
pub open spec fn spec_read_ints(data: Seq<u8>, p: int, count: nat, order: ByteOrder) -> Result<(Seq<i32>, int), Plot3DError> {
    if has_bytes(data, p, (count * 4) as int) {
        Ok((ints_at(data, p, count, order), p + count * 4))
    } else {
        Err(Plot3DError::UnexpectedEof)
    }
}

/// Reads `count` 32-bit integers.
pub fn read_i32_array(reader: &mut ByteReader, count: u128, byte_order: ByteOrder) -> (r: Result<Vec<i32>, Plot3DError>)
    requires
        count <= count_bound(),
    ensures
        final(reader).bytes() == old(reader).bytes(),
        outcome(
            match r { Ok(v) => Ok::<Seq<i32>, Plot3DError>(v@), Err(e) => Err(e) },
            final(reader).position(),
            spec_read_ints(old(reader).bytes(), old(reader).position(), count as nat, byte_order),
        ),
{
    if (reader.remaining() as u128) < count * 4 {
        return Err(Plot3DError::UnexpectedEof);
    }
    let n = count as usize;
    let ghost data = reader.bytes();
    let ghost p0 = reader.position();
    let mut result: Vec<i32> = Vec::new();
    let mut idx: usize = 0;
    while idx < n
        invariant
            reader.bytes() == data,
            n == count,
            idx <= n,
            has_bytes(data, p0, (count * 4) as int),
            reader.position() == p0 + idx * 4,
            result@ =~= ints_at(data, p0, idx as nat, byte_order),
        decreases n - idx,
    {
        let v = reader.peek_word32(byte_order);
        reader.advance(4);
        result.push(#[verifier::truncate] (v as i32));
        idx = idx + 1;
    }
    Ok(result)
}


/// Coordinates of one grid as read from a binary file.
pub type SpecCoords = (Seq<u64>, Seq<u64>, Seq<u64>, Precision);

/// Reading one record that holds the X, Y and Z arrays of `count` values of
/// precision `prec`, followed by `extra` bytes that are skipped, and the
/// closing marker, which must equal `opening`.
pub open spec fn spec_xyz_block(
    data: Seq<u8>,
    p: int,
    count: nat,
    prec: Precision,
    extra: nat,
    opening: i32,
    order: ByteOrder,
) -> Result<(SpecCoords, int), Plot3DError> {
    match spec_read_values(data, p, count, prec, order) {
        Err(e) => Err(e),
        Ok((x, p1)) => match spec_read_values(data, p1, count, prec, order) {
            Err(e) => Err(e),
            Ok((y, p2)) => match spec_read_values(data, p2, count, prec, order) {
                Err(e) => Err(e),
                Ok((z, p3)) => match spec_skip_bytes(data, p3, extra as int) {
                    Err(e) => Err(e),
                    Ok(p4) => match spec_read_i32(data, p4, order) {
                        Err(e) => Err(e),
                        Ok((closing, p5)) => if closing != opening {
                            Err(Plot3DError::RecordMarkerMismatch { opening, closing })
                        } else {
                            Ok(((x, y, z, prec), p5))
                        },
                    },
                },
            },
        },
    }
}

/// The record length that a record of `count` values of width `w` must
/// announce, as the reader computes it (wrapped to 32 bits).
pub open spec fn announced_size(count: nat, w: nat) -> i32 {
    (count * w) as i32
}

/// Reading one record of `count` values of precision `prec` framed by record
/// markers whose length must be exactly `count` values.
pub open spec fn spec_read_marked_values(
    data: Seq<u8>,
    p: int,
    count: nat,
    prec: Precision,
    order: ByteOrder,
) -> Result<(Seq<u64>, int), Plot3DError> {
    match spec_read_i32(data, p, order) {
        Err(e) => Err(e),
        Ok((size, p1)) => if size != announced_size(count, value_width(prec)) {
            Err(Plot3DError::RecordSizeMismatch { size, expected_size: announced_size(count, value_width(prec)) })
        } else {
            match spec_read_values(data, p1, count, prec, order) {
                Err(e) => Err(e),
                Ok((v, p2)) => match spec_read_i32(data, p2, order) {
                    Err(e) => Err(e),
                    Ok((closing, p3)) => if closing != size {
                        Err(Plot3DError::RecordMarkerMismatch { opening: size, closing })
                    } else {
                        Ok((v, p3))
                    },
                },
            }
        },
    }
}

/// Reading the three coordinate arrays of a grid of `count` points as
/// separate records (X, then Y, then Z), the first record having announced
/// length `opening`.
pub open spec fn spec_xyz_separate(
    data: Seq<u8>,
    p: int,
    count: nat,
    prec: Precision,
    opening: i32,
    order: ByteOrder,
) -> Result<(SpecCoords, int), Plot3DError> {
    match spec_read_values(data, p, count, prec, order) {
        Err(e) => Err(e),
        Ok((x, p1)) => match spec_read_i32(data, p1, order) {
            Err(e) => Err(e),
            Ok((closing, p2)) => if closing != opening {
                Err(Plot3DError::XRecordMarkerMismatch { opening, closing })
            } else {
                match spec_read_marked_values(data, p2, count, prec, order) {
                    Err(e) => Err(e),
                    Ok((y, p3)) => match spec_read_marked_values(data, p3, count, prec, order) {
                        Err(e) => Err(e),
                        Ok((z, p4)) => Ok(((x, y, z, prec), p4)),
                    },
                }
            },
        },
    }
}

/// Reading the coordinates of a grid of `count` points. The length of the
/// first record decides the layout: all three arrays in one record (single or
/// double precision, optionally followed by the IBLANK integers, which are
/// skipped), or one record per array.
pub open spec fn spec_read_xyz(data: Seq<u8>, p: int, count: nat, order: ByteOrder) -> Result<(SpecCoords, int), Plot3DError> {
    match spec_read_i32(data, p, order) {
        Err(e) => Err(e),
        Ok((size, p1)) => if size <= 0 {
            Err(Plot3DError::InvalidRecordMarker(size))
        } else if size / 4 == 3 * count {
            spec_xyz_block(data, p1, count, Precision::F32, 0, size, order)
        } else if size / 8 == 3 * count {
            spec_xyz_block(data, p1, count, Precision::F64, 0, size, order)
        } else if size == count * 16 {
            spec_xyz_block(data, p1, count, Precision::F32, count * 4, size, order)
        } else if size == count * 28 {
            spec_xyz_block(data, p1, count, Precision::F64, count * 4, size, order)
        } else if size == count * 4 {
            spec_xyz_separate(data, p1, count, Precision::F32, size, order)
        } else if size == count * 8 {
            spec_xyz_separate(data, p1, count, Precision::F64, size, order)
        } else {
            Err(Plot3DError::InvalidRecordSize { count: count as u128, size })
        },
    }
}

/// Reading an optional IBLANK record of `count` integers: absent (nothing is
/// consumed) when fewer than four bytes remain or when the next marker does
/// not announce exactly `count` integers.
pub open spec fn spec_try_read_iblank(data: Seq<u8>, p: int, count: nat, order: ByteOrder) -> Result<(Option<Seq<i32>>, int), Plot3DError> {
    if !has_bytes(data, p, 4) {
        Ok((None, p))
    } else if i32_at(data, p, order) != announced_size(count, 4) {
        Ok((None, p))
    } else {
        match spec_read_ints(data, p + 4, count, order) {
            Err(e) => Err(e),
            Ok((v, p1)) => match spec_read_i32(data, p1, order) {
                Err(e) => Err(e),
                Ok((closing, p2)) => if closing != i32_at(data, p, order) {
                    Err(Plot3DError::IblankMarkerMismatch { opening: i32_at(data, p, order), closing })
                } else {
                    Ok((Some(v), p2))
                },
            },
        }
    }
}

/// Exec view of coordinate arrays.
pub open spec fn coords_view(c: (Vec<u64>, Vec<u64>, Vec<u64>, Precision)) -> SpecCoords {
    (c.0@, c.1@, c.2@, c.3)
}

fn read_xyz_block(
    reader: &mut ByteReader,
    count: u128,
    precision: Precision,
    extra: u128,
    opening: i32,
    byte_order: ByteOrder,
) -> (r: Result<(Vec<u64>, Vec<u64>, Vec<u64>, Precision), Plot3DError>)
    requires
        precision != Precision::Mixed,
        count <= count_bound(),
        extra <= count_bound(),
    ensures
        final(reader).bytes() == old(reader).bytes(),
        outcome(
            match r { Ok(v) => Ok::<SpecCoords, Plot3DError>(coords_view(v)), Err(e) => Err(e) },
            final(reader).position(),
            spec_xyz_block(old(reader).bytes(), old(reader).position(), count as nat, precision, extra as nat, opening, byte_order),
        ),
{
    let x = read_values_with_precision(reader, count, byte_order, precision)?;
    let y = read_values_with_precision(reader, count, byte_order, precision)?;
    let z = read_values_with_precision(reader, count, byte_order, precision)?;
    skip_bytes(reader, extra)?;
    let closing = read_record_marker(reader, byte_order)?;
    if closing != opening {
        return Err(Plot3DError::RecordMarkerMismatch { opening, closing });
    }
    Ok((x, y, z, precision))
}

/// Reads one record of `count` values of the given precision framed by
/// record markers that must announce exactly `count` values.
pub fn read_f32_array_with_markers_precision(
    reader: &mut ByteReader,
    count: u128,
    byte_order: ByteOrder,
    precision: Precision,
) -> (r: Result<Vec<u64>, Plot3DError>)
    requires
        precision != Precision::Mixed,
        count <= count_bound(),
    ensures
        final(reader).bytes() == old(reader).bytes(),
        outcome(
            match r { Ok(v) => Ok::<Seq<u64>, Plot3DError>(v@), Err(e) => Err(e) },
            final(reader).position(),
            spec_read_marked_values(old(reader).bytes(), old(reader).position(), count as nat, precision, byte_order),
        ),
{
    let size = read_record_marker(reader, byte_order)?;
    let expected_size: i32 = match precision {
        Precision::F32 => #[verifier::truncate] ((count * 4) as i32),
        _ => #[verifier::truncate] ((count * 8) as i32),
    };
    if size != expected_size {
        return Err(Plot3DError::RecordSizeMismatch { size, expected_size });
    }
    let result = read_values_with_precision(reader, count, byte_order, precision)?;
    let closing = read_record_marker(reader, byte_order)?;
    if closing != size {
        return Err(Plot3DError::RecordMarkerMismatch { opening: size, closing });
    }
    Ok(result)
}

fn read_xyz_separate(
    reader: &mut ByteReader,
    count: u128,
    precision: Precision,
    opening: i32,
    byte_order: ByteOrder,
) -> (r: Result<(Vec<u64>, Vec<u64>, Vec<u64>, Precision), Plot3DError>)
    requires
        precision != Precision::Mixed,
        count <= count_bound(),
    ensures
        final(reader).bytes() == old(reader).bytes(),
        outcome(
            match r { Ok(v) => Ok::<SpecCoords, Plot3DError>(coords_view(v)), Err(e) => Err(e) },
            final(reader).position(),
            spec_xyz_separate(old(reader).bytes(), old(reader).position(), count as nat, precision, opening, byte_order),
        ),
{
    let x = read_values_with_precision(reader, count, byte_order, precision)?;
    let closing = read_record_marker(reader, byte_order)?;
    if closing != opening {
        return Err(Plot3DError::XRecordMarkerMismatch { opening, closing });
    }
    let y = read_f32_array_with_markers_precision(reader, count, byte_order, precision)?;
    let z = read_f32_array_with_markers_precision(reader, count, byte_order, precision)?;
    Ok((x, y, z, precision))
}

/// Reads the X, Y and Z coordinate arrays of a grid of `count` points,
/// recognising the record layout from the first record marker.
pub fn read_xyz_coords_with_markers(
    reader: &mut ByteReader,
    count: u128,
    byte_order: ByteOrder,
) -> (r: Result<(Vec<u64>, Vec<u64>, Vec<u64>, Precision), Plot3DError>)
    requires
        count <= count_bound(),
    ensures
        final(reader).bytes() == old(reader).bytes(),
        outcome(
            match r { Ok(v) => Ok::<SpecCoords, Plot3DError>(coords_view(v)), Err(e) => Err(e) },
            final(reader).position(),
            spec_read_xyz(old(reader).bytes(), old(reader).position(), count as nat, byte_order),
        ),
{
    let size = read_record_marker(reader, byte_order)?;
    if size <= 0 {
        return Err(Plot3DError::InvalidRecordMarker(size));
    }
    let s = size as u128;
    if s / 4 == 3 * count {
        read_xyz_block(reader, count, Precision::F32, 0, size, byte_order)
    } else if s / 8 == 3 * count {
        read_xyz_block(reader, count, Precision::F64, 0, size, byte_order)
    } else if s == count * 16 {
        read_xyz_block(reader, count, Precision::F32, count * 4, size, byte_order)
    } else if s == count * 28 {
        read_xyz_block(reader, count, Precision::F64, count * 4, size, byte_order)
    } else if s == count * 4 {
        read_xyz_separate(reader, count, Precision::F32, size, byte_order)
    } else if s == count * 8 {
        read_xyz_separate(reader, count, Precision::F64, size, byte_order)
    } else {
        Err(Plot3DError::InvalidRecordSize { count, size })
    }
}

/// Reads an IBLANK record of `count` integers if one follows; when fewer than
/// four bytes remain, or the next marker does not announce `count` integers,
/// nothing is consumed and `None` is returned.
pub fn try_read_iblank_array(
    reader: &mut ByteReader,
    count: u128,
    byte_order: ByteOrder,
) -> (r: Result<Option<Vec<i32>>, Plot3DError>)
    requires
        count <= count_bound(),
    ensures
        final(reader).bytes() == old(reader).bytes(),
        outcome(
            match r {
                Ok(Some(v)) => Ok::<Option<Seq<i32>>, Plot3DError>(Some(v@)),
                Ok(None) => Ok::<Option<Seq<i32>>, Plot3DError>(None),
                Err(e) => Err(e),
            },
            final(reader).position(),
            spec_try_read_iblank(old(reader).bytes(), old(reader).position(), count as nat, byte_order),
        ),
{
    if reader.remaining() < 4 {
        return Ok(None);
    }
    let size = #[verifier::truncate] (reader.peek_word32(byte_order) as i32);
    let expected: i32 = #[verifier::truncate] ((count * 4) as i32);
    if size != expected {
        return Ok(None);
    }
    reader.advance(4);
    let iblank = read_i32_array(reader, count, byte_order)?;
    let closing = read_record_marker(reader, byte_order)?;
    if closing != size {
        return Err(Plot3DError::IblankMarkerMismatch { opening: size, closing });
    }
    Ok(Some(iblank))
}

} // verus!

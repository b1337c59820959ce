//! PLOT3D grids: the binary grid file reader and the wireframe mesh topology.
use vstd::prelude::*;
use crate::types::{ByteOrder, GridDimensions, Plot3DError, Precision, spec_byte_order_str, spec_precision_str, byte_order_string, value_width};
use crate::ascii::widen;
use crate::binary::{
    ByteReader, has_bytes, i32_at, spec_read_i32, spec_skip_marker, spec_read_xyz,
    spec_try_read_iblank, count_bound, outcome, read_i32, skip_record_marker,
    read_xyz_coords_with_markers, try_read_iblank_array, word32_at, u32_from_le,
    spec_read_values, spec_read_marked_values, spec_xyz_block, spec_xyz_separate,
    values_at, SpecCoords, announced_size, ints_at,
};

verus! {

/// A PLOT3D grid. Coordinates are the raw IEEE-754 bit patterns of the stored
/// values, in `precision` (single-precision patterns occupy the low 32 bits).
pub struct Plot3DGrid {
    pub dimensions: GridDimensions,
    pub precision: Precision,
    pub x_coords: Vec<u64>,
    pub y_coords: Vec<u64>,
    pub z_coords: Vec<u64>,
    /// Blanking values (0 = blanked, otherwise visible), when present.
    pub iblank: Option<Vec<i32>>,
}

/// Mathematical model of a grid.
pub struct SpecGrid {
    pub dimensions: GridDimensions,
    pub precision: Precision,
    pub x: Seq<u64>,
    pub y: Seq<u64>,
    pub z: Seq<u64>,
    pub iblank: Option<Seq<i32>>,
}

impl View for Plot3DGrid {
    type V = SpecGrid;

    open spec fn view(&self) -> SpecGrid {
        SpecGrid {
            dimensions: self.dimensions,
            precision: self.precision,
            x: self.x_coords@,
            y: self.y_coords@,
            z: self.z_coords@,
            iblank: match self.iblank {
                Some(v) => Some(v@),
                None => None,
            },
        }
    }
}

/// Models of a sequence of grids.
pub open spec fn grids_view(v: Seq<Plot3DGrid>) -> Seq<SpecGrid> {
    Seq::new(v.len(), |n: int| v[n]@)
}

/// File-level facts about a binary grid file.
pub struct GridFileMetadata {
    /// "Little-Endian" or "Big-Endian".
    pub byte_order: String,
    /// Whether the byte order was detected rather than assumed.
    pub is_detected: bool,
    /// "f32", "f64" or "mixed".
    pub precision: String,
    pub has_iblank: bool,
    pub num_grids: usize,
    pub grid_dimensions: Vec<GridDimensions>,
}

/// Whether a grid count is accepted when detecting the byte order.
pub open spec fn plausible_grid_count(n: i32) -> bool {
    0 < n < 1000
}

/// The byte order under which the grid count of the first record is
/// plausible, trying little-endian first. When `strict`, the closing marker of
/// that record must be present too.
pub open spec fn spec_probe_order(data: Seq<u8>, strict: bool) -> Result<ByteOrder, Plot3DError> {
    if !has_bytes(data, 0, if strict { 12 } else { 8 }) {
        Err(Plot3DError::UnexpectedEof)
    } else if plausible_grid_count(i32_at(data, 4, ByteOrder::LittleEndian)) {
        Ok(ByteOrder::LittleEndian)
    } else if plausible_grid_count(i32_at(data, 4, ByteOrder::BigEndian)) {
        Ok(ByteOrder::BigEndian)
    } else {
        Err(Plot3DError::InvalidGridCountBothOrders {
            le: i32_at(data, 4, ByteOrder::LittleEndian),
            be: i32_at(data, 4, ByteOrder::BigEndian),
        })
    }
}

/// Detects the byte order from the grid count record.
pub fn probe_byte_order(data: &[u8], strict: bool) -> (r: Result<ByteOrder, Plot3DError>)
    ensures
        match r {
            Ok(o) => spec_probe_order(data@, strict) == Ok::<ByteOrder, Plot3DError>(o),
            Err(e) => spec_probe_order(data@, strict) == Err::<ByteOrder, Plot3DError>(e),
        },
{
    let mut reader = ByteReader::new(data);
    skip_record_marker(&mut reader)?;
    let le = read_i32(&mut reader, ByteOrder::LittleEndian)?;
    if strict {
        skip_record_marker(&mut reader)?;
    }
    if le > 0 && le < 1000 {
        return Ok(ByteOrder::LittleEndian);
    }
    let mut reader = ByteReader::new(data);
    skip_record_marker(&mut reader)?;
    let be = read_i32(&mut reader, ByteOrder::BigEndian)?;
    if strict {
        skip_record_marker(&mut reader)?;
    }
    if be > 0 && be < 1000 {
        Ok(ByteOrder::BigEndian)
    } else {
        Err(Plot3DError::InvalidGridCountBothOrders { le, be })
    }
}

/// The dimensions stored at `p` (three integers, each reinterpreted as
/// unsigned).
pub open spec fn dims_at(data: Seq<u8>, p: int, order: ByteOrder) -> GridDimensions {
    GridDimensions {
        i: i32_at(data, p, order) as u32,
        j: i32_at(data, p + 4, order) as u32,
        k: i32_at(data, p + 8, order) as u32,
    }
}

/// Reading the dimensions of `n` grids at `p`; the first grid with a zero
/// dimension is an error.
pub open spec fn spec_read_dims(data: Seq<u8>, p: int, n: nat, order: ByteOrder) -> Result<(Seq<GridDimensions>, int), Plot3DError>
    decreases n,
{
    if n == 0 {
        Ok((Seq::empty(), p))
    } else {
        match spec_read_dims(data, p, (n - 1) as nat, order) {
            Err(e) => Err(e),
            Ok((ds, q)) => if !has_bytes(data, q, 12) {
                Err(Plot3DError::UnexpectedEof)
            } else if !dims_at(data, q, order).nonzero() {
                Err(Plot3DError::InvalidDimensions(
                    dims_at(data, q, order).i,
                    dims_at(data, q, order).j,
                    dims_at(data, q, order).k,
                ))
            } else {
                Ok((ds.push(dims_at(data, q, order)), q + 12))
            },
        }
    }
}

/// Once reading the dimensions of `m` grids fails, reading more fails the same way.
pub proof fn lemma_read_dims_error_sticks(data: Seq<u8>, p: int, m: nat, n: nat, order: ByteOrder)
    requires
        m <= n,
        spec_read_dims(data, p, m, order) is Err,
    ensures
        spec_read_dims(data, p, n, order) == spec_read_dims(data, p, m, order),
    decreases n - m,
{
    if m < n {
        lemma_read_dims_error_sticks(data, p, m, (n - 1) as nat, order);
    }
}

/// Reads the dimensions of `num` grids.
pub fn read_dimension_list(reader: &mut ByteReader, num: i32, byte_order: ByteOrder) -> (r: Result<Vec<GridDimensions>, Plot3DError>)
    requires
        num >= 0,
    ensures
        final(reader).bytes() == old(reader).bytes(),
        outcome(
            match r { Ok(v) => Ok::<Seq<GridDimensions>, Plot3DError>(v@), Err(e) => Err(e) },
            final(reader).position(),
            spec_read_dims(old(reader).bytes(), old(reader).position(), num as nat, byte_order),
        ),
{
    let ghost data = reader.bytes();
    let ghost p0 = reader.position();
    let mut list: Vec<GridDimensions> = Vec::new();
    let mut g: i32 = 0;
    while g < num
        invariant
            0 <= g <= num,
            reader.bytes() == data,
            data == old(reader).bytes(),
            p0 == old(reader).position(),
            spec_read_dims(data, p0, g as nat, byte_order) == Ok::<(Seq<GridDimensions>, int), Plot3DError>((list@, reader.position())),
        decreases num - g,
    {
        let ghost q = reader.position();
        let i = match read_i32(reader, byte_order) {
            Ok(v) => v,
            Err(e) => {
                proof {
                    lemma_read_dims_error_sticks(data, p0, (g + 1) as nat, num as nat, byte_order);
                }
                return Err(e);
            },
        };
        let j = match read_i32(reader, byte_order) {
            Ok(v) => v,
            Err(e) => {
                proof {
                    lemma_read_dims_error_sticks(data, p0, (g + 1) as nat, num as nat, byte_order);
                }
                return Err(e);
            },
        };
        let k = match read_i32(reader, byte_order) {
            Ok(v) => v,
            Err(e) => {
                proof {
                    lemma_read_dims_error_sticks(data, p0, (g + 1) as nat, num as nat, byte_order);
                }
                return Err(e);
            },
        };
        let d = GridDimensions {
            i: #[verifier::truncate] (i as u32),
            j: #[verifier::truncate] (j as u32),
            k: #[verifier::truncate] (k as u32),
        };
        assert(d == dims_at(data, q, byte_order));
        if d.i == 0 || d.j == 0 || d.k == 0 {
            proof {
                lemma_read_dims_error_sticks(data, p0, (g + 1) as nat, num as nat, byte_order);
            }
            return Err(Plot3DError::InvalidDimensions(d.i, d.j, d.k));
        }
        list.push(d);
        g = g + 1;
    }
    Ok(list)
}


/// Reading the coordinate blocks of the first `n` of the grids with
/// dimensions `dims`, each optionally followed by an IBLANK record.
pub open spec fn spec_read_grids(
    data: Seq<u8>,
    p: int,
    dims: Seq<GridDimensions>,
    n: nat,
    order: ByteOrder,
) -> Result<(Seq<SpecGrid>, int), Plot3DError>
    decreases n,
{
    if n == 0 {
        Ok((Seq::empty(), p))
    } else {
        match spec_read_grids(data, p, dims, (n - 1) as nat, order) {
            Err(e) => Err(e),
            Ok((gs, q)) => {
                let d = dims[n - 1];
                match spec_read_xyz(data, q, d.points(), order) {
                    Err(e) => Err(e),
                    Ok(((x, y, z, prec), q1)) => match spec_try_read_iblank(data, q1, d.points(), order) {
                        Err(e) => Err(e),
                        Ok((iblank, q2)) => Ok((
                            gs.push(SpecGrid { dimensions: d, precision: prec, x, y, z, iblank }),
                            q2,
                        )),
                    },
                }
            },
        }
    }
}

/// Once reading the first `m` grids fails, reading more fails the same way.
pub proof fn lemma_read_grids_error_sticks(
    data: Seq<u8>,
    p: int,
    dims: Seq<GridDimensions>,
    m: nat,
    n: nat,
    order: ByteOrder,
)
    requires
        m <= n,
        spec_read_grids(data, p, dims, m, order) is Err,
    ensures
        spec_read_grids(data, p, dims, n, order) == spec_read_grids(data, p, dims, m, order),
    decreases n - m,
{
    if m < n {
        lemma_read_grids_error_sticks(data, p, dims, m, (n - 1) as nat, order);
    }
}

/// Reads the coordinate blocks (and optional IBLANK records) of grids with
/// the given dimensions.
#[verifier::rlimit(30)]
pub fn read_grid_blocks(
    reader: &mut ByteReader,
    dims: &Vec<GridDimensions>,
    byte_order: ByteOrder,
) -> (r: Result<Vec<Plot3DGrid>, Plot3DError>)
    ensures
        final(reader).bytes() == old(reader).bytes(),
        outcome(
            match r { Ok(v) => Ok::<Seq<SpecGrid>, Plot3DError>(grids_view(v@)), Err(e) => Err(e) },
            final(reader).position(),
            spec_read_grids(old(reader).bytes(), old(reader).position(), dims@, dims@.len(), byte_order),
        ),
{
    let ghost data = reader.bytes();
    let ghost p0 = reader.position();
    let mut grids: Vec<Plot3DGrid> = Vec::new();
    assert(grids_view(grids@) =~= Seq::<SpecGrid>::empty());
    let mut g: usize = 0;
    while g < dims.len()
        invariant
            g <= dims@.len(),
            reader.bytes() == data,
            data == old(reader).bytes(),
            p0 == old(reader).position(),
            spec_read_grids(data, p0, dims@, g as nat, byte_order) == Ok::<(Seq<SpecGrid>, int), Plot3DError>((grids_view(grids@), reader.position())),
        decreases dims@.len() - g,
    {
        let d = dims[g];
        let count = d.point_count();
        let (x, y, z, precision) = match read_xyz_coords_with_markers(reader, count, byte_order) {
            Ok(c) => c,
            Err(e) => {
                proof {
                    lemma_read_grids_error_sticks(data, p0, dims@, (g + 1) as nat, dims@.len(), byte_order);
                }
                return Err(e);
            },
        };
        let iblank = match try_read_iblank_array(reader, count, byte_order) {
            Ok(ib) => ib,
            Err(e) => {
                proof {
                    lemma_read_grids_error_sticks(data, p0, dims@, (g + 1) as nat, dims@.len(), byte_order);
                }
                return Err(e);
            },
        };
        let grid = Plot3DGrid { dimensions: d, precision, x_coords: x, y_coords: y, z_coords: z, iblank };
        let ghost old_view = grids_view(grids@);
        grids.push(grid);
        assert(grids_view(grids@) =~= old_view.push(grid@));
        g = g + 1;
    }
    assert(dims@.len() == g);
    Ok(grids)
}

/// Reading a whole binary grid file: the detected byte order, the grid
/// dimensions and the grids. When `strict`, detection needs the closing
/// marker of the grid count record.
pub open spec fn spec_grid_file(data: Seq<u8>, strict: bool) -> Result<(ByteOrder, Seq<GridDimensions>, Seq<SpecGrid>), Plot3DError> {
    match spec_probe_order(data, strict) {
        Err(e) => Err(e),
        Ok(order) => if !has_bytes(data, 0, 12) {
            Err(Plot3DError::UnexpectedEof)
        } else if i32_at(data, 4, order) <= 0 || i32_at(data, 4, order) > 1000 {
            Err(Plot3DError::InvalidNumberOfGrids(i32_at(data, 4, order)))
        } else {
            match spec_skip_marker(data, 12) {
                Err(e) => Err(e),
                Ok(p1) => match spec_read_dims(data, p1, i32_at(data, 4, order) as nat, order) {
                    Err(e) => Err(e),
                    Ok((dims, p2)) => match spec_skip_marker(data, p2) {
                        Err(e) => Err(e),
                        Ok(p3) => match spec_read_grids(data, p3, dims, dims.len(), order) {
                            Err(e) => Err(e),
                            Ok((grids, _)) => Ok((order, dims, grids)),
                        },
                    },
                },
            }
        },
    }
}

/// The two binary grid readers agree on every file of at least twelve bytes
/// (a complete grid-count record): the reader that also reports file
/// metadata reads exactly the grids, dimensions and byte order of the plain
/// reader, and fails the same way.
pub proof fn law_grid_readers_agree(data: Seq<u8>)
    requires
        data.len() >= 12,
    ensures
        spec_grid_file(data, true) == spec_grid_file(data, false),
{
}

/// The four bytes that store `w` in the given byte order.
pub open spec fn word_bytes(w: u32, order: ByteOrder) -> Seq<u8> {
    let b0 = (w & 0xff) as u8;
    let b1 = ((w >> 8) & 0xff) as u8;
    let b2 = ((w >> 16) & 0xff) as u8;
    let b3 = ((w >> 24) & 0xff) as u8;
    match order {
        ByteOrder::LittleEndian => seq![b0, b1, b2, b3],
        ByteOrder::BigEndian => seq![b3, b2, b1, b0],
    }
}

/// Four bytes that store `w` in the given order read back as `w`.
pub proof fn lemma_word_bytes(w: u32, order: ByteOrder, data: Seq<u8>, p: int)
    requires
        0 <= p,
        p + 4 <= data.len(),
        data.subrange(p, p + 4) == word_bytes(w, order),
    ensures
        word32_at(data, p, order) == w,
{
    assert(data[p] == data.subrange(p, p + 4)[0]);
    assert(data[p + 1] == data.subrange(p, p + 4)[1]);
    assert(data[p + 2] == data.subrange(p, p + 4)[2]);
    assert(data[p + 3] == data.subrange(p, p + 4)[3]);
    assert(((w & 0xff) as u8) as u32 == w & 0xff && (((w >> 8) & 0xff) as u8) as u32 == (w >> 8) & 0xff
        && (((w >> 16) & 0xff) as u8) as u32 == (w >> 16) & 0xff && (((w >> 24) & 0xff) as u8) as u32 == (w >> 24) & 0xff) by (bit_vector);
    assert((w & 0xff) + ((w >> 8) & 0xff) * 0x100 + ((w >> 16) & 0xff) * 0x1_0000 + ((w >> 24) & 0xff) * 0x100_0000 == w) by (bit_vector);
}

/// Reading four bytes in the order they were written gives back the value
/// written, in either byte order.
pub proof fn law_word_roundtrip(w: u32, order: ByteOrder)
    ensures
        word32_at(word_bytes(w, order), 0, order) == w,
{
    assert(word_bytes(w, order).subrange(0, 4) =~= word_bytes(w, order));
    lemma_word_bytes(w, order, word_bytes(w, order), 0);
}

/// The byte order of a grid file is detected correctly: when its first record
/// holds a grid count from 1 to 999 written in either byte order, that order
/// is the one detected (a count below 1000 written big-endian never reads as
/// a plausible count little-endian).
pub proof fn law_byte_order_detected(data: Seq<u8>, n: u32, order: ByteOrder, strict: bool)
    requires
        0 < n < 1000,
        data.len() >= 12,
        data.subrange(4, 8) == word_bytes(n, order),
    ensures
        spec_probe_order(data, strict) == Ok::<ByteOrder, Plot3DError>(order),
{
    lemma_word_bytes(n, order, data, 4);
    assert((n as i32) as int == n as int) by (bit_vector)
        requires n < 1000u32;
    if order == ByteOrder::BigEndian {
        let le = word32_at(data, 4, ByteOrder::LittleEndian);
        assert(data[4] == data.subrange(4, 8)[0]);
        assert(data[5] == data.subrange(4, 8)[1]);
        assert(data[6] == data.subrange(4, 8)[2]);
        assert(data[7] == data.subrange(4, 8)[3]);
        let b1 = ((n >> 8) & 0xff) as u8;
        let b0 = (n & 0xff) as u8;
        assert(((n >> 24) & 0xff) as u8 == 0u8 && ((n >> 16) & 0xff) as u8 == 0u8) by (bit_vector)
            requires n < 1000u32;
        assert(le == u32_from_le(0u8, 0u8, b1, b0));
        assert((((n >> 8) & 0xff) as u8) as u32 == (n >> 8) & 0xff && ((n & 0xff) as u8) as u32 == n & 0xff) by (bit_vector);
        let v: u32 = (((n >> 8) & 0xff) * 0x1_0000 + (n & 0xff) * 0x100_0000) as u32;
        assert(((n >> 8) & 0xff) * 0x1_0000 + (n & 0xff) * 0x100_0000 < 0x1_0000_0000) by (bit_vector)
            requires n < 1000u32;
        assert(le == v);
        assert(v >= 1000u32) by (bit_vector)
            requires 0u32 < n < 1000u32, v == ((n >> 8) & 0xff) * 0x1_0000 + (n & 0xff) * 0x100_0000;
        assert(!(0 < (v as i32) < 1000)) by (bit_vector)
            requires v >= 1000u32;
    }
}

/// Whether a grid's arrays fit its dimensions: no dimension is zero, the
/// coordinates are single or double precision, and every array (IBLANK too,
/// when present) holds one value per point.
pub open spec fn grid_well_sized(g: SpecGrid) -> bool {
    let n = g.dimensions.points();
    &&& g.dimensions.nonzero()
    &&& g.precision != Precision::Mixed
    &&& g.x.len() == n && g.y.len() == n && g.z.len() == n
    &&& (g.iblank matches Some(ib) ==> ib.len() == n)
}

proof fn lemma_read_values_sized(data: Seq<u8>, p: int, count: nat, prec: Precision, order: ByteOrder)
    ensures
        spec_read_values(data, p, count, prec, order) matches Ok((v, _)) ==> v.len() == count,
{
}

proof fn lemma_xyz_block_sized(
    data: Seq<u8>,
    p: int,
    count: nat,
    prec: Precision,
    extra: nat,
    opening: i32,
    order: ByteOrder,
)
    ensures
        spec_xyz_block(data, p, count, prec, extra, opening, order) matches Ok(((x, y, z, pr), _)) ==> {
            &&& x.len() == count && y.len() == count && z.len() == count
            &&& pr == prec
        },
{
    if let Ok((x, p1)) = spec_read_values(data, p, count, prec, order) {
        lemma_read_values_sized(data, p, count, prec, order);
        if let Ok((y, p2)) = spec_read_values(data, p1, count, prec, order) {
            lemma_read_values_sized(data, p1, count, prec, order);
            lemma_read_values_sized(data, p2, count, prec, order);
        }
    }
}

proof fn lemma_xyz_separate_sized(data: Seq<u8>, p: int, count: nat, prec: Precision, opening: i32, order: ByteOrder)
    ensures
        spec_xyz_separate(data, p, count, prec, opening, order) matches Ok(((x, y, z, pr), _)) ==> {
            &&& x.len() == count && y.len() == count && z.len() == count
            &&& pr == prec
        },
{
    lemma_read_values_sized(data, p, count, prec, order);
    if let Ok((x, p1)) = spec_read_values(data, p, count, prec, order) {
        if let Ok((closing, p2)) = spec_read_i32(data, p1, order) {
            if let Ok((y, p3)) = spec_read_marked_values(data, p2, count, prec, order) {
                if let Ok((_, q)) = spec_read_i32(data, p2, order) {
                    lemma_read_values_sized(data, q, count, prec, order);
                }
                if let Ok((_, q)) = spec_read_i32(data, p3, order) {
                    lemma_read_values_sized(data, q, count, prec, order);
                }
            }
        }
    }
}

proof fn lemma_read_xyz_sized(data: Seq<u8>, p: int, count: nat, order: ByteOrder)
    ensures
        spec_read_xyz(data, p, count, order) matches Ok(((x, y, z, prec), _)) ==> {
            &&& x.len() == count && y.len() == count && z.len() == count
            &&& prec != Precision::Mixed
        },
{
    if let Ok((size, p1)) = spec_read_i32(data, p, order) {
        lemma_xyz_block_sized(data, p1, count, Precision::F32, 0, size, order);
        lemma_xyz_block_sized(data, p1, count, Precision::F64, 0, size, order);
        lemma_xyz_block_sized(data, p1, count, Precision::F32, count * 4, size, order);
        lemma_xyz_block_sized(data, p1, count, Precision::F64, count * 4, size, order);
        lemma_xyz_separate_sized(data, p1, count, Precision::F32, size, order);
        lemma_xyz_separate_sized(data, p1, count, Precision::F64, size, order);
    }
}

proof fn lemma_try_iblank_sized(data: Seq<u8>, p: int, count: nat, order: ByteOrder)
    ensures
        spec_try_read_iblank(data, p, count, order) matches Ok((Some(v), _)) ==> v.len() == count,
{
}

proof fn lemma_read_dims_nonzero(data: Seq<u8>, p: int, n: nat, order: ByteOrder)
    ensures
        spec_read_dims(data, p, n, order) matches Ok((ds, _)) ==> ds.len() == n
            && forall|k: int| 0 <= k < ds.len() ==> (#[trigger] ds[k]).nonzero(),
    decreases n,
{
    if n > 0 {
        lemma_read_dims_nonzero(data, p, (n - 1) as nat, order);
    }
}

proof fn lemma_read_grids_sized(data: Seq<u8>, p: int, dims: Seq<GridDimensions>, n: nat, order: ByteOrder)
    requires
        n <= dims.len(),
        forall|k: int| 0 <= k < dims.len() ==> (#[trigger] dims[k]).nonzero(),
    ensures
        spec_read_grids(data, p, dims, n, order) matches Ok((gs, _)) ==> gs.len() == n
            && forall|k: int| 0 <= k < gs.len() ==> (#[trigger] gs[k]).dimensions == dims[k] && grid_well_sized(gs[k]),
    decreases n,
{
    if n > 0 {
        lemma_read_grids_sized(data, p, dims, (n - 1) as nat, order);
        if let Ok((gs0, q)) = spec_read_grids(data, p, dims, (n - 1) as nat, order) {
            let d = dims[n - 1];
            lemma_read_xyz_sized(data, q, d.points(), order);
            if let Ok(((x, y, z, prec), q1)) = spec_read_xyz(data, q, d.points(), order) {
                lemma_try_iblank_sized(data, q1, d.points(), order);
            }
        }
    }
}

/// Every grid that a binary grid file yields fits its dimensions: its
/// dimensions are nonzero and each of its arrays holds one value per point.
pub proof fn law_read_grids_well_sized(data: Seq<u8>, strict: bool)
    ensures
        spec_grid_file(data, strict) matches Ok((_, dims, grids)) ==> grids.len() == dims.len()
            && forall|g: int| 0 <= g < grids.len() ==> (#[trigger] grids[g]).dimensions == dims[g] && grid_well_sized(grids[g]),
{
    if let Ok(order) = spec_probe_order(data, strict) {
        if has_bytes(data, 0, 12) && !(i32_at(data, 4, order) <= 0 || i32_at(data, 4, order) > 1000) {
            let n = i32_at(data, 4, order) as nat;
            lemma_read_dims_nonzero(data, 16, n, order);
            if let Ok((dims, p2)) = spec_read_dims(data, 16, n, order) {
                lemma_read_grids_sized(data, p2 + 4, dims, dims.len(), order);
            }
        }
    }
}

/// Reads a whole binary grid file.
fn read_grid_file(data: &[u8], strict: bool) -> (r: Result<(ByteOrder, Vec<GridDimensions>, Vec<Plot3DGrid>), Plot3DError>)
    ensures
        match r {
            Ok((o, d, g)) => spec_grid_file(data@, strict) == Ok::<(ByteOrder, Seq<GridDimensions>, Seq<SpecGrid>), Plot3DError>((o, d@, grids_view(g@))),
            Err(e) => spec_grid_file(data@, strict) == Err::<(ByteOrder, Seq<GridDimensions>, Seq<SpecGrid>), Plot3DError>(e),
        },
{
    let byte_order = probe_byte_order(data, strict)?;
    let mut reader = ByteReader::new(data);
    skip_record_marker(&mut reader)?;
    let num_grids = read_i32(&mut reader, byte_order)?;
    skip_record_marker(&mut reader)?;
    if num_grids <= 0 || num_grids > 1000 {
        return Err(Plot3DError::InvalidNumberOfGrids(num_grids));
    }
    skip_record_marker(&mut reader)?;
    let dims = read_dimension_list(&mut reader, num_grids, byte_order)?;
    skip_record_marker(&mut reader)?;
    let grids = read_grid_blocks(&mut reader, &dims, byte_order)?;
    Ok((byte_order, dims, grids))
}

/// Reads a binary PLOT3D grid file (Fortran unformatted records: the grid
/// count, the dimensions of all grids, then the coordinates of each grid,
/// optionally followed by its IBLANK record). The byte order is detected from
/// the grid count.
pub fn read_plot3d_grid(data: &[u8]) -> (r: Result<Vec<Plot3DGrid>, Plot3DError>)
    ensures
        match r {
            Ok(g) => spec_grid_file(data@, true) matches Ok((_, _, grids)) && grids == grids_view(g@),
            Err(e) => spec_grid_file(data@, true) == Err::<(ByteOrder, Seq<GridDimensions>, Seq<SpecGrid>), Plot3DError>(e),
        },
{
    let (_, _, grids) = read_grid_file(data, true)?;
    Ok(grids)
}

/// The precision reported for a file whose grids have the given
/// precisions: the common precision, or "mixed" when they differ (or when
/// there is none).
pub open spec fn combined_precision(grids: Seq<SpecGrid>) -> Precision
    decreases grids.len(),
{
    if grids.len() == 0 {
        Precision::Mixed
    } else if grids.len() == 1 {
        grids[0].precision
    } else if combined_precision(grids.drop_last()) == grids.last().precision {
        grids.last().precision
    } else {
        Precision::Mixed
    }
}

/// Whether some grid carries an IBLANK array.
pub open spec fn any_iblank(grids: Seq<SpecGrid>) -> bool {
    exists|g: int| 0 <= g < grids.len() && (#[trigger] grids[g]).iblank is Some
}

/// Reads a binary PLOT3D grid file together with file-level metadata.
pub fn read_plot3d_grid_with_metadata(data: &[u8]) -> (r: Result<(Vec<Plot3DGrid>, GridFileMetadata), Plot3DError>)
    ensures
        match r {
            Ok((g, m)) => spec_grid_file(data@, false) matches Ok((order, dims, grids)) && {
                &&& grids == grids_view(g@)
                &&& m.byte_order@ == spec_byte_order_str(order)
                &&& m.is_detected
                &&& m.precision@ == spec_precision_str(combined_precision(grids))
                &&& m.has_iblank == any_iblank(grids)
                &&& m.num_grids == grids.len()
                &&& m.grid_dimensions@ == dims
            },
            Err(e) => spec_grid_file(data@, false) == Err::<(ByteOrder, Seq<GridDimensions>, Seq<SpecGrid>), Plot3DError>(e),
        },
{
    let (byte_order, dims, grids) = read_grid_file(data, false)?;
    proof {
        let (_, sd, sg) = spec_grid_file(data@, false)->Ok_0;
        lemma_read_grids_len(data@, 0, sd, sd.len(), byte_order);
    }
    let mut precision = Precision::Mixed;
    let mut has_iblank = false;
    let mut g: usize = 0;
    while g < grids.len()
        invariant
            g <= grids@.len(),
            precision == combined_precision(grids_view(grids@).take(g as int)),
            has_iblank == any_iblank(grids_view(grids@).take(g as int)),
        decreases grids@.len() - g,
    {
        let ghost prefix = grids_view(grids@).take(g as int);
        let ghost next = grids_view(grids@).take(g + 1);
        assert(next.drop_last() =~= prefix);
        if g == 0 {
            precision = grids[g].precision;
        } else if precision != grids[g].precision {
            precision = Precision::Mixed;
        }
        if grids[g].iblank.is_some() {
            has_iblank = true;
        }
        assert(has_iblank == any_iblank(next)) by {
            if has_iblank && !any_iblank(prefix) {
                assert(next[g as int].iblank is Some);
            }
            if any_iblank(next) {
                let w = choose|w: int| 0 <= w < next.len() && (#[trigger] next[w]).iblank is Some;
                if w < g {
                    assert(prefix[w] == next[w]);
                }
            }
        }
        g = g + 1;
    }
    assert(grids_view(grids@).take(g as int) =~= grids_view(grids@));
    let metadata = GridFileMetadata {
        byte_order: byte_order_string(byte_order),
        is_detected: true,
        precision: precision.as_str().to_string(),
        has_iblank,
        num_grids: grids.len(),
        grid_dimensions: dims,
    };
    Ok((grids, metadata))
}

/// Reading `n` grids yields `n` grids.
pub proof fn lemma_read_grids_len(data: Seq<u8>, p: int, dims: Seq<GridDimensions>, n: nat, order: ByteOrder)
    ensures
        spec_read_grids(data, p, dims, n, order) matches Ok((gs, _)) ==> gs.len() == n,
    decreases n,
{
    if n > 0 {
        lemma_read_grids_len(data, p, dims, (n - 1) as nat, order);
    }
}


/// Wireframe mesh of the K = 1 surface of a grid: the interleaved vertex
/// coordinates (raw bit patterns in the grid's precision) and the line
/// segments along the edges of its quads, as pairs of vertex indices.
pub struct MeshGeometry {
    pub vertices: Vec<u64>,
    pub indices: Vec<u32>,
    pub vertex_count: usize,
    /// Number of line segments (half the number of indices).
    pub face_count: usize,
}

/// Whether point `idx` of the grid is hidden: blanking is respected, the grid
/// has an IBLANK array and its value there is zero.
pub open spec fn is_blanked(g: SpecGrid, respect: bool, idx: int) -> bool {
    respect && match g.iblank {
        Some(ib) => ib[idx] == 0,
        None => false,
    }
}

/// Linear index of point (i, j, k) in a grid of I x J x K points.
pub open spec fn spec_linear_index(i: int, j: int, k: int, dim_i: int, dim_j: int) -> int {
    k * dim_i * dim_j + j * dim_i + i
}

/// Whether the quad with lower corner (i, j) on the K = 1 surface has a
/// hidden corner.
pub open spec fn quad_blanked(g: SpecGrid, respect: bool, i: int, j: int) -> bool {
    let di = g.dimensions.i as int;
    ||| is_blanked(g, respect, j * di + i)
    ||| is_blanked(g, respect, j * di + i + 1)
    ||| is_blanked(g, respect, (j + 1) * di + i)
    ||| is_blanked(g, respect, (j + 1) * di + i + 1)
}

/// The four edges of the quad with lower corner (i, j): bottom, right, top
/// and left, each as a pair of vertex indices (wrapped to 32 bits).
pub open spec fn quad_edges(di: int, i: int, j: int) -> Seq<u32> {
    let a = (j * di + i) as u32;
    let b = (j * di + i + 1) as u32;
    let c = ((j + 1) * di + i) as u32;
    let d = ((j + 1) * di + i + 1) as u32;
    seq![a, b, b, d, d, c, c, a]
}

/// Edges of the first `n` quads of quad row `j`, skipping quads with a
/// hidden corner.
pub open spec fn row_edges(g: SpecGrid, respect: bool, j: int, n: nat) -> Seq<u32>
    decreases n,
{
    if n == 0 {
        Seq::empty()
    } else {
        row_edges(g, respect, j, (n - 1) as nat) + if quad_blanked(g, respect, n - 1, j) {
            Seq::<u32>::empty()
        } else {
            quad_edges(g.dimensions.i as int, n - 1, j)
        }
    }
}

/// Edges of the first `m` quad rows.
pub open spec fn rows_edges(g: SpecGrid, respect: bool, m: nat) -> Seq<u32>
    decreases m,
{
    if m == 0 {
        Seq::empty()
    } else {
        rows_edges(g, respect, (m - 1) as nat) + row_edges(g, respect, m - 1, (g.dimensions.i - 1) as nat)
    }
}

/// All edges of the K = 1 surface, row by row.
pub open spec fn mesh_edges(g: SpecGrid, respect: bool) -> Seq<u32> {
    rows_edges(g, respect, (g.dimensions.j - 1) as nat)
}

/// What building the mesh of a grid needs: nonzero I and J, coordinate
/// arrays covering every point, a K = 1 surface when there are quads, an
/// IBLANK array covering it when blanking is respected, and a vertex array
/// whose length fits in memory.
pub open spec fn mesh_ready(g: SpecGrid, respect: bool) -> bool {
    let di = g.dimensions.i as int;
    let dj = g.dimensions.j as int;
    let total = g.dimensions.points();
    &&& di >= 1 && dj >= 1
    &&& total * 3 <= usize::MAX
    &&& g.x.len() >= total && g.y.len() >= total && g.z.len() >= total
    &&& (di >= 2 && dj >= 2) ==> g.dimensions.k >= 1
    &&& (respect && di >= 2 && dj >= 2) ==> match g.iblank {
        Some(ib) => ib.len() >= di * dj,
        None => true,
    }
}

/// The corners of a quad of the K = 1 surface are points of that surface.
proof fn lemma_quad_corners(di: int, dj: int, dk: int, iq: int, jq: int)
    requires
        0 <= iq < di - 1,
        0 <= jq < dj - 1,
        dk >= 1,
        di * dj * dk <= usize::MAX,
    ensures
        (jq + 1) * di == jq * di + di,
        0 <= jq * di,
        (jq + 1) * di + iq + 1 < di * dj,
        di * dj <= di * dj * dk,
        di * dj * dk <= usize::MAX,
{
    assert((jq + 1) * di == jq * di + di) by (nonlinear_arith);
    assert(0 <= jq * di) by (nonlinear_arith)
        requires
            0 <= jq,
            0 <= di,
    ;
    assert((jq + 2) * di <= dj * di) by (nonlinear_arith)
        requires
            jq + 2 <= dj,
            0 <= di,
    ;
    assert((jq + 2) * di == (jq + 1) * di + di) by (nonlinear_arith);
    assert(dj * di == di * dj) by (nonlinear_arith);
    assert(di * dj <= di * dj * dk) by (nonlinear_arith)
        requires
            dk >= 1,
            di >= 0,
            dj >= 0,
    ;
}

impl Plot3DGrid {
    /// Number of points of the grid.
    pub fn total_points(&self) -> (n: usize)
        requires
            self.dimensions.points() <= usize::MAX,
        ensures
            n as nat == self.dimensions.points(),
    {
        self.dimensions.total_points()
    }

    /// Linear index of point (i, j, k) in a grid of dim_i x dim_j x K points.
    pub fn linear_index(i: usize, j: usize, k: usize, dim_i: usize, dim_j: usize) -> (n: usize)
        requires
            k * dim_i <= usize::MAX,
            spec_linear_index(i as int, j as int, k as int, dim_i as int, dim_j as int) <= usize::MAX,
        ensures
            n as int == spec_linear_index(i as int, j as int, k as int, dim_i as int, dim_j as int),
    {
        proof {
            vstd::arithmetic::mul::lemma_mul_nonnegative(k as int, dim_i as int);
            vstd::arithmetic::mul::lemma_mul_nonnegative(k * dim_i, dim_j as int);
            vstd::arithmetic::mul::lemma_mul_nonnegative(j as int, dim_i as int);
        }
        let a = k * dim_i;
        let b = a * dim_j;
        let c = j * dim_i;
        b + c + i
    }

    fn point_blanked(&self, respect_iblank: bool, idx: usize) -> (b: bool)
        requires
            respect_iblank ==> match self.iblank {
                Some(ib) => idx < ib@.len(),
                None => true,
            },
        ensures
            b == is_blanked(self@, respect_iblank, idx as int),
    {
        if respect_iblank {
            match &self.iblank {
                Some(ib) => ib[idx] == 0,
                None => false,
            }
        } else {
            false
        }
    }

    /// Builds the wireframe mesh of the K = 1 surface: every point becomes a
    /// vertex, and every quad of the surface without a hidden corner (when
    /// blanking is respected) contributes its four edges.
    #[verifier::rlimit(40)]
    pub fn to_mesh_geometry(&self, respect_iblank: bool) -> (m: MeshGeometry)
        requires
            mesh_ready(self@, respect_iblank),
        ensures
            m.vertex_count == self.dimensions.points(),
            m.vertices@.len() == 3 * m.vertex_count,
            forall|p: int|
                0 <= p < m.vertex_count ==> {
                    &&& #[trigger] m.vertices@[3 * p] == self.x_coords@[p]
                    &&& m.vertices@[3 * p + 1] == self.y_coords@[p]
                    &&& m.vertices@[3 * p + 2] == self.z_coords@[p]
                },
            m.indices@ == mesh_edges(self@, respect_iblank),
            m.face_count == m.indices@.len() / 2,
    {
        let di = self.dimensions.i as usize;
        let dj = self.dimensions.j as usize;
        let total = self.total_points();
        let mut vertices: Vec<u64> = Vec::new();
        let mut p: usize = 0;
        while p < total
            invariant
                p <= total,
                total == self.dimensions.points(),
                mesh_ready(self@, respect_iblank),
                vertices@.len() == 3 * p,
                forall|q: int|
                    0 <= q < p ==> {
                        &&& #[trigger] vertices@[3 * q] == self.x_coords@[q]
                        &&& vertices@[3 * q + 1] == self.y_coords@[q]
                        &&& vertices@[3 * q + 2] == self.z_coords@[q]
                    },
            decreases total - p,
        {
            let ghost old_v = vertices@;
            vertices.push(self.x_coords[p]);
            vertices.push(self.y_coords[p]);
            vertices.push(self.z_coords[p]);
            assert(vertices@ =~= old_v + seq![self.x_coords@[p as int], self.y_coords@[p as int], self.z_coords@[p as int]]);
            assert forall|q: int| 0 <= q < p + 1 implies {
                &&& #[trigger] vertices@[3 * q] == self.x_coords@[q]
                &&& vertices@[3 * q + 1] == self.y_coords@[q]
                &&& vertices@[3 * q + 2] == self.z_coords@[q]
            } by {
                if q < p {
                    assert(old_v[3 * q] == self.x_coords@[q]);
                }
            }
            p = p + 1;
        }
        let ghost g = self@;
        let mut indices: Vec<u32> = Vec::new();
        let mut jq: usize = 0;
        while jq < dj - 1
            invariant
                g == self@,
                di == g.dimensions.i,
                dj == g.dimensions.j,
                total == g.dimensions.points(),
                mesh_ready(g, respect_iblank),
                jq <= dj - 1,
                indices@ == rows_edges(g, respect_iblank, jq as nat),
            decreases dj - 1 - jq,
        {
            let mut iq: usize = 0;
            while iq < di - 1
                invariant
                    g == self@,
                    di == g.dimensions.i,
                    dj == g.dimensions.j,
                    total == g.dimensions.points(),
                    mesh_ready(g, respect_iblank),
                    jq < dj - 1,
                    iq <= di - 1,
                    indices@ == rows_edges(g, respect_iblank, jq as nat) + row_edges(g, respect_iblank, jq as int, iq as nat),
                decreases di - 1 - iq,
            {
                proof {
                    lemma_quad_corners(di as int, dj as int, g.dimensions.k as int, iq as int, jq as int);
                }
                let row0 = jq * di;
                let row1 = row0 + di;
                let idx00 = row0 + iq;
                let idx10 = row0 + iq + 1;
                let idx01 = row1 + iq;
                let idx11 = row1 + iq + 1;
                let ghost before = indices@;
                if self.point_blanked(respect_iblank, idx00) || self.point_blanked(respect_iblank, idx10)
                    || self.point_blanked(respect_iblank, idx01) || self.point_blanked(respect_iblank, idx11) {
                    assert(quad_blanked(g, respect_iblank, iq as int, jq as int));
                    assert(indices@ =~= rows_edges(g, respect_iblank, jq as nat) + row_edges(g, respect_iblank, jq as int, (iq + 1) as nat));
                } else {
                    let a = #[verifier::truncate] (idx00 as u32);
                    let b = #[verifier::truncate] (idx10 as u32);
                    let c = #[verifier::truncate] (idx01 as u32);
                    let d = #[verifier::truncate] (idx11 as u32);
                    indices.push(a);
                    indices.push(b);
                    indices.push(b);
                    indices.push(d);
                    indices.push(d);
                    indices.push(c);
                    indices.push(c);
                    indices.push(a);
                    assert(indices@ =~= before + quad_edges(di as int, iq as int, jq as int));
                    assert(indices@ =~= rows_edges(g, respect_iblank, jq as nat) + row_edges(g, respect_iblank, jq as int, (iq + 1) as nat));
                }
                iq = iq + 1;
            }
            assert(indices@ =~= rows_edges(g, respect_iblank, (jq + 1) as nat));
            jq = jq + 1;
        }
        let face_count = indices.len() / 2;
        MeshGeometry { vertices, indices, vertex_count: total, face_count }
    }
}


proof fn lemma_row_edges_len(g: SpecGrid, respect: bool, j: int, n: nat)
    ensures
        row_edges(g, respect, j, n).len() <= 8 * n,
        !respect ==> row_edges(g, respect, j, n).len() == 8 * n,
        row_edges(g, respect, j, n).len() <= row_edges(g, false, j, n).len(),
    decreases n,
{
    if n > 0 {
        lemma_row_edges_len(g, respect, j, (n - 1) as nat);
    }
}

proof fn lemma_rows_edges_len(g: SpecGrid, respect: bool, m: nat)
    ensures
        g.dimensions.i >= 1 && !respect ==> rows_edges(g, respect, m).len() == 8 * (g.dimensions.i - 1) * m,
        rows_edges(g, respect, m).len() <= rows_edges(g, false, m).len(),
    decreases m,
{
    if m > 0 {
        lemma_rows_edges_len(g, respect, (m - 1) as nat);
        lemma_row_edges_len(g, respect, m - 1, (g.dimensions.i - 1) as nat);
        if g.dimensions.i >= 1 && !respect {
            let w = 8 * (g.dimensions.i - 1);
            assert(w * (m - 1) + w == w * m) by (nonlinear_arith);
            assert(((g.dimensions.i - 1) as nat) == g.dimensions.i - 1);
            assert(rows_edges(g, respect, m).len() == rows_edges(g, respect, (m - 1) as nat).len() + row_edges(g, respect, m - 1, (g.dimensions.i - 1) as nat).len());
        }
    } else {
        assert(8 * (g.dimensions.i - 1) * m == 0) by (nonlinear_arith)
            requires m == 0;
    }
}

/// Without blanking, every quad of the K = 1 surface of an I x J x K grid
/// contributes its four edges: the mesh has 4 (I - 1)(J - 1) line segments.
pub proof fn law_unblanked_segment_count(g: SpecGrid)
    requires
        g.dimensions.i >= 1,
        g.dimensions.j >= 1,
    ensures
        mesh_edges(g, false).len() / 2 == 4 * (g.dimensions.i - 1) * (g.dimensions.j - 1),
{
    lemma_rows_edges_len(g, false, (g.dimensions.j - 1) as nat);
    let a = g.dimensions.i - 1;
    let b = g.dimensions.j - 1;
    assert(8 * a * b == 2 * (4 * a * b)) by (nonlinear_arith);
}

/// Respecting blanking only removes segments: the mesh built with blanking
/// respected has at most as many segments as the one built without.
pub proof fn law_blanking_only_removes(g: SpecGrid)
    ensures
        mesh_edges(g, true).len() <= mesh_edges(g, false).len(),
{
    lemma_rows_edges_len(g, true, (g.dimensions.j - 1) as nat);
}

/// Why a grid's arrays do not fit its dimensions.
#[derive(Debug, Clone, Copy, PartialEq, Eq, Structural)]
pub enum GridShapeError {
    XLength { len: usize, expected: u128 },
    YLength { len: usize, expected: u128 },
    ZLength { len: usize, expected: u128 },
}

/// The first coordinate array (X, then Y, then Z) whose length differs from
/// the number of points, if any.
pub open spec fn spec_check_grid_arrays(g: SpecGrid) -> Result<(), GridShapeError> {
    let n = g.dimensions.points();
    if g.x.len() != n {
        Err(GridShapeError::XLength { len: g.x.len() as usize, expected: n as u128 })
    } else if g.y.len() != n {
        Err(GridShapeError::YLength { len: g.y.len() as usize, expected: n as u128 })
    } else if g.z.len() != n {
        Err(GridShapeError::ZLength { len: g.z.len() as usize, expected: n as u128 })
    } else {
        Ok(())
    }
}

/// Checks that each coordinate array holds one value per point.
pub fn check_grid_arrays(grid: &Plot3DGrid) -> (r: Result<(), GridShapeError>)
    ensures
        r == spec_check_grid_arrays(grid@),
{
    let n = grid.dimensions.point_count();
    let x = grid.x_coords.len();
    let y = grid.y_coords.len();
    let z = grid.z_coords.len();
    if x as u128 != n {
        Err(GridShapeError::XLength { len: x, expected: n })
    } else if y as u128 != n {
        Err(GridShapeError::YLength { len: y, expected: n })
    } else if z as u128 != n {
        Err(GridShapeError::ZLength { len: z, expected: n })
    } else {
        Ok(())
    }
}

/// A grid whose arrays fit its dimensions (as every grid read from a file
/// does) passes the array check and can be meshed, with or without blanking,
/// as long as its vertex array fits in memory.
pub proof fn law_well_sized_grid_meshable(g: SpecGrid, respect: bool)
    requires
        grid_well_sized(g),
        g.dimensions.points() * 3 <= usize::MAX,
    ensures
        spec_check_grid_arrays(g) == Ok::<(), GridShapeError>(()),
        mesh_ready(g, respect),
{
    let di = g.dimensions.i as int;
    let dj = g.dimensions.j as int;
    let dk = g.dimensions.k as int;
    assert(di * dj <= di * dj * dk) by (nonlinear_arith)
        requires di >= 1, dj >= 1, dk >= 1;
}

/// Whether no point of the K = 1 surface is a hole: the grid has no IBLANK
/// array, or its array covers the surface and is nonzero everywhere (1 for a
/// normal point, negative for a fringe point, 2 for a wall point).
pub open spec fn no_holes(g: SpecGrid) -> bool {
    match g.iblank {
        None => true,
        Some(ib) => ib.len() >= g.dimensions.i as int * g.dimensions.j as int
            && forall|t: int| 0 <= t < ib.len() ==> #[trigger] ib[t] != 0,
    }
}

/// Whether no quad of the K = 1 surface has a hidden corner when blanking is
/// respected (no IBLANK 0 at any corner of any quad).
pub open spec fn no_blanked_quad(g: SpecGrid) -> bool {
    forall|i: int, j: int|
        0 <= i < g.dimensions.i - 1 && 0 <= j < g.dimensions.j - 1 ==> !#[trigger] quad_blanked(g, true, i, j)
}

proof fn lemma_no_holes_no_blanked_quad(g: SpecGrid)
    requires
        no_holes(g),
    ensures
        no_blanked_quad(g),
{
    let di = g.dimensions.i as int;
    let dj = g.dimensions.j as int;
    assert forall|i: int, j: int| 0 <= i < di - 1 && 0 <= j < dj - 1 implies !#[trigger] quad_blanked(g, true, i, j) by {
        assert((j + 1) * di + i + 1 < di * dj) by (nonlinear_arith)
            requires
                0 <= i < di - 1,
                0 <= j < dj - 1,
        {
            assert((j + 2) * di <= dj * di) by (nonlinear_arith)
                requires j + 2 <= dj, 0 <= di;
            assert((j + 2) * di == (j + 1) * di + di) by (nonlinear_arith);
        }
        assert(0 <= j * di) by (nonlinear_arith)
            requires 0 <= j, 0 <= di;
        assert((j + 1) * di == j * di + di) by (nonlinear_arith);
        if let Some(ib) = g.iblank {
            assert(ib[j * di + i] != 0);
            assert(ib[j * di + i + 1] != 0);
            assert(ib[(j + 1) * di + i] != 0);
            assert(ib[(j + 1) * di + i + 1] != 0);
        }
    }
}

proof fn lemma_row_edges_unblanked(g: SpecGrid, j: int, n: nat)
    requires
        no_blanked_quad(g),
        0 <= j < g.dimensions.j - 1,
        n <= g.dimensions.i - 1,
    ensures
        row_edges(g, true, j, n) == row_edges(g, false, j, n),
    decreases n,
{
    if n > 0 {
        lemma_row_edges_unblanked(g, j, (n - 1) as nat);
        assert(!quad_blanked(g, true, n - 1, j));
    }
}

proof fn lemma_rows_edges_unblanked(g: SpecGrid, m: nat)
    requires
        no_blanked_quad(g),
        g.dimensions.i >= 1,
        m <= g.dimensions.j - 1,
    ensures
        rows_edges(g, true, m) == rows_edges(g, false, m),
    decreases m,
{
    if m > 0 {
        lemma_rows_edges_unblanked(g, (m - 1) as nat);
        lemma_row_edges_unblanked(g, m - 1, (g.dimensions.i - 1) as nat);
    }
}

/// Where no quad of the K = 1 surface has an IBLANK 0 at a corner,
/// respecting blanking gives the same mesh as ignoring it: values 1, 2 and
/// negative fringe values never hide anything.
pub proof fn law_unblanked_quads_no_change(g: SpecGrid)
    requires
        g.dimensions.i >= 1,
        g.dimensions.j >= 1,
        no_blanked_quad(g),
    ensures
        mesh_edges(g, true) == mesh_edges(g, false),
{
    lemma_rows_edges_unblanked(g, (g.dimensions.j - 1) as nat);
}

/// The 8-index groups of `s` whose flag is set, in order: group `q` is
/// `s[8q .. 8q + 8]`.
pub open spec fn select_groups(s: Seq<u32>, keep: Seq<bool>) -> Seq<u32>
    decreases keep.len(),
{
    if keep.len() == 0 {
        Seq::empty()
    } else {
        select_groups(s, keep.drop_last()) + if keep.last() {
            s.subrange(8 * (keep.len() - 1), 8 * keep.len() as int)
        } else {
            Seq::empty()
        }
    }
}

/// For the first `n` quads of quad row `j`, whether each keeps its edges
/// when blanking is respected (no corner has IBLANK 0).
pub open spec fn row_flags(g: SpecGrid, j: int, n: nat) -> Seq<bool>
    decreases n,
{
    if n == 0 {
        Seq::empty()
    } else {
        row_flags(g, j, (n - 1) as nat).push(!quad_blanked(g, true, n - 1, j))
    }
}

/// The flags of the quads of the first `m` quad rows, row by row.
pub open spec fn rows_flags(g: SpecGrid, m: nat) -> Seq<bool>
    decreases m,
{
    if m == 0 {
        Seq::empty()
    } else {
        rows_flags(g, (m - 1) as nat) + row_flags(g, m - 1, (g.dimensions.i - 1) as nat)
    }
}

/// Whether each quad of the K = 1 surface keeps its edges under blanking,
/// quads in row-major order.
pub open spec fn quad_flags(g: SpecGrid) -> Seq<bool> {
    rows_flags(g, (g.dimensions.j - 1) as nat)
}

proof fn lemma_select_prefix(s: Seq<u32>, t: Seq<u32>, keep: Seq<bool>)
    requires
        s.len() >= 8 * keep.len(),
    ensures
        select_groups(s + t, keep) == select_groups(s, keep),
    decreases keep.len(),
{
    if keep.len() > 0 {
        lemma_select_prefix(s, t, keep.drop_last());
        let n = keep.len();
        assert((s + t).subrange(8 * (n - 1), 8 * n as int) =~= s.subrange(8 * (n - 1), 8 * n as int));
    }
}

proof fn lemma_select_concat(s1: Seq<u32>, s2: Seq<u32>, f1: Seq<bool>, f2: Seq<bool>)
    requires
        s1.len() == 8 * f1.len(),
        s2.len() == 8 * f2.len(),
    ensures
        select_groups(s1 + s2, f1 + f2) == select_groups(s1, f1) + select_groups(s2, f2),
    decreases f2.len(),
{
    if f2.len() == 0 {
        assert(f1 + f2 =~= f1);
        lemma_select_prefix(s1, s2, f1);
        assert(select_groups(s1, f1) + select_groups(s2, f2) =~= select_groups(s1, f1));
    } else {
        let g2 = f2.drop_last();
        let n2 = f2.len();
        let t2 = s2.subrange(0, 8 * (n2 - 1));
        let rest = s2.subrange(8 * (n2 - 1), 8 * n2 as int);
        assert(s2 =~= t2 + rest);
        assert((f1 + f2).drop_last() =~= f1 + g2);
        lemma_select_concat(s1, t2, f1, g2);
        assert(s1 + s2 =~= (s1 + t2) + rest);
        lemma_select_prefix(s1 + t2, rest, f1 + g2);
        lemma_select_prefix(t2, rest, g2);
        let n = (f1 + f2).len();
        assert((s1 + s2).subrange(8 * (n - 1), 8 * n as int) =~= rest);
        assert(select_groups(s1 + s2, f1 + f2) =~= select_groups(s1, f1) + select_groups(s2, f2));
    }
}

proof fn lemma_row_select(g: SpecGrid, j: int, n: nat)
    ensures
        row_flags(g, j, n).len() == n,
        row_edges(g, false, j, n).len() == 8 * n,
        row_edges(g, true, j, n) == select_groups(row_edges(g, false, j, n), row_flags(g, j, n)),
    decreases n,
{
    if n > 0 {
        lemma_row_select(g, j, (n - 1) as nat);
        let prev = row_edges(g, false, j, (n - 1) as nat);
        let q = quad_edges(g.dimensions.i as int, n - 1, j);
        let f = row_flags(g, j, n);
        assert(f.drop_last() =~= row_flags(g, j, (n - 1) as nat));
        lemma_select_prefix(prev, q, f.drop_last());
        assert((prev + q).subrange(8 * (n - 1), 8 * n as int) =~= q);
    }
}

proof fn lemma_rows_select(g: SpecGrid, m: nat)
    ensures
        rows_edges(g, false, m).len() == 8 * rows_flags(g, m).len(),
        rows_edges(g, true, m) == select_groups(rows_edges(g, false, m), rows_flags(g, m)),
    decreases m,
{
    if m > 0 {
        lemma_rows_select(g, (m - 1) as nat);
        let w = (g.dimensions.i - 1) as nat;
        lemma_row_select(g, m - 1, w);
        lemma_select_concat(
            rows_edges(g, false, (m - 1) as nat),
            row_edges(g, false, m - 1, w),
            rows_flags(g, (m - 1) as nat),
            row_flags(g, m - 1, w),
        );
    }
}

proof fn lemma_row_positions(g: SpecGrid, j: int, n: nat)
    ensures
        row_flags(g, j, n).len() == n,
        row_edges(g, false, j, n).len() == 8 * n,
        forall|i: int| 0 <= i < n ==> #[trigger] row_flags(g, j, n)[i] == !quad_blanked(g, true, i, j),
        forall|i: int| 0 <= i < n ==> #[trigger] row_edges(g, false, j, n).subrange(8 * i, 8 * i + 8)
            == quad_edges(g.dimensions.i as int, i, j),
    decreases n,
{
    if n > 0 {
        lemma_row_positions(g, j, (n - 1) as nat);
        let prev = row_edges(g, false, j, (n - 1) as nat);
        let q = quad_edges(g.dimensions.i as int, n - 1, j);
        assert forall|i: int| 0 <= i < n implies #[trigger] row_edges(g, false, j, n).subrange(8 * i, 8 * i + 8)
            == quad_edges(g.dimensions.i as int, i, j) by {
            if i < n - 1 {
                assert((prev + q).subrange(8 * i, 8 * i + 8) =~= prev.subrange(8 * i, 8 * i + 8));
            } else {
                assert((prev + q).subrange(8 * i, 8 * i + 8) =~= q);
            }
        }
    }
}

#[verifier::spinoff_prover]
proof fn lemma_rows_positions(g: SpecGrid, m: nat)
    requires
        g.dimensions.i >= 1,
    ensures
        rows_flags(g, m).len() == m * (g.dimensions.i - 1),
        rows_edges(g, false, m).len() == 8 * rows_flags(g, m).len(),
        forall|i: int, j: int| 0 <= i < g.dimensions.i - 1 && 0 <= j < m ==> {
            &&& #[trigger] rows_flags(g, m)[j * (g.dimensions.i - 1) + i] == !quad_blanked(g, true, i, j)
            &&& rows_edges(g, false, m).subrange(8 * (j * (g.dimensions.i - 1) + i), 8 * (j * (g.dimensions.i - 1) + i) + 8)
                == quad_edges(g.dimensions.i as int, i, j)
        },
    decreases m,
{
    let w = g.dimensions.i - 1;
    if m > 0 {
        lemma_rows_positions(g, (m - 1) as nat);
        lemma_row_positions(g, m - 1, w as nat);
        let fa = rows_flags(g, (m - 1) as nat);
        let fb = row_flags(g, m - 1, w as nat);
        let ea = rows_edges(g, false, (m - 1) as nat);
        let eb = row_edges(g, false, m - 1, w as nat);
        assert((m - 1) * w + w == m * w) by (nonlinear_arith);
        assert forall|i: int, j: int| 0 <= i < w && 0 <= j < m implies {
            &&& #[trigger] (fa + fb)[j * w + i] == !quad_blanked(g, true, i, j)
            &&& (ea + eb).subrange(8 * (j * w + i), 8 * (j * w + i) + 8) == quad_edges(g.dimensions.i as int, i, j)
        } by {
            if j < m - 1 {
                assert(j * w + i < (m - 1) * w) by (nonlinear_arith)
                    requires 0 <= j < m - 1, 0 <= i < w;
                assert(0 <= j * w) by (nonlinear_arith)
                    requires 0 <= j, w >= 0;
                assert((ea + eb).subrange(8 * (j * w + i), 8 * (j * w + i) + 8) =~= ea.subrange(8 * (j * w + i), 8 * (j * w + i) + 8));
            } else {
                assert(j * w == (m - 1) * w);
                assert((fa + fb)[j * w + i] == fb[i]);
                assert((ea + eb).subrange(8 * (j * w + i), 8 * (j * w + i) + 8) =~= eb.subrange(8 * i, 8 * i + 8));
            }
        }
    } else {
        assert(m * w == 0) by (nonlinear_arith)
            requires m == 0;
    }
}

/// Quads are taken row by row: quad (i, j) of the K = 1 surface is group
/// j * (I - 1) + i. Its group in the unblanked mesh holds its four edges, and
/// its flag is set exactly when none of its corners has IBLANK 0.
pub proof fn law_quad_groups(g: SpecGrid, i: int, j: int)
    requires
        0 <= i < g.dimensions.i - 1,
        0 <= j < g.dimensions.j - 1,
    ensures
        quad_flags(g).len() == (g.dimensions.j - 1) * (g.dimensions.i - 1),
        quad_flags(g)[j * (g.dimensions.i - 1) + i] == !quad_blanked(g, true, i, j),
        mesh_edges(g, false).subrange(8 * (j * (g.dimensions.i - 1) + i), 8 * (j * (g.dimensions.i - 1) + i) + 8)
            == quad_edges(g.dimensions.i as int, i, j),
{
    lemma_rows_positions(g, (g.dimensions.j - 1) as nat);
    assert(quad_flags(g)[j * (g.dimensions.i - 1) + i] == !quad_blanked(g, true, i, j));
}

/// Respecting blanking removes exactly the edges of the quads with an
/// IBLANK 0 at a corner: the unblanked mesh is one group of eight indices per
/// quad, in row-major order, and the blanked mesh keeps, in order, the
/// groups of the quads whose flag in `quad_flags` is set.
pub proof fn law_blanking_removes_blanked_quads(g: SpecGrid)
    ensures
        mesh_edges(g, false).len() == 8 * quad_flags(g).len(),
        mesh_edges(g, true) == select_groups(mesh_edges(g, false), quad_flags(g)),
{
    lemma_rows_select(g, (g.dimensions.j - 1) as nat);
}

/// Blanking removes only quads that touch a hole point (IBLANK 0): where the
/// surface has no hole, respecting blanking gives the same mesh as ignoring
/// it, so fringe and wall points always stay visible.
pub proof fn law_no_holes_no_change(g: SpecGrid)
    requires
        g.dimensions.i >= 1,
        g.dimensions.j >= 1,
        no_holes(g),
    ensures
        mesh_edges(g, true) == mesh_edges(g, false),
{
    lemma_no_holes_no_blanked_quad(g);
    law_unblanked_quads_no_change(g);
}

/// Whether every index of `s` is below `bound`.
pub open spec fn all_below(s: Seq<u32>, bound: int) -> bool {
    forall|t: int| 0 <= t < s.len() ==> (#[trigger] s[t]) < bound
}

proof fn lemma_row_edges_below(g: SpecGrid, respect: bool, j: int, n: nat)
    requires
        0 <= j < g.dimensions.j - 1,
        n <= g.dimensions.i - 1,
        g.dimensions.i as int * g.dimensions.j as int <= 0x1_0000_0000,
    ensures
        all_below(row_edges(g, respect, j, n), g.dimensions.i as int * g.dimensions.j as int),
    decreases n,
{
    if n > 0 {
        let di = g.dimensions.i as int;
        let dj = g.dimensions.j as int;
        lemma_row_edges_below(g, respect, j, (n - 1) as nat);
        let i = n - 1;
        assert((j + 1) * di + i + 1 < di * dj) by (nonlinear_arith)
            requires
                0 <= i < di - 1,
                0 <= j < dj - 1,
        {
            assert((j + 2) * di <= dj * di) by (nonlinear_arith)
                requires j + 2 <= dj, 0 <= di;
            assert((j + 2) * di == (j + 1) * di + di) by (nonlinear_arith);
        }
        assert(0 <= j * di) by (nonlinear_arith)
            requires 0 <= j, 0 <= di;
        assert((j + 1) * di == j * di + di) by (nonlinear_arith);
        let prev = row_edges(g, respect, j, (n - 1) as nat);
        let extra = if quad_blanked(g, respect, i, j) { Seq::<u32>::empty() } else { quad_edges(di, i, j) };
        let a = j * di + i;
        let b = j * di + i + 1;
        let c = (j + 1) * di + i;
        let d = (j + 1) * di + i + 1;
        assert(0 <= a < b <= d && a <= c < d && d < di * dj);
        assert(a as u32 == a);
        assert(b as u32 == b);
        assert(c as u32 == c);
        assert(d as u32 == d);
        assert(all_below(quad_edges(di, i, j), di * dj));
        assert(all_below(extra, di * dj));
        assert forall|t: int| 0 <= t < (prev + extra).len() implies (#[trigger] (prev + extra)[t]) < di * dj by {
            if t < prev.len() {
                assert((prev + extra)[t] == prev[t]);
            } else {
                assert((prev + extra)[t] == extra[t - prev.len()]);
            }
        }
    }
}

proof fn lemma_rows_edges_below(g: SpecGrid, respect: bool, m: nat)
    requires
        m <= g.dimensions.j - 1,
        g.dimensions.i >= 1,
        g.dimensions.i as int * g.dimensions.j as int <= 0x1_0000_0000,
    ensures
        all_below(rows_edges(g, respect, m), g.dimensions.i as int * g.dimensions.j as int),
    decreases m,
{
    if m > 0 {
        lemma_rows_edges_below(g, respect, (m - 1) as nat);
        lemma_row_edges_below(g, respect, m - 1, (g.dimensions.i - 1) as nat);
        let prev = rows_edges(g, respect, (m - 1) as nat);
        let extra = row_edges(g, respect, m - 1, (g.dimensions.i - 1) as nat);
        assert forall|t: int| 0 <= t < (prev + extra).len() implies (#[trigger] (prev + extra)[t]) < g.dimensions.i as int * g.dimensions.j as int by {
            if t < prev.len() {
                assert((prev + extra)[t] == prev[t]);
            } else {
                assert((prev + extra)[t] == extra[t - prev.len()]);
            }
        }
    }
}

/// Every segment of the mesh joins two vertices of the K = 1 surface: when
/// the I x J surface indices fit in 32 bits, every index is below I * J.
pub proof fn law_segments_on_surface(g: SpecGrid, respect: bool)
    requires
        g.dimensions.i >= 1,
        g.dimensions.j >= 1,
        g.dimensions.i as int * g.dimensions.j as int <= 0x1_0000_0000,
    ensures
        all_below(mesh_edges(g, respect), g.dimensions.i as int * g.dimensions.j as int),
{
    lemma_rows_edges_below(g, respect, (g.dimensions.j - 1) as nat);
}


/// Whether every index of `s` names a point whose IBLANK value is not zero.
pub open spec fn all_visible(s: Seq<u32>, ib: Seq<i32>) -> bool {
    forall|t: int| 0 <= t < s.len() ==> ib[(#[trigger] s[t]) as int] != 0
}

proof fn lemma_row_edges_visible(g: SpecGrid, j: int, n: nat)
    requires
        0 <= j < g.dimensions.j - 1,
        n <= g.dimensions.i - 1,
        g.dimensions.i as int * g.dimensions.j as int <= 0x1_0000_0000,
        g.iblank is Some,
    ensures
        all_visible(row_edges(g, true, j, n), g.iblank.unwrap()),
    decreases n,
{
    if n > 0 {
        let di = g.dimensions.i as int;
        let dj = g.dimensions.j as int;
        let ib = g.iblank.unwrap();
        lemma_row_edges_visible(g, j, (n - 1) as nat);
        let i = n - 1;
        assert((j + 1) * di + i + 1 < di * dj) by (nonlinear_arith)
            requires
                0 <= i < di - 1,
                0 <= j < dj - 1,
        {
            assert((j + 2) * di <= dj * di) by (nonlinear_arith)
                requires j + 2 <= dj, 0 <= di;
            assert((j + 2) * di == (j + 1) * di + di) by (nonlinear_arith);
        }
        assert(0 <= j * di) by (nonlinear_arith)
            requires 0 <= j, 0 <= di;
        assert((j + 1) * di == j * di + di) by (nonlinear_arith);
        let prev = row_edges(g, true, j, (n - 1) as nat);
        let extra = if quad_blanked(g, true, i, j) { Seq::<u32>::empty() } else { quad_edges(di, i, j) };
        assert(row_edges(g, true, j, n) == prev + extra);
        if !quad_blanked(g, true, i, j) {
            let a = j * di + i;
            let b = j * di + i + 1;
            let c = (j + 1) * di + i;
            let d = (j + 1) * di + i + 1;
            assert(0 <= a < b <= d && a <= c < d && d < di * dj);
            assert((a as u32) as int == a);
            assert((b as u32) as int == b);
            assert((c as u32) as int == c);
            assert((d as u32) as int == d);
            assert(ib[a] != 0 && ib[b] != 0 && ib[c] != 0 && ib[d] != 0);
            let q = quad_edges(di, i, j);
            assert(q =~= seq![a as u32, b as u32, b as u32, d as u32, d as u32, c as u32, c as u32, a as u32]);
            assert forall|t: int| 0 <= t < q.len() implies ib[(#[trigger] q[t]) as int] != 0 by {
                assert(q[t] == a as u32 || q[t] == b as u32 || q[t] == c as u32 || q[t] == d as u32);
            }
        }
        assert forall|t: int| 0 <= t < (prev + extra).len() implies ib[(#[trigger] (prev + extra)[t]) as int] != 0 by {
            if t < prev.len() {
                assert((prev + extra)[t] == prev[t]);
            } else {
                assert((prev + extra)[t] == extra[t - prev.len()]);
            }
        }
    }
}

proof fn lemma_rows_edges_visible(g: SpecGrid, m: nat)
    requires
        m <= g.dimensions.j - 1,
        g.dimensions.i >= 1,
        g.dimensions.i as int * g.dimensions.j as int <= 0x1_0000_0000,
        g.iblank is Some,
    ensures
        all_visible(rows_edges(g, true, m), g.iblank.unwrap()),
    decreases m,
{
    if m > 0 {
        let ib = g.iblank.unwrap();
        lemma_rows_edges_visible(g, (m - 1) as nat);
        lemma_row_edges_visible(g, m - 1, (g.dimensions.i - 1) as nat);
        let prev = rows_edges(g, true, (m - 1) as nat);
        let extra = row_edges(g, true, m - 1, (g.dimensions.i - 1) as nat);
        assert forall|t: int| 0 <= t < (prev + extra).len() implies ib[(#[trigger] (prev + extra)[t]) as int] != 0 by {
            if t < prev.len() {
                assert((prev + extra)[t] == prev[t]);
            } else {
                assert((prev + extra)[t] == extra[t - prev.len()]);
            }
        }
    }
}

/// With blanking respected, no hidden point is drawn: every vertex index of
/// every segment of the mesh names a point whose IBLANK value is not zero, so
/// a quad with IBLANK 0 at any of its four corners contributes no segment.
pub proof fn law_hidden_points_not_drawn(g: SpecGrid)
    requires
        g.dimensions.i >= 1,
        g.dimensions.j >= 1,
        g.dimensions.i as int * g.dimensions.j as int <= 0x1_0000_0000,
        g.iblank is Some,
    ensures
        forall|t: int| 0 <= t < mesh_edges(g, true).len()
            ==> g.iblank.unwrap()[(#[trigger] mesh_edges(g, true)[t]) as int] != 0,
{
    lemma_rows_edges_visible(g, (g.dimensions.j - 1) as nat);
}


/// The bytes that store the words of `v` one after another, each in the
/// given byte order.
pub open spec fn encode_words(v: Seq<u32>, order: ByteOrder) -> Seq<u8>
    decreases v.len(),
{
    if v.len() == 0 {
        Seq::empty()
    } else {
        encode_words(v.drop_last(), order) + word_bytes(v.last(), order)
    }
}

/// Stored words take four bytes each, word `n` at bytes `4n .. 4n + 4`.
pub proof fn lemma_encode_words(v: Seq<u32>, order: ByteOrder)
    ensures
        encode_words(v, order).len() == 4 * v.len(),
        forall|n: int| 0 <= n < v.len() ==> #[trigger] encode_words(v, order).subrange(4 * n, 4 * n + 4) == word_bytes(v[n], order),
    decreases v.len(),
{
    if v.len() > 0 {
        let u = v.drop_last();
        lemma_encode_words(u, order);
        let wb = word_bytes(v.last(), order);
        assert forall|n: int| 0 <= n < v.len() implies #[trigger] encode_words(v, order).subrange(4 * n, 4 * n + 4) == word_bytes(v[n], order) by {
            if n < u.len() {
                assert(encode_words(v, order).subrange(4 * n, 4 * n + 4) =~= encode_words(u, order).subrange(4 * n, 4 * n + 4));
                assert(u[n] == v[n]);
            } else {
                assert(encode_words(v, order).subrange(4 * n, 4 * n + 4) =~= wb);
            }
        }
    }
}

/// Words stored one after another at `q` read back, in the same byte order,
/// as the words, and as 32-bit values widened to 64 bits.
pub proof fn lemma_encoded_words_read_back(data: Seq<u8>, q: int, v: Seq<u32>, order: ByteOrder)
    requires
        0 <= q,
        q + 4 * v.len() <= data.len(),
        data.subrange(q, q + 4 * v.len()) == encode_words(v, order),
    ensures
        forall|n: int| 0 <= n < v.len() ==> #[trigger] word32_at(data, q + 4 * n, order) == v[n],
        values_at(data, q, v.len(), 4, order) == widen(v),
{
    lemma_encode_words(v, order);
    assert forall|n: int| 0 <= n < v.len() implies #[trigger] word32_at(data, q + 4 * n, order) == v[n] by {
        assert(data.subrange(q + 4 * n, q + 4 * n + 4) =~= data.subrange(q, q + 4 * v.len()).subrange(4 * n, 4 * n + 4));
        lemma_word_bytes(v[n], order, data, q + 4 * n);
    }
    assert forall|n: int| 0 <= n < v.len() implies #[trigger] values_at(data, q, v.len(), 4, order)[n] == widen(v)[n] by {
        assert(q + n * 4 == q + 4 * n);
        assert(word32_at(data, q + 4 * n, order) == v[n]);
    }
    assert(values_at(data, q, v.len(), 4, order) =~= widen(v));
}

/// One Fortran record holding the single-precision words `v`: a length
/// marker of `4 * |v|` bytes, the words, and the same marker again.
pub open spec fn single_record(v: Seq<u32>, order: ByteOrder) -> Seq<u8> {
    word_bytes((4 * v.len()) as u32, order) + encode_words(v, order) + word_bytes((4 * v.len()) as u32, order)
}

/// A record of single-precision words, stored at `q`, reads back as its
/// length marker, its words and its closing marker.
pub proof fn lemma_single_record_at(data: Seq<u8>, q: int, v: Seq<u32>, order: ByteOrder)
    requires
        4 * v.len() <= 0x7fff_ffff,
        0 <= q,
        q + 4 * v.len() + 8 <= data.len(),
        data.subrange(q, q + 4 * v.len() + 8) == single_record(v, order),
    ensures
        single_record(v, order).len() == 4 * v.len() + 8,
        i32_at(data, q, order) as int == 4 * v.len(),
        i32_at(data, q + 4 + 4 * v.len(), order) as int == 4 * v.len(),
        values_at(data, q + 4, v.len(), 4, order) == widen(v),
{
    let n: int = v.len() as int;
    let m = (4 * n) as u32;
    lemma_encode_words(v, order);
    let r = single_record(v, order);
    let s = data.subrange(q, q + 4 * n + 8);
    assert(m as int == 4 * n);
    assert(data.subrange(q, q + 4) =~= s.subrange(0, 4));
    assert(r.subrange(0, 4) =~= word_bytes(m, order));
    lemma_word_bytes(m, order, data, q);
    assert(data.subrange(q + 4, q + 4 + 4 * n) =~= s.subrange(4, 4 + 4 * n));
    assert(r.subrange(4, 4 + 4 * n) =~= encode_words(v, order));
    lemma_encoded_words_read_back(data, q + 4, v, order);
    assert(data.subrange(q + 4 + 4 * n, q + 8 + 4 * n) =~= s.subrange(4 + 4 * n, 8 + 4 * n));
    assert(r.subrange(4 + 4 * n, 8 + 4 * n) =~= word_bytes(m, order));
    lemma_word_bytes(m, order, data, q + 4 + 4 * n);
    assert((m as i32) as int == m as int) by (bit_vector)
        requires m <= 0x7fff_ffffu32;
}

proof fn lemma_dispatch_separate(data: Seq<u8>, p: int, n: nat, order: ByteOrder)
    requires
        n >= 1,
        has_bytes(data, p, 4),
        i32_at(data, p, order) as int == 4 * n,
    ensures
        spec_read_xyz(data, p, n, order)
            == spec_xyz_separate(data, p + 4, n, Precision::F32, i32_at(data, p, order), order),
{
    let size = i32_at(data, p, order) as int;
    assert(size / 4 == n) by (nonlinear_arith)
        requires size == 4 * n;
    assert(size / 8 < 3 * n) by (nonlinear_arith)
        requires size == 4 * n, n >= 1;
}

/// Coordinates stored as three separate records are read in file order: for
/// a grid of n points whose X, Y and Z arrays are written as three
/// single-precision records, one after another, the first record holds the X
/// values, the second the Y values and the third the Z values, and reading
/// ends after the third record.
#[verifier::spinoff_prover]
pub proof fn law_separate_records_in_order(data: Seq<u8>, p: int, x: Seq<u32>, y: Seq<u32>, z: Seq<u32>, order: ByteOrder)
    requires
        x.len() >= 1,
        y.len() == x.len(),
        z.len() == x.len(),
        4 * x.len() <= 0x7fff_ffff,
        0 <= p,
        p + 3 * (4 * x.len() + 8) <= data.len(),
        data.subrange(p, p + 3 * (4 * x.len() + 8))
            == single_record(x, order) + single_record(y, order) + single_record(z, order),
    ensures
        spec_read_xyz(data, p, x.len(), order) == Ok::<(SpecCoords, int), Plot3DError>(
            ((widen(x), widen(y), widen(z), Precision::F32), p + 3 * (4 * x.len() + 8)),
        ),
{
    let n = x.len();
    let r: int = 4 * n as int + 8;
    let all = data.subrange(p, p + 3 * r);
    let rx = single_record(x, order);
    let ry = single_record(y, order);
    let rz = single_record(z, order);
    lemma_encode_words(x, order);
    lemma_encode_words(y, order);
    lemma_encode_words(z, order);
    assert(rx.len() == r && ry.len() == r && rz.len() == r);
    assert(data.subrange(p, p + r) =~= all.subrange(0, r));
    assert((rx + ry + rz).subrange(0, r) =~= rx);
    lemma_single_record_at(data, p, x, order);
    assert(data.subrange(p + r, p + 2 * r) =~= all.subrange(r, 2 * r));
    assert((rx + ry + rz).subrange(r, 2 * r) =~= ry);
    lemma_single_record_at(data, p + r, y, order);
    assert(data.subrange(p + 2 * r, p + 3 * r) =~= all.subrange(2 * r, 3 * r));
    assert((rx + ry + rz).subrange(2 * r, 3 * r) =~= rz);
    lemma_single_record_at(data, p + 2 * r, z, order);
    lemma_dispatch_separate(data, p, n, order);
    assert(announced_size(n, 4) as int == 4 * n);
    assert(value_width(Precision::F32) == 4);
}

/// One Fortran record holding the single-precision X, Y and Z arrays one
/// after another, framed by its length marker of `12 * |x|` bytes.
pub open spec fn xyz_record(x: Seq<u32>, y: Seq<u32>, z: Seq<u32>, order: ByteOrder) -> Seq<u8> {
    word_bytes((12 * x.len()) as u32, order) + encode_words(x, order) + encode_words(y, order)
        + encode_words(z, order) + word_bytes((12 * x.len()) as u32, order)
}

proof fn lemma_dispatch_block(data: Seq<u8>, p: int, n: nat, order: ByteOrder)
    requires
        n >= 1,
        has_bytes(data, p, 4),
        i32_at(data, p, order) as int == 12 * n,
    ensures
        spec_read_xyz(data, p, n, order)
            == spec_xyz_block(data, p + 4, n, Precision::F32, 0, i32_at(data, p, order), order),
{
    let size = i32_at(data, p, order) as int;
    assert(size / 4 == 3 * n) by (nonlinear_arith)
        requires size == 12 * n;
}

/// Coordinates stored in one record are read in file order: for a grid of n
/// points whose X, Y and Z arrays are written one after another in a single
/// single-precision record, the X values come first, then the Y values, then
/// the Z values, and reading ends after the record.
proof fn lemma_xyz_record_layout(data: Seq<u8>, p: int, x: Seq<u32>, y: Seq<u32>, z: Seq<u32>, order: ByteOrder)
    requires
        y.len() == x.len(),
        z.len() == x.len(),
        12 * x.len() <= 0x7fff_ffff,
        0 <= p,
        p + 12 * x.len() + 8 <= data.len(),
        data.subrange(p, p + 12 * x.len() + 8) == xyz_record(x, y, z, order),
    ensures
        i32_at(data, p, order) as int == 12 * x.len(),
        values_at(data, p + 4, x.len(), 4, order) == widen(x),
        values_at(data, p + 4 + 4 * x.len(), x.len(), 4, order) == widen(y),
        values_at(data, p + 4 + 8 * x.len(), x.len(), 4, order) == widen(z),
        i32_at(data, p + 4 + 12 * x.len(), order) as int == 12 * x.len(),
{
    let n: int = x.len() as int;
    let all = data.subrange(p, p + 12 * n + 8);
    let mk = word_bytes((12 * x.len()) as u32, order);
    let ex = encode_words(x, order);
    let ey = encode_words(y, order);
    let ez = encode_words(z, order);
    lemma_encode_words(x, order);
    lemma_encode_words(y, order);
    lemma_encode_words(z, order);
    let r = xyz_record(x, y, z, order);
    assert(r == mk + ex + ey + ez + mk);
    assert(data.subrange(p, p + 4) =~= all.subrange(0, 4));
    assert(r.subrange(0, 4) =~= mk);
    lemma_word_bytes((12 * x.len()) as u32, order, data, p);
    assert(data.subrange(p + 4, p + 4 + 4 * n) =~= all.subrange(4, 4 + 4 * n));
    assert(r.subrange(4, 4 + 4 * n) =~= ex);
    lemma_encoded_words_read_back(data, p + 4, x, order);
    assert(data.subrange(p + 4 + 4 * n, p + 4 + 8 * n) =~= all.subrange(4 + 4 * n, 4 + 8 * n));
    assert(r.subrange(4 + 4 * n, 4 + 8 * n) =~= ey);
    lemma_encoded_words_read_back(data, p + 4 + 4 * n, y, order);
    assert(data.subrange(p + 4 + 8 * n, p + 4 + 12 * n) =~= all.subrange(4 + 8 * n, 4 + 12 * n));
    assert(r.subrange(4 + 8 * n, 4 + 12 * n) =~= ez);
    lemma_encoded_words_read_back(data, p + 4 + 8 * n, z, order);
    assert(data.subrange(p + 4 + 12 * n, p + 8 + 12 * n) =~= all.subrange(4 + 12 * n, 8 + 12 * n));
    assert(r.subrange(4 + 12 * n, 8 + 12 * n) =~= mk);
    lemma_word_bytes((12 * x.len()) as u32, order, data, p + 4 + 12 * n);
    let m = (12 * x.len()) as u32;
    assert((m as i32) as int == m as int) by (bit_vector)
        requires m <= 0x7fff_ffffu32;
}

/// Coordinates stored in one record are read in file order: for a grid of n
/// points whose X, Y and Z arrays are written one after another in a single
/// single-precision record, the X values come first, then the Y values, then
/// the Z values, and reading ends after the record.
#[verifier::spinoff_prover]
pub proof fn law_single_record_in_order(data: Seq<u8>, p: int, x: Seq<u32>, y: Seq<u32>, z: Seq<u32>, order: ByteOrder)
    requires
        x.len() >= 1,
        y.len() == x.len(),
        z.len() == x.len(),
        12 * x.len() <= 0x7fff_ffff,
        0 <= p,
        p + 12 * x.len() + 8 <= data.len(),
        data.subrange(p, p + 12 * x.len() + 8) == xyz_record(x, y, z, order),
    ensures
        spec_read_xyz(data, p, x.len(), order) == Ok::<(SpecCoords, int), Plot3DError>(
            ((widen(x), widen(y), widen(z), Precision::F32), p + 12 * x.len() + 8),
        ),
{
    lemma_xyz_record_layout(data, p, x, y, z, order);
    lemma_dispatch_block(data, p, x.len(), order);
    assert(value_width(Precision::F32) == 4);
}

/// The dimension record of each grid is read in I, J, K order: when the
/// twelve bytes after the previous grids' dimensions store the nonzero words
/// i, j and k one after another, the next grid's dimensions are I = i,
/// J = j and K = k, and reading goes on after those twelve bytes.
pub proof fn law_dimensions_in_order(
    data: Seq<u8>,
    p: int,
    n: nat,
    ds: Seq<GridDimensions>,
    q: int,
    i: u32,
    j: u32,
    k: u32,
    order: ByteOrder,
)
    requires
        n >= 1,
        spec_read_dims(data, p, (n - 1) as nat, order) == Ok::<(Seq<GridDimensions>, int), Plot3DError>((ds, q)),
        0 <= q,
        q + 12 <= data.len(),
        data.subrange(q, q + 12) == encode_words(seq![i, j, k], order),
        i != 0 && j != 0 && k != 0,
    ensures
        spec_read_dims(data, p, n, order) == Ok::<(Seq<GridDimensions>, int), Plot3DError>(
            (ds.push(GridDimensions { i, j, k }), q + 12),
        ),
{
    let w = seq![i, j, k];
    lemma_encoded_words_read_back(data, q, w, order);
    assert(word32_at(data, q + 4 * 0, order) == w[0]);
    assert(word32_at(data, q + 4 * 1, order) == w[1]);
    assert(word32_at(data, q + 4 * 2, order) == w[2]);
    assert(((i as i32) as u32) == i && ((j as i32) as u32) == j && ((k as i32) as u32) == k) by (bit_vector);
    assert(dims_at(data, q, order) == GridDimensions { i, j, k });
}

/// An IBLANK record is read as the integers it stores, in file order: when
/// the bytes at `p` are a record of n 32-bit words `w`, the IBLANK array read
/// is `w` taken as signed integers, and reading ends after the record.
pub proof fn law_iblank_record_read(data: Seq<u8>, p: int, w: Seq<u32>, order: ByteOrder)
    requires
        4 * w.len() <= 0x7fff_ffff,
        0 <= p,
        p + 4 * w.len() + 8 <= data.len(),
        data.subrange(p, p + 4 * w.len() + 8) == single_record(w, order),
    ensures
        spec_try_read_iblank(data, p, w.len(), order) == Ok::<(Option<Seq<i32>>, int), Plot3DError>(
            (Some(Seq::new(w.len(), |n: int| w[n] as i32)), p + 4 * w.len() + 8),
        ),
{
    lemma_single_record_at(data, p, w, order);
    assert(announced_size(w.len(), 4) as int == 4 * w.len());
    assert forall|n: int| 0 <= n < w.len() implies #[trigger] i32_at(data, p + 4 + n * 4, order) == w[n] as i32 by {
        assert(values_at(data, p + 4, w.len(), 4, order)[n] == widen(w)[n]);
    }
    assert(ints_at(data, p + 4, w.len(), order) =~= Seq::new(w.len(), |n: int| w[n] as i32));
}

} // verus!

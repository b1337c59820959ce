//! PLOT3D solution (Q) files: the metadata record and the binary reader.
use vstd::prelude::*;
use crate::types::{ByteOrder, GridDimensions, Plot3DError, Precision, spec_byte_order_str, spec_precision_str, byte_order_string, value_width};
use crate::binary::{
    ByteReader, has_bytes, i32_at, words32_at, values_at, spec_skip_marker,
    count_bound, outcome, read_i32, read_record_marker, skip_record_marker, read_f32_array,
    read_values_with_precision, skip_bytes,
};
use crate::grid::{
    spec_probe_order, spec_read_dims, probe_byte_order, read_dimension_list, word_bytes, lemma_word_bytes,
    encode_words, lemma_encode_words, lemma_encoded_words_read_back,
};
use crate::ascii::widen;
use crate::binary::word32_at;

verus! {

/// Header values of a solution record. Every value is the bit pattern of a
/// single-precision number; a value is absent when the record is too short.
pub struct Plot3DMetadata {
    pub refmach: Option<u32>,
    pub alpha: Option<u32>,
    pub rey: Option<u32>,
    pub time: Option<u32>,
    pub gaminf: Option<u32>,
    pub beta: Option<u32>,
    pub tinf: Option<u32>,
    pub igam: Option<u32>,
    pub htinf: Option<u32>,
    pub ht1: Option<u32>,
    pub ht2: Option<u32>,
    pub rgas: Option<Vec<u32>>,
    pub fsmach: Option<u32>,
    pub tvref: Option<u32>,
    pub dtvref: Option<u32>,
}

/// Mathematical model of the header values.
pub struct SpecMetadata {
    pub fixed: Seq<Option<u32>>,
    pub rgas: Option<Seq<u32>>,
    pub fsmach: Option<u32>,
    pub tvref: Option<u32>,
    pub dtvref: Option<u32>,
}

impl View for Plot3DMetadata {
    type V = SpecMetadata;

    open spec fn view(&self) -> SpecMetadata {
        SpecMetadata {
            fixed: seq![
                self.refmach,
                self.alpha,
                self.rey,
                self.time,
                self.gaminf,
                self.beta,
                self.tinf,
                self.igam,
                self.htinf,
                self.ht1,
                self.ht2,
            ],
            rgas: match self.rgas {
                Some(v) => Some(v@),
                None => None,
            },
            fsmach: self.fsmach,
            tvref: self.tvref,
            dtvref: self.dtvref,
        }
    }
}

/// The value at `n`, if there is one.
pub open spec fn value_opt(values: Seq<u32>, n: int) -> Option<u32> {
    if 0 <= n < values.len() {
        Some(values[n])
    } else {
        None
    }
}

/// The header values read from a sequence of values, in order: REFMACH,
/// ALPHA, REY, TIME, GAMINF, BETA, TINF, IGAM, HTINF, HT1, HT2, then the gas
/// constants RGAS, then FSMACH, TVREF and DTVREF. The last three are present
/// only when there are at least fifteen values (RGAS then takes everything
/// between); with twelve to fourteen values RGAS takes all from the twelfth on.
pub open spec fn spec_metadata(values: Seq<u32>) -> SpecMetadata {
    let n = values.len() as int;
    SpecMetadata {
        fixed: Seq::new(11, |f: int| value_opt(values, f)),
        rgas: if n > 14 {
            Some(values.subrange(11, n - 3))
        } else if n > 11 {
            Some(values.subrange(11, n))
        } else {
            None
        },
        fsmach: if n > 14 { Some(values[n - 3]) } else { None },
        tvref: if n > 14 { Some(values[n - 2]) } else { None },
        dtvref: if n > 14 { Some(values[n - 1]) } else { None },
    }
}

fn value_at_index(values: &Vec<u32>, n: usize) -> (r: Option<u32>)
    ensures
        r == value_opt(values@, n as int),
{
    if n < values.len() {
        Some(values[n])
    } else {
        None
    }
}

pub(crate) fn copy_range(values: &Vec<u32>, from: usize, to: usize) -> (r: Vec<u32>)
    requires
        from <= to <= values@.len(),
    ensures
        r@ == values@.subrange(from as int, to as int),
{
    let mut out: Vec<u32> = Vec::new();
    let mut n = from;
    while n < to
        invariant
            from <= n <= to,
            to <= values@.len(),
            out@ =~= values@.subrange(from as int, n as int),
        decreases to - n,
    {
        out.push(values[n]);
        n = n + 1;
    }
    out
}

/// Builds the header values from a sequence of single-precision values.
pub fn metadata_from_values(values: &Vec<u32>) -> (m: Plot3DMetadata)
    ensures
        m@ == spec_metadata(values@),
{
    let n = values.len();
    let (rgas, fsmach, tvref, dtvref) = if n > 14 {
        (Some(copy_range(values, 11, n - 3)), Some(values[n - 3]), Some(values[n - 2]), Some(values[n - 1]))
    } else if n > 11 {
        (Some(copy_range(values, 11, n)), None, None, None)
    } else {
        (None, None, None, None)
    };
    let m = Plot3DMetadata {
        refmach: value_at_index(values, 0),
        alpha: value_at_index(values, 1),
        rey: value_at_index(values, 2),
        time: value_at_index(values, 3),
        gaminf: value_at_index(values, 4),
        beta: value_at_index(values, 5),
        tinf: value_at_index(values, 6),
        igam: value_at_index(values, 7),
        htinf: value_at_index(values, 8),
        ht1: value_at_index(values, 9),
        ht2: value_at_index(values, 10),
        rgas,
        fsmach,
        tvref,
        dtvref,
    };
    assert(m@.fixed =~= spec_metadata(values@).fixed);
    m
}

/// The single-precision values held by a metadata record: as many whole
/// four-byte values as the record holds.
pub open spec fn metadata_values(buffer: Seq<u8>, order: ByteOrder) -> Seq<u32> {
    words32_at(buffer, 0, buffer.len() / 4, order)
}

/// The little-endian encoding of a sequence of 32-bit words.
pub open spec fn le_encode(v: Seq<u32>) -> Seq<u8>
    decreases v.len(),
{
    if v.len() == 0 {
        Seq::empty()
    } else {
        le_encode(v.drop_last()) + word_bytes(v.last(), ByteOrder::LittleEndian)
    }
}

proof fn lemma_le_encode(v: Seq<u32>)
    ensures
        le_encode(v).len() == 4 * v.len(),
        forall|n: int| 0 <= n < v.len() ==> #[trigger] le_encode(v).subrange(4 * n, 4 * n + 4) == word_bytes(v[n], ByteOrder::LittleEndian),
    decreases v.len(),
{
    if v.len() > 0 {
        let u = v.drop_last();
        lemma_le_encode(u);
        let e = le_encode(v);
        let wb = word_bytes(v.last(), ByteOrder::LittleEndian);
        assert(e == le_encode(u) + wb);
        assert forall|n: int| 0 <= n < v.len() implies #[trigger] le_encode(v).subrange(4 * n, 4 * n + 4) == word_bytes(v[n], ByteOrder::LittleEndian) by {
            if n < u.len() {
                assert(le_encode(v).subrange(4 * n, 4 * n + 4) =~= le_encode(u).subrange(4 * n, 4 * n + 4));
                assert(u[n] == v[n]);
            } else {
                assert(le_encode(v).subrange(4 * n, 4 * n + 4) =~= wb);
            }
        }
    }
}

/// Metadata values stored little-endian read back as the values: the ASCII
/// solution reader, which hands its metadata values to the metadata parser as
/// little-endian bytes, parses metadata exactly as the binary reader parses
/// the same values stored in a file.
pub proof fn law_metadata_roundtrip(v: Seq<u32>)
    ensures
        metadata_values(le_encode(v), ByteOrder::LittleEndian) == v,
        spec_metadata(metadata_values(le_encode(v), ByteOrder::LittleEndian)) == spec_metadata(v),
{
    lemma_le_encode(v);
    let e = le_encode(v);
    assert forall|n: int| 0 <= n < v.len() implies #[trigger] metadata_values(e, ByteOrder::LittleEndian)[n] == v[n] by {
        assert(e.subrange(4 * n, 4 * n + 4) == word_bytes(v[n], ByteOrder::LittleEndian));
        lemma_word_bytes(v[n], ByteOrder::LittleEndian, e, 4 * n);
    }
    assert(metadata_values(e, ByteOrder::LittleEndian) =~= v);
}

/// Parses a metadata record, reading as many values as it holds.
pub fn parse_metadata(buffer: &[u8], byte_order: ByteOrder) -> (m: Plot3DMetadata)
    ensures
        m@ == spec_metadata(metadata_values(buffer@, byte_order)),
{
    let count = buffer.len() / 4;
    let mut reader = ByteReader::new(buffer);
    let values = match read_f32_array(&mut reader, count as u128, byte_order) {
        Ok(v) => v,
        Err(_) => Vec::new(),
    };
    metadata_from_values(&values)
}


/// Solution data of one grid. Values are raw bit patterns in `precision`
/// (single-precision patterns occupy the low 32 bits).
pub struct Plot3DSolution {
    pub grid_index: usize,
    pub dimensions: GridDimensions,
    pub precision: Precision,
    /// Density.
    pub rho: Vec<u64>,
    /// Momentum, X component.
    pub rhou: Vec<u64>,
    /// Momentum, Y component.
    pub rhov: Vec<u64>,
    /// Momentum, Z component.
    pub rhow: Vec<u64>,
    /// Total energy.
    pub rhoe: Vec<u64>,
    /// Ratio of specific heats, when the file holds it (the sixth variable).
    pub gamma: Option<Vec<u64>>,
    pub metadata: Option<Plot3DMetadata>,
}

/// Mathematical model of the solution data of one grid.
pub struct SpecSolution {
    pub grid_index: int,
    pub dimensions: GridDimensions,
    pub precision: Precision,
    pub rho: Seq<u64>,
    pub rhou: Seq<u64>,
    pub rhov: Seq<u64>,
    pub rhow: Seq<u64>,
    pub rhoe: Seq<u64>,
    pub gamma: Option<Seq<u64>>,
    pub metadata: Option<SpecMetadata>,
}

impl View for Plot3DSolution {
    type V = SpecSolution;

    open spec fn view(&self) -> SpecSolution {
        SpecSolution {
            grid_index: self.grid_index as int,
            dimensions: self.dimensions,
            precision: self.precision,
            rho: self.rho@,
            rhou: self.rhou@,
            rhov: self.rhov@,
            rhow: self.rhow@,
            rhoe: self.rhoe@,
            gamma: match self.gamma {
                Some(v) => Some(v@),
                None => None,
            },
            metadata: match self.metadata {
                Some(m) => Some(m@),
                None => None,
            },
        }
    }
}

impl Plot3DSolution {
    /// Number of points of the grid the solution belongs to.
    pub fn total_points(&self) -> (n: usize)
        requires
            self.dimensions.points() <= usize::MAX,
        ensures
            n as nat == self.dimensions.points(),
    {
        self.dimensions.total_points()
    }
}

/// Models of a sequence of solutions.
pub open spec fn solutions_view(v: Seq<Plot3DSolution>) -> Seq<SpecSolution> {
    Seq::new(v.len(), |n: int| v[n]@)
}

/// The `n`-th variable array of a Q record at `p` holding arrays of `points`
/// values of width `w`.
pub open spec fn q_array(data: Seq<u8>, p: int, n: nat, points: nat, w: nat, order: ByteOrder) -> Seq<u64> {
    values_at(data, p + n * (points * w), points, w, order)
}

/// Reading the records of grid `g` (dimensions `d`) of a solution file with
/// `nq` variables: the metadata record, then one record of `nq` arrays whose
/// announced length gives the precision. The first five arrays are the
/// conservative variables; the sixth, when present, is gamma.
pub open spec fn spec_read_solution_block(
    data: Seq<u8>,
    p: int,
    g: nat,
    d: GridDimensions,
    nq: nat,
    order: ByteOrder,
) -> Result<(SpecSolution, int), Plot3DError> {
    if !has_bytes(data, p, 4) {
        Err(Plot3DError::UnexpectedEof)
    } else {
        let msize = i32_at(data, p, order) as int;
        let p1 = p + 4;
        if msize < 0 || !has_bytes(data, p1, msize) {
            Err(Plot3DError::MetadataRecordTruncated)
        } else {
            let p2 = p1 + msize;
            if !has_bytes(data, p2, 8) {
                Err(Plot3DError::UnexpectedEof)
            } else {
                let qsize = i32_at(data, p2 + 4, order);
                let p3 = p2 + 8;
                let e32 = nq * d.points() * 4;
                let e64 = nq * d.points() * 8;
                if !(qsize >= 0 && (qsize == e32 || qsize == e64)) {
                    Err(Plot3DError::InvalidQRecordSize { expected_f32: e32 as u128, expected_f64: e64 as u128, size: qsize })
                } else {
                    let prec = if qsize == e32 { Precision::F32 } else { Precision::F64 };
                    let w = value_width(prec);
                    let pw = d.points() * w;
                    if !has_bytes(data, p3, (nq * pw + 4) as int) {
                        Err(Plot3DError::UnexpectedEof)
                    } else {
                        Ok((
                            SpecSolution {
                                grid_index: g as int,
                                dimensions: d,
                                precision: prec,
                                rho: q_array(data, p3, 0, d.points(), w, order),
                                rhou: q_array(data, p3, 1, d.points(), w, order),
                                rhov: q_array(data, p3, 2, d.points(), w, order),
                                rhow: q_array(data, p3, 3, d.points(), w, order),
                                rhoe: q_array(data, p3, 4, d.points(), w, order),
                                gamma: if nq > 5 { Some(q_array(data, p3, 5, d.points(), w, order)) } else { None },
                                metadata: Some(spec_metadata(metadata_values(data.subrange(p1, p1 + msize), order))),
                            },
                            p3 + nq * pw + 4,
                        ))
                    }
                }
            }
        }
    }
}

/// The records of one grid in a binary solution file whose Q record holds
/// single-precision values: the metadata record (`meta`), then the Q record
/// holding the words `v`, each record framed by its length marker.
pub open spec fn q_block_bytes(meta: Seq<u8>, v: Seq<u32>, order: ByteOrder) -> Seq<u8> {
    word_bytes(meta.len() as u32, order) + meta + word_bytes(meta.len() as u32, order)
        + word_bytes((4 * v.len()) as u32, order) + encode_words(v, order) + word_bytes((4 * v.len()) as u32, order)
}

proof fn lemma_q_array_block(data: Seq<u8>, p3: int, v: Seq<u32>, t: nat, k: nat, order: ByteOrder)
    requires
        (k + 1) * t <= v.len(),
        forall|n: int| 0 <= n < v.len() ==> #[trigger] word32_at(data, p3 + 4 * n, order) == v[n],
    ensures
        q_array(data, p3, k, t, 4, order) == widen(v.subrange((k * t) as int, (k * t + t) as int)),
{
    assert((k + 1) * t == k * t + t) by (nonlinear_arith);
    assert(0 <= k * t) by (nonlinear_arith);
    assert forall|i: int| 0 <= i < t implies #[trigger] q_array(data, p3, k, t, 4, order)[i] == widen(v.subrange((k * t) as int, (k * t + t) as int))[i] by {
        assert(k * (t * 4) + i * 4 == 4 * (k * t + i)) by (nonlinear_arith);
        assert(word32_at(data, p3 + 4 * (k * t + i), order) == v[k * t + i]);
    }
    assert(q_array(data, p3, k, t, 4, order) =~= widen(v.subrange((k * t) as int, (k * t + t) as int)));
}

/// The Q record's arrays are, in file order, rho, rho*u, rho*v, rho*w,
/// rho*e and (with six or more variables) gamma: when the records of a grid
/// of t points are a metadata record followed by a single-precision Q record
/// holding the words `v` (nq arrays of t values, one after another), the
/// solution read holds the k-th block of t words of `v` as its k-th variable,
/// the metadata parsed from the metadata record, and reading ends after the
/// Q record.
#[verifier::spinoff_prover]
pub proof fn law_q_arrays_in_order(
    data: Seq<u8>,
    p: int,
    g: nat,
    d: GridDimensions,
    nq: nat,
    meta: Seq<u8>,
    v: Seq<u32>,
    order: ByteOrder,
)
    requires
        nq >= 5,
        v.len() == nq * d.points(),
        meta.len() <= 0x7fff_ffff,
        4 * v.len() <= 0x7fff_ffff,
        0 <= p,
        p + meta.len() + 4 * v.len() + 16 <= data.len(),
        data.subrange(p, p + meta.len() + 4 * v.len() + 16) == q_block_bytes(meta, v, order),
    ensures
        spec_read_solution_block(data, p, g, d, nq, order) == Ok::<(SpecSolution, int), Plot3DError>((
            SpecSolution {
                grid_index: g as int,
                dimensions: d,
                precision: Precision::F32,
                rho: widen(v.subrange(0, d.points() as int)),
                rhou: widen(v.subrange(d.points() as int, (2 * d.points()) as int)),
                rhov: widen(v.subrange((2 * d.points()) as int, (3 * d.points()) as int)),
                rhow: widen(v.subrange((3 * d.points()) as int, (4 * d.points()) as int)),
                rhoe: widen(v.subrange((4 * d.points()) as int, (5 * d.points()) as int)),
                gamma: if nq > 5 { Some(widen(v.subrange((5 * d.points()) as int, (6 * d.points()) as int))) } else { None },
                metadata: Some(spec_metadata(metadata_values(meta, order))),
            },
            p + meta.len() + 4 * v.len() + 16,
        )),
{
    let t = d.points();
    let ml: int = meta.len() as int;
    let qn: int = v.len() as int;
    lemma_q_block_layout(data, p, meta, v, order);
    let p3 = p + 12 + ml;
    assert(nq * t * 4 == 4 * qn);
    assert(nq * (t * 4) == 4 * qn) by (nonlinear_arith)
        requires qn == nq * t;
    assert(value_width(Precision::F32) == 4);
    lemma_q_arrays(data, p3, v, t, nq, order);
    assert(data.subrange(p + 4, p + 4 + ml) == meta);
}

proof fn lemma_q_block_layout(data: Seq<u8>, p: int, meta: Seq<u8>, v: Seq<u32>, order: ByteOrder)
    requires
        meta.len() <= 0x7fff_ffff,
        4 * v.len() <= 0x7fff_ffff,
        0 <= p,
        p + meta.len() + 4 * v.len() + 16 <= data.len(),
        data.subrange(p, p + meta.len() + 4 * v.len() + 16) == q_block_bytes(meta, v, order),
    ensures
        i32_at(data, p, order) as int == meta.len(),
        data.subrange(p + 4, p + 4 + meta.len()) == meta,
        i32_at(data, p + 8 + meta.len(), order) as int == 4 * v.len(),
        forall|n: int| 0 <= n < v.len() ==> #[trigger] word32_at(data, p + 12 + meta.len() + 4 * n, order) == v[n],
{
    let ml: int = meta.len() as int;
    let qn: int = v.len() as int;
    let total = ml + 4 * qn + 16;
    let all = data.subrange(p, p + total);
    let mm = word_bytes(meta.len() as u32, order);
    let qm = word_bytes((4 * v.len()) as u32, order);
    let body = encode_words(v, order);
    lemma_encode_words(v, order);
    let blk = q_block_bytes(meta, v, order);
    assert(blk == mm + meta + mm + qm + body + qm);
    assert(blk.len() == total);
    assert(data.subrange(p, p + 4) =~= all.subrange(0, 4));
    assert(blk.subrange(0, 4) =~= mm);
    lemma_word_bytes(meta.len() as u32, order, data, p);
    let mw = meta.len() as u32;
    assert((mw as i32) as int == mw as int) by (bit_vector)
        requires mw <= 0x7fff_ffffu32;
    assert(data.subrange(p + 4, p + 4 + ml) =~= all.subrange(4, 4 + ml));
    assert(blk.subrange(4, 4 + ml) =~= meta);
    let p2 = p + 4 + ml;
    assert(data.subrange(p2 + 4, p2 + 8) =~= all.subrange(8 + ml, 12 + ml));
    assert(blk.subrange(8 + ml, 12 + ml) =~= qm);
    lemma_word_bytes((4 * v.len()) as u32, order, data, p2 + 4);
    let qw = (4 * v.len()) as u32;
    assert((qw as i32) as int == qw as int) by (bit_vector)
        requires qw <= 0x7fff_ffffu32;
    let p3 = p2 + 8;
    assert(data.subrange(p3, p3 + 4 * qn) =~= all.subrange(12 + ml, 12 + ml + 4 * qn));
    assert(blk.subrange(12 + ml, 12 + ml + 4 * qn) =~= body);
    lemma_encoded_words_read_back(data, p3, v, order);
}

proof fn lemma_q_arrays(data: Seq<u8>, p3: int, v: Seq<u32>, t: nat, nq: nat, order: ByteOrder)
    requires
        nq >= 5,
        v.len() == nq * t,
        forall|n: int| 0 <= n < v.len() ==> #[trigger] word32_at(data, p3 + 4 * n, order) == v[n],
    ensures
        q_array(data, p3, 0, t, 4, order) == widen(v.subrange(0, t as int)),
        q_array(data, p3, 1, t, 4, order) == widen(v.subrange(t as int, (2 * t) as int)),
        q_array(data, p3, 2, t, 4, order) == widen(v.subrange((2 * t) as int, (3 * t) as int)),
        q_array(data, p3, 3, t, 4, order) == widen(v.subrange((3 * t) as int, (4 * t) as int)),
        q_array(data, p3, 4, t, 4, order) == widen(v.subrange((4 * t) as int, (5 * t) as int)),
        nq > 5 ==> q_array(data, p3, 5, t, 4, order) == widen(v.subrange((5 * t) as int, (6 * t) as int)),
{
    assert(5 * t <= v.len()) by (nonlinear_arith)
        requires v.len() == nq * t, nq >= 5;
    lemma_q_array_block(data, p3, v, t, 0, order);
    lemma_q_array_block(data, p3, v, t, 1, order);
    lemma_q_array_block(data, p3, v, t, 2, order);
    lemma_q_array_block(data, p3, v, t, 3, order);
    lemma_q_array_block(data, p3, v, t, 4, order);
    if nq > 5 {
        assert(6 * t <= v.len()) by (nonlinear_arith)
            requires v.len() == nq * t, nq >= 6;
        lemma_q_array_block(data, p3, v, t, 5, order);
    }
}

/// Reading the solution blocks of the first `n` grids.
pub open spec fn spec_read_solutions(
    data: Seq<u8>,
    p: int,
    dims: Seq<GridDimensions>,
    nq: nat,
    n: nat,
    order: ByteOrder,
) -> Result<(Seq<SpecSolution>, int), Plot3DError>
    decreases n,
{
    if n == 0 {
        Ok((Seq::empty(), p))
    } else {
        match spec_read_solutions(data, p, dims, nq, (n - 1) as nat, order) {
            Err(e) => Err(e),
            Ok((ss, q)) => match spec_read_solution_block(data, q, (n - 1) as nat, dims[n - 1], nq, order) {
                Err(e) => Err(e),
                Ok((s, q1)) => Ok((ss.push(s), q1)),
            },
        }
    }
}

proof fn lemma_read_solutions_error_sticks(
    data: Seq<u8>,
    p: int,
    dims: Seq<GridDimensions>,
    nq: nat,
    m: nat,
    n: nat,
    order: ByteOrder,
)
    requires
        m <= n,
        spec_read_solutions(data, p, dims, nq, m, order) is Err,
    ensures
        spec_read_solutions(data, p, dims, nq, n, order) == spec_read_solutions(data, p, dims, nq, m, order),
    decreases n - m,
{
    if m < n {
        lemma_read_solutions_error_sticks(data, p, dims, nq, m, (n - 1) as nat, order);
    }
}

/// Reading `n` solution blocks yields `n` solutions.
pub proof fn lemma_read_solutions_len(
    data: Seq<u8>,
    p: int,
    dims: Seq<GridDimensions>,
    nq: nat,
    n: nat,
    order: ByteOrder,
)
    ensures
        spec_read_solutions(data, p, dims, nq, n, order) matches Ok((ss, _)) ==> ss.len() == n,
    decreases n,
{
    if n > 0 {
        lemma_read_solutions_len(data, p, dims, nq, (n - 1) as nat, order);
    }
}

/// Whether a solution's arrays fit its dimensions: single or double
/// precision, and every array (gamma too, when present) holds one value per
/// point.
pub open spec fn solution_well_sized(s: SpecSolution) -> bool {
    let n = s.dimensions.points();
    &&& s.precision != Precision::Mixed
    &&& s.rho.len() == n && s.rhou.len() == n && s.rhov.len() == n && s.rhow.len() == n && s.rhoe.len() == n
    &&& (s.gamma matches Some(g) ==> g.len() == n)
}

proof fn lemma_read_solutions_sized(
    data: Seq<u8>,
    p: int,
    dims: Seq<GridDimensions>,
    nq: nat,
    n: nat,
    order: ByteOrder,
)
    requires
        n <= dims.len(),
    ensures
        spec_read_solutions(data, p, dims, nq, n, order) matches Ok((ss, _)) ==> ss.len() == n
            && forall|k: int| 0 <= k < ss.len() ==> {
                &&& (#[trigger] ss[k]).grid_index == k
                &&& ss[k].dimensions == dims[k]
                &&& solution_well_sized(ss[k])
            },
    decreases n,
{
    if n > 0 {
        lemma_read_solutions_sized(data, p, dims, nq, (n - 1) as nat, order);
    }
}

/// Every solution that a binary solution file yields belongs to the grid of
/// its position in the file, has that grid's dimensions, and holds one value
/// per point in each of its arrays.
pub proof fn law_read_solutions_well_sized(data: Seq<u8>)
    ensures
        spec_solution_file(data) matches Ok((_, sols)) ==> forall|k: int| 0 <= k < sols.len() ==> {
            &&& (#[trigger] sols[k]).grid_index == k
            &&& solution_well_sized(sols[k])
        },
{
    if let Ok(order) = spec_probe_order(data, true) {
        if let Ok((dims, p2)) = spec_read_dims(data, 16, i32_at(data, 4, order) as nat, order) {
            if has_bytes(data, p2, 12) {
                let nq = i32_at(data, p2, order);
                if 5 <= nq <= 100 {
                    lemma_read_solutions_sized(data, p2 + 12, dims, nq as nat, dims.len(), order);
                }
            }
        }
    }
}

/// Reading a whole binary solution file: the detected byte order and the
/// solution of every grid.
pub open spec fn spec_solution_file(data: Seq<u8>) -> Result<(ByteOrder, Seq<SpecSolution>), Plot3DError> {
    match spec_probe_order(data, true) {
        Err(e) => Err(e),
        Ok(order) => match spec_skip_marker(data, 12) {
            Err(e) => Err(e),
            Ok(p1) => match spec_read_dims(data, p1, i32_at(data, 4, order) as nat, order) {
                Err(e) => Err(e),
                Ok((dims, p2)) => if !has_bytes(data, p2, 12) {
                    Err(Plot3DError::UnexpectedEof)
                } else {
                    let nq = i32_at(data, p2, order);
                    if nq < 5 || nq > 100 {
                        Err(Plot3DError::InvalidNq(nq))
                    } else {
                        match spec_read_solutions(data, p2 + 12, dims, nq as nat, dims.len(), order) {
                            Err(e) => Err(e),
                            Ok((sols, _)) => Ok((order, sols)),
                        }
                    }
                },
            },
        },
    }
}

/// Reads the records of grid `g` of a binary solution file with `nq` variables.
fn read_solution_block(
    reader: &mut ByteReader,
    g: usize,
    d: GridDimensions,
    nq: i32,
    byte_order: ByteOrder,
) -> (r: Result<Plot3DSolution, Plot3DError>)
    requires
        5 <= nq <= 100,
    ensures
        final(reader).bytes() == old(reader).bytes(),
        outcome(
            match r { Ok(s) => Ok::<SpecSolution, Plot3DError>(s@), Err(e) => Err(e) },
            final(reader).position(),
            spec_read_solution_block(old(reader).bytes(), old(reader).position(), g as nat, d, nq as nat, byte_order),
        ),
{
    let ghost data = reader.bytes();
    let ghost p0 = reader.position();
    let msize = read_record_marker(reader, byte_order)?;
    if msize < 0 || (reader.remaining() as u128) < msize as u128 {
        return Err(Plot3DError::MetadataRecordTruncated);
    }
    let ghost p1 = reader.position();
    let metadata_bytes = reader.take_bytes(msize as usize);
    let metadata = parse_metadata(metadata_bytes, byte_order);
    skip_record_marker(reader)?;
    let qsize = read_record_marker(reader, byte_order)?;
    let points = d.point_count();
    let nqu = nq as u128;
    assert(nqu * points <= 100 * 0x1_0000_0000_0000_0000_0000_0000) by (nonlinear_arith)
        requires
            nqu <= 100,
            points < 0x1_0000_0000_0000_0000_0000_0000,
    ;
    let expected_f32 = nqu * points * 4;
    let expected_f64 = nqu * points * 8;
    let precision = if qsize >= 0 && qsize as u128 == expected_f32 {
        Precision::F32
    } else if qsize >= 0 && qsize as u128 == expected_f64 {
        Precision::F64
    } else {
        return Err(Plot3DError::InvalidQRecordSize { expected_f32, expected_f64, size: qsize });
    };
    let w: u128 = match precision {
        Precision::F32 => 4,
        _ => 8,
    };
    let pw = points * w;
    assert(nqu * pw <= 800 * 0x1_0000_0000_0000_0000_0000_0000) by (nonlinear_arith)
        requires
            nqu <= 100,
            w <= 8,
            pw == points * w,
            points < 0x1_0000_0000_0000_0000_0000_0000,
    ;
    if (reader.remaining() as u128) < nqu * pw + 4 {
        return Err(Plot3DError::UnexpectedEof);
    }
    let ghost p3 = reader.position();
    let mut rho: Vec<u64> = Vec::new();
    let mut rhou: Vec<u64> = Vec::new();
    let mut rhov: Vec<u64> = Vec::new();
    let mut rhow: Vec<u64> = Vec::new();
    let mut rhoe: Vec<u64> = Vec::new();
    let mut gamma: Option<Vec<u64>> = None;
    let mut n: i32 = 0;
    while n < nq
        invariant
            reader.bytes() == data,
            0 <= n <= nq,
            5 <= nq <= 100,
            precision != Precision::Mixed,
            w == value_width(precision),
            points == d.points(),
            points < 0x1_0000_0000_0000_0000_0000_0000,
            pw == points * w,
            has_bytes(data, p3, (nq * pw + 4) as int),
            reader.position() == p3 + n * pw,
            n > 0 ==> rho@ == q_array(data, p3, 0, d.points(), w as nat, byte_order),
            n > 1 ==> rhou@ == q_array(data, p3, 1, d.points(), w as nat, byte_order),
            n > 2 ==> rhov@ == q_array(data, p3, 2, d.points(), w as nat, byte_order),
            n > 3 ==> rhow@ == q_array(data, p3, 3, d.points(), w as nat, byte_order),
            n > 4 ==> rhoe@ == q_array(data, p3, 4, d.points(), w as nat, byte_order),
            n > 5 ==> (gamma matches Some(v) && v@ == q_array(data, p3, 5, d.points(), w as nat, byte_order)),
            n <= 5 ==> gamma is None,
        decreases nq - n,
    {
        proof {
            vstd::arithmetic::mul::lemma_mul_inequality(n + 1, nq as int, pw as int);
            vstd::arithmetic::mul::lemma_mul_is_distributive_add_other_way(pw as int, n as int, 1);
        }
        let v = match read_values_with_precision(reader, points, byte_order, precision) {
            Ok(v) => v,
            Err(e) => {
                assert(false);
                return Err(e);
            },
        };
        if n == 0 {
            rho = v;
        } else if n == 1 {
            rhou = v;
        } else if n == 2 {
            rhov = v;
        } else if n == 3 {
            rhow = v;
        } else if n == 4 {
            rhoe = v;
        } else if n == 5 {
            gamma = Some(v);
        }
        n = n + 1;
    }
    skip_record_marker(reader)?;
    Ok(Plot3DSolution {
        grid_index: g,
        dimensions: d,
        precision,
        rho,
        rhou,
        rhov,
        rhow,
        rhoe,
        gamma,
        metadata: Some(metadata),
    })
}

/// Reads the solution blocks of grids with the given dimensions.
fn read_solution_blocks(
    reader: &mut ByteReader,
    dims: &Vec<GridDimensions>,
    nq: i32,
    byte_order: ByteOrder,
) -> (r: Result<Vec<Plot3DSolution>, Plot3DError>)
    requires
        5 <= nq <= 100,
    ensures
        final(reader).bytes() == old(reader).bytes(),
        outcome(
            match r { Ok(v) => Ok::<Seq<SpecSolution>, Plot3DError>(solutions_view(v@)), Err(e) => Err(e) },
            final(reader).position(),
            spec_read_solutions(old(reader).bytes(), old(reader).position(), dims@, nq as nat, dims@.len(), byte_order),
        ),
{
    let ghost data = reader.bytes();
    let ghost p0 = reader.position();
    let mut sols: Vec<Plot3DSolution> = Vec::new();
    assert(solutions_view(sols@) =~= Seq::<SpecSolution>::empty());
    let mut g: usize = 0;
    while g < dims.len()
        invariant
            g <= dims@.len(),
            5 <= nq <= 100,
            reader.bytes() == data,
            data == old(reader).bytes(),
            p0 == old(reader).position(),
            spec_read_solutions(data, p0, dims@, nq as nat, g as nat, byte_order) == Ok::<(Seq<SpecSolution>, int), Plot3DError>((solutions_view(sols@), reader.position())),
        decreases dims@.len() - g,
    {
        let s = match read_solution_block(reader, g, dims[g], nq, byte_order) {
            Ok(s) => s,
            Err(e) => {
                proof {
                    lemma_read_solutions_error_sticks(data, p0, dims@, nq as nat, (g + 1) as nat, dims@.len(), byte_order);
                }
                return Err(e);
            },
        };
        let ghost old_view = solutions_view(sols@);
        sols.push(s);
        assert(solutions_view(sols@) =~= old_view.push(s@));
        g = g + 1;
    }
    Ok(sols)
}

/// Facts about the last solution file read.
#[derive(Clone, Debug)]
pub struct SolutionFileMetadata {
    /// "binary" or "ASCII".
    pub format: String,
    /// "f32" or "f64".
    pub precision: String,
    /// "Little-Endian", "Big-Endian", or "N/A" for ASCII files.
    pub byte_order: String,
}

impl View for SolutionFileMetadata {
    type V = (Seq<char>, Seq<char>, Seq<char>);

    open spec fn view(&self) -> (Seq<char>, Seq<char>, Seq<char>) {
        (self.format@, self.precision@, self.byte_order@)
    }
}

impl SolutionFileMetadata {
    /// A copy with the same contents.
    pub fn duplicate(&self) -> (r: Self)
        ensures
            r@ == self@,
    {
        SolutionFileMetadata {
            format: self.format.clone(),
            precision: self.precision.clone(),
            byte_order: self.byte_order.clone(),
        }
    }
}

/// Where the solution readers record the metadata of the last file they read.
pub struct LastSolutionMetadata {
    slot: Option<SolutionFileMetadata>,
}

impl View for LastSolutionMetadata {
    type V = Option<(Seq<char>, Seq<char>, Seq<char>)>;

    closed spec fn view(&self) -> Option<(Seq<char>, Seq<char>, Seq<char>)> {
        match self.slot {
            Some(m) => Some(m@),
            None => None,
        }
    }
}

impl LastSolutionMetadata {
    /// Nothing recorded yet.
    pub fn new() -> (r: Self)
        ensures
            r@ is None,
    {
        LastSolutionMetadata { slot: None }
    }
}

/// The metadata of the last solution file read, if any.
pub fn get_last_solution_metadata(store: &LastSolutionMetadata) -> (r: Option<SolutionFileMetadata>)
    ensures
        match r {
            Some(m) => store@ == Some(m@),
            None => store@ is None,
        },
{
    match &store.slot {
        Some(m) => Some(m.duplicate()),
        None => None,
    }
}

/// Records the metadata of the solution file just read.
pub fn set_last_solution_metadata(store: &mut LastSolutionMetadata, metadata: SolutionFileMetadata)
    ensures
        final(store)@ == Some(metadata@),
{
    store.slot = Some(metadata);
}


/// The metadata recorded after reading a binary solution file.
pub open spec fn binary_file_metadata(order: ByteOrder, sols: Seq<SpecSolution>) -> (Seq<char>, Seq<char>, Seq<char>) {
    ("binary"@, spec_precision_str(if sols.len() > 0 { sols[0].precision } else { Precision::F32 }), spec_byte_order_str(order))
}

/// Reads a binary PLOT3D solution (Q) file: the grid count, one record with
/// the dimensions of all grids followed by NQ and NQC, then per grid a
/// metadata record and one record holding the NQ variable arrays. The byte
/// order is detected from the grid count; the precision of each grid from
/// the length of its Q record. On success the file's format, precision (that
/// of the first grid) and byte order are recorded in `last`.
pub fn read_plot3d_solution(data: &[u8], last: &mut LastSolutionMetadata) -> (r: Result<Vec<Plot3DSolution>, Plot3DError>)
    ensures
        match r {
            Ok(v) => spec_solution_file(data@) matches Ok((order, sols)) && {
                &&& sols == solutions_view(v@)
                &&& final(last)@ == Some(binary_file_metadata(order, sols))
            },
            Err(e) => spec_solution_file(data@) == Err::<(ByteOrder, Seq<SpecSolution>), Plot3DError>(e)
                && final(last)@ == old(last)@,
        },
{
    let byte_order = probe_byte_order(data, true)?;
    let mut reader = ByteReader::new(data);
    skip_record_marker(&mut reader)?;
    let num_grids = read_i32(&mut reader, byte_order)?;
    skip_record_marker(&mut reader)?;
    skip_record_marker(&mut reader)?;
    let dims = read_dimension_list(&mut reader, num_grids, byte_order)?;
    let nq = read_i32(&mut reader, byte_order)?;
    let _nqc = read_i32(&mut reader, byte_order)?;
    skip_record_marker(&mut reader)?;
    if nq < 5 || nq > 100 {
        return Err(Plot3DError::InvalidNq(nq));
    }
    let sols = read_solution_blocks(&mut reader, &dims, nq, byte_order)?;
    let precision = if sols.len() > 0 {
        sols[0].precision
    } else {
        Precision::F32
    };
    set_last_solution_metadata(
        last,
        SolutionFileMetadata {
            format: "binary".to_string(),
            precision: precision.as_str().to_string(),
            byte_order: byte_order_string(byte_order),
        },
    );
    Ok(sols)
}

} // verus!

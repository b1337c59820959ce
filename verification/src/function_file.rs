//! PLOT3D function (F) files.
use vstd::prelude::*;
use crate::types::{ByteOrder, GridDimensions, Plot3DError};
use crate::binary::{
    ByteReader, has_bytes, i32_at, words32_at, spec_skip_marker, outcome, read_i32, read_f32_array,
    skip_record_marker,
};
use crate::grid::{spec_probe_order, spec_read_dims, probe_byte_order, read_dimension_list, single_record, lemma_single_record_at};
use crate::binary::{values_at, word32_at};
use crate::ascii::widen;

verus! {

/// Function data of one grid: several arrays of single-precision values
/// (their bit patterns), one value per point.
pub struct Plot3DFunction {
    pub grid_index: usize,
    pub dimensions: GridDimensions,
    pub function_data: Vec<Vec<u32>>,
}

/// Mathematical model of the function data of one grid.
pub struct SpecFunction {
    pub grid_index: int,
    pub dimensions: GridDimensions,
    pub function_data: Seq<Seq<u32>>,
}

impl View for Plot3DFunction {
    type V = SpecFunction;

    open spec fn view(&self) -> SpecFunction {
        SpecFunction {
            grid_index: self.grid_index as int,
            dimensions: self.dimensions,
            function_data: Seq::new(self.function_data@.len(), |f: int| self.function_data@[f]@),
        }
    }
}

impl Plot3DFunction {
    /// Number of points of the grid the functions belong to.
    pub fn total_points(&self) -> (n: usize)
        requires
            self.dimensions.points() <= usize::MAX,
        ensures
            n as nat == self.dimensions.points(),
    {
        self.dimensions.total_points()
    }
}

/// Models of a sequence of function blocks.
pub open spec fn functions_view(v: Seq<Plot3DFunction>) -> Seq<SpecFunction> {
    Seq::new(v.len(), |n: int| v[n]@)
}

/// Length in bytes of one record of a function array of `points` values.
pub open spec fn function_record_len(points: nat) -> nat {
    points * 4 + 8
}

/// Reading the function block of grid `g` (dimensions `d`): a record with the
/// number of functions, then one record per function array.
pub open spec fn spec_read_function_block(
    data: Seq<u8>,
    p: int,
    g: nat,
    d: GridDimensions,
    order: ByteOrder,
) -> Result<(SpecFunction, int), Plot3DError> {
    if !has_bytes(data, p, 12) {
        Err(Plot3DError::UnexpectedEof)
    } else {
        let nf = i32_at(data, p + 4, order);
        let rec = function_record_len(d.points());
        if nf < 0 {
            Err(Plot3DError::InvalidFunctionCount(nf))
        } else if !has_bytes(data, p + 12, nf * rec) {
            Err(Plot3DError::UnexpectedEof)
        } else {
            Ok((
                SpecFunction {
                    grid_index: g as int,
                    dimensions: d,
                    function_data: Seq::new(nf as nat, |f: int| words32_at(data, p + 12 + f * rec + 4, d.points(), order)),
                },
                p + 12 + nf * rec,
            ))
        }
    }
}

/// The function arrays of a grid are read in file order: when the block of a
/// grid of t points is the record holding the function count nf followed by
/// nf single-precision records, record f holding the t words `arrays[f]`,
/// the function data read is `arrays`, and reading ends after the last
/// record.
#[verifier::spinoff_prover]
pub proof fn law_functions_in_order(
    data: Seq<u8>,
    p: int,
    g: nat,
    d: GridDimensions,
    arrays: Seq<Seq<u32>>,
    order: ByteOrder,
)
    requires
        arrays.len() <= 0x7fff_ffff,
        4 * d.points() <= 0x7fff_ffff,
        forall|f: int| 0 <= f < arrays.len() ==> (#[trigger] arrays[f]).len() == d.points(),
        0 <= p,
        p + 12 + arrays.len() * function_record_len(d.points()) <= data.len(),
        data.subrange(p, p + 12) == single_record(seq![arrays.len() as u32], order),
        forall|f: int| 0 <= f < arrays.len() ==> #[trigger] data.subrange(
            p + 12 + f * function_record_len(d.points()),
            p + 12 + f * function_record_len(d.points()) + function_record_len(d.points()),
        ) == single_record(arrays[f], order),
    ensures
        spec_read_function_block(data, p, g, d, order) == Ok::<(SpecFunction, int), Plot3DError>((
            SpecFunction { grid_index: g as int, dimensions: d, function_data: arrays },
            p + 12 + arrays.len() * function_record_len(d.points()),
        )),
{
    let t = d.points();
    let rec = function_record_len(t);
    let nf = arrays.len();
    lemma_single_record_at(data, p, seq![nf as u32], order);
    assert(values_at(data, p + 4, 1, 4, order)[0] == widen(seq![nf as u32])[0]);
    let w = nf as u32;
    assert(word32_at(data, p + 4, order) == w);
    assert((w as i32) as int == w as int) by (bit_vector)
        requires w <= 0x7fff_ffffu32;
    assert(i32_at(data, p + 4, order) as int == nf);
    let fd = Seq::new(nf, |f: int| words32_at(data, p + 12 + f * rec + 4, t, order));
    assert forall|f: int| 0 <= f < nf implies #[trigger] fd[f] == arrays[f] by {
        assert(f * rec + rec <= nf * rec) by (nonlinear_arith)
            requires 0 <= f < nf, rec >= 0;
        assert(0 <= f * rec) by (nonlinear_arith)
            requires 0 <= f, rec >= 0;
        let q = p + 12 + f * rec;
        assert(arrays[f].len() == t);
        assert(data.subrange(q, q + rec) == single_record(arrays[f], order));
        assert(rec == 4 * arrays[f].len() + 8);
        lemma_single_record_at(data, q, arrays[f], order);
        assert forall|n: int| 0 <= n < t implies #[trigger] words32_at(data, q + 4, t, order)[n] == arrays[f][n] by {
            assert(values_at(data, q + 4, t, 4, order)[n] == widen(arrays[f])[n]);
        }
        assert(words32_at(data, q + 4, t, order) =~= arrays[f]);
    }
    assert(fd =~= arrays);
}

/// Reading the function blocks of the first `n` grids.
pub open spec fn spec_read_functions(
    data: Seq<u8>,
    p: int,
    dims: Seq<GridDimensions>,
    n: nat,
    order: ByteOrder,
) -> Result<(Seq<SpecFunction>, int), Plot3DError>
    decreases n,
{
    if n == 0 {
        Ok((Seq::empty(), p))
    } else {
        match spec_read_functions(data, p, dims, (n - 1) as nat, order) {
            Err(e) => Err(e),
            Ok((fs, q)) => match spec_read_function_block(data, q, (n - 1) as nat, dims[n - 1], order) {
                Err(e) => Err(e),
                Ok((f, q1)) => Ok((fs.push(f), q1)),
            },
        }
    }
}

proof fn lemma_read_functions_error_sticks(
    data: Seq<u8>,
    p: int,
    dims: Seq<GridDimensions>,
    m: nat,
    n: nat,
    order: ByteOrder,
)
    requires
        m <= n,
        spec_read_functions(data, p, dims, m, order) is Err,
    ensures
        spec_read_functions(data, p, dims, n, order) == spec_read_functions(data, p, dims, m, order),
    decreases n - m,
{
    if m < n {
        lemma_read_functions_error_sticks(data, p, dims, m, (n - 1) as nat, order);
    }
}

/// Reading a whole binary function file.
pub open spec fn spec_function_file(data: Seq<u8>) -> Result<Seq<SpecFunction>, Plot3DError> {
    match spec_probe_order(data, true) {
        Err(e) => Err(e),
        Ok(order) => match spec_skip_marker(data, 12) {
            Err(e) => Err(e),
            Ok(p1) => match spec_read_dims(data, p1, i32_at(data, 4, order) as nat, order) {
                Err(e) => Err(e),
                Ok((dims, p2)) => match spec_skip_marker(data, p2) {
                    Err(e) => Err(e),
                    Ok(p3) => match spec_read_functions(data, p3, dims, dims.len(), order) {
                        Err(e) => Err(e),
                        Ok((fs, _)) => Ok(fs),
                    },
                },
            },
        },
    }
}

fn read_function_block(
    reader: &mut ByteReader,
    g: usize,
    d: GridDimensions,
    byte_order: ByteOrder,
) -> (r: Result<Plot3DFunction, Plot3DError>)
    ensures
        final(reader).bytes() == old(reader).bytes(),
        outcome(
            match r { Ok(f) => Ok::<SpecFunction, Plot3DError>(f@), Err(e) => Err(e) },
            final(reader).position(),
            spec_read_function_block(old(reader).bytes(), old(reader).position(), g as nat, d, byte_order),
        ),
{
    let ghost data = reader.bytes();
    let ghost p0 = reader.position();
    skip_record_marker(reader)?;
    let nf = read_i32(reader, byte_order)?;
    skip_record_marker(reader)?;
    if nf < 0 {
        return Err(Plot3DError::InvalidFunctionCount(nf));
    }
    let points = d.point_count();
    let rec = points * 4 + 8;
    let remaining = reader.remaining() as u128;
    if nf > 0 {
        if rec > remaining {
            proof {
                vstd::arithmetic::mul::lemma_mul_inequality(1, nf as int, rec as int);
            }
            return Err(Plot3DError::UnexpectedEof);
        }
        assert((nf as u128) * rec <= 0x8000_0000 * 0x1_0000_0000_0000_0000) by (nonlinear_arith)
            requires
                0 < nf <= 0x7fff_ffff,
                rec <= remaining,
                remaining < 0x1_0000_0000_0000_0000,
        ;
        if (nf as u128) * rec > remaining {
            return Err(Plot3DError::UnexpectedEof);
        }
    }
    let ghost p1 = reader.position();
    let mut function_data: Vec<Vec<u32>> = Vec::new();
    let mut f: i32 = 0;
    while f < nf
        invariant
            reader.bytes() == data,
            0 <= f <= nf,
            points == d.points(),
            points < 0x1_0000_0000_0000_0000_0000_0000,
            rec == function_record_len(points as nat),
            has_bytes(data, p1, nf * rec),
            reader.position() == p1 + f * rec,
            function_data@.len() == f,
            forall|t: int| 0 <= t < f ==> (#[trigger] function_data@[t])@ == words32_at(data, p1 + t * rec + 4, d.points(), byte_order),
        decreases nf - f,
    {
        proof {
            vstd::arithmetic::mul::lemma_mul_inequality(f + 1, nf as int, rec as int);
            vstd::arithmetic::mul::lemma_mul_is_distributive_add_other_way(rec as int, f as int, 1);
        }
        let ghost q = reader.position();
        let r1 = skip_record_marker(reader);
        let arr = match r1 {
            Ok(()) => read_f32_array(reader, points, byte_order),
            Err(e) => Err(e),
        };
        let arr = match arr {
            Ok(a) => a,
            Err(e) => {
                assert(false);
                return Err(e);
            },
        };
        match skip_record_marker(reader) {
            Ok(()) => {},
            Err(e) => {
                assert(false);
                return Err(e);
            },
        }
        function_data.push(arr);
        f = f + 1;
    }
    let result = Plot3DFunction { grid_index: g, dimensions: d, function_data };
    assert(result@.function_data =~= Seq::new(nf as nat, |t: int| words32_at(data, p1 + t * rec + 4, d.points(), byte_order)));
    Ok(result)
}

/// Reads a binary PLOT3D function (F) file: the grid count and dimensions as
/// in a grid file, then per grid a record with the number of functions and
/// one record per function array of single-precision values.
pub fn read_plot3d_function(data: &[u8]) -> (r: Result<Vec<Plot3DFunction>, Plot3DError>)
    ensures
        match r {
            Ok(v) => spec_function_file(data@) == Ok::<Seq<SpecFunction>, Plot3DError>(functions_view(v@)),
            Err(e) => spec_function_file(data@) == Err::<Seq<SpecFunction>, Plot3DError>(e),
        },
{
    let byte_order = probe_byte_order(data, true)?;
    let mut reader = ByteReader::new(data);
    skip_record_marker(&mut reader)?;
    let num_grids = read_i32(&mut reader, byte_order)?;
    skip_record_marker(&mut reader)?;
    skip_record_marker(&mut reader)?;
    let dims = read_dimension_list(&mut reader, num_grids, byte_order)?;
    skip_record_marker(&mut reader)?;
    let ghost data_s = reader.bytes();
    let ghost p0 = reader.position();
    let ghost whole = match spec_read_functions(data_s, p0, dims@, dims@.len(), byte_order) {
        Err(e) => Err(e),
        Ok((fs, _)) => Ok(fs),
    };
    assert(spec_function_file(data@) == whole);
    let mut functions: Vec<Plot3DFunction> = Vec::new();
    assert(functions_view(functions@) =~= Seq::<SpecFunction>::empty());
    let mut g: usize = 0;
    while g < dims.len()
        invariant
            g <= dims@.len(),
            reader.bytes() == data_s,
            data_s == data@,
            spec_function_file(data@) == whole,
            whole == match spec_read_functions(data_s, p0, dims@, dims@.len(), byte_order) {
                Err(e) => Err(e),
                Ok((fs, _)) => Ok::<Seq<SpecFunction>, Plot3DError>(fs),
            },
            spec_read_functions(data_s, p0, dims@, g as nat, byte_order) == Ok::<(Seq<SpecFunction>, int), Plot3DError>((functions_view(functions@), reader.position())),
        decreases dims@.len() - g,
    {
        let f = match read_function_block(&mut reader, g, dims[g], byte_order) {
            Ok(f) => f,
            Err(e) => {
                proof {
                    lemma_read_functions_error_sticks(data_s, p0, dims@, (g + 1) as nat, dims@.len(), byte_order);
                }
                return Err(e);
            },
        };
        let ghost old_view = functions_view(functions@);
        functions.push(f);
        assert(functions_view(functions@) =~= old_view.push(f@));
        g = g + 1;
    }
    Ok(functions)
}

} // verus!

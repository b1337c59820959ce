//! Names of scalar fields and color schemes, and the sampling of the K = 1
//! surface used when coloring a solution.
use vstd::prelude::*;
use crate::types::GridDimensions;
use crate::solution_file::{Plot3DSolution, SpecSolution, solution_well_sized};

verus! {

broadcast use {vstd::utf8::encode_utf8_decode_utf8, vstd::utf8::encode_utf8_valid_utf8};

/// Whether two strings have the same characters.
pub fn str_equals(s: &str, t: &str) -> (b: bool)
    ensures
        b == (s@ == t@),
{
    let a = s.as_bytes();
    let c = t.as_bytes();
    if a.len() != c.len() {
        proof {
            if s@ == t@ {
                assert(a@ == c@);
            }
        }
        return false;
    }
    let mut k: usize = 0;
    while k < a.len()
        invariant
            k <= a@.len(),
            a@ == vstd::utf8::encode_utf8(s@),
            c@ == vstd::utf8::encode_utf8(t@),
            a@.len() == c@.len(),
            forall|u: int| 0 <= u < k ==> a@[u] == c@[u],
        decreases a@.len() - k,
    {
        if a[k] != c[k] {
            proof {
                if s@ == t@ {
                    assert(a@ == c@);
                }
            }
            return false;
        }
        k = k + 1;
    }
    assert(a@ =~= c@);
    assert(vstd::utf8::decode_utf8(vstd::utf8::encode_utf8(s@)) == s@);
    assert(vstd::utf8::decode_utf8(vstd::utf8::encode_utf8(t@)) == t@);
    true
}

/// Color schemes for coloring a scalar field.
#[derive(Debug, Clone, Copy, PartialEq, Eq, Structural)]
pub enum ColorScheme {
    Viridis,
    Turbo,
    Rainbow,
    Hot,
    Grayscale,
}

/// The color scheme a name selects.
pub open spec fn spec_color_scheme(s: Seq<char>) -> Option<ColorScheme> {
    if s == "viridis"@ {
        Some(ColorScheme::Viridis)
    } else if s == "turbo"@ {
        Some(ColorScheme::Turbo)
    } else if s == "rainbow"@ {
        Some(ColorScheme::Rainbow)
    } else if s == "hot"@ {
        Some(ColorScheme::Hot)
    } else if s == "grayscale"@ {
        Some(ColorScheme::Grayscale)
    } else {
        None
    }
}

impl ColorScheme {
    /// The color scheme with the given name ("viridis", "turbo", "rainbow",
    /// "hot" or "grayscale").
    pub fn from_str(s: &str) -> (r: Option<Self>)
        ensures
            r == spec_color_scheme(s@),
    {
        if str_equals(s, "viridis") {
            Some(ColorScheme::Viridis)
        } else if str_equals(s, "turbo") {
            Some(ColorScheme::Turbo)
        } else if str_equals(s, "rainbow") {
            Some(ColorScheme::Rainbow)
        } else if str_equals(s, "hot") {
            Some(ColorScheme::Hot)
        } else if str_equals(s, "grayscale") {
            Some(ColorScheme::Grayscale)
        } else {
            None
        }
    }
}

/// Scalar fields that can be derived from a solution.
#[derive(Debug, Clone, Copy, PartialEq, Eq, Structural)]
pub enum ScalarField {
    Density,
    VelocityMagnitude,
    MomentumX,
    MomentumY,
    MomentumZ,
    Pressure,
    Energy,
}

/// The scalar field a name selects.
pub open spec fn spec_scalar_field(s: Seq<char>) -> Option<ScalarField> {
    if s == "density"@ {
        Some(ScalarField::Density)
    } else if s == "velocity_magnitude"@ {
        Some(ScalarField::VelocityMagnitude)
    } else if s == "momentum_x"@ {
        Some(ScalarField::MomentumX)
    } else if s == "momentum_y"@ {
        Some(ScalarField::MomentumY)
    } else if s == "momentum_z"@ {
        Some(ScalarField::MomentumZ)
    } else if s == "pressure"@ {
        Some(ScalarField::Pressure)
    } else if s == "energy"@ {
        Some(ScalarField::Energy)
    } else {
        None
    }
}

impl ScalarField {
    /// The scalar field with the given name ("density", "velocity_magnitude",
    /// "momentum_x", "momentum_y", "momentum_z", "pressure" or "energy").
    pub fn from_str(s: &str) -> (r: Option<Self>)
        ensures
            r == spec_scalar_field(s@),
    {
        if str_equals(s, "density") {
            Some(ScalarField::Density)
        } else if str_equals(s, "velocity_magnitude") {
            Some(ScalarField::VelocityMagnitude)
        } else if str_equals(s, "momentum_x") {
            Some(ScalarField::MomentumX)
        } else if str_equals(s, "momentum_y") {
            Some(ScalarField::MomentumY)
        } else if str_equals(s, "momentum_z") {
            Some(ScalarField::MomentumZ)
        } else if str_equals(s, "pressure") {
            Some(ScalarField::Pressure)
        } else if str_equals(s, "energy") {
            Some(ScalarField::Energy)
        } else {
            None
        }
    }
}


/// The decimation applied to a surface of I x J points for display: 4 when
/// the larger of I and J exceeds 1000, 3 above 500, 2 above 250, else 1.
pub open spec fn spec_decimation_factor(i: u32, j: u32) -> usize {
    let m = if i >= j { i } else { j };
    if m > 1000 {
        4
    } else if m > 500 {
        3
    } else if m > 250 {
        2
    } else {
        1
    }
}

/// Decimation factor for a surface of I x J points.
pub fn decimation_factor(i: u32, j: u32) -> (d: usize)
    ensures
        d == spec_decimation_factor(i, j),
{
    let m = if i >= j { i } else { j };
    if m > 1000 {
        4
    } else if m > 500 {
        3
    } else if m > 250 {
        2
    } else {
        1
    }
}

/// Number of samples kept along a line of `n` points with decimation `dec`:
/// every `dec`-th point from the first.
pub open spec fn decimated_count(n: int, dec: int) -> int {
    (n - 1) / dec + 1
}

/// Samples of the first `n` points of sample row `js` (linear indices of the
/// K = 1 surface of an I-wide grid).
pub open spec fn sample_row(di: int, dec: int, js: int, n: nat) -> Seq<usize>
    decreases n,
{
    if n == 0 {
        Seq::empty()
    } else {
        sample_row(di, dec, js, (n - 1) as nat).push(((js * dec) * di + (n - 1) * dec) as usize)
    }
}

/// Samples of the first `m` sample rows.
pub open spec fn sample_rows(di: int, dj: int, dec: int, m: nat) -> Seq<usize>
    decreases m,
{
    if m == 0 {
        Seq::empty()
    } else {
        sample_rows(di, dj, dec, (m - 1) as nat) + sample_row(di, dec, m - 1, decimated_count(di, dec) as nat)
    }
}

/// The surface points kept when a grid's K = 1 surface is decimated by `dec`
/// (at least 1): rows J = 0, dec, 2 dec, ... and, in each, columns
/// I = 0, dec, 2 dec, ..., as linear indices, row by row.
pub open spec fn surface_samples(d: GridDimensions, dec: int) -> Seq<usize> {
    sample_rows(d.i as int, d.j as int, dec, decimated_count(d.j as int, dec) as nat)
}

/// The effective decimation: the requested factor, but at least 1.
pub open spec fn effective_decimation(factor: usize) -> int {
    if factor == 0 { 1 } else { factor as int }
}

proof fn lemma_sample_bounds(di: int, dj: int, dec: int, js: int, is: int)
    requires
        di >= 1,
        dj >= 1,
        dec >= 1,
        0 <= js < decimated_count(dj, dec),
        0 <= is < decimated_count(di, dec),
    ensures
        0 <= js * dec <= dj - 1,
        0 <= is * dec <= di - 1,
        0 <= (js * dec) * di + is * dec < di * dj,
{
    assert(js * dec <= dj - 1) by (nonlinear_arith)
        requires
            0 <= js <= (dj - 1) / dec,
            dec >= 1,
            dj >= 1,
    {
        assert(js * dec <= ((dj - 1) / dec) * dec) by (nonlinear_arith)
            requires 0 <= js <= (dj - 1) / dec, dec >= 1;
        assert(((dj - 1) / dec) * dec <= dj - 1) by (nonlinear_arith)
            requires dec >= 1, dj >= 1;
    }
    assert(is * dec <= di - 1) by (nonlinear_arith)
        requires
            0 <= is <= (di - 1) / dec,
            dec >= 1,
            di >= 1,
    {
        assert(is * dec <= ((di - 1) / dec) * dec) by (nonlinear_arith)
            requires 0 <= is <= (di - 1) / dec, dec >= 1;
        assert(((di - 1) / dec) * dec <= di - 1) by (nonlinear_arith)
            requires dec >= 1, di >= 1;
    }
    assert(0 <= js * dec) by (nonlinear_arith)
        requires 0 <= js, dec >= 1;
    assert(0 <= is * dec) by (nonlinear_arith)
        requires 0 <= is, dec >= 1;
    let a = js * dec;
    let b = is * dec;
    assert(0 <= a * di + b < di * dj) by (nonlinear_arith)
        requires
            0 <= a <= dj - 1,
            0 <= b <= di - 1,
            di >= 1,
    {
        assert(a * di <= (dj - 1) * di) by (nonlinear_arith)
            requires 0 <= a <= dj - 1, di >= 1;
        assert((dj - 1) * di == dj * di - di) by (nonlinear_arith);
        assert(dj * di == di * dj) by (nonlinear_arith);
        assert(0 <= a * di) by (nonlinear_arith)
            requires 0 <= a, di >= 1;
    }
}

proof fn lemma_row_below(di: int, dj: int, dec: int, js: int, n: nat)
    requires
        di >= 1,
        dj >= 1,
        dec >= 1,
        di * dj <= usize::MAX,
        0 <= js < decimated_count(dj, dec),
        n <= decimated_count(di, dec),
    ensures
        sample_row(di, dec, js, n).len() == n,
        forall|u: int| 0 <= u < n ==> (#[trigger] sample_row(di, dec, js, n)[u]) < di * dj,
    decreases n,
{
    if n > 0 {
        lemma_row_below(di, dj, dec, js, (n - 1) as nat);
        lemma_sample_bounds(di, dj, dec, js, n - 1);
    }
}

proof fn lemma_rows_below(di: int, dj: int, dec: int, m: nat)
    requires
        di >= 1,
        dj >= 1,
        dec >= 1,
        di * dj <= usize::MAX,
        m <= decimated_count(dj, dec),
    ensures
        forall|u: int| 0 <= u < sample_rows(di, dj, dec, m).len() ==> (#[trigger] sample_rows(di, dj, dec, m)[u]) < di * dj,
    decreases m,
{
    if m > 0 {
        lemma_rows_below(di, dj, dec, (m - 1) as nat);
        lemma_row_below(di, dj, dec, m - 1, decimated_count(di, dec) as nat);
        let a = sample_rows(di, dj, dec, (m - 1) as nat);
        let b = sample_row(di, dec, m - 1, decimated_count(di, dec) as nat);
        assert forall|u: int| 0 <= u < (a + b).len() implies #[trigger] (a + b)[u] < di * dj by {
            if u >= a.len() {
                assert((a + b)[u] == b[u - a.len()]);
            }
        }
    }
}

/// Every sample of the decimated K = 1 surface is a point of the grid: its
/// linear index is below I * J.
pub proof fn law_surface_samples_in_grid(d: GridDimensions, dec: int)
    requires
        d.i >= 1,
        d.j >= 1,
        dec >= 1,
        d.i as int * d.j as int <= usize::MAX,
    ensures
        forall|u: int| 0 <= u < surface_samples(d, dec).len() ==> (#[trigger] surface_samples(d, dec)[u]) < d.i as int * d.j as int,
{
    lemma_rows_below(d.i as int, d.j as int, dec, decimated_count(d.j as int, dec) as nat);
}

proof fn lemma_row_values(di: int, dj: int, dec: int, js: int, n: nat)
    requires
        di >= 1,
        dj >= 1,
        dec >= 1,
        di * dj <= usize::MAX,
        0 <= js < decimated_count(dj, dec),
        n <= decimated_count(di, dec),
    ensures
        sample_row(di, dec, js, n).len() == n,
        forall|is: int| 0 <= is < n ==> (#[trigger] sample_row(di, dec, js, n)[is]) == (js * dec) * di + is * dec,
    decreases n,
{
    if n > 0 {
        lemma_row_values(di, dj, dec, js, (n - 1) as nat);
        lemma_sample_bounds(di, dj, dec, js, n - 1);
    }
}

proof fn lemma_rows_values(di: int, dj: int, dec: int, m: nat)
    requires
        di >= 1,
        dj >= 1,
        dec >= 1,
        di * dj <= usize::MAX,
        m <= decimated_count(dj, dec),
    ensures
        sample_rows(di, dj, dec, m).len() == m * decimated_count(di, dec),
        forall|js: int, is: int| 0 <= js < m && 0 <= is < decimated_count(di, dec) ==>
            (#[trigger] sample_rows(di, dj, dec, m)[js * decimated_count(di, dec) + is]) == (js * dec) * di + is * dec,
    decreases m,
{
    let w = decimated_count(di, dec);
    assert(w >= 1) by (nonlinear_arith)
        requires w == (di - 1) / dec + 1, di >= 1, dec >= 1;
    if m > 0 {
        lemma_rows_values(di, dj, dec, (m - 1) as nat);
        lemma_row_values(di, dj, dec, m - 1, w as nat);
        let a = sample_rows(di, dj, dec, (m - 1) as nat);
        let b = sample_row(di, dec, m - 1, w as nat);
        assert((m - 1) * w + w == m * w) by (nonlinear_arith);
        assert forall|js: int, is: int| 0 <= js < m && 0 <= is < w implies
            #[trigger] (a + b)[js * w + is] == (js * dec) * di + is * dec by {
            if js < m - 1 {
                assert(js * w + is < (m - 1) * w) by (nonlinear_arith)
                    requires 0 <= js < m - 1, 0 <= is < w;
                assert(0 <= js * w) by (nonlinear_arith)
                    requires 0 <= js, w >= 1;
            } else {
                assert(js * w == (m - 1) * w);
                assert((a + b)[js * w + is] == b[is]);
            }
        }
    } else {
        assert(m * w == 0) by (nonlinear_arith)
            requires m == 0;
    }
}

/// The samples of the decimated K = 1 surface, row by row: there are
/// ID * JD of them (ID = (I - 1) / d + 1 columns, JD = (J - 1) / d + 1 rows),
/// and sample js * ID + is is grid point (js * d) * I + is * d.
pub proof fn law_surface_sample_positions(d: GridDimensions, dec: int)
    requires
        d.i >= 1,
        d.j >= 1,
        dec >= 1,
        d.i as int * d.j as int <= usize::MAX,
    ensures
        surface_samples(d, dec).len() == decimated_count(d.j as int, dec) * decimated_count(d.i as int, dec),
        forall|js: int, is: int|
            0 <= js < decimated_count(d.j as int, dec) && 0 <= is < decimated_count(d.i as int, dec) ==>
                (#[trigger] surface_samples(d, dec)[js * decimated_count(d.i as int, dec) + is]) == (js * dec) * d.i + is * dec,
{
    lemma_rows_values(d.i as int, d.j as int, dec, decimated_count(d.j as int, dec) as nat);
}

/// Linear indices of the points of the K = 1 surface kept at the given
/// decimation factor (0 counts as 1), row by row.
pub fn surface_sample_indices(dimensions: GridDimensions, decimation_factor: usize) -> (r: Vec<usize>)
    requires
        dimensions.i >= 1,
        dimensions.j >= 1,
        dimensions.i as int * dimensions.j as int <= usize::MAX,
    ensures
        r@ == surface_samples(dimensions, effective_decimation(decimation_factor)),
{
    let dec: usize = if decimation_factor == 0 { 1 } else { decimation_factor };
    let di = dimensions.i as usize;
    let dj = dimensions.j as usize;
    let i_dec = (di - 1) / dec + 1;
    let j_dec = (dj - 1) / dec + 1;
    let ghost gdi = di as int;
    let ghost gdj = dj as int;
    let mut out: Vec<usize> = Vec::new();
    let mut js: usize = 0;
    while js < j_dec
        invariant
            dec >= 1,
            dec == effective_decimation(decimation_factor),
            di == dimensions.i,
            dj == dimensions.j,
            di >= 1,
            dj >= 1,
            di * dj <= usize::MAX,
            i_dec == decimated_count(di as int, dec as int),
            j_dec == decimated_count(dj as int, dec as int),
            js <= j_dec,
            out@ == sample_rows(di as int, dj as int, dec as int, js as nat),
        decreases j_dec - js,
    {
        let mut is: usize = 0;
        while is < i_dec
            invariant
                dec >= 1,
                di == dimensions.i,
                dj == dimensions.j,
                di >= 1,
                dj >= 1,
                di * dj <= usize::MAX,
                i_dec == decimated_count(di as int, dec as int),
                j_dec == decimated_count(dj as int, dec as int),
                js < j_dec,
                is <= i_dec,
                out@ == sample_rows(di as int, dj as int, dec as int, js as nat) + sample_row(di as int, dec as int, js as int, is as nat),
            decreases i_dec - is,
        {
            proof {
                lemma_sample_bounds(di as int, dj as int, dec as int, js as int, is as int);
            }
            let row = js * dec;
            let col = is * dec;
            let idx = row * di + col;
            let ghost before = out@;
            out.push(idx);
            assert(out@ =~= sample_rows(di as int, dj as int, dec as int, js as nat) + sample_row(di as int, dec as int, js as int, (is + 1) as nat));
            is = is + 1;
        }
        assert(out@ =~= sample_rows(di as int, dj as int, dec as int, (js + 1) as nat));
        js = js + 1;
    }
    out
}

/// Why a grid and a solution cannot be colored together, or why a coloring
/// request is refused.
#[derive(Debug, Clone, Copy, PartialEq, Eq, Structural)]
pub enum ColoringError {
    /// The grid and the solution belong to different grid indices.
    IndexMismatch { grid_index: usize, solution_index: usize },
    /// The grid and the solution have different dimensions.
    DimensionMismatch { grid: GridDimensions, solution: GridDimensions },
    /// The field name is not one of the known scalar fields.
    UnknownField,
    /// The scheme name is not one of the known color schemes.
    UnknownScheme,
    /// The solution holds a number of points other than the grid's.
    PointCountMismatch { solution_points: usize, grid_points: u128 },
}

/// What a coloring request resolves to.
#[derive(Debug, Clone, Copy, PartialEq, Eq, Structural)]
pub struct ColoringPlan {
    pub field: ScalarField,
    pub scheme: ColorScheme,
    pub decimation: usize,
}

/// The outcome of a coloring request, checked in this order: the grid
/// indices, the dimensions, the field name, the scheme name, and the number
/// of solution points; the decimation follows from the grid's I and J.
pub open spec fn spec_plan_coloring(
    grid_index: usize,
    grid_dims: GridDimensions,
    solution_index: usize,
    solution_dims: GridDimensions,
    field: Seq<char>,
    scheme: Seq<char>,
    solution_points: usize,
) -> Result<ColoringPlan, ColoringError> {
    if grid_index != solution_index {
        Err(ColoringError::IndexMismatch { grid_index, solution_index })
    } else if grid_dims != solution_dims {
        Err(ColoringError::DimensionMismatch { grid: grid_dims, solution: solution_dims })
    } else if spec_scalar_field(field) is None {
        Err(ColoringError::UnknownField)
    } else if spec_color_scheme(scheme) is None {
        Err(ColoringError::UnknownScheme)
    } else if solution_points as nat != grid_dims.points() {
        Err(ColoringError::PointCountMismatch {
            solution_points,
            grid_points: grid_dims.points() as u128,
        })
    } else {
        Ok(ColoringPlan {
            field: spec_scalar_field(field)->0,
            scheme: spec_color_scheme(scheme)->0,
            decimation: spec_decimation_factor(grid_dims.i, grid_dims.j),
        })
    }
}

/// A solution that fits its grid (as every solution read from a file does) is
/// accepted for coloring with any known field and scheme, paired with a grid
/// of the same index and dimensions; the decimation then follows the grid's
/// I and J.
pub proof fn law_matching_pair_accepted(grid_index: usize, dims: GridDimensions, sol: SpecSolution, field: Seq<char>, scheme: Seq<char>)
    requires
        solution_well_sized(sol),
        sol.dimensions == dims,
        sol.grid_index == grid_index,
        sol.rho.len() <= usize::MAX,
        spec_scalar_field(field) is Some,
        spec_color_scheme(scheme) is Some,
    ensures
        spec_plan_coloring(grid_index, dims, grid_index, dims, field, scheme, sol.rho.len() as usize)
            == Ok::<ColoringPlan, ColoringError>(ColoringPlan {
                field: spec_scalar_field(field)->0,
                scheme: spec_color_scheme(scheme)->0,
                decimation: spec_decimation_factor(dims.i, dims.j),
            }),
{
}

/// Checks that a cached grid and solution can be colored together with the
/// named field and scheme, and picks the decimation.
pub fn plan_coloring(
    grid_index: usize,
    grid_dims: GridDimensions,
    solution_index: usize,
    solution_dims: GridDimensions,
    field: &str,
    scheme: &str,
    solution_points: usize,
) -> (r: Result<ColoringPlan, ColoringError>)
    ensures
        r == spec_plan_coloring(grid_index, grid_dims, solution_index, solution_dims, field@, scheme@, solution_points),
{
    if grid_index != solution_index {
        return Err(ColoringError::IndexMismatch { grid_index, solution_index });
    }
    if grid_dims.i != solution_dims.i || grid_dims.j != solution_dims.j || grid_dims.k != solution_dims.k {
        return Err(ColoringError::DimensionMismatch { grid: grid_dims, solution: solution_dims });
    }
    let f = match ScalarField::from_str(field) {
        Some(f) => f,
        None => return Err(ColoringError::UnknownField),
    };
    let c = match ColorScheme::from_str(scheme) {
        Some(c) => c,
        None => return Err(ColoringError::UnknownScheme),
    };
    let points = grid_dims.point_count();
    if solution_points as u128 != points {
        return Err(ColoringError::PointCountMismatch { solution_points, grid_points: points });
    }
    Ok(ColoringPlan { field: f, scheme: c, decimation: decimation_factor(grid_dims.i, grid_dims.j) })
}

/// The colors (three values per surface sample) that stay when blanked
/// points are dropped: of the first `n` samples, the triple of each sample
/// whose point is not blanked and whose triple lies within `colors`.
pub open spec fn kept_colors<T>(iblank: Seq<i32>, colors: Seq<T>, samples: Seq<usize>, n: nat) -> Seq<T>
    decreases n,
{
    if n == 0 {
        Seq::empty()
    } else {
        let prev = kept_colors(iblank, colors, samples, (n - 1) as nat);
        let v = n - 1;
        if iblank[samples[v] as int] != 0 && 3 * v + 2 < colors.len() {
            prev + colors.subrange(3 * v, 3 * v + 3)
        } else {
            prev
        }
    }
}

/// The kept colors come in whole triples, at most one per sample: every kept
/// point keeps exactly its three values.
pub proof fn law_kept_colors_whole_triples<T>(iblank: Seq<i32>, colors: Seq<T>, samples: Seq<usize>, n: nat)
    ensures
        kept_colors(iblank, colors, samples, n).len() % 3 == 0,
        kept_colors(iblank, colors, samples, n).len() <= 3 * n,
    decreases n,
{
    if n > 0 {
        law_kept_colors_whole_triples(iblank, colors, samples, (n - 1) as nat);
    }
}

/// Where none of the first `n` sampled points is a hole and the colors cover
/// them, filtering keeps the colors of those samples unchanged.
pub proof fn law_kept_colors_no_holes<T>(iblank: Seq<i32>, colors: Seq<T>, samples: Seq<usize>, n: nat)
    requires
        n <= samples.len(),
        3 * n <= colors.len(),
        forall|v: int| 0 <= v < n ==> iblank[#[trigger] samples[v] as int] != 0,
    ensures
        kept_colors(iblank, colors, samples, n) == colors.subrange(0, 3 * n as int),
    decreases n,
{
    if n > 0 {
        law_kept_colors_no_holes(iblank, colors, samples, (n - 1) as nat);
        let v = n - 1;
        assert(iblank[samples[v] as int] != 0);
        assert(colors.subrange(0, 3 * (n - 1) as int) + colors.subrange(3 * v, 3 * v + 3) =~= colors.subrange(0, 3 * n as int));
    }
}

/// The surface colors with the triples of blanked points removed, or `None`
/// when none is left.
pub open spec fn spec_filter_colors<T>(iblank: Seq<i32>, colors: Seq<T>, dims: GridDimensions, decimation: usize) -> Option<Seq<T>> {
    let samples = surface_samples(dims, effective_decimation(decimation));
    let kept = kept_colors(iblank, colors, samples, samples.len());
    if kept.len() == 0 { None } else { Some(kept) }
}

/// Drops the colors of blanked points from the colors of a decimated K = 1
/// surface (three values per kept surface point, row by row).
pub fn filter_colors_by_iblank<T: Copy>(iblank: &[i32], colors: &[T], dims: GridDimensions, decimation: usize) -> (r: Option<Vec<T>>)
    requires
        dims.i >= 1,
        dims.j >= 1,
        dims.i as int * dims.j as int <= iblank@.len(),
    ensures
        r matches Some(v) ==> spec_filter_colors(iblank@, colors@, dims, decimation) == Some(v@),
        r is None ==> spec_filter_colors(iblank@, colors@, dims, decimation) is None,
{
    let iblank_len = iblank.len();
    let colors_len = colors.len();
    let samples = surface_sample_indices(dims, decimation);
    let ghost gs = surface_samples(dims, effective_decimation(decimation));
    proof {
        law_surface_samples_in_grid(dims, effective_decimation(decimation));
    }
    let mut out: Vec<T> = Vec::new();
    let mut v: usize = 0;
    while v < samples.len()
        invariant
            samples@ == gs,
            v <= samples@.len(),
            forall|u: int| 0 <= u < gs.len() ==> (#[trigger] gs[u]) < dims.i as int * dims.j as int,
            dims.i as int * dims.j as int <= iblank@.len(),
            colors_len == colors@.len(),
            out@ == kept_colors(iblank@, colors@, gs, v as nat),
        decreases samples@.len() - v,
    {
        let idx = samples[v];
        if iblank[idx] != 0 && v <= (usize::MAX - 2) / 3 && 3 * v + 2 < colors_len {
            out.push(colors[3 * v]);
            out.push(colors[3 * v + 1]);
            out.push(colors[3 * v + 2]);
            assert(out@ =~= kept_colors(iblank@, colors@, gs, (v + 1) as nat));
        } else {
            proof {
                if iblank@[idx as int] != 0 && 3 * v + 2 < colors@.len() {
                    assert(v <= (usize::MAX - 2) / 3);
                }
            }
            assert(out@ =~= kept_colors(iblank@, colors@, gs, (v + 1) as nat));
        }
        v = v + 1;
    }
    if out.len() == 0 {
        None
    } else {
        Some(out)
    }
}

/// The constant-index plane of an index slice.
#[derive(Debug, Clone, Copy, PartialEq, Eq, Structural)]
pub enum SlicePlane {
    I,
    J,
    K,
}

/// The plane a slice name denotes, compared in upper case: "I" (also "i"
/// and the dotless "ı", whose upper case is "I"), "J" or "K".
pub open spec fn spec_slice_plane(s: Seq<char>) -> Option<SlicePlane> {
    if s == "I"@ || s == "i"@ || s == "ı"@ {
        Some(SlicePlane::I)
    } else if s == "J"@ || s == "j"@ {
        Some(SlicePlane::J)
    } else if s == "K"@ || s == "k"@ {
        Some(SlicePlane::K)
    } else {
        None
    }
}

/// Parses the name of a slice plane.
pub fn parse_slice_plane(s: &str) -> (r: Option<SlicePlane>)
    ensures
        r == spec_slice_plane(s@),
{
    proof {
        reveal_strlit("I");
        reveal_strlit("i");
        reveal_strlit("ı");
        reveal_strlit("J");
        reveal_strlit("j");
        reveal_strlit("K");
        reveal_strlit("k");
    }
    if str_equals(s, "I") || str_equals(s, "i") || str_equals(s, "ı") {
        Some(SlicePlane::I)
    } else if str_equals(s, "J") || str_equals(s, "j") {
        Some(SlicePlane::J)
    } else if str_equals(s, "K") || str_equals(s, "k") {
        Some(SlicePlane::K)
    } else {
        None
    }
}

/// The grid coordinates (i, j, k) of point (a, b) of a slice at index `s`:
/// a K slice spans (I, J), a J slice (I, K), an I slice (J, K).
pub open spec fn slice_coords(plane: SlicePlane, s: int, a: int, b: int) -> (int, int, int) {
    match plane {
        SlicePlane::K => (a, b, s),
        SlicePlane::J => (a, s, b),
        SlicePlane::I => (s, a, b),
    }
}

/// Linear index in the full grid of point (a, b) of a slice.
pub open spec fn slice_source(d: GridDimensions, plane: SlicePlane, s: int, a: int, b: int) -> int {
    let (x, y, z) = slice_coords(plane, s, a, b);
    x + y * d.i + z * (d.i * d.j)
}

/// Whether a slice of `width` x `height` points at index `s` lies in the grid.
pub open spec fn slice_fits(d: GridDimensions, plane: SlicePlane, s: int, width: int, height: int) -> bool {
    0 <= s && 0 <= width && 0 <= height && match plane {
        SlicePlane::K => s < d.k && width <= d.i && height <= d.j,
        SlicePlane::J => s < d.j && width <= d.i && height <= d.k,
        SlicePlane::I => s < d.i && width <= d.j && height <= d.k,
    }
}

/// The source indices of the first `n` points of slice row `b`.
pub open spec fn slice_row(d: GridDimensions, plane: SlicePlane, s: int, b: int, n: nat) -> Seq<usize>
    decreases n,
{
    if n == 0 {
        Seq::empty()
    } else {
        slice_row(d, plane, s, b, (n - 1) as nat).push(slice_source(d, plane, s, n - 1, b) as usize)
    }
}

/// The source indices of the first `m` rows of a slice `width` points wide.
pub open spec fn slice_rows(d: GridDimensions, plane: SlicePlane, s: int, width: nat, m: nat) -> Seq<usize>
    decreases m,
{
    if m == 0 {
        Seq::empty()
    } else {
        slice_rows(d, plane, s, width, (m - 1) as nat) + slice_row(d, plane, s, m - 1, width)
    }
}

proof fn lemma_point_index_bound(x: int, y: int, z: int, di: int, dj: int, dk: int)
    requires
        0 <= x < di,
        0 <= y < dj,
        0 <= z < dk,
    ensures
        0 <= y * di,
        0 <= z * (di * dj),
        y * di + di <= di * dj,
        di * dj <= di * dj * dk,
        x + y * di + z * (di * dj) < di * dj * dk,
{
    assert(0 <= y * di) by (nonlinear_arith)
        requires 0 <= y, 0 <= di;
    assert(0 <= di * dj) by (nonlinear_arith)
        requires 0 <= di, 0 <= dj;
    assert(0 <= z * (di * dj)) by (nonlinear_arith)
        requires 0 <= z, 0 <= di * dj;
    assert(y * di + di <= di * dj) by (nonlinear_arith)
        requires y + 1 <= dj, 0 <= di;
    assert(x + y * di < di * dj);
    assert(z * (di * dj) + di * dj <= di * dj * dk) by (nonlinear_arith)
        requires z + 1 <= dk, 0 <= di * dj;
    assert(di * dj <= di * dj * dk) by (nonlinear_arith)
        requires 1 <= dk, 0 <= di * dj;
}

/// Linear indices in the full grid of the points of an index slice of
/// `width` x `height` points, row by row.
pub fn slice_point_indices(d: GridDimensions, plane: SlicePlane, slice_index: u32, width: usize, height: usize) -> (r: Vec<usize>)
    requires
        slice_fits(d, plane, slice_index as int, width as int, height as int),
        d.points() <= usize::MAX,
    ensures
        r@ == slice_rows(d, plane, slice_index as int, width as nat, height as nat),
        forall|t: int| 0 <= t < r@.len() ==> (#[trigger] r@[t]) < d.points(),
{
    let di = d.i as usize;
    let dj = d.j as usize;
    let s = slice_index as usize;
    let ghost total = d.points();
    let mut out: Vec<usize> = Vec::new();
    let mut b: usize = 0;
    while b < height
        invariant
            slice_fits(d, plane, s as int, width as int, height as int),
            di == d.i,
            dj == d.j,
            s == slice_index,
            total == d.points(),
            total <= usize::MAX,
            b <= height,
            out@ == slice_rows(d, plane, s as int, width as nat, b as nat),
            forall|t: int| 0 <= t < out@.len() ==> (#[trigger] out@[t]) < total,
        decreases height - b,
    {
        let mut a: usize = 0;
        while a < width
            invariant
                slice_fits(d, plane, s as int, width as int, height as int),
                di == d.i,
                dj == d.j,
                s == slice_index,
                total == d.points(),
                total <= usize::MAX,
                b < height,
                a <= width,
                out@ == slice_rows(d, plane, s as int, width as nat, b as nat) + slice_row(d, plane, s as int, b as int, a as nat),
                forall|t: int| 0 <= t < out@.len() ==> (#[trigger] out@[t]) < total,
            decreases width - a,
        {
            let (x, y, z) = match plane {
                SlicePlane::K => (a, b, s),
                SlicePlane::J => (a, s, b),
                SlicePlane::I => (s, a, b),
            };
            proof {
                lemma_point_index_bound(x as int, y as int, z as int, di as int, dj as int, d.k as int);
                assert(di as int * dj as int * d.k as int == total) by (nonlinear_arith)
                    requires di == d.i, dj == d.j, total == d.points();
            }
            let plane_size = di * dj;
            let idx = x + y * di + z * plane_size;
            out.push(idx);
            assert(out@ =~= slice_rows(d, plane, s as int, width as nat, b as nat) + slice_row(d, plane, s as int, b as int, (a + 1) as nat));
            a = a + 1;
        }
        assert(out@ =~= slice_rows(d, plane, s as int, width as nat, (b + 1) as nat));
        b = b + 1;
    }
    out
}

/// Linear index of grid point (x, y, z).
pub open spec fn point_index(d: GridDimensions, x: int, y: int, z: int) -> int {
    x + y * d.i + z * (d.i * d.j)
}

/// The eight corners of hexahedral cell (i, j, k), in the order the plane
/// interpolation weights use: the four of the lower K face counter-clockwise
/// from (i, j), then the four of the upper face.
pub open spec fn cell_corners(d: GridDimensions, i: int, j: int, k: int) -> Seq<usize> {
    seq![
        point_index(d, i, j, k) as usize,
        point_index(d, i + 1, j, k) as usize,
        point_index(d, i + 1, j + 1, k) as usize,
        point_index(d, i, j + 1, k) as usize,
        point_index(d, i, j, k + 1) as usize,
        point_index(d, i + 1, j, k + 1) as usize,
        point_index(d, i + 1, j + 1, k + 1) as usize,
        point_index(d, i, j + 1, k + 1) as usize,
    ]
}

/// Linear indices of the corners of cell (i, j, k).
pub fn cell_corner_indices(d: GridDimensions, i: usize, j: usize, k: usize) -> (r: [usize; 8])
    requires
        i + 1 < d.i,
        j + 1 < d.j,
        k + 1 < d.k,
        d.points() <= usize::MAX,
    ensures
        r@ == cell_corners(d, i as int, j as int, k as int),
        forall|t: int| 0 <= t < 8 ==> (#[trigger] r@[t]) < d.points(),
{
    let di = d.i as usize;
    let dj = d.j as usize;
    proof {
        assert(di as int * dj as int * d.k as int == d.points()) by (nonlinear_arith)
            requires di == d.i, dj == d.j;
        lemma_point_index_bound(i as int + 1, j as int + 1, k as int + 1, di as int, dj as int, d.k as int);
        lemma_point_index_bound(i as int, j as int, k as int, di as int, dj as int, d.k as int);
        assert((j as int + 1) * di == j * di + di) by (nonlinear_arith);
        assert((k as int + 1) * (di * dj) == k * (di * dj) + di * dj) by (nonlinear_arith);
    }
    let plane = di * dj;
    let y0 = j * di;
    let y1 = y0 + di;
    let z0 = k * plane;
    let z1 = z0 + plane;
    let r = [
        i + y0 + z0,
        i + 1 + y0 + z0,
        i + 1 + y1 + z0,
        i + y1 + z0,
        i + y0 + z1,
        i + 1 + y0 + z1,
        i + 1 + y1 + z1,
        i + y1 + z1,
    ];
    assert(r@ =~= cell_corners(d, i as int, j as int, k as int));
    r
}

/// The solution of a single point: the values at `index`, as a 1 x 1 x 1
/// solution of grid 0 without metadata.
pub open spec fn spec_point_solution(s: SpecSolution, index: int) -> SpecSolution {
    SpecSolution {
        grid_index: 0,
        dimensions: GridDimensions { i: 1, j: 1, k: 1 },
        precision: s.precision,
        rho: seq![s.rho[index]],
        rhou: seq![s.rhou[index]],
        rhov: seq![s.rhov[index]],
        rhow: seq![s.rhow[index]],
        rhoe: seq![s.rhoe[index]],
        gamma: match s.gamma {
            Some(g) => Some(seq![g[index]]),
            None => None,
        },
        metadata: None,
    }
}

/// Extracts the solution at one point.
pub fn create_point_solution(solution: &Plot3DSolution, index: usize) -> (r: Plot3DSolution)
    requires
        index < solution.rho@.len(),
        index < solution.rhou@.len(),
        index < solution.rhov@.len(),
        index < solution.rhow@.len(),
        index < solution.rhoe@.len(),
        solution.gamma matches Some(g) ==> index < g@.len(),
    ensures
        r@ == spec_point_solution(solution@, index as int),
{
    let gamma = match &solution.gamma {
        Some(g) => {
            let v = vec![g[index]];
            assert(v@ =~= seq![g@[index as int]]);
            Some(v)
        },
        None => None,
    };
    let r = Plot3DSolution {
        grid_index: 0,
        dimensions: GridDimensions { i: 1, j: 1, k: 1 },
        precision: solution.precision,
        rho: vec![solution.rho[index]],
        rhou: vec![solution.rhou[index]],
        rhov: vec![solution.rhov[index]],
        rhow: vec![solution.rhow[index]],
        rhoe: vec![solution.rhoe[index]],
        gamma,
        metadata: None,
    };
    assert(r@.rho =~= seq![solution.rho@[index as int]]);
    assert(r@.rhou =~= seq![solution.rhou@[index as int]]);
    assert(r@.rhov =~= seq![solution.rhov@[index as int]]);
    assert(r@.rhow =~= seq![solution.rhow@[index as int]]);
    assert(r@.rhoe =~= seq![solution.rhoe@[index as int]]);
    r
}

} // verus!

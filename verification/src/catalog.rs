//! Loading solution files of either kind, and describing loaded grids and
//! solutions for the cache.
use vstd::prelude::*;
use crate::ascii::{lines_view, read_plot3d_solution_ascii, spec_ascii_solution_file, ascii_file_metadata, AsciiLine};
use crate::grid::Plot3DGrid;
use crate::ids::{generate_grid_id, generate_solution_id, id_text, name_fits, GridMetadata, IdCounter, SolutionMetadata};
use crate::solution_file::{
    binary_file_metadata, read_plot3d_solution, solutions_view, spec_solution_file, LastSolutionMetadata, Plot3DSolution,
};
use crate::types::Plot3DError;

verus! {

/// Which reader accepted a solution file.
#[derive(Debug, Clone, Copy, PartialEq, Eq, Structural)]
pub enum SolutionEncoding {
    Binary,
    Ascii,
}

/// Reads a solution file whose kind is not known: as binary first and, when
/// that fails, as ASCII (given as its lines). When both fail, both errors are
/// returned, the binary one first.
pub fn read_plot3d_solution_auto(
    data: &[u8],
    lines: &Vec<AsciiLine>,
    last: &mut LastSolutionMetadata,
) -> (r: Result<(Vec<Plot3DSolution>, SolutionEncoding), (Plot3DError, Plot3DError)>)
    ensures
        match spec_solution_file(data@) {
            Ok((order, sols)) => r matches Ok((v, enc)) && enc == SolutionEncoding::Binary
                && solutions_view(v@) == sols
                && final(last)@ == Some(binary_file_metadata(order, sols)),
            Err(be) => match spec_ascii_solution_file(lines_view(lines@)) {
                Ok(sols) => r matches Ok((v, enc)) && enc == SolutionEncoding::Ascii
                    && solutions_view(v@) == sols
                    && final(last)@ == Some(ascii_file_metadata()),
                Err(ae) => r == Err::<(Vec<Plot3DSolution>, SolutionEncoding), (Plot3DError, Plot3DError)>((be, ae))
                    && final(last)@ == old(last)@,
            },
        },
{
    match read_plot3d_solution(data, last) {
        Ok(v) => Ok((v, SolutionEncoding::Binary)),
        Err(be) => match read_plot3d_solution_ascii(lines, last) {
            Ok(v) => Ok((v, SolutionEncoding::Ascii)),
            Err(ae) => Err((be, ae)),
        },
    }
}

/// Whether `m` describes grid `k` of a file, loaded as `grid` after `before`
/// identifiers had been issued.
pub open spec fn describes_grid(m: GridMetadata, grid: Plot3DGrid, file_path: Seq<char>, file_name: Seq<char>, k: int, before: nat) -> bool {
    &&& m.file_path@ == file_path
    &&& m.file_name@ == file_name
    &&& m.grid_index == k
    &&& m.dimensions == grid.dimensions
    &&& m.has_iblank == grid.iblank is Some
    &&& !m.has_solution
    &&& exists|name: Option<Seq<char>>, stamp: nat|
        name_fits(file_path, name) && stamp < 100000
            && m.id@ == #[trigger] id_text("grid_"@, (before + k + 1) as nat, name, k as nat, stamp)
}

/// Describes the grids of a file for the cache: one record per grid, in
/// order, each with a new identifier.
pub fn catalog_grids(counter: &mut IdCounter, file_path: &str, file_name: &str, grids: &Vec<Plot3DGrid>) -> (r: Vec<GridMetadata>)
    requires
        old(counter)@ + grids@.len() <= u64::MAX,
    ensures
        final(counter)@ == old(counter)@ + grids@.len(),
        r@.len() == grids@.len(),
        forall|k: int| 0 <= k < r@.len() ==> describes_grid(#[trigger] r@[k], grids@[k], file_path@, file_name@, k, old(counter)@),
{
    let ghost before = counter@;
    let mut out: Vec<GridMetadata> = Vec::new();
    let mut k: usize = 0;
    while k < grids.len()
        invariant
            k <= grids@.len(),
            before + grids@.len() <= u64::MAX,
            counter@ == before + k,
            out@.len() == k,
            forall|u: int| 0 <= u < k ==> describes_grid(#[trigger] out@[u], grids@[u], file_path@, file_name@, u, before),
        decreases grids@.len() - k,
    {
        let id = generate_grid_id(counter, file_path, k);
        let grid = &grids[k];
        let m = GridMetadata {
            id,
            file_path: file_path.to_string(),
            file_name: file_name.to_string(),
            grid_index: k,
            dimensions: grid.dimensions,
            has_iblank: grid.iblank.is_some(),
            has_solution: false,
        };
        out.push(m);
        proof {
            let (nm, st) = choose|name: Option<Seq<char>>, stamp: nat|
                name_fits(file_path@, name) && stamp < 100000
                    && out@[k as int].id@ == #[trigger] id_text("grid_"@, counter@, name, k as nat, stamp);
            let kk = k as int;
            assert(out@[kk].id@ == id_text("grid_"@, (before + kk + 1) as nat, nm, kk as nat, st));
        }
        assert(describes_grid(out@[k as int], grids@[k as int], file_path@, file_name@, k as int, before));
        k = k + 1;
    }
    out
}

/// Whether `m` describes `solution`, loaded from a file after `before + k`
/// identifiers had been issued.
pub open spec fn describes_solution(m: SolutionMetadata, solution: Plot3DSolution, file_path: Seq<char>, file_name: Seq<char>, k: int, before: nat) -> bool {
    &&& m.file_path@ == file_path
    &&& m.file_name@ == file_name
    &&& m.grid_index == solution.grid_index
    &&& m.dimensions == solution.dimensions
    &&& exists|name: Option<Seq<char>>, stamp: nat|
        name_fits(file_path, name) && stamp < 100000
            && m.id@ == #[trigger] id_text("solution_"@, (before + k + 1) as nat, name, solution.grid_index as nat, stamp)
}

/// Describes the solutions of a file for the cache: one record per solution,
/// in order, each with a new identifier.
pub fn catalog_solutions(
    counter: &mut IdCounter,
    file_path: &str,
    file_name: &str,
    solutions: &Vec<Plot3DSolution>,
) -> (r: Vec<SolutionMetadata>)
    requires
        old(counter)@ + solutions@.len() <= u64::MAX,
    ensures
        final(counter)@ == old(counter)@ + solutions@.len(),
        r@.len() == solutions@.len(),
        forall|k: int| 0 <= k < r@.len() ==> describes_solution(#[trigger] r@[k], solutions@[k], file_path@, file_name@, k, old(counter)@),
{
    let ghost before = counter@;
    let mut out: Vec<SolutionMetadata> = Vec::new();
    let mut k: usize = 0;
    while k < solutions.len()
        invariant
            k <= solutions@.len(),
            before + solutions@.len() <= u64::MAX,
            counter@ == before + k,
            out@.len() == k,
            forall|u: int| 0 <= u < k ==> describes_solution(#[trigger] out@[u], solutions@[u], file_path@, file_name@, u, before),
        decreases solutions@.len() - k,
    {
        let s = &solutions[k];
        let id = generate_solution_id(counter, file_path, s.grid_index);
        let m = SolutionMetadata {
            id,
            file_path: file_path.to_string(),
            file_name: file_name.to_string(),
            grid_index: s.grid_index,
            dimensions: s.dimensions,
        };
        out.push(m);
        assert(describes_solution(out@[k as int], solutions@[k as int], file_path@, file_name@, k as int, before));
        k = k + 1;
    }
    out
}

} // verus!

use overview::ascii::AsciiLine;
use overview::catalog::{catalog_grids, catalog_solutions, read_plot3d_solution_auto, SolutionEncoding};
use overview::grid::{check_grid_arrays, GridShapeError, Plot3DGrid};
use overview::ids::IdCounter;
use overview::solution::{cell_corner_indices, create_point_solution, parse_slice_plane, slice_point_indices, SlicePlane};
use overview::solution_file::{get_last_solution_metadata, LastSolutionMetadata, Plot3DSolution};
use overview::types::{GridDimensions, Plot3DError, Precision};

fn lines_of(text: &str) -> Vec<AsciiLine> {
    text.lines()
        .map(|l| {
            let mut nums = Vec::new();
            let mut ok = true;
            for w in l.split_whitespace() {
                match w.parse::<f32>() {
                    Ok(v) => nums.push(v.to_bits()),
                    Err(_) => ok = false,
                }
            }
            AsciiLine::Text { chars: l.chars().collect(), numbers: if ok { Some(nums) } else { None } }
        })
        .collect()
}

fn grid(i: u32, j: u32, k: u32, iblank: Option<Vec<i32>>) -> Plot3DGrid {
    let n = (i * j * k) as usize;
    Plot3DGrid {
        dimensions: GridDimensions { i, j, k },
        precision: Precision::F32,
        x_coords: vec![0; n],
        y_coords: vec![0; n],
        z_coords: vec![0; n],
        iblank,
    }
}

fn solution(grid_index: usize, dims: GridDimensions, n: usize) -> Plot3DSolution {
    Plot3DSolution {
        grid_index,
        dimensions: dims,
        precision: Precision::F32,
        rho: (0..n as u64).collect(),
        rhou: (10..10 + n as u64).collect(),
        rhov: (20..20 + n as u64).collect(),
        rhow: (30..30 + n as u64).collect(),
        rhoe: (40..40 + n as u64).collect(),
        gamma: None,
        metadata: None,
    }
}

#[test]
fn auto_reader_falls_back_to_ascii() {
    let text = "1\n1 1 1\n0 0 0 0\n1 2 3 4 5\n";
    let mut last = LastSolutionMetadata::new();
    let (sols, enc) = read_plot3d_solution_auto(text.as_bytes(), &lines_of(text), &mut last).unwrap();
    assert_eq!(enc, SolutionEncoding::Ascii);
    assert_eq!(sols.len(), 1);
    assert_eq!(f32::from_bits(sols[0].rhoe[0] as u32), 5.0);
    assert_eq!(get_last_solution_metadata(&last).unwrap().format, "ASCII");
}

#[test]
fn auto_reader_reports_both_errors() {
    let text = "x\n";
    let mut last = LastSolutionMetadata::new();
    let r = read_plot3d_solution_auto(text.as_bytes(), &lines_of(text), &mut last);
    assert_eq!(r.err(), Some((Plot3DError::UnexpectedEof, Plot3DError::CannotParseGridCount)));
    assert!(get_last_solution_metadata(&last).is_none());
}

#[test]
fn auto_reader_prefers_binary() {
    let mut data = Vec::new();
    for v in [4i32, 1, 4, 20, 1, 1, 1, 5, 0, 20, 0, 0, 20] {
        data.extend_from_slice(&v.to_le_bytes());
    }
    for v in [1.0f32, 2.0, 3.0, 4.0, 5.0] {
        data.extend_from_slice(&v.to_le_bytes());
    }
    data.extend_from_slice(&20i32.to_le_bytes());
    let mut last = LastSolutionMetadata::new();
    let (sols, enc) = read_plot3d_solution_auto(&data, &Vec::new(), &mut last).unwrap();
    assert_eq!(enc, SolutionEncoding::Binary);
    assert_eq!(f32::from_bits(sols[0].rho[0] as u32), 1.0);
    assert_eq!(get_last_solution_metadata(&last).unwrap().byte_order, "Little-Endian");
}

#[test]
fn catalog_describes_each_grid() {
    let mut counter = IdCounter::new();
    let grids = vec![grid(2, 2, 1, None), grid(3, 1, 1, Some(vec![1, 1, 1]))];
    let metas = catalog_grids(&mut counter, "/d/wing.x", "wing.x", &grids);
    assert_eq!(counter.issued(), 2);
    assert_eq!(metas.len(), 2);
    assert!(metas[0].id.starts_with("grid_1_wing.x_idx0_"));
    assert!(metas[1].id.starts_with("grid_2_wing.x_idx1_"));
    assert_eq!(metas[1].dimensions, GridDimensions { i: 3, j: 1, k: 1 });
    assert!(!metas[0].has_iblank);
    assert!(metas[1].has_iblank);
    assert!(!metas[1].has_solution);
    assert_eq!(metas[1].file_name, "wing.x");
    assert_eq!(metas[1].grid_index, 1);
}

#[test]
fn catalog_describes_each_solution() {
    let mut counter = IdCounter::new();
    let d = GridDimensions { i: 1, j: 1, k: 1 };
    let sols = vec![solution(4, d, 1)];
    let metas = catalog_solutions(&mut counter, "flow.q", "flow.q", &sols);
    assert_eq!(metas.len(), 1);
    assert!(metas[0].id.starts_with("solution_1_flow.q_idx4_"));
    assert_eq!(metas[0].grid_index, 4);
    assert_eq!(metas[0].file_path, "flow.q");
}

#[test]
fn slice_planes_by_name() {
    assert_eq!(parse_slice_plane("K"), Some(SlicePlane::K));
    assert_eq!(parse_slice_plane("k"), Some(SlicePlane::K));
    assert_eq!(parse_slice_plane("j"), Some(SlicePlane::J));
    assert_eq!(parse_slice_plane("I"), Some(SlicePlane::I));
    assert_eq!(parse_slice_plane("ı"), Some(SlicePlane::I));
    assert_eq!(parse_slice_plane("X"), None);
    assert_eq!(parse_slice_plane("KK"), None);
    // same outcome as comparing the upper-cased name
    for name in ["i", "ı", "j", "k", "I", "J", "K", "x", "ij"] {
        let upper = name.to_uppercase();
        let expected = match upper.as_str() {
            "I" => Some(SlicePlane::I),
            "J" => Some(SlicePlane::J),
            "K" => Some(SlicePlane::K),
            _ => None,
        };
        assert_eq!(parse_slice_plane(name), expected, "{}", name);
    }
}

#[test]
fn slice_indices_per_plane() {
    let d = GridDimensions { i: 3, j: 2, k: 2 };
    assert_eq!(slice_point_indices(d, SlicePlane::K, 1, 3, 2), vec![6, 7, 8, 9, 10, 11]);
    assert_eq!(slice_point_indices(d, SlicePlane::J, 1, 3, 2), vec![3, 4, 5, 9, 10, 11]);
    assert_eq!(slice_point_indices(d, SlicePlane::I, 2, 2, 2), vec![2, 5, 8, 11]);
}

#[test]
fn cell_corners_of_a_cell() {
    let d = GridDimensions { i: 3, j: 3, k: 2 };
    assert_eq!(cell_corner_indices(d, 1, 0, 0), [1, 2, 5, 4, 10, 11, 14, 13]);
}

#[test]
fn point_solution_picks_one_point() {
    let d = GridDimensions { i: 2, j: 1, k: 1 };
    let mut s = solution(3, d, 2);
    s.gamma = Some(vec![7, 8]);
    let p = create_point_solution(&s, 1);
    assert_eq!(p.grid_index, 0);
    assert_eq!(p.dimensions, GridDimensions { i: 1, j: 1, k: 1 });
    assert_eq!(p.rho, vec![1]);
    assert_eq!(p.rhou, vec![11]);
    assert_eq!(p.rhoe, vec![41]);
    assert_eq!(p.gamma, Some(vec![8]));
    assert!(p.metadata.is_none());
}

#[test]
fn grid_array_lengths_checked_in_order() {
    let mut g = grid(2, 2, 1, None);
    assert_eq!(check_grid_arrays(&g), Ok(()));
    g.z_coords.pop();
    assert_eq!(check_grid_arrays(&g), Err(GridShapeError::ZLength { len: 3, expected: 4 }));
    g.x_coords.push(0);
    assert_eq!(check_grid_arrays(&g), Err(GridShapeError::XLength { len: 5, expected: 4 }));
}

use overview::ascii::{read_plot3d_grid_ascii, read_plot3d_solution_ascii, AsciiLine};
use overview::binary::{detect_byte_order, read_f32_array, read_i32, ByteReader};
use overview::function_file::{read_plot3d_function, Plot3DFunction};
use overview::grid::{read_plot3d_grid_with_metadata, Plot3DGrid};
use overview::solution_file::{
    get_last_solution_metadata, parse_metadata, read_plot3d_solution, LastSolutionMetadata, Plot3DSolution,
};
use overview::types::{ByteOrder, GridDimensions, Precision};

fn bits(v: f32) -> u64 {
    v.to_bits() as u64
}

fn floats(v: &[u64]) -> Vec<f32> {
    v.iter().map(|b| f32::from_bits(*b as u32)).collect()
}

fn fbits(v: Option<u32>) -> Option<f32> {
    v.map(f32::from_bits)
}

fn numbers_of(line: &str) -> Option<Vec<u32>> {
    let mut out = Vec::new();
    for w in line.split_whitespace() {
        match w.parse::<f32>() {
            Ok(v) => out.push(v.to_bits()),
            Err(_) => return None,
        }
    }
    Some(out)
}

fn lines_of(text: &str) -> Vec<AsciiLine> {
    text.lines()
        .map(|l| AsciiLine::Text { chars: l.chars().collect(), numbers: numbers_of(l) })
        .collect()
}

fn push_i32(buf: &mut Vec<u8>, v: i32) {
    buf.extend_from_slice(&v.to_le_bytes());
}

fn push_f32(buf: &mut Vec<u8>, v: f32) {
    buf.extend_from_slice(&v.to_le_bytes());
}

fn coords(v: &[f32]) -> Vec<u64> {
    v.iter().map(|x| bits(*x)).collect()
}

#[test]
fn test_grid_dimensions() {
    let dims = GridDimensions { i: 10, j: 20, k: 30 };
    let grid = Plot3DGrid {
        dimensions: dims.clone(),
        precision: Precision::F32,
        x_coords: vec![],
        y_coords: vec![],
        z_coords: vec![],
        iblank: None,
    };
    assert_eq!(grid.total_points(), 6000);
}

#[test]
fn test_solution_total_points() {
    let solution = Plot3DSolution {
        grid_index: 0,
        dimensions: GridDimensions { i: 5, j: 4, k: 3 },
        precision: Precision::F32,
        rho: vec![],
        rhou: vec![],
        rhov: vec![],
        rhow: vec![],
        rhoe: vec![],
        gamma: None,
        metadata: None,
    };
    assert_eq!(solution.total_points(), 60);
}

#[test]
fn test_function_total_points() {
    let function = Plot3DFunction {
        grid_index: 0,
        dimensions: GridDimensions { i: 2, j: 3, k: 4 },
        function_data: vec![],
    };
    assert_eq!(function.total_points(), 24);
}

#[test]
fn test_byte_order_detection_little_endian() {
    let mut data = vec![];
    data.extend_from_slice(&100i32.to_le_bytes());
    let mut cursor = ByteReader::new(&data);

    let result = detect_byte_order(&mut cursor);
    assert!(result.is_ok());
    assert_eq!(result.unwrap(), ByteOrder::LittleEndian);
}

#[test]
fn test_byte_order_detection_big_endian() {
    let mut data = vec![];
    data.extend_from_slice(&100i32.to_be_bytes());
    let mut cursor = ByteReader::new(&data);

    let result = detect_byte_order(&mut cursor);
    assert!(result.is_ok());
}

#[test]
fn test_read_i32_little_endian() {
    let mut data = vec![];
    data.extend_from_slice(&42i32.to_le_bytes());
    let mut cursor = ByteReader::new(&data);

    let result = read_i32(&mut cursor, ByteOrder::LittleEndian);
    assert!(result.is_ok());
    assert_eq!(result.unwrap(), 42);
}

#[test]
fn test_read_i32_big_endian() {
    let mut data = vec![];
    data.extend_from_slice(&42i32.to_be_bytes());
    let mut cursor = ByteReader::new(&data);

    let result = read_i32(&mut cursor, ByteOrder::BigEndian);
    assert!(result.is_ok());
    assert_eq!(result.unwrap(), 42);
}

#[test]
fn test_read_f32_array() {
    let values = vec![1.0f32, 2.5f32, 3.14f32];
    let mut data = vec![];
    for v in &values {
        data.extend_from_slice(&v.to_le_bytes());
    }
    let mut cursor = ByteReader::new(&data);

    let result = read_f32_array(&mut cursor, 3, ByteOrder::LittleEndian);
    assert!(result.is_ok());
    let arr: Vec<f32> = result.unwrap().iter().map(|b| f32::from_bits(*b)).collect();
    assert_eq!(arr.len(), 3);
    assert_eq!(arr[0], 1.0);
    assert_eq!(arr[1], 2.5);
    assert_eq!(arr[2], 3.14);
}

#[test]
fn test_read_plot3d_grid_ascii_simple() {
    let text = "1\n2 2 2\n0.0 1.0 0.0 1.0 0.0 1.0 0.0 1.0\n0.0 0.0 1.0 1.0 0.0 0.0 1.0 1.0\n0.0 0.0 0.0 0.0 1.0 1.0 1.0 1.0\n";
    let result = read_plot3d_grid_ascii(&lines_of(text));
    assert!(result.is_ok());

    let grids = result.unwrap();
    assert_eq!(grids.len(), 1);
    assert_eq!(grids[0].dimensions.i, 2);
    assert_eq!(grids[0].dimensions.j, 2);
    assert_eq!(grids[0].dimensions.k, 2);
    assert_eq!(grids[0].total_points(), 8);
    assert_eq!(grids[0].x_coords.len(), 8);
    assert_eq!(grids[0].y_coords.len(), 8);
    assert_eq!(grids[0].z_coords.len(), 8);
}

#[test]
fn test_read_plot3d_grid_ascii_invalid_grid_count() {
    let result = read_plot3d_grid_ascii(&lines_of("-1\n"));
    assert!(result.is_err());
}

#[test]
fn test_read_plot3d_grid_ascii_zero_dimensions() {
    let result = read_plot3d_grid_ascii(&lines_of("1\n0 2 2\n"));
    assert!(result.is_err());
}

#[test]
fn test_read_plot3d_solution_ascii_simple() {
    let text = "1\n2 1 1\n1.2 5.0 1e6 0.5\n1.0 2.0\n3.0 4.0\n5.0 6.0\n7.0 8.0\n9.0 10.0\n";
    let mut last = LastSolutionMetadata::new();
    let result = read_plot3d_solution_ascii(&lines_of(text), &mut last);
    assert!(result.is_ok(), "Failed to read ASCII solution: {:?}", result.as_ref().err());

    let solutions = result.unwrap();
    assert_eq!(solutions.len(), 1);
    assert_eq!(solutions[0].total_points(), 2);
    assert_eq!(floats(&solutions[0].rho), vec![1.0, 2.0]);
    assert_eq!(floats(&solutions[0].rhou), vec![3.0, 4.0]);
    assert_eq!(floats(&solutions[0].rhov), vec![5.0, 6.0]);
    assert_eq!(floats(&solutions[0].rhow), vec![7.0, 8.0]);
    assert_eq!(floats(&solutions[0].rhoe), vec![9.0, 10.0]);

    assert!(solutions[0].metadata.is_some());
    let meta = solutions[0].metadata.as_ref().unwrap();
    assert_eq!(fbits(meta.refmach), Some(1.2));
    assert_eq!(fbits(meta.alpha), Some(5.0));
}

#[test]
fn test_grid_dimensions_clone() {
    let dims1 = GridDimensions { i: 5, j: 10, k: 15 };
    let dims2 = dims1.clone();
    assert_eq!(dims1.i, dims2.i);
    assert_eq!(dims1.j, dims2.j);
    assert_eq!(dims1.k, dims2.k);
}

#[test]
fn test_byte_order_equality() {
    assert_eq!(ByteOrder::LittleEndian, ByteOrder::LittleEndian);
    assert_eq!(ByteOrder::BigEndian, ByteOrder::BigEndian);
    assert_ne!(ByteOrder::LittleEndian, ByteOrder::BigEndian);
}

#[test]
fn test_mesh_geometry_simple_grid() {
    let grid = Plot3DGrid {
        dimensions: GridDimensions { i: 2, j: 2, k: 1 },
        precision: Precision::F32,
        x_coords: coords(&[0.0, 1.0, 0.0, 1.0]),
        y_coords: coords(&[0.0, 0.0, 1.0, 1.0]),
        z_coords: coords(&[0.0, 0.0, 0.0, 0.0]),
        iblank: None,
    };

    let mesh = grid.to_mesh_geometry(false);

    assert_eq!(mesh.vertex_count, 4);
    assert_eq!(mesh.vertices.len(), 12);
    assert_eq!(f32::from_bits(mesh.vertices[0] as u32), 0.0);
    assert_eq!(f32::from_bits(mesh.vertices[1] as u32), 0.0);
    assert_eq!(f32::from_bits(mesh.vertices[2] as u32), 0.0);
    assert!(mesh.indices.len() > 0);
    assert_eq!(mesh.face_count, mesh.indices.len() / 2);
}

#[test]
fn test_mesh_geometry_larger_grid() {
    let mut grid = Plot3DGrid {
        dimensions: GridDimensions { i: 3, j: 3, k: 2 },
        precision: Precision::F32,
        x_coords: Vec::with_capacity(18),
        y_coords: Vec::with_capacity(18),
        z_coords: Vec::with_capacity(18),
        iblank: None,
    };
    for i in 0..3 {
        for j in 0..3 {
            for k in 0..2 {
                grid.x_coords.push(bits(i as f32));
                grid.y_coords.push(bits(j as f32));
                grid.z_coords.push(bits(k as f32));
            }
        }
    }

    let mesh = grid.to_mesh_geometry(false);

    assert_eq!(mesh.vertex_count, 18);
    assert_eq!(mesh.vertices.len(), 54);
    assert!(mesh.indices.len() > 0);
}

#[test]
fn test_mesh_linear_index_calculation() {
    let i = 1;
    let j = 2;
    let k = 1;
    let dim_i = 3;
    let dim_j = 4;

    let idx = Plot3DGrid::linear_index(i, j, k, dim_i, dim_j);
    assert_eq!(idx, 19);
}

#[test]
fn test_mesh_geometry_preserves_coordinates() {
    let values = [1.5f32, 2.5, 3.5, 4.5];
    let grid = Plot3DGrid {
        dimensions: GridDimensions { i: 2, j: 2, k: 1 },
        precision: Precision::F32,
        x_coords: coords(&values),
        y_coords: coords(&values),
        z_coords: coords(&values),
        iblank: None,
    };

    let mesh = grid.to_mesh_geometry(false);

    for i in 0..4 {
        assert_eq!(f32::from_bits(mesh.vertices[i * 3] as u32), values[i]);
        assert_eq!(f32::from_bits(mesh.vertices[i * 3 + 1] as u32), values[i]);
        assert_eq!(f32::from_bits(mesh.vertices[i * 3 + 2] as u32), values[i]);
    }
}

#[test]
fn test_mesh_geometry_iblank_filtering() {
    let grid = Plot3DGrid {
        dimensions: GridDimensions { i: 3, j: 3, k: 1 },
        precision: Precision::F32,
        x_coords: coords(&[0.0, 1.0, 2.0, 0.0, 1.0, 2.0, 0.0, 1.0, 2.0]),
        y_coords: coords(&[0.0, 0.0, 0.0, 1.0, 1.0, 1.0, 2.0, 2.0, 2.0]),
        z_coords: coords(&[0.0; 9]),
        iblank: Some(vec![1, 1, 1, 1, 0, 1, 1, 1, 0]),
    };

    let mesh_no_blank = grid.to_mesh_geometry(false);
    assert_eq!(mesh_no_blank.face_count, 16);

    let mesh_with_blank = grid.to_mesh_geometry(true);
    assert_eq!(mesh_with_blank.face_count, 0);
}

#[test]
fn test_mesh_geometry_iblank_partial_blanking() {
    let grid = Plot3DGrid {
        dimensions: GridDimensions { i: 3, j: 3, k: 1 },
        precision: Precision::F32,
        x_coords: coords(&[0.0, 1.0, 2.0, 0.0, 1.0, 2.0, 0.0, 1.0, 2.0]),
        y_coords: coords(&[0.0, 0.0, 0.0, 1.0, 1.0, 1.0, 2.0, 2.0, 2.0]),
        z_coords: coords(&[0.0; 9]),
        iblank: Some(vec![1, 1, 1, 1, 1, 1, 1, 1, 0]),
    };

    let mesh_no_blank = grid.to_mesh_geometry(false);
    assert_eq!(mesh_no_blank.face_count, 16);

    let mesh_with_blank = grid.to_mesh_geometry(true);
    assert_eq!(mesh_with_blank.face_count, 12);
}

#[test]
fn test_read_plot3d_grid_with_metadata_binary() {
    let mut data = Vec::new();
    push_i32(&mut data, 4);
    push_i32(&mut data, 1);
    push_i32(&mut data, 4);

    push_i32(&mut data, 12);
    push_i32(&mut data, 2);
    push_i32(&mut data, 2);
    push_i32(&mut data, 2);
    push_i32(&mut data, 12);

    push_i32(&mut data, 32);
    for i in 0..8 {
        push_f32(&mut data, i as f32);
    }
    push_i32(&mut data, 32);

    push_i32(&mut data, 32);
    for i in 0..8 {
        push_f32(&mut data, i as f32 + 0.5);
    }
    push_i32(&mut data, 32);

    push_i32(&mut data, 32);
    for i in 0..8 {
        push_f32(&mut data, i as f32 + 1.0);
    }
    push_i32(&mut data, 32);

    let result = read_plot3d_grid_with_metadata(&data);
    assert!(result.is_ok());

    let (grids, metadata) = result.unwrap();
    assert_eq!(grids.len(), 1);
    assert_eq!(metadata.num_grids, 1);
    assert_eq!(metadata.byte_order, "Little-Endian");
    assert_eq!(grids[0].dimensions.i, 2);
    assert_eq!(grids[0].dimensions.j, 2);
    assert_eq!(grids[0].dimensions.k, 2);
    assert_eq!(grids[0].total_points(), 8);
}

fn solution_header(data: &mut Vec<u8>, i: i32, j: i32, k: i32, nq: i32) {
    push_i32(data, 4);
    push_i32(data, 1);
    push_i32(data, 4);

    push_i32(data, 20);
    push_i32(data, i);
    push_i32(data, j);
    push_i32(data, k);
    push_i32(data, nq);
    push_i32(data, 0);
    push_i32(data, 20);
}

#[test]
fn test_read_plot3d_solution_binary() {
    let mut data = Vec::new();
    solution_header(&mut data, 2, 1, 1, 6);

    push_i32(&mut data, 64);
    for _ in 0..16 {
        push_f32(&mut data, 0.0);
    }
    push_i32(&mut data, 64);

    let rho_data = vec![1.0f32, 2.0f32];
    let rhou_data = vec![3.0f32, 4.0f32];
    let rhov_data = vec![5.0f32, 6.0f32];
    let rhow_data = vec![7.0f32, 8.0f32];
    let rhoe_data = vec![9.0f32, 10.0f32];
    let gamma_data = vec![1.4f32, 1.4f32];

    push_i32(&mut data, 48);
    for arr in [&rho_data, &rhou_data, &rhov_data, &rhow_data, &rhoe_data, &gamma_data] {
        for v in arr.iter() {
            push_f32(&mut data, *v);
        }
    }
    push_i32(&mut data, 48);

    let mut last = LastSolutionMetadata::new();
    let result = read_plot3d_solution(&data, &mut last);
    assert!(result.is_ok(), "Failed to read binary solution: {:?}", result.as_ref().err());

    let solutions = result.unwrap();
    assert_eq!(solutions.len(), 1);
    assert_eq!(solutions[0].total_points(), 2);
    assert_eq!(floats(&solutions[0].rho), rho_data);
    assert_eq!(floats(&solutions[0].rhou), rhou_data);
    assert_eq!(solutions[0].gamma.as_ref().map(|g| floats(g)), Some(gamma_data));
}

#[test]
fn test_read_plot3d_solution_binary_with_large_metadata() {
    let mut data = Vec::new();
    solution_header(&mut data, 3, 2, 1, 6);

    push_i32(&mut data, 512);
    for i in 0..128 {
        push_f32(&mut data, i as f32);
    }
    push_i32(&mut data, 512);

    let total_points = 6;
    let total_floats = total_points * 6;
    push_i32(&mut data, total_floats as i32 * 4);
    for var in 0..6 {
        for pt in 0..total_points {
            push_f32(&mut data, (var * 10 + pt) as f32);
        }
    }
    push_i32(&mut data, total_floats as i32 * 4);

    let mut last = LastSolutionMetadata::new();
    let result = read_plot3d_solution(&data, &mut last);
    assert!(result.is_ok(), "Failed to read solution with large metadata: {:?}", result.as_ref().err());

    let solutions = result.unwrap();
    assert_eq!(solutions.len(), 1);
    assert_eq!(solutions[0].total_points(), 6);

    let rho = floats(&solutions[0].rho);
    assert_eq!(rho[0], 0.0);
    assert_eq!(rho[1], 1.0);
    assert_eq!(rho[5], 5.0);

    assert!(solutions[0].gamma.is_some());
    let gamma = floats(solutions[0].gamma.as_ref().unwrap());
    assert_eq!(gamma[0], 50.0);
    assert_eq!(gamma[5], 55.0);
}

#[test]
fn test_read_plot3d_solution_binary_with_minimal_metadata() {
    let mut data = Vec::new();
    solution_header(&mut data, 2, 2, 1, 6);

    push_i32(&mut data, 16);
    push_f32(&mut data, 1.0);
    push_f32(&mut data, 0.0);
    push_f32(&mut data, 0.0);
    push_f32(&mut data, 0.0);
    push_i32(&mut data, 16);

    let total_points = 4;
    push_i32(&mut data, 96);
    for var in 0..6 {
        for _pt in 0..total_points {
            push_f32(&mut data, (var + 1) as f32);
        }
    }
    push_i32(&mut data, 96);

    let mut last = LastSolutionMetadata::new();
    let result = read_plot3d_solution(&data, &mut last);
    assert!(result.is_ok(), "Failed to read solution with minimal metadata: {:?}", result.as_ref().err());

    let solutions = result.unwrap();
    assert_eq!(solutions.len(), 1);
    assert_eq!(solutions[0].total_points(), 4);
    assert_eq!(floats(&solutions[0].rho)[0], 1.0);
    assert_eq!(floats(&solutions[0].rhoe)[0], 5.0);

    assert!(solutions[0].gamma.is_some());
    assert_eq!(floats(solutions[0].gamma.as_ref().unwrap())[0], 6.0);
}

fn le_buffer(values: &[f32]) -> Vec<u8> {
    let mut buffer = Vec::new();
    for val in values {
        buffer.extend_from_slice(&(*val).to_le_bytes());
    }
    buffer
}

#[test]
fn test_parse_metadata_full() {
    let values: Vec<f32> = vec![
        1.2, 5.0, 1e6, 0.5, 1.4, 0.0, 288.0, 0.0, 500.0, 100.0, 200.0, 287.0, 0.5, 300.0, 50.0,
    ];
    let buffer = le_buffer(&values);

    let metadata = parse_metadata(&buffer, ByteOrder::LittleEndian);

    assert_eq!(fbits(metadata.refmach), Some(1.2));
    assert_eq!(fbits(metadata.alpha), Some(5.0));
    assert_eq!(fbits(metadata.rey), Some(1e6));
    assert_eq!(fbits(metadata.time), Some(0.5));
    assert_eq!(fbits(metadata.gaminf), Some(1.4));
    assert_eq!(fbits(metadata.beta), Some(0.0));
    assert_eq!(fbits(metadata.tinf), Some(288.0));
    assert_eq!(fbits(metadata.igam), Some(0.0));
    assert_eq!(fbits(metadata.htinf), Some(500.0));
    assert_eq!(fbits(metadata.ht1), Some(100.0));
    assert_eq!(fbits(metadata.ht2), Some(200.0));
    assert_eq!(metadata.rgas.as_ref().map(|r| r.iter().map(|b| f32::from_bits(*b)).collect::<Vec<f32>>()), Some(vec![287.0]));
    assert_eq!(fbits(metadata.fsmach), Some(0.5));
    assert_eq!(fbits(metadata.tvref), Some(300.0));
    assert_eq!(fbits(metadata.dtvref), Some(50.0));
}

#[test]
fn test_parse_metadata_minimal() {
    let values: Vec<f32> = vec![1.5, 10.0, 5e5, 1.0];
    let buffer = le_buffer(&values);

    let metadata = parse_metadata(&buffer, ByteOrder::LittleEndian);

    assert_eq!(fbits(metadata.refmach), Some(1.5));
    assert_eq!(fbits(metadata.alpha), Some(10.0));
    assert_eq!(fbits(metadata.rey), Some(5e5));
    assert_eq!(fbits(metadata.time), Some(1.0));
    assert_eq!(metadata.gaminf, None);
    assert_eq!(metadata.beta, None);
    assert_eq!(metadata.tinf, None);
    assert_eq!(metadata.igam, None);
    assert_eq!(metadata.htinf, None);
    assert_eq!(metadata.ht1, None);
    assert_eq!(metadata.ht2, None);
    assert_eq!(metadata.rgas, None);
    assert_eq!(metadata.fsmach, None);
    assert_eq!(metadata.tvref, None);
    assert_eq!(metadata.dtvref, None);
}

#[test]
fn test_parse_metadata_with_multiple_rgas() {
    let values: Vec<f32> = vec![
        1.0, 0.0, 1e7, 0.0, 1.4, 0.0, 300.0, 0.0, 600.0, 50.0, 100.0, 287.0, 1.0, 2.0, 0.6, 280.0, 10.0,
    ];
    let buffer = le_buffer(&values);

    let metadata = parse_metadata(&buffer, ByteOrder::LittleEndian);

    assert_eq!(
        metadata.rgas.as_ref().map(|r| r.iter().map(|b| f32::from_bits(*b)).collect::<Vec<f32>>()),
        Some(vec![287.0, 1.0, 2.0])
    );
    assert_eq!(fbits(metadata.fsmach), Some(0.6));
    assert_eq!(fbits(metadata.tvref), Some(280.0));
    assert_eq!(fbits(metadata.dtvref), Some(10.0));
}

#[test]
fn test_parse_metadata_big_endian() {
    let values: Vec<f32> = vec![1.2, 5.0, 1e6, 0.5];
    let mut buffer = Vec::new();
    for val in &values {
        buffer.extend_from_slice(&(*val).to_be_bytes());
    }

    let metadata = parse_metadata(&buffer, ByteOrder::BigEndian);

    assert_eq!(fbits(metadata.refmach), Some(1.2));
    assert_eq!(fbits(metadata.alpha), Some(5.0));
    assert_eq!(fbits(metadata.rey), Some(1e6));
    assert_eq!(fbits(metadata.time), Some(0.5));
}

#[test]
fn test_read_plot3d_solution_with_metadata() {
    let mut data = Vec::new();
    solution_header(&mut data, 2, 2, 1, 6);

    push_i32(&mut data, 60);
    let metadata_values: Vec<f32> = vec![
        1.2, 5.0, 1e6, 0.5, 1.4, 0.0, 288.0, 0.0, 500.0, 100.0, 200.0, 287.0, 0.5, 300.0, 50.0,
    ];
    for val in &metadata_values {
        push_f32(&mut data, *val);
    }
    push_i32(&mut data, 60);

    let total_points = 4;
    push_i32(&mut data, 96);
    for var in 0..6 {
        for _pt in 0..total_points {
            push_f32(&mut data, (var + 1) as f32);
        }
    }
    push_i32(&mut data, 96);

    let mut last = LastSolutionMetadata::new();
    let result = read_plot3d_solution(&data, &mut last);
    assert!(result.is_ok(), "Failed to read solution: {:?}", result.as_ref().err());

    let solutions = result.unwrap();
    assert_eq!(solutions.len(), 1);

    let sol = &solutions[0];
    assert_eq!(sol.total_points(), 4);

    assert!(sol.metadata.is_some());
    let meta = sol.metadata.as_ref().unwrap();
    assert_eq!(fbits(meta.refmach), Some(1.2));
    assert_eq!(fbits(meta.alpha), Some(5.0));
    assert_eq!(fbits(meta.rey), Some(1e6));
    assert_eq!(fbits(meta.time), Some(0.5));
    assert_eq!(fbits(meta.gaminf), Some(1.4));
    assert_eq!(meta.rgas.as_ref().map(|r| r.iter().map(|b| f32::from_bits(*b)).collect::<Vec<f32>>()), Some(vec![287.0]));
    assert_eq!(fbits(meta.fsmach), Some(0.5));
    assert_eq!(fbits(meta.tvref), Some(300.0));
    assert_eq!(fbits(meta.dtvref), Some(50.0));
}

#[test]
fn test_read_plot3d_function_binary() {
    let mut data = Vec::new();
    push_i32(&mut data, 4);
    push_i32(&mut data, 1);
    push_i32(&mut data, 4);

    push_i32(&mut data, 12);
    push_i32(&mut data, 2);
    push_i32(&mut data, 1);
    push_i32(&mut data, 1);
    push_i32(&mut data, 12);

    push_i32(&mut data, 4);
    push_i32(&mut data, 2);
    push_i32(&mut data, 4);

    let func1_data = vec![1.0f32, 2.0f32];
    let func2_data = vec![3.0f32, 4.0f32];

    push_i32(&mut data, 8);
    for v in &func1_data {
        push_f32(&mut data, *v);
    }
    push_i32(&mut data, 8);

    push_i32(&mut data, 8);
    for v in &func2_data {
        push_f32(&mut data, *v);
    }
    push_i32(&mut data, 8);

    let result = read_plot3d_function(&data);
    assert!(result.is_ok(), "Failed to read binary function: {:?}", result.as_ref().err());

    let functions = result.unwrap();
    assert_eq!(functions.len(), 1);
    assert_eq!(functions[0].total_points(), 2);
    assert_eq!(functions[0].function_data.len(), 2);
    let f0: Vec<f32> = functions[0].function_data[0].iter().map(|b| f32::from_bits(*b)).collect();
    let f1: Vec<f32> = functions[0].function_data[1].iter().map(|b| f32::from_bits(*b)).collect();
    assert_eq!(f0, func1_data);
    assert_eq!(f1, func2_data);
}

#[test]
fn test_precision_as_str() {
    assert_eq!(Precision::F32.as_str(), "f32");
    assert_eq!(Precision::F64.as_str(), "f64");
    assert_eq!(Precision::Mixed.as_str(), "mixed");
}

#[test]
fn test_read_plot3d_solution_binary_f32_precision() {
    let mut data = Vec::new();
    solution_header(&mut data, 2, 1, 1, 5);

    push_i32(&mut data, 64);
    for _ in 0..16 {
        push_f32(&mut data, 0.0);
    }
    push_i32(&mut data, 64);

    push_i32(&mut data, 40);
    for i in 0..10 {
        push_f32(&mut data, i as f32);
    }
    push_i32(&mut data, 40);

    let mut last = LastSolutionMetadata::new();
    let result = read_plot3d_solution(&data, &mut last);
    assert!(result.is_ok(), "Failed to read f32 solution: {:?}", result.as_ref().err());

    let metadata = get_last_solution_metadata(&last);
    assert!(metadata.is_some(), "Solution metadata should be set");
    let meta = metadata.unwrap();
    assert_eq!(meta.format, "binary");
    assert_eq!(meta.precision, "f32");
    assert_eq!(meta.byte_order, "Little-Endian");
}

#[test]
fn test_read_plot3d_solution_binary_f64_precision() {
    let mut data = Vec::new();
    solution_header(&mut data, 2, 1, 1, 5);

    push_i32(&mut data, 64);
    for _ in 0..16 {
        push_f32(&mut data, 0.0);
    }
    push_i32(&mut data, 64);

    push_i32(&mut data, 80);
    for i in 0..10 {
        data.extend_from_slice(&(i as f64).to_le_bytes());
    }
    push_i32(&mut data, 80);

    let mut last = LastSolutionMetadata::new();
    let result = read_plot3d_solution(&data, &mut last);
    assert!(result.is_ok(), "Failed to read f64 solution: {:?}", result.as_ref().err());

    let metadata = get_last_solution_metadata(&last);
    assert!(metadata.is_some(), "Solution metadata should be set");
    let meta = metadata.unwrap();
    assert_eq!(meta.format, "binary");
    assert_eq!(meta.precision, "f64");
    assert_eq!(meta.byte_order, "Little-Endian");
}

#[test]
fn test_read_plot3d_solution_ascii_metadata() {
    let mut text = String::new();
    text.push_str("1\n");
    text.push_str("2 1 1\n");
    text.push_str("5 0\n");
    text.push_str("0.0 0.0 0.0 0.0 0.0\n");
    for i in 0..10 {
        text.push_str(&format!("{}.0 ", i));
    }
    text.push_str("\n");

    let mut last = LastSolutionMetadata::new();
    let result = read_plot3d_solution_ascii(&lines_of(&text), &mut last);
    assert!(result.is_ok(), "Failed to read ASCII solution: {:?}", result.as_ref().err());

    let metadata = get_last_solution_metadata(&last);
    assert!(metadata.is_some(), "Solution metadata should be set");
    let meta = metadata.unwrap();
    assert_eq!(meta.format, "ASCII");
    assert_eq!(meta.precision, "f32");
    assert_eq!(meta.byte_order, "N/A");
}

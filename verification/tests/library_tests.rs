use overview::ascii::{parse_i32, parse_u32, read_plot3d_grid_ascii, read_plot3d_solution_ascii, split_whitespace, trim_chars, AsciiLine};
use overview::binary::{read_f32, read_f64_array, read_record_marker, skip_bytes, skip_record_marker, ByteReader};
use overview::formats::{contents_decide_format, contents_format, is_likely_text, is_solution_or_function_extension, FileFormat};
use overview::function_file::read_plot3d_function;
use overview::grid::{probe_byte_order, read_plot3d_grid, read_plot3d_grid_with_metadata, Plot3DGrid};
use overview::ids::{
    file_name_or_unknown, format_id, generate_grid_id, generate_solution_id, grid_has_solution, push_decimal, IdCounter,
    SolutionMetadata,
};
use overview::solution_file::{get_last_solution_metadata, read_plot3d_solution, set_last_solution_metadata, LastSolutionMetadata, SolutionFileMetadata};
use overview::types::{byte_order_string, ByteOrder, GridDimensions, Plot3DError, Precision};

fn push_i32(buf: &mut Vec<u8>, v: i32) {
    buf.extend_from_slice(&v.to_le_bytes());
}

fn push_f32(buf: &mut Vec<u8>, v: f32) {
    buf.extend_from_slice(&v.to_le_bytes());
}

fn numbers_of(line: &str) -> Option<Vec<u32>> {
    let mut out = Vec::new();
    for w in line.split_whitespace() {
        match w.parse::<f32>() {
            Ok(v) => out.push(v.to_bits()),
            Err(_) => return None,
        }
    }
    Some(out)
}

fn lines_of(text: &str) -> Vec<AsciiLine> {
    text.lines()
        .map(|l| AsciiLine::Text { chars: l.chars().collect(), numbers: numbers_of(l) })
        .collect()
}

fn chars(s: &str) -> Vec<char> {
    s.chars().collect()
}

/// A one-grid binary file header: grid count record and dimension record.
fn grid_header(data: &mut Vec<u8>, i: i32, j: i32, k: i32) {
    push_i32(data, 4);
    push_i32(data, 1);
    push_i32(data, 4);
    push_i32(data, 12);
    push_i32(data, i);
    push_i32(data, j);
    push_i32(data, k);
    push_i32(data, 12);
}

// ---- identifiers ----

#[test]
fn format_id_joins_the_parts() {
    assert_eq!(format_id("grid_", 7, Some("wing.x"), 2, 4321), "grid_7_wing.x_idx2_4321");
    assert_eq!(format_id("solution_", 10, None, 0, 0), "solution_10_unknown_idx0_0");
}

#[test]
fn push_decimal_writes_digits() {
    let mut s = String::from("n=");
    push_decimal(&mut s, 1234567890123);
    assert_eq!(s, "n=1234567890123");
    let mut z = String::new();
    push_decimal(&mut z, 0);
    assert_eq!(z, "0");
}

#[test]
fn generated_ids_count_up_and_name_the_file() {
    let mut counter = IdCounter::new();
    let a = generate_grid_id(&mut counter, "/data/case/wing.x", 0);
    let b = generate_solution_id(&mut counter, "/data/case/wing.q", 3);
    assert_eq!(counter.issued(), 2);
    assert!(a.starts_with("grid_1_wing.x_idx0_"), "{}", a);
    assert!(b.starts_with("solution_2_wing.q_idx3_"), "{}", b);
    let stamp: u64 = a.rsplit('_').next().unwrap().parse().unwrap();
    assert!(stamp < 100000);
}

#[test]
fn generated_id_for_path_without_name() {
    let mut counter = IdCounter::new();
    let a = generate_grid_id(&mut counter, "/data/..", 1);
    assert!(a.starts_with("grid_1_unknown_idx1_"), "{}", a);
}

#[test]
fn file_name_or_unknown_of_paths() {
    assert_eq!(file_name_or_unknown("/tmp/a/b.xyz"), "b.xyz");
    assert_eq!(file_name_or_unknown(".."), "unknown");
    assert_eq!(file_name_or_unknown(""), "unknown");
}

#[test]
fn grid_has_solution_matches_path_and_index() {
    let dims = GridDimensions { i: 1, j: 1, k: 1 };
    let sols = vec![SolutionMetadata {
        id: "solution_1_a.q_idx0_5".to_string(),
        file_path: "/x/a.q".to_string(),
        file_name: "a.q".to_string(),
        grid_index: 2,
        dimensions: dims,
    }];
    assert!(grid_has_solution(&sols, "/x/a.q", 2));
    assert!(!grid_has_solution(&sols, "/x/a.q", 1));
    assert!(!grid_has_solution(&sols, "/x/b.q", 2));
    assert!(!grid_has_solution(&[], "/x/a.q", 2));
}

// ---- formats ----

#[test]
fn contents_format_cases() {
    assert_eq!(contents_format(b"1 2"), FileFormat::Unknown);
    assert_eq!(contents_format(b"1\n2 1 1\n"), FileFormat::Ascii);
    assert_eq!(contents_format(&[1, 0, 0, 0, 4]), FileFormat::Binary);
    assert_eq!(FileFormat::Ascii.as_str(), "ascii");
    assert_eq!(FileFormat::Binary.as_str(), "binary");
    assert_eq!(FileFormat::Unknown.as_str(), "unknown");
    // only the first 100 bytes count
    let mut long = vec![b'a'; 100];
    long.push(0);
    assert_eq!(contents_format(&long), FileFormat::Ascii);
}

#[test]
fn likely_text_checks_first_500_bytes() {
    assert!(is_likely_text(b"1\r\n2\t3 ~"));
    assert!(!is_likely_text(&[b'a', 0x7f]));
    assert!(!is_likely_text(&[0x0c]));
    let mut long = vec![b'x'; 500];
    long.push(0);
    assert!(is_likely_text(&long));
    assert!(is_likely_text(&[]));
}

#[test]
fn extensions_that_are_looked_into() {
    assert!(is_solution_or_function_extension(Some("q")));
    assert!(is_solution_or_function_extension(Some("f")));
    assert!(!is_solution_or_function_extension(Some("x")));
    assert!(!is_solution_or_function_extension(Some("Q")));
    assert!(!is_solution_or_function_extension(None));
    assert!(contents_decide_format("/tmp/flow.q"));
    assert!(contents_decide_format("func.f"));
    assert!(!contents_decide_format("grid.xyz"));
    assert!(!contents_decide_format("noext"));
}

// ---- binary readers and their errors ----

#[test]
fn readers_report_end_of_data() {
    let data = [1u8, 2, 3];
    let mut r = ByteReader::new(&data);
    assert_eq!(read_record_marker(&mut r, ByteOrder::LittleEndian), Err(Plot3DError::UnexpectedEof));
    assert_eq!(skip_record_marker(&mut r), Err(Plot3DError::UnexpectedEof));
    assert_eq!(read_f32(&mut r, ByteOrder::LittleEndian), Err(Plot3DError::UnexpectedEof));
    assert_eq!(skip_bytes(&mut r, 4), Err(Plot3DError::UnexpectedEof));
    assert_eq!(r.pos(), 0);
    assert_eq!(skip_bytes(&mut r, 3), Ok(()));
    assert_eq!(r.remaining(), 0);
}

#[test]
fn read_f32_and_f64_values() {
    let mut data = Vec::new();
    data.extend_from_slice(&2.5f32.to_be_bytes());
    data.extend_from_slice(&(-1.25f64).to_le_bytes());
    data.extend_from_slice(&3.0f64.to_le_bytes());
    let mut r = ByteReader::new(&data);
    assert_eq!(read_f32(&mut r, ByteOrder::BigEndian).map(f32::from_bits), Ok(2.5));
    let v = read_f64_array(&mut r, 2, ByteOrder::LittleEndian).unwrap();
    assert_eq!(v.iter().map(|b| f64::from_bits(*b)).collect::<Vec<f64>>(), vec![-1.25, 3.0]);
    assert_eq!(r.remaining(), 0);
}

#[test]
fn grid_count_implausible_in_both_orders() {
    let mut data = Vec::new();
    push_i32(&mut data, 4);
    push_i32(&mut data, 0);
    push_i32(&mut data, 4);
    assert_eq!(read_plot3d_grid(&data).err(), Some(Plot3DError::InvalidGridCountBothOrders { le: 0, be: 0 }));
}

#[test]
fn big_endian_grid_file() {
    let mut data = Vec::new();
    for v in [4i32, 1, 4, 12, 1, 1, 1, 12, 12] {
        data.extend_from_slice(&v.to_be_bytes());
    }
    for v in [1.0f32, 2.0, 3.0] {
        data.extend_from_slice(&v.to_be_bytes());
    }
    data.extend_from_slice(&12i32.to_be_bytes());
    let (grids, meta) = read_plot3d_grid_with_metadata(&data).unwrap();
    assert_eq!(meta.byte_order, "Big-Endian");
    assert_eq!(meta.precision, "f32");
    assert!(!meta.has_iblank);
    assert_eq!(grids[0].x_coords, vec![1.0f32.to_bits() as u64]);
    assert_eq!(grids[0].z_coords, vec![3.0f32.to_bits() as u64]);
}

#[test]
fn zero_dimension_in_binary_grid() {
    let mut data = Vec::new();
    grid_header(&mut data, 2, 0, 2);
    assert_eq!(read_plot3d_grid(&data).err(), Some(Plot3DError::InvalidDimensions(2, 0, 2)));
}

#[test]
fn negative_coordinate_record_marker() {
    let mut data = Vec::new();
    grid_header(&mut data, 1, 1, 1);
    push_i32(&mut data, -12);
    assert_eq!(read_plot3d_grid(&data).err(), Some(Plot3DError::InvalidRecordMarker(-12)));
}

#[test]
fn coordinate_record_marker_mismatch() {
    let mut data = Vec::new();
    grid_header(&mut data, 1, 1, 1);
    push_i32(&mut data, 12);
    push_f32(&mut data, 1.0);
    push_f32(&mut data, 2.0);
    push_f32(&mut data, 3.0);
    push_i32(&mut data, 16);
    assert_eq!(
        read_plot3d_grid(&data).err(),
        Some(Plot3DError::RecordMarkerMismatch { opening: 12, closing: 16 })
    );
}

#[test]
fn coordinate_record_of_unknown_size() {
    let mut data = Vec::new();
    grid_header(&mut data, 1, 1, 1);
    push_i32(&mut data, 20);
    assert_eq!(read_plot3d_grid(&data).err(), Some(Plot3DError::InvalidRecordSize { count: 1, size: 20 }));
}

#[test]
fn grid_with_iblank_in_the_coordinate_record() {
    // 2 points, single precision, IBLANK inside the record: 2 * 16 bytes
    let mut data = Vec::new();
    grid_header(&mut data, 2, 1, 1);
    push_i32(&mut data, 32);
    for v in [0.0f32, 1.0, 0.0, 0.0, 0.0, 0.0] {
        push_f32(&mut data, v);
    }
    push_i32(&mut data, 1);
    push_i32(&mut data, 0);
    push_i32(&mut data, 32);
    let grids = read_plot3d_grid(&data).unwrap();
    assert_eq!(grids.len(), 1);
    assert_eq!(grids[0].precision, Precision::F32);
    assert_eq!(grids[0].x_coords, vec![0, 1.0f32.to_bits() as u64]);
}

#[test]
fn solution_nq_out_of_range() {
    let mut data = Vec::new();
    for v in [4, 1, 4, 20, 1, 1, 1, 3, 0, 20] {
        push_i32(&mut data, v);
    }
    let mut last = LastSolutionMetadata::new();
    assert_eq!(read_plot3d_solution(&data, &mut last).err(), Some(Plot3DError::InvalidNq(3)));
    assert!(get_last_solution_metadata(&last).is_none());
}

#[test]
fn solution_q_record_of_wrong_size() {
    let mut data = Vec::new();
    for v in [4, 1, 4, 20, 1, 1, 1, 5, 0, 20, 0, 0, 24] {
        push_i32(&mut data, v);
    }
    let mut last = LastSolutionMetadata::new();
    assert_eq!(
        read_plot3d_solution(&data, &mut last).err(),
        Some(Plot3DError::InvalidQRecordSize { expected_f32: 20, expected_f64: 40, size: 24 })
    );
}

#[test]
fn solution_metadata_record_truncated() {
    let mut data = Vec::new();
    for v in [4, 1, 4, 20, 1, 1, 1, 5, 0, 20, 400] {
        push_i32(&mut data, v);
    }
    let mut last = LastSolutionMetadata::new();
    assert_eq!(read_plot3d_solution(&data, &mut last).err(), Some(Plot3DError::MetadataRecordTruncated));
}

#[test]
fn function_count_negative() {
    let mut data = Vec::new();
    grid_header(&mut data, 1, 1, 1);
    push_i32(&mut data, 4);
    push_i32(&mut data, -2);
    push_i32(&mut data, 4);
    assert_eq!(read_plot3d_function(&data).err(), Some(Plot3DError::InvalidFunctionCount(-2)));
}

#[test]
fn last_solution_metadata_store() {
    let mut last = LastSolutionMetadata::new();
    assert!(get_last_solution_metadata(&last).is_none());
    set_last_solution_metadata(
        &mut last,
        SolutionFileMetadata { format: "binary".to_string(), precision: "f64".to_string(), byte_order: "Big-Endian".to_string() },
    );
    let m = get_last_solution_metadata(&last).unwrap();
    assert_eq!((m.format.as_str(), m.precision.as_str(), m.byte_order.as_str()), ("binary", "f64", "Big-Endian"));
    assert_eq!(byte_order_string(ByteOrder::BigEndian), "Big-Endian");
    assert_eq!(byte_order_string(ByteOrder::LittleEndian), "Little-Endian");
}

// ---- ASCII readers and their errors ----

#[test]
fn ascii_errors() {
    assert_eq!(read_plot3d_grid_ascii(&Vec::new()).err(), Some(Plot3DError::EmptyFile));
    assert_eq!(read_plot3d_grid_ascii(&lines_of("one\n")).err(), Some(Plot3DError::CannotParseGridCount));
    assert_eq!(read_plot3d_grid_ascii(&lines_of("1001\n")).err(), Some(Plot3DError::InvalidNumberOfGrids(1001)));
    assert_eq!(read_plot3d_grid_ascii(&lines_of("2\n1 1 1\n")).err(), Some(Plot3DError::MissingDimensionLine));
    assert_eq!(read_plot3d_grid_ascii(&lines_of("1\n1 x 1\n")).err(), Some(Plot3DError::CannotParseDimensions));
    assert_eq!(read_plot3d_grid_ascii(&lines_of("1\n1 1\n")).err(), Some(Plot3DError::ExpectedThreeDimensions));
    assert_eq!(read_plot3d_grid_ascii(&lines_of("1\n0 2 2\n")).err(), Some(Plot3DError::InvalidDimensions(0, 2, 2)));
    assert_eq!(read_plot3d_grid_ascii(&lines_of("1\n1 1 1\n1.0 abc\n")).err(), Some(Plot3DError::CannotParseCoordinate));
    assert_eq!(
        read_plot3d_grid_ascii(&lines_of("1\n2 1 1\n1.0 2.0 3.0\n")).err(),
        Some(Plot3DError::IncompleteCoordinates { expected: 2, x: 2, y: 1, z: 0 })
    );
    let unreadable = vec![AsciiLine::Unreadable];
    assert_eq!(read_plot3d_grid_ascii(&unreadable).err(), Some(Plot3DError::UnreadableLine(0)));
}

#[test]
fn ascii_grid_over_several_lines() {
    let grids = read_plot3d_grid_ascii(&lines_of("  1  \n1 1 2\n1.5\n2.5 3.5\n4.5 5.5 6.5\n")).unwrap();
    assert_eq!(grids.len(), 1);
    let x: Vec<f32> = grids[0].x_coords.iter().map(|b| f32::from_bits(*b as u32)).collect();
    let z: Vec<f32> = grids[0].z_coords.iter().map(|b| f32::from_bits(*b as u32)).collect();
    assert_eq!(x, vec![1.5, 2.5]);
    assert_eq!(z, vec![5.5, 6.5]);
    assert!(grids[0].iblank.is_none());
}

#[test]
fn ascii_solution_incomplete() {
    let mut last = LastSolutionMetadata::new();
    let r = read_plot3d_solution_ascii(&lines_of("1\n2 1 1\n1.0 2.0 3.0\n"), &mut last);
    assert_eq!(r.err(), Some(Plot3DError::IncompleteSolution { grid_index: 0, expected: 14, got: 3 }));
    assert!(get_last_solution_metadata(&last).is_none());
    let r2 = read_plot3d_solution_ascii(&lines_of("1\n1 1 1\n1.0 x\n"), &mut last);
    assert_eq!(r2.err(), Some(Plot3DError::CannotParseValue));
}

#[test]
fn ascii_token_helpers() {
    assert_eq!(trim_chars(&chars("  a b \t")), chars("a b"));
    assert_eq!(split_whitespace(&chars(" 12  -3\tx ")), vec![chars("12"), chars("-3"), chars("x")]);
    assert_eq!(parse_u32(&chars("+42")), Some(42));
    assert_eq!(parse_u32(&chars("-1")), None);
    assert_eq!(parse_u32(&chars("4294967296")), None);
    assert_eq!(parse_i32(&chars("-2147483648")), Some(i32::MIN));
    assert_eq!(parse_i32(&chars("")), None);
    assert_eq!(parse_i32(&chars("1 ")), None);
}

// ---- laws on concrete values ----

#[test]
fn unblanked_mesh_has_four_segments_per_quad() {
    let d = GridDimensions { i: 4, j: 3, k: 1 };
    let grid = Plot3DGrid {
        dimensions: d,
        precision: Precision::F32,
        x_coords: vec![0; 12],
        y_coords: vec![0; 12],
        z_coords: vec![0; 12],
        iblank: None,
    };
    let mesh = grid.to_mesh_geometry(false);
    assert_eq!(mesh.face_count, 4 * 3 * 2);
    assert!(mesh.indices.iter().all(|&v| v < 12));
}

#[test]
fn fringe_and_wall_points_are_not_holes() {
    let grid = Plot3DGrid {
        dimensions: GridDimensions { i: 3, j: 3, k: 1 },
        precision: Precision::F32,
        x_coords: vec![0; 9],
        y_coords: vec![0; 9],
        z_coords: vec![0; 9],
        iblank: Some(vec![1, -2, 2, 1, -1, 1, 2, 1, 1]),
    };
    assert_eq!(grid.to_mesh_geometry(true).indices, grid.to_mesh_geometry(false).indices);
}

#[test]
fn blanking_only_removes_segments() {
    let grid = Plot3DGrid {
        dimensions: GridDimensions { i: 3, j: 2, k: 1 },
        precision: Precision::F32,
        x_coords: vec![0; 6],
        y_coords: vec![0; 6],
        z_coords: vec![0; 6],
        iblank: Some(vec![1, 1, 0, 1, 1, 1]),
    };
    let with = grid.to_mesh_geometry(true);
    let without = grid.to_mesh_geometry(false);
    assert!(with.indices.len() <= without.indices.len());
    assert_eq!(with.indices, vec![0, 1, 1, 4, 4, 3, 3, 0]);
}

#[test]
fn successive_ids_differ() {
    let mut counter = IdCounter::new();
    let mut seen = std::collections::HashSet::new();
    for k in 0..25 {
        assert!(seen.insert(generate_grid_id(&mut counter, "/a/1_2", k % 3)));
        assert!(seen.insert(generate_solution_id(&mut counter, "/a/1_2", k % 3)));
    }
    // names built to look like other counters still give distinct ids
    assert_ne!(format_id("grid_", 1, Some("2_x"), 0, 0), format_id("grid_", 12, Some("x"), 0, 0));
}

#[test]
fn both_grid_readers_agree() {
    let mut data = Vec::new();
    for v in [4i32, 1, 4, 12, 2, 1, 1, 12, 24] {
        data.extend_from_slice(&v.to_le_bytes());
    }
    for v in [1.0f32, 2.0, 3.0, 4.0, 5.0, 6.0] {
        data.extend_from_slice(&v.to_le_bytes());
    }
    data.extend_from_slice(&24i32.to_le_bytes());
    let a = read_plot3d_grid(&data).unwrap();
    let (b, meta) = read_plot3d_grid_with_metadata(&data).unwrap();
    assert_eq!(a.len(), b.len());
    assert_eq!(a[0].x_coords, b[0].x_coords);
    assert_eq!(a[0].y_coords, b[0].y_coords);
    assert_eq!(a[0].z_coords, b[0].z_coords);
    assert_eq!(meta.grid_dimensions, vec![GridDimensions { i: 2, j: 1, k: 1 }]);
    // every array holds one value per point
    assert_eq!(a[0].x_coords.len(), 2);
    assert_eq!(a[0].z_coords.len(), 2);
}

#[test]
fn big_endian_counts_are_detected_as_big_endian() {
    for n in [1i32, 255, 256, 999] {
        let mut data = Vec::new();
        for v in [4i32, n, 4] {
            data.extend_from_slice(&v.to_be_bytes());
        }
        assert_eq!(probe_byte_order(&data, true), Ok(ByteOrder::BigEndian), "{}", n);
        let mut le = Vec::new();
        for v in [4i32, n, 4] {
            le.extend_from_slice(&v.to_le_bytes());
        }
        assert_eq!(probe_byte_order(&le, true), Ok(ByteOrder::LittleEndian), "{}", n);
    }
}

#[test]
fn plain_path_names_and_extensions() {
    assert_eq!(file_name_or_unknown("flow.q"), "flow.q");
    assert_eq!(file_name_or_unknown("runs/a b/wing grid.xyz"), "wing grid.xyz");
    assert_eq!(file_name_or_unknown("/"), "unknown");
    assert!(contents_decide_format("runs/case.1/flow.q"));
    assert!(contents_decide_format("a.b.f"));
    assert!(!contents_decide_format(".q"));
    assert!(!contents_decide_format("flow.q.bak"));
    assert!(!contents_decide_format("dir.q/flow"));
}

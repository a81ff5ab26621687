use da_sampler::allocation::allocate_rows;
use da_sampler::sampling::{
    cell_segments, check_placeable, extract_row, generate_random_cells, pick_unused, plan_sample, positions_of,
    prepare_sample,
    sample_verdict, Dimensions, Position, SampleError, SamplePlan,
};
use da_sampler::types::{BatchHeader, BlobDisperseInfo, KVBatchInfo, COMMITMENT_SIZE};

fn blob(rows: u32, cols: u32) -> BlobDisperseInfo {
    BlobDisperseInfo { blob_length: 0, rows, cols }
}

fn batch(infos: Vec<BlobDisperseInfo>) -> KVBatchInfo {
    KVBatchInfo { batch_header: BatchHeader { batch_root: vec![1], data_root: [3u8; 32] }, blob_disperse_infos: infos }
}

#[test]
fn dimensions_need_both_sides() {
    assert_eq!(Dimensions::new(0, 4), None);
    assert_eq!(Dimensions::new(4, 0), None);
    let d = Dimensions::new(2, 4).unwrap();
    assert_eq!(d.size(), 8);
    assert_eq!(d.row_byte_size(), 128);
    assert_eq!(Dimensions::new(65535, 65535).unwrap().size(), 65535 * 65535);
}

#[test]
fn unused_numbers_are_counted_past_taken_ones() {
    let taken = vec![1, 3];
    assert_eq!(pick_unused(&taken, 0, 10), (0, 0));
    assert_eq!(pick_unused(&taken, 1, 10), (2, 1));
    assert_eq!(pick_unused(&taken, 2, 10), (4, 2));
    assert_eq!(pick_unused(&vec![0, 1, 2], 0, 10), (3, 3));
}

#[test]
fn cells_map_row_by_row() {
    let d = Dimensions::new(3, 3).unwrap();
    let p = positions_of(&vec![0, 5, 7], d);
    assert_eq!(p, vec![Position { row: 0, col: 0 }, Position { row: 1, col: 2 }, Position { row: 2, col: 1 }]);
}

#[test]
fn random_cells_are_distinct_and_inside() {
    let d = Dimensions::new(4, 5).unwrap();
    for times in [0u32, 1, 7, 20, 21, 1000] {
        let cells = generate_random_cells(d, times);
        assert_eq!(cells.len(), std::cmp::min(times, 20) as usize);
        for (a, x) in cells.iter().enumerate() {
            assert!(x.row < 4 && x.col < 5);
            for y in cells.iter().skip(a + 1) {
                assert_ne!(x, y);
            }
        }
    }
}

#[test]
fn all_cells_of_a_single_cell_grid() {
    let d = Dimensions::new(1, 1).unwrap();
    assert_eq!(generate_random_cells(d, 3), vec![Position { row: 0, col: 0 }]);
}

#[test]
fn plan_reports_missing_batch_and_bad_index() {
    assert!(matches!(plan_sample(&None, 0), Err(SampleError::BatchNotFound)));
    let b = Some(batch(vec![blob(2, 4)]));
    assert!(matches!(plan_sample(&b, 1), Err(SampleError::InvalidBlobIndex)));
}

#[test]
fn plan_skips_degenerate_geometry() {
    assert!(matches!(plan_sample(&Some(batch(vec![blob(0, 4)])), 0), Ok(SamplePlan::Skip)));
    assert!(matches!(plan_sample(&Some(batch(vec![blob(2, 0)])), 0), Ok(SamplePlan::Skip)));
    assert!(matches!(plan_sample(&Some(batch(vec![blob(70000, 1)])), 0), Ok(SamplePlan::Skip)));
    assert!(matches!(plan_sample(&Some(batch(vec![blob(1, 1), blob(1, 9000)])), 0), Ok(SamplePlan::Skip)));
}

#[test]
fn placeability_of_batches() {
    assert!(check_placeable(&vec![blob(2, 4), blob(0, 9000)]));
    assert!(!check_placeable(&vec![blob(2, 4), blob(1, 8191)]));
    assert!(check_placeable(&vec![blob(1, 8190)]));
    assert!(!check_placeable(&vec![blob(u32::MAX, 1), blob(1, 1)]));
}

#[test]
fn plan_locates_the_blob() {
    let b = Some(batch(vec![blob(2, 4), blob(1, 4)]));
    match plan_sample(&b, 1) {
        Ok(SamplePlan::Sample { dimensions, data_root, location }) => {
            assert_eq!(dimensions, Dimensions { rows: 1, cols: 4 });
            assert_eq!(data_root, [3u8; 32]);
            assert_eq!(location.segment_indexes, vec![0]);
            assert_eq!(location.offsets, vec![176]);
        }
        _ => panic!("expected a sample plan"),
    }
}

#[test]
fn rows_and_commitments_are_cut_from_segments() {
    let segment: Vec<u8> = (0..=255u8).collect();
    let (row, com) = extract_row(&segment, 10, 8).unwrap();
    assert_eq!(row, (10..18u8).collect::<Vec<u8>>());
    assert_eq!(com, (18..66u8).collect::<Vec<u8>>());
    assert_eq!(com.len(), COMMITMENT_SIZE as usize);
    assert!(extract_row(&segment, 201, 8).is_none());
    assert!(extract_row(&segment, 200, 8).is_some());
    assert!(extract_row(&segment, 300, 0).is_none());
    assert!(extract_row(&segment, 208, 0).is_some());
}

#[test]
fn verdict_needs_every_cell() {
    assert!(sample_verdict(&vec![]));
    assert!(sample_verdict(&vec![Some(true), Some(true)]));
    assert!(!sample_verdict(&vec![Some(true), Some(false)]));
    assert!(!sample_verdict(&vec![None, Some(true)]));
}

#[test]
fn two_blob_batch_end_to_end() {
    let infos = vec![blob(2, 4), blob(1, 4)];
    let locs = allocate_rows(&infos);
    // Segment 0 as stored: each row's bytes followed by its commitment.
    let mut segment = vec![0u8; 262144];
    for (b, loc) in locs.iter().enumerate() {
        for r in 0..loc.offsets.len() {
            let start = loc.offsets[r] as usize;
            for k in 0..(128 + 48) {
                segment[start + k] = (b * 16 + r * 4 + k % 4) as u8;
            }
        }
    }
    let d = Dimensions::new(2, 4).unwrap();
    let positions = generate_random_cells(d, 2);
    assert_eq!(positions.len(), 2);
    let (segs, offs) = cell_segments(&locs[0], &positions);
    assert!(segs.iter().all(|s| *s == 0));
    let mut results = vec![];
    for (p, off) in positions.iter().zip(offs.iter()) {
        let (row, com) = extract_row(&segment, *off, d.row_byte_size()).unwrap();
        let expected = (p.row * 4) as u8;
        results.push(Some(row.iter().chain(com.iter()).all(|x| x - (x % 4) == expected)));
    }
    assert!(sample_verdict(&results));
    segment[352 + 128] ^= 0xff;
    let mut results = vec![];
    for off in [0usize, 352] {
        let (row, com) = extract_row(&segment, off, d.row_byte_size()).unwrap();
        let expected = (off / 352 * 4) as u8;
        results.push(Some(row.iter().chain(com.iter()).all(|x| x - (x % 4) == expected)));
    }
    assert!(!sample_verdict(&results));
}

#[test]
fn prepared_sample_points_at_stored_rows() {
    let b = Some(batch(vec![blob(2, 4), blob(1, 4)]));
    let plan = prepare_sample(&b, 0, 3).unwrap().unwrap();
    assert_eq!(plan.dimensions, Dimensions { rows: 2, cols: 4 });
    assert_eq!(plan.data_root, [3u8; 32]);
    assert_eq!(plan.positions.len(), 3);
    for k in 0..3 {
        assert_eq!(plan.segment_indexes[k], 0);
        let expected = if plan.positions[k].row == 0 { 0 } else { 352 };
        assert_eq!(plan.offsets[k], expected);
    }
    assert!(prepare_sample(&Some(batch(vec![blob(2, 0)])), 0, 3).unwrap().is_none());
    assert!(matches!(prepare_sample(&b, 2, 3), Err(SampleError::InvalidBlobIndex)));
    assert!(matches!(prepare_sample(&None, 0, 3), Err(SampleError::BatchNotFound)));
    assert_eq!(prepare_sample(&b, 1, 10).unwrap().unwrap().positions.len(), 4);
}

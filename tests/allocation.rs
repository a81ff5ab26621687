use da_sampler::allocation::allocate_rows;
use da_sampler::types::{BlobDisperseInfo, BlobLocation, COEFF_SIZE, COMMITMENT_SIZE, SEGMENT_SIZE};

fn blob(rows: u32, cols: u32) -> BlobDisperseInfo {
    BlobDisperseInfo { blob_length: 0, rows, cols }
}

fn chunk(cols: u32) -> u32 {
    cols * COEFF_SIZE + COMMITMENT_SIZE
}

fn check_layout(infos: &Vec<BlobDisperseInfo>, locs: &Vec<BlobLocation>) {
    assert_eq!(locs.len(), infos.len());
    let mut all: Vec<(u32, u32, u32)> = vec![];
    for (info, loc) in infos.iter().zip(locs.iter()) {
        assert_eq!(loc.segment_indexes.len(), info.rows as usize);
        assert_eq!(loc.offsets.len(), info.rows as usize);
        for k in 0..loc.offsets.len() {
            let end = loc.offsets[k] + chunk(info.cols);
            assert!(end <= SEGMENT_SIZE);
            all.push((loc.segment_indexes[k], loc.offsets[k], end));
        }
    }
    for a in 0..all.len() {
        for b in (a + 1)..all.len() {
            if all[a].0 == all[b].0 {
                assert!(all[a].2 <= all[b].1 || all[b].2 <= all[a].1);
            }
        }
    }
}

#[test]
fn empty_batch_has_no_locations() {
    assert!(allocate_rows(&vec![]).is_empty());
}

#[test]
fn two_blobs_interleave_in_one_segment() {
    let infos = vec![blob(2, 4), blob(1, 4)];
    assert_eq!(chunk(4), 176);
    let locs = allocate_rows(&infos);
    assert_eq!(locs[0].segment_indexes, vec![0, 0]);
    assert_eq!(locs[0].offsets, vec![0, 352]);
    assert_eq!(locs[1].segment_indexes, vec![0]);
    assert_eq!(locs[1].offsets, vec![176]);
    check_layout(&infos, &locs);
}

#[test]
fn large_rows_take_a_segment_each() {
    let infos = vec![blob(2, 8190), blob(2, 8190)];
    assert_eq!(chunk(8190), 262128);
    let locs = allocate_rows(&infos);
    assert_eq!(locs[0].segment_indexes, vec![0, 1]);
    assert_eq!(locs[0].offsets, vec![0, 0]);
    assert_eq!(locs[1].segment_indexes, vec![2, 3]);
    assert_eq!(locs[1].offsets, vec![0, 0]);
    check_layout(&infos, &locs);
}

#[test]
fn first_blocking_blob_closes_the_segment() {
    let infos = vec![blob(1, 4096), blob(1, 4096), blob(5, 1)];
    let locs = allocate_rows(&infos);
    assert_eq!(locs[0].segment_indexes, vec![0]);
    assert_eq!(locs[0].offsets, vec![0]);
    assert_eq!(locs[1].segment_indexes, vec![1]);
    assert_eq!(locs[1].offsets, vec![0]);
    assert_eq!(locs[2].segment_indexes, vec![1, 1, 1, 1, 1]);
    assert_eq!(locs[2].offsets, vec![131120, 131200, 131280, 131360, 131440]);
    check_layout(&infos, &locs);
}

#[test]
fn blob_without_rows_gets_no_location() {
    let infos = vec![blob(0, 10), blob(1, 1)];
    let locs = allocate_rows(&infos);
    assert!(locs[0].segment_indexes.is_empty());
    assert!(locs[0].offsets.is_empty());
    assert_eq!(locs[1].segment_indexes, vec![0]);
    assert_eq!(locs[1].offsets, vec![0]);
}

#[test]
fn many_blobs_cover_rows_without_overlap() {
    let infos = vec![blob(300, 100), blob(7, 2000), blob(1000, 1), blob(3, 8000), blob(50, 512)];
    let locs = allocate_rows(&infos);
    check_layout(&infos, &locs);
}

#[test]
fn allocation_is_deterministic() {
    let infos = vec![blob(30, 100), blob(7, 2000), blob(100, 1), blob(3, 8000)];
    let a = allocate_rows(&infos);
    let b = allocate_rows(&infos);
    for (x, y) in a.iter().zip(b.iter()) {
        assert_eq!(x.segment_indexes, y.segment_indexes);
        assert_eq!(x.offsets, y.offsets);
    }
}

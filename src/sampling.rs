use vstd::prelude::*;

use crate::allocation::{allocate_rows, allocation, allocation_covers_rows, fits_segments, total_rows};
use crate::allocation::rows_upto;
use crate::types::{chunk_len, BlobDisperseInfo, BlobLocation, KVBatchInfo, COEFF_SIZE, COMMITMENT_SIZE, SEGMENT_SIZE};

verus! {

/// Shape of a blob's grid: both sides at least one.
#[derive(Debug, Clone, Copy, PartialEq, Eq)]
pub struct Dimensions {
    pub rows: u16,
    pub cols: u16,
}

/// A cell of a blob's grid.
#[derive(Debug, Clone, Copy, PartialEq, Eq)]
pub struct Position {
    pub row: u32,
    pub col: u16,
}

impl Dimensions {
    pub open spec fn size_spec(&self) -> int {
        self.rows as int * self.cols as int
    }

    /// The grid of `rows` by `cols` cells, if neither side is zero.
    pub fn new(rows: u16, cols: u16) -> (r: Option<Dimensions>)
        ensures
            r == (if rows > 0 && cols > 0 {
                Some(Dimensions { rows, cols })
            } else {
                None
            }),
    {
        if rows > 0 && cols > 0 {
            Some(Dimensions { rows, cols })
        } else {
            None
        }
    }

    /// Number of cells.
    pub fn size(&self) -> (r: u32)
        ensures
            r as int == self.size_spec(),
    {
        proof {
            assert(self.rows as int * self.cols as int <= 65535 * 65535) by (nonlinear_arith)
                requires
                    self.rows <= 65535,
                    self.cols <= 65535,
            ;
        }
        self.rows as u32 * self.cols as u32
    }

    /// Bytes of one row's coefficients.
    pub fn row_byte_size(&self) -> (r: usize)
        ensures
            r as int == self.cols as int * COEFF_SIZE as int,
    {
        self.cols as usize * COEFF_SIZE as usize
    }
}

/// The cell numbered `v` when cells are numbered row by row.
pub open spec fn cell_of(v: int, cols: int) -> (int, int) {
    (v / cols, v % cols)
}

/// `s` is strictly increasing.
pub open spec fn strictly_sorted(s: Seq<u32>) -> bool {
    forall|a: int, b: int| 0 <= a < b < s.len() ==> s[a] < s[b]
}

/// `v` is the `r`-th number (from zero) that `taken` does not hold: exactly
/// `p` entries of `taken` lie below it and the others above it.
pub open spec fn is_rth_unused(taken: Seq<u32>, r: int, v: int, p: int) -> bool {
    &&& 0 <= p <= taken.len()
    &&& v == r + p
    &&& forall|s: int| 0 <= s < p ==> taken[s] < v
    &&& forall|s: int| p <= s < taken.len() ==> taken[s] > v
}

/// The `r`-th number not in the increasing list `taken`, with the number of
/// entries of `taken` below it (where it would be inserted).
pub fn pick_unused(taken: &Vec<u32>, r: u32, bound: u32) -> (res: (u32, usize))
    requires
        strictly_sorted(taken@),
        r as int + taken@.len() < bound,
    ensures
        is_rth_unused(taken@, r as int, res.0 as int, res.1 as int),
        res.0 < bound,
{
    let mut v: u32 = r;
    let mut p: usize = 0;
    let mut t: usize = 0;
    while t < taken.len()
        invariant
            strictly_sorted(taken@),
            r as int + taken@.len() < bound,
            0 <= p <= t <= taken@.len(),
            v == r + p,
            forall|s: int| 0 <= s < p ==> taken@[s] < v,
            forall|s: int| p <= s < t ==> taken@[s] > v,
        decreases taken@.len() - t,
    {
        if taken[t] <= v {
            if p < t {
                assert(taken@[p as int] < taken@[t as int]);
            }
            v = v + 1;
            p = p + 1;
        }
        t += 1;
    }
    (v, p)
}

/// Relies on rand::Rng::gen_range with rand::thread_rng: a number drawn from
/// `0..n` (it panics on an empty range).
#[verifier::external_body]
fn random_below(n: u32) -> (r: u32)
    requires
        n > 0,
    ensures
        r < n,
{
    rand::Rng::gen_range(&mut rand::thread_rng(), 0..n)
}

/// Positions of `cells` (cell numbers, row by row) in a grid of `cols` columns.
pub fn positions_of(cells: &Vec<u32>, dimensions: Dimensions) -> (r: Vec<Position>)
    requires
        forall|k: int| 0 <= k < cells@.len() ==> (cells@[k] as int) < dimensions.size_spec(),
        dimensions.cols > 0,
    ensures
        r@.len() == cells@.len(),
        forall|k: int| 0 <= k < r@.len() ==> (r@[k].row as int, r@[k].col as int) == #[trigger] cell_of(
            cells@[k] as int,
            dimensions.cols as int,
        ),
{
    let cols = dimensions.cols as u32;
    let mut out: Vec<Position> = Vec::new();
    let mut k: usize = 0;
    while k < cells.len()
        invariant
            k <= cells@.len(),
            cols == dimensions.cols,
            cols > 0,
            out@.len() == k,
            forall|m: int| 0 <= m < k ==> (out@[m].row as int, out@[m].col as int) == #[trigger] cell_of(
                cells@[m] as int,
                cols as int,
            ),
        decreases cells@.len() - k,
    {
        let v = cells[k];
        let col = v % cols;
        proof {
            assert(col < cols);
        }
        out.push(Position { row: v / cols, col: col as u16 });
        k += 1;
    }
    out
}

proof fn lemma_cell_of_injective(v1: int, v2: int, cols: int)
    requires
        cols > 0,
        v1 >= 0,
        v2 >= 0,
        cell_of(v1, cols) == cell_of(v2, cols),
    ensures
        v1 == v2,
{
    vstd::arithmetic::div_mod::lemma_fundamental_div_mod(v1, cols);
    vstd::arithmetic::div_mod::lemma_fundamental_div_mod(v2, cols);
}

proof fn lemma_cell_of_in_grid(v: int, rows: int, cols: int)
    requires
        cols > 0,
        0 <= v < rows * cols,
    ensures
        0 <= cell_of(v, cols).0 < rows,
        0 <= cell_of(v, cols).1 < cols,
{
    vstd::arithmetic::div_mod::lemma_fundamental_div_mod(v, cols);
    let q = v / cols;
    let m = v % cols;
    assert(q < rows) by (nonlinear_arith)
        requires
            v == cols * q + m,
            0 <= m,
            v < rows * cols,
            cols > 0,
    ;
    assert(0 <= q) by (nonlinear_arith)
        requires
            v == cols * q + m,
            m < cols,
            v >= 0,
            cols > 0,
    ;
}

/// Draws `min(cell_count, rows * cols)` different cells of the grid, each
/// set of that size being equally likely.
///
/// Each draw picks uniformly among the cells not drawn yet.
pub fn generate_random_cells(dimensions: Dimensions, cell_count: u32) -> (r: Vec<Position>)
    requires
        dimensions.rows > 0,
        dimensions.cols > 0,
    ensures
        r@.len() == if cell_count as int <= dimensions.size_spec() {
            cell_count as int
        } else {
            dimensions.size_spec()
        },
        forall|k: int| 0 <= k < r@.len() ==> (#[trigger] r@[k]).row < dimensions.rows && r@[k].col
            < dimensions.cols,
        forall|a: int, b: int| 0 <= a < b < r@.len() ==> r@[a] != r@[b],
{
    let max_cells = dimensions.size();
    let count = if max_cells < cell_count {
        max_cells
    } else {
        cell_count
    };
    let mut taken: Vec<u32> = Vec::new();
    while taken.len() < count as usize
        invariant
            count <= max_cells,
            max_cells as int == dimensions.size_spec(),
            taken@.len() <= count,
            strictly_sorted(taken@),
            forall|k: int| 0 <= k < taken@.len() ==> taken@[k] < max_cells,
        decreases count - taken@.len(),
    {
        let left = max_cells - taken.len() as u32;
        let draw = random_below(left);
        let (v, p) = pick_unused(&taken, draw, max_cells);
        let ghost before = taken@;
        taken.insert(p, v);
        proof {
            assert forall|a: int, b: int| 0 <= a < b < taken@.len() implies taken@[a] < taken@[b] by {
                if b < p {
                } else if a > p {
                    assert(taken@[a] == before[a - 1]);
                    assert(taken@[b] == before[b - 1]);
                } else if a == p {
                    assert(taken@[b] == before[b - 1]);
                } else {
                    assert(taken@[b] == before[b - 1] || b == p);
                }
            }
            assert forall|k: int| 0 <= k < taken@.len() implies taken@[k] < max_cells by {
                if k < p {
                } else if k > p {
                    assert(taken@[k] == before[k - 1]);
                }
            }
        }
    }
    let r = positions_of(&taken, dimensions);
    proof {
        assert forall|k: int| 0 <= k < r@.len() implies (#[trigger] r@[k]).row < dimensions.rows && r@[k].col
            < dimensions.cols by {
            lemma_cell_of_in_grid(taken@[k] as int, dimensions.rows as int, dimensions.cols as int);
            assert(cell_of(taken@[k] as int, dimensions.cols as int) == (r@[k].row as int, r@[k].col as int));
        }
        assert forall|a: int, b: int| 0 <= a < b < r@.len() implies r@[a] != r@[b] by {
            if r@[a] == r@[b] {
                assert(cell_of(taken@[a] as int, dimensions.cols as int) == (r@[a].row as int, r@[a].col as int));
                assert(cell_of(taken@[b] as int, dimensions.cols as int) == (r@[b].row as int, r@[b].col as int));
                lemma_cell_of_injective(taken@[a] as int, taken@[b] as int, dimensions.cols as int);
            }
        }
    }
    r
}


/// Why a sample cannot be taken at all.
#[derive(Debug, Clone, Copy, PartialEq, Eq)]
pub enum SampleError {
    /// The batch's metadata is not stored.
    BatchNotFound,
    /// The batch has no blob of the requested index.
    InvalidBlobIndex,
}

/// What sampling a blob amounts to.
#[derive(Debug)]
pub enum SamplePlan {
    /// The blob's geometry cannot be sampled: the sample fails.
    Skip,
    /// Sample the blob's grid, whose rows are stored at `location` in the
    /// segments of `data_root`.
    Sample { dimensions: Dimensions, data_root: [u8; 32], location: BlobLocation },
}

/// Both sides of the blob's grid are between one and `u16::MAX`.
pub open spec fn grid_ok(info: BlobDisperseInfo) -> bool {
    1 <= info.rows <= u16::MAX && 1 <= info.cols <= u16::MAX
}

/// The whole batch can be placed into segments.
pub open spec fn batch_placeable(infos: Seq<BlobDisperseInfo>) -> bool {
    fits_segments(infos) && total_rows(infos) <= u32::MAX
}

proof fn lemma_rows_upto_mono(infos: Seq<BlobDisperseInfo>, a: int, b: int)
    requires
        0 <= a <= b <= infos.len(),
    ensures
        rows_upto(infos, a) <= rows_upto(infos, b),
    decreases b - a,
{
    if a < b {
        lemma_rows_upto_mono(infos, a, b - 1);
    }
}

/// Whether every blob of the batch can be placed into segments.
pub fn check_placeable(infos: &Vec<BlobDisperseInfo>) -> (r: bool)
    ensures
        r == batch_placeable(infos@),
{
    let mut total: u64 = 0;
    let mut k: usize = 0;
    while k < infos.len()
        invariant
            k <= infos@.len(),
            total == rows_upto(infos@, k as int),
            total <= u32::MAX,
            forall|b: int| 0 <= b < k && infos@[b].rows > 0 ==> #[trigger] chunk_len(infos@[b]) <= SEGMENT_SIZE as int,
        decreases infos@.len() - k,
    {
        let info = infos[k];
        if info.rows > 0 && info.cols > (SEGMENT_SIZE - COMMITMENT_SIZE) / COEFF_SIZE {
            assert(chunk_len(infos@[k as int]) > SEGMENT_SIZE as int);
            return false;
        }
        total = total + info.rows as u64;
        if total > u32::MAX as u64 {
            proof {
                lemma_rows_upto_mono(infos@, k + 1, infos@.len() as int);
            }
            return false;
        }
        k += 1;
    }
    true
}

/// Decides how to sample blob `blob_index` of `batch` (absent when the batch
/// was not found).
pub fn plan_sample(batch: &Option<KVBatchInfo>, blob_index: u32) -> (r: Result<SamplePlan, SampleError>)
    ensures
        batch.is_none() ==> r == Err::<SamplePlan, SampleError>(SampleError::BatchNotFound),
        batch.is_some() ==> {
            let infos = batch.unwrap().blob_disperse_infos@;
            let idx = blob_index as int;
            if idx >= infos.len() {
                r == Err::<SamplePlan, SampleError>(SampleError::InvalidBlobIndex)
            } else if !grid_ok(infos[idx]) || !batch_placeable(infos) {
                r is Ok && r->Ok_0 is Skip
            } else {
                r is Ok && r->Ok_0 is Sample && r->Ok_0->dimensions == (Dimensions {
                    rows: infos[idx].rows as u16,
                    cols: infos[idx].cols as u16,
                }) && r->Ok_0->data_root == batch.unwrap().batch_header.data_root
                    && r->Ok_0->location.wf() && r->Ok_0->location.chunks() == allocation(infos)[idx]
            }
        },
{
    match batch {
        None => Err(SampleError::BatchNotFound),
        Some(b) => {
            let infos = &b.blob_disperse_infos;
            if infos.len() <= blob_index as usize {
                return Err(SampleError::InvalidBlobIndex);
            }
            let info = infos[blob_index as usize];
            if info.rows == 0 || info.cols == 0 || info.rows > u16::MAX as u32 || info.cols > u16::MAX as u32 {
                return Ok(SamplePlan::Skip);
            }
            if !check_placeable(infos) {
                return Ok(SamplePlan::Skip);
            }
            let mut locations = allocate_rows(infos);
            let location = locations.swap_remove(blob_index as usize);
            Ok(
                SamplePlan::Sample {
                    dimensions: Dimensions { rows: info.rows as u16, cols: info.cols as u16 },
                    data_root: b.batch_header.data_root,
                    location,
                },
            )
        },
    }
}

/// For each position, the segment that holds its row and the row's offset in
/// it.
pub fn cell_segments(location: &BlobLocation, positions: &Vec<Position>) -> (r: (Vec<usize>, Vec<usize>))
    requires
        location.wf(),
        forall|k: int| 0 <= k < positions@.len() ==> (#[trigger] positions@[k]).row < location.segment_indexes@.len(),
    ensures
        r.0@.len() == positions@.len(),
        r.1@.len() == positions@.len(),
        forall|k: int| 0 <= k < positions@.len() ==> (#[trigger] r.0@[k]) as int == location.chunks()[positions@[k].row as int].0
            && r.1@[k] as int == location.chunks()[positions@[k].row as int].1,
{
    let mut segs: Vec<usize> = Vec::new();
    let mut offs: Vec<usize> = Vec::new();
    let mut k: usize = 0;
    while k < positions.len()
        invariant
            k <= positions@.len(),
            location.wf(),
            forall|m: int| 0 <= m < positions@.len() ==> (#[trigger] positions@[m]).row < location.segment_indexes@.len(),
            segs@.len() == k,
            offs@.len() == k,
            forall|m: int| 0 <= m < k ==> (#[trigger] segs@[m]) as int == location.chunks()[positions@[m].row as int].0
                && offs@[m] as int == location.chunks()[positions@[m].row as int].1,
        decreases positions@.len() - k,
    {
        let row = positions[k].row as usize;
        segs.push(location.segment_indexes[row] as usize);
        offs.push(location.offsets[row] as usize);
        k += 1;
    }
    (segs, offs)
}

/// Copy of `data[from..to]`.
fn copy_range(data: &Vec<u8>, from: usize, to: usize) -> (r: Vec<u8>)
    requires
        from <= to <= data@.len(),
    ensures
        r@ == data@.subrange(from as int, to as int),
{
    let mut out: Vec<u8> = Vec::new();
    let mut k: usize = from;
    while k < to
        invariant
            from <= k <= to <= data@.len(),
            out@ == data@.subrange(from as int, k as int),
        decreases to - k,
    {
        out.push(data[k]);
        k += 1;
        assert(out@ =~= data@.subrange(from as int, k as int));
    }
    out
}

/// The row stored at `offset` of `segment` (`row_byte_size` bytes of
/// coefficients) and the commitment that follows it, if the segment holds
/// them.
pub fn extract_row(segment: &Vec<u8>, offset: usize, row_byte_size: usize) -> (r: Option<(Vec<u8>, Vec<u8>)>)
    ensures
        r.is_some() <==> offset + row_byte_size + COMMITMENT_SIZE <= segment@.len(),
        r.is_some() ==> r.unwrap().0@ == segment@.subrange(offset as int, offset + row_byte_size) && r.unwrap().1@
            == segment@.subrange(offset + row_byte_size, offset + row_byte_size + COMMITMENT_SIZE),
{
    let len = segment.len();
    if offset > len || row_byte_size > len - offset || COMMITMENT_SIZE as usize > len - offset - row_byte_size {
        return None;
    }
    let mid = offset + row_byte_size;
    let end = mid + COMMITMENT_SIZE as usize;
    Some((copy_range(segment, offset, mid), copy_range(segment, mid, end)))
}

/// The outcome of a whole sample from the outcome of each cell's check
/// (`None` where the check could not be carried out): it passes only if every
/// cell was checked and passed.
pub fn sample_verdict(cell_results: &Vec<Option<bool>>) -> (r: bool)
    ensures
        r == forall|k: int| 0 <= k < cell_results@.len() ==> #[trigger] cell_results@[k] == Some(true),
{
    let mut k: usize = 0;
    while k < cell_results.len()
        invariant
            k <= cell_results@.len(),
            forall|m: int| 0 <= m < k ==> #[trigger] cell_results@[m] == Some(true),
        decreases cell_results@.len() - k,
    {
        match cell_results[k] {
            Some(true) => {},
            _ => {
                return false;
            },
        }
        k += 1;
    }
    true
}


/// The cells drawn for a sample, and where their rows are stored.
#[derive(Debug)]
pub struct CellPlan {
    pub dimensions: Dimensions,
    pub data_root: [u8; 32],
    pub positions: Vec<Position>,
    /// For each position, the segment that holds its row.
    pub segment_indexes: Vec<usize>,
    /// For each position, the offset of its row in that segment.
    pub offsets: Vec<usize>,
}

/// Everything a sample of `times` cells of blob `blob_index` needs before the
/// download: `Ok(None)` when the blob's geometry cannot be sampled.
pub fn prepare_sample(batch: &Option<KVBatchInfo>, blob_index: u32, times: u32) -> (r: Result<
    Option<CellPlan>,
    SampleError,
>)
    ensures
        batch.is_none() ==> r == Err::<Option<CellPlan>, SampleError>(SampleError::BatchNotFound),
        batch.is_some() ==> {
            let infos = batch.unwrap().blob_disperse_infos@;
            let idx = blob_index as int;
            if idx >= infos.len() {
                r == Err::<Option<CellPlan>, SampleError>(SampleError::InvalidBlobIndex)
            } else if !grid_ok(infos[idx]) || !batch_placeable(infos) {
                r == Ok::<Option<CellPlan>, SampleError>(None)
            } else {
                r is Ok && r->Ok_0 is Some && {
                    let p = r->Ok_0->0;
                    let rows = infos[idx].rows as int;
                    let cols = infos[idx].cols as int;
                    &&& p.dimensions == (Dimensions { rows: rows as u16, cols: cols as u16 })
                    &&& p.data_root == batch.unwrap().batch_header.data_root
                    &&& p.positions@.len() == if times as int <= rows * cols {
                        times as int
                    } else {
                        rows * cols
                    }
                    &&& forall|a: int, b: int| 0 <= a < b < p.positions@.len() ==> p.positions@[a] != p.positions@[b]
                    &&& p.segment_indexes@.len() == p.positions@.len()
                    &&& p.offsets@.len() == p.positions@.len()
                    &&& forall|k: int| 0 <= k < p.positions@.len() ==> {
                        &&& (#[trigger] p.positions@[k]).row < rows
                        &&& p.positions@[k].col < cols
                        &&& p.segment_indexes@[k] as int == allocation(infos)[idx][p.positions@[k].row as int].0
                        &&& p.offsets@[k] as int == allocation(infos)[idx][p.positions@[k].row as int].1
                    }
                }
            }
        },
{
    match plan_sample(batch, blob_index) {
        Err(e) => Err(e),
        Ok(SamplePlan::Skip) => Ok(None),
        Ok(SamplePlan::Sample { dimensions, data_root, location }) => {
            let ghost infos = batch.unwrap().blob_disperse_infos@;
            proof {
                allocation_covers_rows(infos);
                assert(allocation(infos)[blob_index as int].len() == infos[blob_index as int].rows as int);
                assert(location.chunks().len() == location.segment_indexes@.len());
            }
            let positions = generate_random_cells(dimensions, times);
            let (segment_indexes, offsets) = cell_segments(&location, &positions);
            Ok(Some(CellPlan { dimensions, data_root, positions, segment_indexes, offsets }))
        },
    }
}

} // verus!

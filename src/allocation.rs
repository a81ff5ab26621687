use vstd::prelude::*;

use crate::types::{chunk_len, BlobDisperseInfo, BlobLocation, COEFF_SIZE, COMMITMENT_SIZE, SEGMENT_SIZE};

verus! {

/// Every blob that has rows can place one of them in an empty segment.
pub open spec fn fits_segments(infos: Seq<BlobDisperseInfo>) -> bool {
    forall|b: int|
        0 <= b < infos.len() && infos[b].rows > 0 ==> #[trigger] chunk_len(infos[b])
            <= SEGMENT_SIZE as int
}

/// Number of rows of the first `k` blobs.
pub open spec fn rows_upto(infos: Seq<BlobDisperseInfo>, k: int) -> int
    decreases k,
{
    if k <= 0 {
        0
    } else {
        rows_upto(infos, k - 1) + infos[k - 1].rows as int
    }
}

/// Number of rows of all blobs.
pub open spec fn total_rows(infos: Seq<BlobDisperseInfo>) -> int {
    rows_upto(infos, infos.len() as int)
}

/// State of the placement procedure.
pub struct AllocState {
    /// Lowest blob that may still have rows to place.
    pub i: int,
    /// Blob visited next.
    pub j: int,
    /// Bytes used so far in the open segment.
    pub offset: int,
    /// Number of the open segment.
    pub segment: int,
    /// For each blob, the `(segment, offset)` of each of its rows placed so far.
    pub placed: Seq<Seq<(int, int)>>,
}

pub open spec fn alloc_init(n: nat) -> AllocState {
    AllocState { i: 0, j: 0, offset: 0, segment: 0, placed: Seq::new(n, |b: int| Seq::empty()) }
}

/// The blob visited after `j`: the next one, or back to `i` after the last.
pub open spec fn next_blob(n: int, i: int, j: int) -> int {
    if j + 1 >= n {
        i
    } else {
        j + 1
    }
}

/// Closes the open segment (counting it if it holds a chunk) and restarts the
/// visit at blob `i` with an empty segment.
pub open spec fn alloc_close(s: AllocState) -> AllocState {
    AllocState {
        i: s.i,
        j: s.i,
        offset: 0,
        segment: if s.offset > 0 {
            s.segment + 1
        } else {
            s.segment
        },
        placed: s.placed,
    }
}

/// One visit of blob `s.j`: skip it if it is complete (moving `i` past it when
/// it is blob `i`), place its next row if that fits in the open segment, and
/// close the segment otherwise.
pub open spec fn alloc_step(infos: Seq<BlobDisperseInfo>, s: AllocState) -> AllocState {
    let n = infos.len() as int;
    let b = infos[s.j];
    if s.placed[s.j].len() == b.rows as int {
        let i2 = if s.j == s.i {
            s.i + 1
        } else {
            s.i
        };
        AllocState { i: i2, j: next_blob(n, i2, s.j), offset: s.offset, segment: s.segment, placed: s.placed }
    } else if s.offset + chunk_len(b) <= SEGMENT_SIZE as int {
        AllocState {
            i: s.i,
            j: next_blob(n, s.i, s.j),
            offset: s.offset + chunk_len(b),
            segment: s.segment,
            placed: s.placed.update(s.j, s.placed[s.j].push((s.segment, s.offset))),
        }
    } else {
        alloc_close(s)
    }
}

/// Rows of the first `k` blobs not yet placed.
pub open spec fn rows_left(infos: Seq<BlobDisperseInfo>, placed: Seq<Seq<(int, int)>>, k: int) -> int
    decreases k,
{
    if k <= 0 {
        0
    } else {
        rows_left(infos, placed, k - 1) + (infos[k - 1].rows as int - placed[k - 1].len())
    }
}

pub open spec fn alloc_measure(infos: Seq<BlobDisperseInfo>, s: AllocState) -> int {
    rows_left(infos, s.placed, infos.len() as int) + (infos.len() - s.i)
}

pub open spec fn alloc_flag(s: AllocState) -> int {
    if s.offset > 0 {
        1
    } else {
        0
    }
}

pub open spec fn alloc_dist(infos: Seq<BlobDisperseInfo>, s: AllocState) -> int {
    if s.j == s.i {
        0
    } else {
        infos.len() - s.j
    }
}

pub open spec fn alloc_wf(infos: Seq<BlobDisperseInfo>, s: AllocState) -> bool {
    let n = infos.len() as int;
    &&& fits_segments(infos)
    &&& 0 <= s.i <= n
    &&& s.i < n ==> s.i <= s.j < n
    &&& 0 <= s.offset <= SEGMENT_SIZE as int
    &&& s.placed.len() == n
    &&& forall|b: int| 0 <= b < n ==> #[trigger] s.placed[b].len() <= infos[b].rows as int
    &&& forall|b: int| 0 <= b < s.i ==> #[trigger] s.placed[b].len() == infos[b].rows as int
}

proof fn lemma_rows_left_nonneg(infos: Seq<BlobDisperseInfo>, placed: Seq<Seq<(int, int)>>, k: int)
    requires
        0 <= k <= infos.len(),
        k <= placed.len(),
        forall|b: int| 0 <= b < k ==> #[trigger] placed[b].len() <= infos[b].rows as int,
    ensures
        0 <= rows_left(infos, placed, k) <= rows_upto(infos, k),
    decreases k,
{
    if k > 0 {
        lemma_rows_left_nonneg(infos, placed, k - 1);
    }
}

proof fn lemma_rows_left_push(
    infos: Seq<BlobDisperseInfo>,
    placed: Seq<Seq<(int, int)>>,
    k: int,
    b: int,
    x: (int, int),
)
    requires
        0 <= k <= infos.len(),
        k <= placed.len(),
        0 <= b < placed.len(),
    ensures
        rows_left(infos, placed.update(b, placed[b].push(x)), k) == rows_left(infos, placed, k) - (
        if b < k {
            1int
        } else {
            0
        }),
    decreases k,
{
    if k > 0 {
        lemma_rows_left_push(infos, placed, k - 1, b, x);
    }
}

proof fn lemma_rows_left_init(infos: Seq<BlobDisperseInfo>, k: int)
    requires
        0 <= k <= infos.len(),
    ensures
        rows_left(infos, alloc_init(infos.len()).placed, k) == rows_upto(infos, k),
    decreases k,
{
    if k > 0 {
        lemma_rows_left_init(infos, k - 1);
    }
}

/// One step keeps the state well formed and decreases the termination measure.
pub proof fn lemma_step_wf(infos: Seq<BlobDisperseInfo>, s: AllocState)
    requires
        alloc_wf(infos, s),
        s.i < infos.len(),
    ensures
        alloc_wf(infos, alloc_step(infos, s)),
        decreases_to!(alloc_measure(infos, s), alloc_flag(s), alloc_dist(infos, s)
            => alloc_measure(infos, alloc_step(infos, s)), alloc_flag(alloc_step(infos, s)),
            alloc_dist(infos, alloc_step(infos, s))),
        alloc_measure(infos, alloc_step(infos, s)) <= alloc_measure(infos, s),
        alloc_measure(infos, alloc_step(infos, s)) == alloc_measure(infos, s) ==> alloc_step(
            infos,
            s,
        ).i == s.i && (s.offset == 0 ==> alloc_step(infos, s).offset == 0),
{
    let n = infos.len() as int;
    let t = alloc_step(infos, s);
    lemma_rows_left_nonneg(infos, s.placed, n);
    let b = infos[s.j];
    if s.placed[s.j].len() == b.rows as int {
        assert(t.placed == s.placed);
    } else if s.offset + chunk_len(b) <= SEGMENT_SIZE as int {
        lemma_rows_left_push(infos, s.placed, n, s.j, (s.segment, s.offset));
        assert forall|c: int| 0 <= c < n implies #[trigger] t.placed[c].len() <= infos[c].rows as int by {
            if c != s.j {
                assert(t.placed[c] == s.placed[c]);
            }
        }
        assert forall|c: int| 0 <= c < t.i implies #[trigger] t.placed[c].len() == infos[c].rows as int by {
            if c != s.j {
                assert(t.placed[c] == s.placed[c]);
            }
        }
        lemma_rows_left_nonneg(infos, t.placed, n);
    } else {
        assert(chunk_len(infos[s.j]) <= SEGMENT_SIZE as int);
    }
}

/// The placement reached from `s` by stepping until every blob is complete.
pub open spec fn alloc_run(infos: Seq<BlobDisperseInfo>, s: AllocState) -> Seq<Seq<(int, int)>>
    decreases alloc_measure(infos, s), alloc_flag(s), alloc_dist(infos, s),
    when alloc_wf(infos, s)
{
    if s.i >= infos.len() {
        s.placed
    } else {
        proof {
            lemma_step_wf(infos, s);
        }
        alloc_run(infos, alloc_step(infos, s))
    }
}

/// The placement of all rows of the blobs `infos`, in their order: for blob
/// `b`, the `(segment, offset)` of each of its rows.
pub open spec fn allocation(infos: Seq<BlobDisperseInfo>) -> Seq<Seq<(int, int)>> {
    alloc_run(infos, alloc_init(infos.len()))
}


/// Every placed row lies inside its segment.
pub open spec fn within_segments(infos: Seq<BlobDisperseInfo>, p: Seq<Seq<(int, int)>>) -> bool {
    forall|b: int, k: int|
        0 <= b < p.len() && 0 <= k < p[b].len() ==> {
            &&& 0 <= (#[trigger] p[b][k]).0
            &&& 0 <= p[b][k].1
            &&& p[b][k].1 + chunk_len(infos[b]) <= SEGMENT_SIZE as int
        }
}

/// Two different placed rows in one segment share no byte.
pub open spec fn no_overlap(infos: Seq<BlobDisperseInfo>, p: Seq<Seq<(int, int)>>) -> bool {
    forall|b1: int, k1: int, b2: int, k2: int|
        0 <= b1 < p.len() && 0 <= k1 < p[b1].len() && 0 <= b2 < p.len() && 0 <= k2 < p[b2].len()
            && (b1 != b2 || k1 != k2) && (#[trigger] p[b1][k1]).0 == (#[trigger] p[b2][k2]).0
            ==> p[b1][k1].1 + chunk_len(infos[b1]) <= p[b2][k2].1 || p[b2][k2].1 + chunk_len(
            infos[b2],
        ) <= p[b1][k1].1
}

/// Rows placed so far lie in closed segments or below the offset of the open one.
pub open spec fn below_cursor(infos: Seq<BlobDisperseInfo>, s: AllocState) -> bool {
    forall|b: int, k: int|
        0 <= b < s.placed.len() && 0 <= k < s.placed[b].len() ==> {
            &&& (#[trigger] s.placed[b][k]).0 <= s.segment
            &&& s.placed[b][k].0 == s.segment ==> s.placed[b][k].1 + chunk_len(infos[b]) <= s.offset
        }
}

pub open spec fn alloc_inv(infos: Seq<BlobDisperseInfo>, s: AllocState) -> bool {
    let n = infos.len() as int;
    &&& alloc_wf(infos, s)
    &&& 0 <= s.segment
    &&& s.segment + alloc_flag(s) <= rows_upto(infos, n) - rows_left(infos, s.placed, n)
    &&& within_segments(infos, s.placed)
    &&& no_overlap(infos, s.placed)
    &&& below_cursor(infos, s)
}

proof fn lemma_init_inv(infos: Seq<BlobDisperseInfo>)
    requires
        fits_segments(infos),
    ensures
        alloc_inv(infos, alloc_init(infos.len())),
{
    lemma_rows_left_init(infos, infos.len() as int);
}

proof fn lemma_close_inv(infos: Seq<BlobDisperseInfo>, s: AllocState)
    requires
        alloc_inv(infos, s),
    ensures
        alloc_inv(infos, alloc_close(s)),
        alloc_measure(infos, alloc_close(s)) == alloc_measure(infos, s),
{
    let t = alloc_close(s);
    assert forall|b: int, k: int| 0 <= b < t.placed.len() && 0 <= k < t.placed[b].len() implies {
        &&& (#[trigger] t.placed[b][k]).0 <= t.segment
        &&& t.placed[b][k].0 == t.segment ==> t.placed[b][k].1 + chunk_len(infos[b]) <= t.offset
    } by {
        assert(chunk_len(infos[b]) > 0);
    }
}

proof fn lemma_step_inv(infos: Seq<BlobDisperseInfo>, s: AllocState)
    requires
        alloc_inv(infos, s),
        s.i < infos.len(),
    ensures
        alloc_inv(infos, alloc_step(infos, s)),
{
    let n = infos.len() as int;
    let t = alloc_step(infos, s);
    lemma_step_wf(infos, s);
    let bj = infos[s.j];
    if s.placed[s.j].len() == bj.rows as int {
    } else if s.offset + chunk_len(bj) <= SEGMENT_SIZE as int {
        lemma_rows_left_push(infos, s.placed, n, s.j, (s.segment, s.offset));
        let p = s.placed;
        let q = t.placed;
        let last = p[s.j].len() as int;
        assert forall|b: int, k: int| 0 <= b < q.len() && 0 <= k < q[b].len() && !(b == s.j && k == last)
            implies #[trigger] q[b][k] == p[b][k] by {}
        assert(q[s.j][last] == (s.segment, s.offset));
        assert forall|b: int, k: int| 0 <= b < q.len() && 0 <= k < q[b].len() implies {
            &&& 0 <= (#[trigger] q[b][k]).0
            &&& 0 <= q[b][k].1
            &&& q[b][k].1 + chunk_len(infos[b]) <= SEGMENT_SIZE as int
        } by {
            if !(b == s.j && k == last) {
                assert(q[b][k] == p[b][k]);
            }
        }
        assert forall|b: int, k: int| 0 <= b < q.len() && 0 <= k < q[b].len() implies {
            &&& (#[trigger] q[b][k]).0 <= t.segment
            &&& q[b][k].0 == t.segment ==> q[b][k].1 + chunk_len(infos[b]) <= t.offset
        } by {
            if !(b == s.j && k == last) {
                assert(q[b][k] == p[b][k]);
            }
        }
        assert forall|b1: int, k1: int, b2: int, k2: int|
            0 <= b1 < q.len() && 0 <= k1 < q[b1].len() && 0 <= b2 < q.len() && 0 <= k2 < q[b2].len()
                && (b1 != b2 || k1 != k2) && (#[trigger] q[b1][k1]).0 == (#[trigger] q[b2][k2]).0
                implies q[b1][k1].1 + chunk_len(infos[b1]) <= q[b2][k2].1 || q[b2][k2].1 + chunk_len(
                infos[b2],
            ) <= q[b1][k1].1 by {
            let new1 = b1 == s.j && k1 == last;
            let new2 = b2 == s.j && k2 == last;
            if !new1 {
                assert(q[b1][k1] == p[b1][k1]);
            }
            if !new2 {
                assert(q[b2][k2] == p[b2][k2]);
            }
        }
    } else {
        lemma_close_inv(infos, s);
    }
}

/// Properties of the finished placement, by induction over the steps.
proof fn lemma_run_inv(infos: Seq<BlobDisperseInfo>, s: AllocState)
    requires
        alloc_inv(infos, s),
    ensures
        alloc_run(infos, s).len() == infos.len(),
        forall|b: int| 0 <= b < infos.len() ==> #[trigger] alloc_run(infos, s)[b].len() == infos[b].rows as int,
        within_segments(infos, alloc_run(infos, s)),
        no_overlap(infos, alloc_run(infos, s)),
    decreases alloc_measure(infos, s), alloc_flag(s), alloc_dist(infos, s),
{
    if s.i < infos.len() {
        lemma_step_wf(infos, s);
        lemma_step_inv(infos, s);
        lemma_run_inv(infos, alloc_step(infos, s));
    }
}

/// Every blob gets exactly as many placed rows as it has, and no two rows
/// placed in one segment share a byte.
pub proof fn allocation_covers_rows(infos: Seq<BlobDisperseInfo>)
    requires
        fits_segments(infos),
    ensures
        allocation(infos).len() == infos.len(),
        forall|b: int| 0 <= b < infos.len() ==> #[trigger] allocation(infos)[b].len() == infos[b].rows as int,
        no_overlap(infos, allocation(infos)),
{
    lemma_init_inv(infos);
    lemma_run_inv(infos, alloc_init(infos.len()));
}

/// Every placed row, with its commitment, ends at or before the end of its
/// segment.
pub proof fn allocation_within_segments(infos: Seq<BlobDisperseInfo>)
    requires
        fits_segments(infos),
    ensures
        within_segments(infos, allocation(infos)),
{
    lemma_init_inv(infos);
    lemma_run_inv(infos, alloc_init(infos.len()));
}


/// `r` holds, blob by blob, exactly the placement of `infos`.
pub open spec fn is_allocation_of(r: Seq<BlobLocation>, infos: Seq<BlobDisperseInfo>) -> bool {
    &&& r.len() == infos.len()
    &&& forall|b: int| 0 <= b < r.len() ==> #[trigger] r[b].wf() && r[b].chunks() == allocation(infos)[b]
}

/// Two results that both are the placement of one geometry sequence are equal
/// entry by entry.
pub proof fn allocation_deterministic(infos: Seq<BlobDisperseInfo>, r1: Seq<BlobLocation>, r2: Seq<BlobLocation>)
    requires
        is_allocation_of(r1, infos),
        is_allocation_of(r2, infos),
    ensures
        r1.len() == r2.len(),
        forall|b: int| 0 <= b < r1.len() ==> #[trigger] r1[b].segment_indexes@ == r2[b].segment_indexes@
            && r1[b].offsets@ == r2[b].offsets@,
{
    assert forall|b: int| 0 <= b < r1.len() implies #[trigger] r1[b].segment_indexes@ == r2[b].segment_indexes@
        && r1[b].offsets@ == r2[b].offsets@ by {
        let c1 = r1[b].chunks();
        let c2 = r2[b].chunks();
        assert(r1[b].wf() && r2[b].wf());
        assert(c1 == c2);
        assert(c1.len() == c2.len());
        assert forall|k: int| 0 <= k < c1.len() implies r1[b].segment_indexes@[k] == r2[b].segment_indexes@[k]
            && r1[b].offsets@[k] == r2[b].offsets@[k] by {
            assert(c1[k] == c2[k]);
        }
        assert(r1[b].segment_indexes@ =~= r2[b].segment_indexes@);
        assert(r1[b].offsets@ =~= r2[b].offsets@);
    }
}

/// Places every row of every blob into segments, in the order given.
///
/// Segments are filled one after another. Within a segment the blobs still
/// missing rows are visited round-robin, starting at the lowest such blob,
/// and each visit places one row of the visited blob; the segment is closed at
/// the first row that does not fit in what is left of it.
pub fn allocate_rows(blob_disperse_infos: &Vec<BlobDisperseInfo>) -> (r: Vec<BlobLocation>)
    requires
        fits_segments(blob_disperse_infos@),
        total_rows(blob_disperse_infos@) <= u32::MAX,
    ensures
        is_allocation_of(r@, blob_disperse_infos@),
{
    let ghost infos = blob_disperse_infos@;
    let n = blob_disperse_infos.len();
    let mut locations: Vec<BlobLocation> = Vec::new();
    let mut allocated: Vec<u32> = Vec::new();
    let mut k: usize = 0;
    while k < n
        invariant
            k <= n,
            n == infos.len(),
            locations@.len() == k,
            allocated@.len() == k,
            forall|b: int| 0 <= b < k ==> (#[trigger] locations@[b]).segment_indexes@.len() == 0
                && locations@[b].offsets@.len() == 0 && allocated@[b] == 0,
        decreases n - k,
    {
        locations.push(BlobLocation { segment_indexes: Vec::new(), offsets: Vec::new() });
        allocated.push(0);
        k += 1;
    }
    let ghost mut s = alloc_init(n as nat);
    proof {
        lemma_init_inv(infos);
        lemma_rows_left_nonneg(infos, s.placed, n as int);
        assert forall|b: int| 0 <= b < n implies (#[trigger] locations@[b]).chunks() == s.placed[b] by {
            assert(locations@[b].chunks() =~= s.placed[b]);
        }
    }
    let mut segments: u32 = 0;
    let mut i: usize = 0;
    while i < n
        invariant
            n == infos.len(),
            infos == blob_disperse_infos@,
            total_rows(infos) <= u32::MAX,
            alloc_inv(infos, s),
            alloc_run(infos, s) == allocation(infos),
            s.i == i,
            i < n ==> s.j == i,
            s.offset == 0,
            s.segment == segments,
            locations@.len() == n,
            allocated@.len() == n,
            forall|b: int| 0 <= b < n ==> (#[trigger] locations@[b]).wf() && locations@[b].chunks() == s.placed[b]
                && allocated@[b] == s.placed[b].len(),
        decreases alloc_measure(infos, s),
    {
        let mut offset: u32 = 0;
        let mut j: usize = i;
        let ghost m0 = alloc_measure(infos, s);
        let ghost i0 = s.i;
        while i < n
            invariant
                n == infos.len(),
                infos == blob_disperse_infos@,
                total_rows(infos) <= u32::MAX,
                alloc_inv(infos, s),
                alloc_run(infos, s) == allocation(infos),
                s.i == i,
                s.j == j,
                i < n ==> i <= j < n,
                s.offset == offset,
                s.segment == segments,
                alloc_measure(infos, s) <= m0,
                alloc_measure(infos, s) == m0 ==> offset == 0 && s.i == i0,
                i0 < n,
                locations@.len() == n,
                allocated@.len() == n,
                forall|b: int| 0 <= b < n ==> (#[trigger] locations@[b]).wf() && locations@[b].chunks() == s.placed[b]
                    && allocated@[b] == s.placed[b].len(),
            ensures
                s.i < n ==> s.offset > 0 && alloc_step(infos, s) == alloc_close(s),
            decreases alloc_measure(infos, s), alloc_flag(s), alloc_dist(infos, s),
        {
            proof {
                lemma_step_wf(infos, s);
                lemma_step_inv(infos, s);
                assert(locations@[j as int].wf());
                assert(allocated@[j as int] == s.placed[j as int].len());
            }
            if allocated[j] == blob_disperse_infos[j].rows {
                if j == i {
                    i += 1;
                }
            } else {
                assert(infos[j as int].rows > 0);
                assert(chunk_len(infos[j as int]) <= SEGMENT_SIZE as int);
                let l = blob_disperse_infos[j].cols * COEFF_SIZE + COMMITMENT_SIZE;
                if offset + l <= SEGMENT_SIZE {
                    proof {
                        lemma_rows_left_nonneg(infos, s.placed, n as int);
                    }
                    let ghost old_locs = locations@;
                    locations[j].segment_indexes.push(segments);
                    locations[j].offsets.push(offset);
                    allocated[j] = allocated[j] + 1;
                    offset += l;
                    proof {
                        let t = alloc_step(infos, s);
                        assert forall|b: int| 0 <= b < n implies (#[trigger] locations@[b]).wf()
                            && locations@[b].chunks() == t.placed[b] && allocated@[b] == t.placed[b].len() by {
                            if b == j {
                                assert(locations@[b].chunks() =~= t.placed[b]);
                            } else {
                                assert(locations@[b] == old_locs[b]);
                            }
                        }
                    }
                } else {
                    break;
                }
            }
            j += 1;
            if j >= n {
                j = i;
            }
            proof {
                s = alloc_step(infos, s);
            }
        }
        proof {
            lemma_rows_left_nonneg(infos, s.placed, n as int);
            lemma_close_inv(infos, s);
        }
        if offset > 0 {
            segments += 1;
        }
        proof {
            s = alloc_close(s);
        }
    }
    proof {
        assert(alloc_run(infos, s) == s.placed);
    }
    locations
}

} // verus!

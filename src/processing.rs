//! Ranking of frames by quality, and the split of the retained frames
//! into contiguous chunks, one per worker.
//!
//! A frame's quality is its sharpness score, a non-negative float. The
//! library holds it as the score's IEEE-754 bit pattern, an integer that
//! orders non-negative scores as the scores themselves are ordered.

use vstd::prelude::*;
use vstd::multiset::Multiset;
use vstd::seq_lib::{lemma_multiset_commutative, group_seq_properties};

verus! {

#[derive(Debug, Clone, Copy, PartialEq, Eq, Structural)]
pub enum ProcessStep {
    QualityEstimation,
    Calibration,
    Finalize,
}

#[derive(Debug, Clone, Copy, PartialEq, Eq, Structural)]
pub enum ProcessError {
    /// A top percentage of 0 or above 100.
    InvalidPercentage,
}

/// A frame of a source container and its quality.
#[derive(Debug, Clone)]
pub struct FrameRecord {
    pub source_file: String,
    pub frame_id: usize,
    /// The quality score as an order-preserving bit pattern.
    pub quality_value: u32,
}

impl FrameRecord {
    pub fn duplicate(&self) -> (r: FrameRecord)
        ensures
            r == *self,
    {
        FrameRecord {
            source_file: self.source_file.clone(),
            frame_id: self.frame_id,
            quality_value: self.quality_value,
        }
    }
}

/// Statistics of a run.
#[derive(Debug, Clone)]
pub struct ProcessReport {
    pub total_frames: usize,
    pub num_frames_used: usize,
    pub min_sigma: u32,
    pub max_sigma: u32,
    pub num_frames_discarded: usize,
    pub num_frames_discarded_min_sigma: usize,
    pub num_frames_discarded_max_sigma: usize,
    pub num_frames_discarded_top_percentage: usize,
    pub quality_values: Vec<u32>,
}

/// The qualities of the records.
pub open spec fn qualities(s: Seq<FrameRecord>) -> Seq<u32> {
    s.map_values(|r: FrameRecord| r.quality_value)
}

/// The lowest quality, or `u32::MAX` for no records.
pub open spec fn lowest_quality(s: Seq<u32>) -> u32
    decreases s.len(),
{
    if s.len() == 0 {
        u32::MAX
    } else {
        let m = lowest_quality(s.drop_last());
        if s.last() < m {
            s.last()
        } else {
            m
        }
    }
}

/// The highest quality, or 0 for no records.
pub open spec fn highest_quality(s: Seq<u32>) -> u32
    decreases s.len(),
{
    if s.len() == 0 {
        0
    } else {
        let m = highest_quality(s.drop_last());
        if s.last() > m {
            s.last()
        } else {
            m
        }
    }
}

pub open spec fn in_sigma_range(r: FrameRecord, min_sigma: u32, max_sigma: u32) -> bool {
    min_sigma <= r.quality_value <= max_sigma
}

pub open spec fn below_min(r: FrameRecord, min_sigma: u32) -> bool {
    r.quality_value < min_sigma
}

pub open spec fn above_max(r: FrameRecord, min_sigma: u32, max_sigma: u32) -> bool {
    r.quality_value >= min_sigma && r.quality_value > max_sigma
}

pub open spec fn passes(min_sigma: u32, max_sigma: u32) -> spec_fn(FrameRecord) -> bool {
    |x: FrameRecord| in_sigma_range(x, min_sigma, max_sigma)
}

pub open spec fn too_low(min_sigma: u32) -> spec_fn(FrameRecord) -> bool {
    |x: FrameRecord| below_min(x, min_sigma)
}

pub open spec fn too_high(min_sigma: u32, max_sigma: u32) -> spec_fn(FrameRecord) -> bool {
    |x: FrameRecord| above_max(x, min_sigma, max_sigma)
}

/// How many of `n` records the top `pct` percent are: `pct / 100 * n`,
/// rounded to the nearest integer, halves up.
pub open spec fn top_count(pct: int, n: int) -> int {
    (pct * n + 50) / 100
}

pub open spec fn sorted_by_quality(s: Seq<FrameRecord>) -> bool {
    forall|i: int, j: int| 0 <= i < j < s.len() ==> s[i].quality_value >= s[j].quality_value
}

impl ProcessReport {
    pub fn new() -> (r: ProcessReport)
        ensures
            r.total_frames == 0,
            r.num_frames_used == 0,
            r.min_sigma == u32::MAX,
            r.max_sigma == 0,
            r.num_frames_discarded == 0,
            r.num_frames_discarded_min_sigma == 0,
            r.num_frames_discarded_max_sigma == 0,
            r.num_frames_discarded_top_percentage == 0,
            r.quality_values@ == Seq::<u32>::empty(),
    {
        ProcessReport {
            total_frames: 0,
            num_frames_used: 0,
            min_sigma: u32::MAX,
            max_sigma: 0,
            num_frames_discarded: 0,
            num_frames_discarded_min_sigma: 0,
            num_frames_discarded_max_sigma: 0,
            num_frames_discarded_top_percentage: 0,
            quality_values: Vec::new(),
        }
    }

    /// Records a quality and widens the range seen.
    pub fn push_sigma(&mut self, s: u32)
        ensures
            final(self).quality_values@ == old(self).quality_values@.push(s),
            final(self).min_sigma == (if s < old(self).min_sigma {
                s
            } else {
                old(self).min_sigma
            }),
            final(self).max_sigma == (if s > old(self).max_sigma {
                s
            } else {
                old(self).max_sigma
            }),
            final(self).total_frames == old(self).total_frames,
            final(self).num_frames_used == old(self).num_frames_used,
            final(self).num_frames_discarded == old(self).num_frames_discarded,
            final(self).num_frames_discarded_min_sigma == old(self).num_frames_discarded_min_sigma,
            final(self).num_frames_discarded_max_sigma == old(self).num_frames_discarded_max_sigma,
            final(self).num_frames_discarded_top_percentage
                == old(self).num_frames_discarded_top_percentage,
    {
        self.quality_values.push(s);
        if s < self.min_sigma {
            self.min_sigma = s;
        }
        if s > self.max_sigma {
            self.max_sigma = s;
        }
    }

    /// Sets the total of discarded frames from its three causes.
    pub fn check_total_discarded(&mut self)
        requires
            old(self).num_frames_discarded_max_sigma + old(self).num_frames_discarded_min_sigma
                + old(self).num_frames_discarded_top_percentage <= usize::MAX,
        ensures
            final(self).num_frames_discarded == old(self).num_frames_discarded_max_sigma + old(
                self,
            ).num_frames_discarded_min_sigma + old(self).num_frames_discarded_top_percentage,
            final(self).quality_values == old(self).quality_values,
            final(self).total_frames == old(self).total_frames,
            final(self).num_frames_used == old(self).num_frames_used,
            final(self).min_sigma == old(self).min_sigma,
            final(self).max_sigma == old(self).max_sigma,
            final(self).num_frames_discarded_min_sigma == old(self).num_frames_discarded_min_sigma,
            final(self).num_frames_discarded_max_sigma == old(self).num_frames_discarded_max_sigma,
            final(self).num_frames_discarded_top_percentage
                == old(self).num_frames_discarded_top_percentage,
    {
        self.num_frames_discarded = self.num_frames_discarded_max_sigma
            + self.num_frames_discarded_min_sigma + self.num_frames_discarded_top_percentage;
    }
}

/// Every record occurs at most once and no two records share a quality.
pub open spec fn distinct_qualities(m: Multiset<FrameRecord>) -> bool {
    &&& forall|x: FrameRecord| #[trigger] m.count(x) <= 1
    &&& forall|x: FrameRecord, y: FrameRecord|
        #[trigger] m.count(x) > 0 && #[trigger] m.count(y) > 0 && x.quality_value
            == y.quality_value ==> x == y
}

/// `kept` is `k` records of `m`, sorted by descending quality, and no
/// record of `m` left out has a higher quality than a kept one.
pub open spec fn is_top_selection(kept: Seq<FrameRecord>, m: Multiset<FrameRecord>, k: int) -> bool {
    &&& kept.len() == k
    &&& sorted_by_quality(kept)
    &&& kept.to_multiset().subset_of(m)
    &&& forall|y: FrameRecord|
        m.count(y) > kept.to_multiset().count(y) ==> forall|i: int|
            0 <= i < kept.len() ==> kept[i].quality_value >= y.quality_value
}

/// Inserts a record into a list sorted by descending quality, after the
/// records of equal quality.
fn insert_by_quality(sorted: &mut Vec<FrameRecord>, rec: FrameRecord)
    requires
        sorted_by_quality(old(sorted)@),
    ensures
        sorted_by_quality(final(sorted)@),
        final(sorted)@.to_multiset() == old(sorted)@.to_multiset().insert(rec),
        final(sorted)@.len() == old(sorted)@.len() + 1,
{
    let mut pos: usize = 0;
    let len = sorted.len();
    while pos < len && sorted[pos].quality_value >= rec.quality_value
        invariant
            pos <= len,
            len == sorted@.len(),
            forall|i: int| 0 <= i < pos ==> sorted@[i].quality_value >= rec.quality_value,
        decreases len - pos,
    {
        pos += 1;
    }
    let ghost s = sorted@;
    sorted.insert(pos, rec);
    proof {
        broadcast use group_seq_properties;

        assert(sorted@ =~= s.subrange(0, pos as int).push(rec) + s.subrange(pos as int, s.len() as int));
        lemma_multiset_commutative(s.subrange(0, pos as int).push(rec), s.subrange(pos as int, s.len() as int));
        lemma_multiset_commutative(s.subrange(0, pos as int), s.subrange(pos as int, s.len() as int));
        assert(s =~= s.subrange(0, pos as int) + s.subrange(pos as int, s.len() as int));
        assert forall|i: int, j: int| 0 <= i < j < sorted@.len() implies sorted@[i].quality_value
            >= sorted@[j].quality_value by {
            if pos < len && j > pos {
                assert(s[pos as int].quality_value < rec.quality_value);
            }
        }
    }
}

/// The run's frame selection: records outside `[min_sigma, max_sigma]`
/// are discarded, the rest sorted by descending quality (equal qualities
/// in input order), and the top `limit_top_pct` percent of them kept.
pub fn select_frame_records(
    records: &Vec<FrameRecord>,
    total_frames: usize,
    min_sigma: u32,
    max_sigma: u32,
    limit_top_pct: u8,
) -> (r: Result<(Vec<FrameRecord>, ProcessReport), ProcessError>)
    ensures
        r is Err <==> (limit_top_pct == 0 || limit_top_pct > 100),
        r is Err ==> r == Err::<(Vec<FrameRecord>, ProcessReport), ProcessError>(
            ProcessError::InvalidPercentage,
        ),
        r matches Ok((kept, report)) ==> {
            let passed = records@.filter(passes(min_sigma, max_sigma));
            let n_min = records@.filter(too_low(min_sigma)).len();
            let n_max = records@.filter(too_high(min_sigma, max_sigma)).len();
            let keep = top_count(limit_top_pct as int, passed.len() as int);
            &&& is_top_selection(kept@, passed.to_multiset(), keep)
            &&& report.total_frames == total_frames
            &&& report.num_frames_used == keep
            &&& report.num_frames_discarded_min_sigma == n_min
            &&& report.num_frames_discarded_max_sigma == n_max
            &&& report.num_frames_discarded_top_percentage == passed.len() - keep
            &&& report.num_frames_discarded == n_min + n_max + (passed.len() - keep)
            &&& report.quality_values@ == qualities(records@)
            &&& report.min_sigma == lowest_quality(qualities(records@))
            &&& report.max_sigma == highest_quality(qualities(records@))
        },
{
    if limit_top_pct == 0 || limit_top_pct > 100 {
        return Err(ProcessError::InvalidPercentage);
    }
    let ghost in_range = passes(min_sigma, max_sigma);
    let ghost low = too_low(min_sigma);
    let ghost high = too_high(min_sigma, max_sigma);
    let mut report = ProcessReport::new();
    report.total_frames = total_frames;
    let mut sorted: Vec<FrameRecord> = Vec::new();
    let n = records.len();
    proof {
        reveal(Seq::filter);
        assert(records@.take(0) =~= Seq::<FrameRecord>::empty());
        assert(records@.take(0).filter(in_range) =~= Seq::<FrameRecord>::empty());
        assert(sorted@ =~= Seq::<FrameRecord>::empty());
    }
    let mut i: usize = 0;
    while i < n
        invariant
            n == records@.len(),
            i <= n,
            report.total_frames == total_frames,
            report.num_frames_used == 0,
            report.num_frames_discarded == 0,
            report.num_frames_discarded_top_percentage == 0,
            sorted_by_quality(sorted@),
            sorted@.to_multiset() == records@.take(i as int).filter(in_range).to_multiset(),
            in_range == passes(min_sigma, max_sigma),
            report.num_frames_discarded_min_sigma + report.num_frames_discarded_max_sigma
                + sorted@.len() == i,
            low == too_low(min_sigma),
            high == too_high(min_sigma, max_sigma),
            report.num_frames_discarded_min_sigma == records@.take(i as int).filter(low).len(),
            report.num_frames_discarded_max_sigma == records@.take(i as int).filter(high).len(),
            report.quality_values@ == qualities(records@.take(i as int)),
            report.min_sigma == lowest_quality(qualities(records@.take(i as int))),
            report.max_sigma == highest_quality(qualities(records@.take(i as int))),
        decreases n - i,
    {
        let rec = &records[i];
        proof {
            broadcast use group_seq_properties;

            assert(records@.take(i + 1) =~= records@.take(i as int).push(records@[i as int]));
            assert(qualities(records@.take(i + 1)) =~= qualities(records@.take(i as int)).push(
                rec.quality_value,
            ));
            assert(qualities(records@.take(i + 1)).drop_last() =~= qualities(records@.take(i as int)));
            records@.take(i as int).lemma_filter_push(records@[i as int], in_range);
            records@.take(i as int).lemma_filter_push(records@[i as int], low);
            records@.take(i as int).lemma_filter_push(records@[i as int], high);
        }
        report.push_sigma(rec.quality_value);
        let q = rec.quality_value;
        if q < min_sigma {
            assert(low(*rec));
            assert(records@.take(i + 1).filter(low) == records@.take(i as int).filter(low).push(*rec));
            report.num_frames_discarded_min_sigma = report.num_frames_discarded_min_sigma + 1;
        } else if q > max_sigma {
            assert(high(*rec));
            report.num_frames_discarded_max_sigma = report.num_frames_discarded_max_sigma + 1;
        }
        if q >= min_sigma && q <= max_sigma {
            insert_by_quality(&mut sorted, rec.duplicate());
            proof {
                broadcast use group_seq_properties;

                assert(in_range(*rec));
                assert(records@.take(i + 1).filter(in_range) == records@.take(i as int).filter(
                    in_range,
                ).push(*rec));
                assert(records@.take(i as int).filter(in_range).push(*rec).to_multiset()
                    =~= records@.take(i as int).filter(in_range).to_multiset().insert(*rec));
            }
        } else {
            assert(!in_range(*rec));
        }
        i += 1;
    }
    proof {
        assert(records@.take(n as int) =~= records@);
    }
    let ghost passed = records@.filter(in_range);
    let m = sorted.len();
    assert((limit_top_pct as u128) * (m as u128) <= 100 * 0xFFFF_FFFF_FFFF_FFFF) by (nonlinear_arith)
        requires
            limit_top_pct <= 100,
            m <= 0xFFFF_FFFF_FFFF_FFFF,
    ;
    let keep128 = (limit_top_pct as u128 * m as u128 + 50) / 100;
    assert(keep128 <= m) by (nonlinear_arith)
        requires
            keep128 == (limit_top_pct * m + 50) / 100,
            limit_top_pct <= 100,
    ;
    let keep = keep128 as usize;
    assert(keep <= m) by (nonlinear_arith)
        requires
            keep == (limit_top_pct * m + 50) / 100,
            limit_top_pct <= 100,
    ;
    let ghost full = sorted@;
    sorted.truncate(keep);
    proof {
        broadcast use group_seq_properties;

        let rest = full.subrange(keep as int, m as int);
        assert(full =~= sorted@ + rest);
        lemma_multiset_commutative(sorted@, rest);
        assert(passed.len() == m) by {
            assert(passed.to_multiset().len() == sorted@.len() + rest.len());
        }
        assert forall|y: FrameRecord|
            passed.to_multiset().count(y) > sorted@.to_multiset().count(y) implies forall|k: int|
            0 <= k < sorted@.len() ==> sorted@[k].quality_value >= y.quality_value by {
            assert(rest.to_multiset().count(y) > 0);
            assert(rest.contains(y));
            let j = choose|j: int| 0 <= j < rest.len() && rest[j] == y;
            assert(full[keep + j] == y);
        }
    }
    report.num_frames_used = keep;
    report.num_frames_discarded_top_percentage = m - keep;
    report.check_total_discarded();
    Ok((sorted, report))
}

/// Items per chunk when `len` items go to `workers` workers: `len /
/// workers` rounded up.
pub open spec fn chunk_size(len: int, workers: int) -> int {
    if len == 0 {
        0
    } else {
        (len - 1) / workers + 1
    }
}

/// The half-open range of item indices of chunk `k`.
pub open spec fn chunk_range(len: int, workers: int, k: int) -> (int, int) {
    let size = chunk_size(len, workers);
    (k * size, if (k + 1) * size < len {
        (k + 1) * size
    } else {
        len
    })
}

/// Each chunk is the range `chunk_range` gives for its position, and not
/// empty.
pub open spec fn chunks_ok(s: Seq<(usize, usize)>, len: int, workers: int) -> bool {
    forall|k: int|
        0 <= k < s.len() ==> #[trigger] s[k].0 == chunk_range(len, workers, k).0 && s[k].1
            == chunk_range(len, workers, k).1 && s[k].0 < s[k].1
}

/// Splits `len` items, in order, into contiguous chunks of `chunk_size`
/// items, the last possibly shorter: at most one chunk per worker. Each
/// chunk is a half-open range of item indices.
pub fn partition_chunks(len: usize, workers: usize) -> (r: Vec<(usize, usize)>)
    requires
        workers >= 1,
    ensures
        r@.len() <= workers,
        r@.len() == 0 <==> len == 0,
        r@.len() > 0 ==> r@.last().1 == len,
        chunks_ok(r@, len as int, workers as int),
{
    let size = if len == 0 {
        0
    } else {
        (len - 1) / workers + 1
    };
    proof {
        let li = len as int;
        let wi = workers as int;
        if li > 0 {
            vstd::arithmetic::div_mod::lemma_fundamental_div_mod(li - 1, wi);
            assert(size * wi >= li) by (nonlinear_arith)
                requires
                    li - 1 == wi * ((li - 1) / wi) + (li - 1) % wi,
                    0 <= (li - 1) % wi < wi,
                    size == (li - 1) / wi + 1,
            ;
        }
    }
    let mut out: Vec<(usize, usize)> = Vec::new();
    let mut start: usize = 0;
    while start < len
        invariant
            size == chunk_size(len as int, workers as int),
            size * workers >= len,
            start <= len,
            start < len ==> start == out@.len() * size,
            out@.len() > 0 ==> out@.last().1 == start,
            out@.len() <= workers,
            out@.len() == 0 ==> start == 0,
            out@.len() > 0 ==> start > 0,
            chunks_ok(out@, len as int, workers as int),
        decreases len - start,
    {
        let k = out.len();
        proof {
            assert(size >= 1) by (nonlinear_arith)
                requires
                    size * workers >= len,
                    start < len,
            ;
            assert(k < workers) by (nonlinear_arith)
                requires
                    start == k * size,
                    start < len,
                    size * workers >= len,
                    size >= 1,
            ;
            assert((k + 1) * size == start + size) by (nonlinear_arith)
                requires
                    start == k * size,
            ;
        }
        let end = if len - start > size {
            start + size
        } else {
            len
        };
        out.push((start, end));
        start = end;
    }
    out
}

proof fn lemma_repeated_element(s: Seq<FrameRecord>, i: int, j: int)
    requires
        0 <= i < s.len(),
        0 <= j < s.len(),
        i != j,
        s[i] == s[j],
    ensures
        s.to_multiset().count(s[i]) >= 2,
{
    broadcast use group_seq_properties;
    broadcast use vstd::multiset::group_multiset_axioms;

    s.to_multiset_ensures();
    let r = s.remove(i);
    r.to_multiset_ensures();
    let jj = if j < i {
        j
    } else {
        j - 1
    };
    assert(r[jj] == s[i]);
    assert(r.contains(s[i]));
    assert(r.to_multiset() == s.to_multiset().remove(s[i]));
    assert(r.to_multiset().count(s[i]) > 0);
    assert(s.to_multiset().remove(s[i]).count(s[i]) > 0);
}

proof fn lemma_top_selection_prefix(
    a: Seq<FrameRecord>,
    b: Seq<FrameRecord>,
    m: Multiset<FrameRecord>,
    k: int,
    i: int,
)
    requires
        is_top_selection(a, m, k),
        is_top_selection(b, m, k),
        distinct_qualities(m),
        0 <= i <= k,
    ensures
        forall|j: int| 0 <= j < i ==> a[j] == b[j],
    decreases i,
{
    broadcast use group_seq_properties;

    if i > 0 {
        let n = i - 1;
        lemma_top_selection_prefix(a, b, m, k, n);
        assert(a.contains(a[n]));
        assert(b.contains(b[n]));
        assert(m.count(a[n]) > 0);
        assert(m.count(b[n]) > 0);
        if a[n] != b[n] {
            assert(a[n].quality_value != b[n].quality_value);
            lemma_top_selection_step(a, b, m, k, n);
            lemma_top_selection_step(b, a, m, k, n);
        }
    }
}

/// Where the first `n` records of two top selections agree, the record
/// of higher quality at position `n` cannot be missing from the other.
proof fn lemma_top_selection_step(a: Seq<FrameRecord>, b: Seq<FrameRecord>, m: Multiset<FrameRecord>, k: int, n: int)
    requires
        is_top_selection(a, m, k),
        is_top_selection(b, m, k),
        distinct_qualities(m),
        0 <= n < k,
        forall|j: int| 0 <= j < n ==> a[j] == b[j],
    ensures
        a[n].quality_value <= b[n].quality_value,
{
    broadcast use group_seq_properties;

    if a[n].quality_value > b[n].quality_value {
        assert(a.contains(a[n]));
        assert(m.count(a[n]) > 0);
        assert forall|j: int| 0 <= j < b.len() implies b[j] != a[n] by {
            if j < n {
                if b[j] == a[n] {
                    lemma_repeated_element(a, n, j);
                    assert(m.count(a[n]) >= a.to_multiset().count(a[n]));
                }
            } else {
                assert(b[j].quality_value <= b[n].quality_value);
            }
        }
        assert(!b.contains(a[n]));
        assert(b.to_multiset().count(a[n]) == 0);
        assert(b[n].quality_value >= a[n].quality_value);
    }
}

/// Two top selections of the same size from records of distinct qualities
/// are the same sequence.
pub proof fn lemma_top_selection_unique(a: Seq<FrameRecord>, b: Seq<FrameRecord>, m: Multiset<FrameRecord>, k: int)
    requires
        is_top_selection(a, m, k),
        is_top_selection(b, m, k),
        distinct_qualities(m),
    ensures
        a == b,
{
    lemma_top_selection_prefix(a, b, m, k, k);
    assert(a =~= b);
}

proof fn lemma_filter_to_multiset(s: Seq<FrameRecord>, p: spec_fn(FrameRecord) -> bool)
    ensures
        s.filter(p).to_multiset() =~= s.to_multiset().filter(p),
    decreases s.len(),
{
    broadcast use group_seq_properties;
    broadcast use vstd::multiset::group_multiset_axioms;

    if s.len() == 0 {
        reveal(Seq::filter);
        assert(s.filter(p) =~= Seq::<FrameRecord>::empty());
    } else {
        let t = s.drop_last();
        lemma_filter_to_multiset(t, p);
        assert(s =~= t.push(s.last()));
        t.lemma_filter_push(s.last(), p);
    }
}

/// With distinct qualities, the records a selection keeps do not depend on
/// the order the records come in: any two orders of the same records give
/// the same kept sequence.
pub proof fn lemma_selection_ignores_input_order(
    ra: Seq<FrameRecord>,
    rb: Seq<FrameRecord>,
    min_sigma: u32,
    max_sigma: u32,
    pct: int,
    ka: Seq<FrameRecord>,
    kb: Seq<FrameRecord>,
)
    requires
        ra.to_multiset() == rb.to_multiset(),
        distinct_qualities(ra.to_multiset()),
        is_top_selection(
            ka,
            ra.filter(passes(min_sigma, max_sigma)).to_multiset(),
            top_count(pct, ra.filter(passes(min_sigma, max_sigma)).len() as int),
        ),
        is_top_selection(
            kb,
            rb.filter(passes(min_sigma, max_sigma)).to_multiset(),
            top_count(pct, rb.filter(passes(min_sigma, max_sigma)).len() as int),
        ),
    ensures
        ka == kb,
{
    broadcast use group_seq_properties;
    broadcast use vstd::multiset::group_multiset_axioms;

    let p = passes(min_sigma, max_sigma);
    lemma_filter_to_multiset(ra, p);
    lemma_filter_to_multiset(rb, p);
    let m = ra.filter(p).to_multiset();
    assert(m == rb.filter(p).to_multiset());
    ra.filter(p).to_multiset_ensures();
    rb.filter(p).to_multiset_ensures();
    assert(ra.filter(p).len() == rb.filter(p).len());
    assert(distinct_qualities(m));
    lemma_top_selection_unique(ka, kb, m, top_count(pct, ra.filter(p).len() as int));
}

} // verus!

//! Solve-pipeline control data: the pipeline stages and the ladder of
//! centroid counts tried during pattern matching.

use vstd::prelude::*;

verus! {

/// Pipeline stage, delivered to a progress callback as work proceeds.
#[derive(Debug, Clone, Copy, PartialEq, Eq, Structural)]
pub enum SolveStage {
    Detect,
    LoadIndex,
    Match,
    Verify,
    Refine,
    Overlay,
}

/// Fewest detections worth a solve attempt.
pub const MIN_DETECTIONS: usize = 4;

/// The base centroid counts of the retry ladder.
pub open spec fn ladder_bases() -> Seq<usize> {
    seq![8usize, 10, 12, 16, 20, 30]
}

/// Ladder built from the first `k` bases: each base capped at `n`, kept when
/// it reaches the minimum and has not appeared yet.
pub open spec fn ladder_upto(n: usize, k: int) -> Seq<usize>
    decreases k,
{
    if k <= 0 {
        Seq::empty()
    } else {
        let prev = ladder_upto(n, k - 1);
        let b = ladder_bases()[k - 1];
        let c = if b < n { b } else { n };
        if c >= MIN_DETECTIONS && !prev.contains(c) {
            prev.push(c)
        } else {
            prev
        }
    }
}

/// Centroid-count prefixes tried, in order: the bases 8, 10, 12, 16, 20, 30
/// capped at `n`, deduplicated, those below the minimum dropped; when none
/// remains and `n` reaches the minimum, just `n`.
pub open spec fn spec_ladder(n: usize) -> Seq<usize> {
    let l = ladder_upto(n, 6);
    if l.len() == 0 && n >= MIN_DETECTIONS {
        seq![n]
    } else {
        l
    }
}

/// Centroid-count prefixes to try, in order, deduplicated and capped to `n`.
pub fn ladder_prefixes(n: usize) -> (out: Vec<usize>)
    ensures
        out@ == spec_ladder(n),
{
    let bases: [usize; 6] = [8, 10, 12, 16, 20, 30];
    assert(bases@ =~= ladder_bases());
    let mut out: Vec<usize> = Vec::new();
    let mut i: usize = 0;
    while i < 6
        invariant
            i <= 6,
            bases@ == ladder_bases(),
            out@ == ladder_upto(n, i as int),
        decreases 6 - i,
    {
        let base = bases[i];
        let k = if base < n { base } else { n };
        let mut present = false;
        let mut j: usize = 0;
        while j < out.len()
            invariant
                j <= out@.len(),
                present == (exists|t: int| 0 <= t < j && out@[t] == k),
            decreases out.len() - j,
        {
            if out[j] == k {
                present = true;
            }
            j = j + 1;
        }
        proof {
            if present {
                let t = choose|t: int| 0 <= t < out@.len() && out@[t] == k;
                assert(out@.contains(k));
            } else {
                assert(!out@.contains(k));
            }
        }
        if k >= MIN_DETECTIONS && !present {
            out.push(k);
        }
        i = i + 1;
    }
    if out.len() == 0 && n >= MIN_DETECTIONS {
        out.push(n);
        assert(out@ =~= seq![n]);
    }
    out
}

/// Every ladder entry is between the minimum and `n`, and no entry repeats.
pub proof fn lemma_ladder_bounded_distinct(n: usize)
    ensures
        forall|i: int| 0 <= i < spec_ladder(n).len() ==> MIN_DETECTIONS <= #[trigger] spec_ladder(n)[i] <= n,
        forall|i: int, j: int|
            0 <= i < j < spec_ladder(n).len() ==> #[trigger] spec_ladder(n)[i] != #[trigger] spec_ladder(n)[j],
{
    lemma_ladder_upto(n, 6);
}

proof fn lemma_ladder_upto(n: usize, k: int)
    requires
        0 <= k <= 6,
    ensures
        forall|i: int| 0 <= i < ladder_upto(n, k).len() ==> MIN_DETECTIONS <= #[trigger] ladder_upto(n, k)[i] <= n,
        forall|i: int, j: int|
            0 <= i < j < ladder_upto(n, k).len() ==> #[trigger] ladder_upto(n, k)[i] != #[trigger] ladder_upto(n, k)[j],
    decreases k,
{
    if k > 0 {
        lemma_ladder_upto(n, k - 1);
        let prev = ladder_upto(n, k - 1);
        let b = ladder_bases()[k - 1];
        let c = if b < n { b } else { n };
        if c >= MIN_DETECTIONS && !prev.contains(c) {
            assert forall|i: int, j: int| 0 <= i < j < prev.push(c).len() implies #[trigger] prev.push(c)[i] != #[trigger] prev.push(c)[j] by {
                if j == prev.len() {
                    assert(prev[i] == prev.push(c)[i]);
                }
            }
        }
    }
}

/// Name of a stage as reported in progress events.
pub open spec fn stage_name(stage: SolveStage) -> Seq<char> {
    match stage {
        SolveStage::Detect => "detect"@,
        SolveStage::LoadIndex => "load_index"@,
        SolveStage::Match => "match"@,
        SolveStage::Verify => "verify"@,
        SolveStage::Refine => "refine"@,
        SolveStage::Overlay => "overlay"@,
    }
}

/// The progress-event name of a stage.
pub fn stage_to_string(stage: SolveStage) -> (r: &'static str)
    ensures
        r@ == stage_name(stage),
{
    match stage {
        SolveStage::Detect => "detect",
        SolveStage::LoadIndex => "load_index",
        SolveStage::Match => "match",
        SolveStage::Verify => "verify",
        SolveStage::Refine => "refine",
        SolveStage::Overlay => "overlay",
    }
}

} // verus!

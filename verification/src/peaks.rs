//! Peak detection of the benchmark solver: local maxima of a grayscale frame,
//! ranked brightest first and thinned by non-maximum suppression.

use vstd::prelude::*;
use vstd::relations::{sorted_by, total_ordering};

use crate::raster::GrayImage;

verus! {

/// A candidate star: pixel position, gray value and rank (1 for the first).
#[derive(Debug, Clone, Copy, PartialEq, Eq, Structural)]
pub struct DetectionCandidate {
    pub x_px: i32,
    pub y_px: i32,
    pub intensity: u8,
    pub rank: usize,
}

/// Peak-detection settings.
#[derive(Debug, Clone, Copy, PartialEq, Eq, Structural)]
pub struct DetectionConfig {
    /// Dimmest gray value a peak may have.
    pub min_peak_value: u8,
    /// Candidates within this distance (pixels) of a better one are dropped.
    pub non_max_radius_px: u32,
    /// Most candidates kept.
    pub max_candidates: usize,
}

impl DetectionConfig {
    /// The defaults: peaks of at least 24, suppression radius 4, at most 64.
    pub fn new_default() -> (c: DetectionConfig)
        ensures
            c.min_peak_value == 24,
            c.non_max_radius_px == 4,
            c.max_candidates == 64,
    {
        DetectionConfig { min_peak_value: 24, non_max_radius_px: 4, max_candidates: 64 }
    }
}

/// Pixel `(x, y)` is at least as bright as every 8-neighbour.
pub open spec fn local_max(image: GrayImage, x: int, y: int, center: u8) -> bool {
    forall|dx: int, dy: int|
        #![trigger image.at(x + dx, y + dy)]
        -1 <= dx <= 1 && -1 <= dy <= 1 && !(dx == 0 && dy == 0) ==> image.at(x + dx, y + dy)
            <= center
}

/// Pixel `(x, y)` is an interior peak: not on the border, at least
/// `min_peak` bright and no darker than any neighbour.
pub open spec fn is_peak(image: GrayImage, min_peak: u8, x: int, y: int) -> bool {
    &&& 1 <= x < image.width - 1
    &&& 1 <= y < image.height - 1
    &&& image.at(x, y) >= min_peak
    &&& local_max(image, x, y, image.at(x, y))
}

/// `s` lists every peak of `image` once, each with its gray value.
pub open spec fn lists_peaks(image: GrayImage, min_peak: u8, s: Seq<(i32, i32, u8)>) -> bool {
    &&& s.no_duplicates()
    &&& forall|k: int|
        0 <= k < s.len() ==> is_peak(image, min_peak, #[trigger] s[k].0 as int, s[k].1 as int)
            && s[k].2 == image.at(s[k].0 as int, s[k].1 as int)
    &&& forall|x: int, y: int|
        #[trigger] is_peak(image, min_peak, x, y) ==> exists|k: int|
            0 <= k < s.len() && #[trigger] s[k].0 == x && s[k].1 == y
}

/// Ranking order: brighter first, then by row, then by column.
pub open spec fn ranks_le(a: (i32, i32, u8), b: (i32, i32, u8)) -> bool {
    a.2 > b.2 || (a.2 == b.2 && (a.1 < b.1 || (a.1 == b.1 && a.0 <= b.0)))
}

/// The ranking order as a relation.
pub open spec fn rank_order() -> spec_fn((i32, i32, u8), (i32, i32, u8)) -> bool {
    |a: (i32, i32, u8), b: (i32, i32, u8)| ranks_le(a, b)
}

/// `b` lies within `radius` pixels (Euclidean) of `a`.
pub open spec fn within_radius(a: (i32, i32, u8), b: (i32, i32, u8), radius: u32) -> bool {
    (a.0 - b.0) * (a.0 - b.0) + (a.1 - b.1) * (a.1 - b.1) <= radius * radius
}

/// Some candidate of `kept` lies within `radius` of `c`.
pub open spec fn near_kept(kept: Seq<(i32, i32, u8)>, c: (i32, i32, u8), radius: u32) -> bool {
    exists|t: int| 0 <= t < kept.len() && #[trigger] within_radius(kept[t], c, radius)
}

/// Greedy non-maximum suppression over the first `k` entries of `s`: an
/// entry is kept unless `max` entries are already kept or a kept entry lies
/// within `radius` of it.
pub open spec fn suppress(s: Seq<(i32, i32, u8)>, radius: u32, max: nat, k: int) -> Seq<(i32, i32, u8)>
    decreases k,
{
    if k <= 0 {
        Seq::empty()
    } else {
        let prev = suppress(s, radius, max, k - 1);
        if prev.len() >= max || near_kept(prev, s[k - 1], radius) {
            prev
        } else {
            prev.push(s[k - 1])
        }
    }
}

/// Candidates numbered from rank 1 in list order.
pub open spec fn ranked(kept: Seq<(i32, i32, u8)>, out: Seq<DetectionCandidate>) -> bool {
    &&& out.len() == kept.len()
    &&& forall|i: int|
        0 <= i < out.len() ==> (#[trigger] out[i]).x_px == kept[i].0 && out[i].y_px == kept[i].1
            && out[i].intensity == kept[i].2 && out[i].rank == i + 1
}

// ---------------------------------------------------------------------------
// Laws
// ---------------------------------------------------------------------------

/// The ranking order is a total order.
pub proof fn lemma_rank_order_total()
    ensures
        total_ordering(rank_order()),
{
    let r = rank_order();
    assert forall|a: (i32, i32, u8), b: (i32, i32, u8)| #[trigger] r(a, b) && #[trigger] r(b, a) implies a == b by {
    }
    assert forall|a: (i32, i32, u8), b: (i32, i32, u8), c: (i32, i32, u8)| #[trigger] r(a, b) && #[trigger] r(b, c) implies r(a, c) by {
    }
}

/// Once `max` entries are kept, nothing further is kept.
proof fn lemma_suppress_capped(s: Seq<(i32, i32, u8)>, radius: u32, max: nat, k: int, m: int)
    requires
        0 <= k <= m,
        suppress(s, radius, max, k).len() >= max,
    ensures
        suppress(s, radius, max, m) == suppress(s, radius, max, k),
    decreases m - k,
{
    if k < m {
        lemma_suppress_capped(s, radius, max, k, m - 1);
    }
}

/// Suppression keeps at most `max` entries, each from `s`, and no two kept
/// entries lie within `radius` of each other.
pub proof fn lemma_suppress_spread(s: Seq<(i32, i32, u8)>, radius: u32, max: nat, k: int)
    requires
        0 <= k <= s.len(),
    ensures
        ({
            let kept = suppress(s, radius, max, k);
            &&& kept.len() <= max
            &&& forall|t: int| 0 <= t < kept.len() ==> s.contains(#[trigger] kept[t])
            &&& forall|t: int, u: int|
                0 <= t < u < kept.len() ==> !within_radius(#[trigger] kept[t], #[trigger] kept[u], radius)
        }),
    decreases k,
{
    if k > 0 {
        lemma_suppress_spread(s, radius, max, k - 1);
        let prev = suppress(s, radius, max, k - 1);
        let kept = suppress(s, radius, max, k);
        if !(prev.len() >= max || near_kept(prev, s[k - 1], radius)) {
            assert forall|t: int| 0 <= t < kept.len() implies s.contains(#[trigger] kept[t]) by {
                if t < prev.len() {
                    assert(kept[t] == prev[t]);
                } else {
                    assert(kept[t] == s[k - 1]);
                }
            }
            assert forall|t: int, u: int|
                0 <= t < u < kept.len() implies !within_radius(#[trigger] kept[t], #[trigger] kept[u], radius) by {
                if u < prev.len() {
                    assert(kept[t] == prev[t] && kept[u] == prev[u]);
                } else {
                    assert(kept[u] == s[k - 1]);
                    assert(kept[t] == prev[t]);
                }
            }
        }
    }
}

/// Suppression stops early only once `max` entries are kept: while fewer
/// than `max` are kept, every entry of `s` considered is either kept or lies
/// within `radius` of a kept entry.
pub proof fn lemma_suppress_covers(s: Seq<(i32, i32, u8)>, radius: u32, max: nat, k: int)
    requires
        0 <= k <= s.len(),
    ensures
        ({
            let kept = suppress(s, radius, max, k);
            kept.len() < max ==> forall|j: int|
                0 <= j < k ==> kept.contains(#[trigger] s[j]) || near_kept(kept, s[j], radius)
        }),
    decreases k,
{
    if k > 0 {
        lemma_suppress_covers(s, radius, max, k - 1);
        let prev = suppress(s, radius, max, k - 1);
        let kept = suppress(s, radius, max, k);
        if kept.len() < max {
            assert(prev.len() <= kept.len());
            assert forall|j: int| 0 <= j < k implies kept.contains(#[trigger] s[j]) || near_kept(kept, s[j], radius) by {
                if j < k - 1 {
                    if prev.contains(s[j]) {
                        let t = choose|t: int| 0 <= t < prev.len() && prev[t] == s[j];
                        assert(kept[t] == prev[t]);
                    } else {
                        let t = choose|t: int| 0 <= t < prev.len() && #[trigger] within_radius(prev[t], s[j], radius);
                        assert(kept[t] == prev[t]);
                        assert(within_radius(kept[t], s[j], radius));
                    }
                } else if near_kept(prev, s[j], radius) {
                    let t = choose|t: int| 0 <= t < prev.len() && #[trigger] within_radius(prev[t], s[j], radius);
                    assert(kept[t] == prev[t]);
                    assert(within_radius(kept[t], s[j], radius));
                } else {
                    assert(kept[prev.len() as int] == s[j]);
                }
            }
        }
    }
}

/// Any two listings of the peaks of an image rank into the same order, so
/// the ranked candidate list of an image is unique.
pub proof fn lemma_ranked_peaks_unique(image: GrayImage, min_peak: u8, s1: Seq<(i32, i32, u8)>, s2: Seq<(i32, i32, u8)>)
    requires
        lists_peaks(image, min_peak, s1),
        lists_peaks(image, min_peak, s2),
    ensures
        s1.sort_by(rank_order()) == s2.sort_by(rank_order()),
{
    broadcast use vstd::seq_lib::group_to_multiset_ensures;

    lemma_rank_order_total();
    s1.lemma_multiset_has_no_duplicates();
    s2.lemma_multiset_has_no_duplicates();
    assert forall|c: (i32, i32, u8)| s1.contains(c) == s2.contains(c) by {
        if s1.contains(c) {
            let k = choose|k: int| 0 <= k < s1.len() && s1[k] == c;
            assert(is_peak(image, min_peak, s1[k].0 as int, s1[k].1 as int));
            let j = choose|j: int| 0 <= j < s2.len() && #[trigger] s2[j].0 == c.0 && s2[j].1 == c.1;
            assert(s2[j] == c);
        }
        if s2.contains(c) {
            let k = choose|k: int| 0 <= k < s2.len() && s2[k] == c;
            assert(is_peak(image, min_peak, s2[k].0 as int, s2[k].1 as int));
            let j = choose|j: int| 0 <= j < s1.len() && #[trigger] s1[j].0 == c.0 && s1[j].1 == c.1;
            assert(s1[j] == c);
        }
    }
    assert(s1.to_multiset() =~= s2.to_multiset()) by {
        assert forall|c: (i32, i32, u8)| s1.to_multiset().count(c) == s2.to_multiset().count(c) by {
            if s1.contains(c) {
                assert(s1.to_multiset().contains(c));
                assert(s2.to_multiset().contains(c));
            }
        }
    }
    s1.lemma_sort_by_ensures(rank_order());
    s2.lemma_sort_by_ensures(rank_order());
    vstd::seq_lib::lemma_sorted_unique(s1.sort_by(rank_order()), s2.sort_by(rank_order()), rank_order());
}

// ---------------------------------------------------------------------------
// Detection
// ---------------------------------------------------------------------------

/// Whether no 8-neighbour of the interior pixel `(x, y)` is brighter than
/// `center`.
pub fn is_local_maximum(image: &GrayImage, x: i32, y: i32, center: u8) -> (r: bool)
    requires
        image.wf(),
        1 <= x,
        x + 1 < image.width,
        1 <= y,
        y + 1 < image.height,
    ensures
        r == local_max(*image, x as int, y as int, center),
{
    let mut yy: i32 = y - 1;
    while yy <= y + 1
        invariant
            image.wf(),
            1 <= x,
            x + 1 < image.width,
            1 <= y,
            y + 1 < image.height,
            y - 1 <= yy <= y + 2,
            forall|dx: int, dy: int|
                #![trigger image.at(x + dx, y + dy)]
                -1 <= dx <= 1 && -1 <= dy <= 1 && !(dx == 0 && dy == 0) && y + dy < yy
                    ==> image.at(x + dx, y + dy) <= center,
        decreases y + 2 - yy,
    {
        let mut xx: i32 = x - 1;
        while xx <= x + 1
            invariant
                image.wf(),
                1 <= x,
                x + 1 < image.width,
                1 <= y,
                y + 1 < image.height,
                y - 1 <= yy <= y + 1,
                x - 1 <= xx <= x + 2,
                forall|dx: int, dy: int|
                    #![trigger image.at(x + dx, y + dy)]
                    -1 <= dx <= 1 && -1 <= dy <= 1 && !(dx == 0 && dy == 0) && (y + dy < yy || (y
                        + dy == yy && x + dx < xx)) ==> image.at(x + dx, y + dy) <= center,
            decreases x + 2 - xx,
        {
            if !(xx == x && yy == y) {
                let v = image.get_pixel(xx as u32, yy as u32);
                if v > center {
                    assert(image.at(x + (xx - x), y + (yy - y)) > center);
                    return false;
                }
            }
            xx = xx + 1;
        }
        yy = yy + 1;
    }
    true
}

/// Row-major order of positions.
spec fn before_in_scan(a: (int, int), b: (int, int)) -> bool {
    a.1 < b.1 || (a.1 == b.1 && a.0 < b.0)
}

/// All interior peaks of `image` at least `min_peak` bright, each once with
/// its gray value, in row-major order.
pub fn peak_candidates(image: &GrayImage, min_peak: u8) -> (raw: Vec<(i32, i32, u8)>)
    requires
        image.wf(),
    ensures
        lists_peaks(*image, min_peak, raw@),
{
    let mut raw: Vec<(i32, i32, u8)> = Vec::new();
    let h: i32 = image.height as i32;
    let w: i32 = image.width as i32;
    let mut y: i32 = 1;
    while y < h - 1
        invariant
            image.wf(),
            h == image.height,
            w == image.width,
            1 <= y,
            h >= 2 ==> y <= h - 1,
            forall|i: int, j: int|
                0 <= i < j < raw@.len() ==> before_in_scan(
                    (raw@[i].0 as int, raw@[i].1 as int),
                    (raw@[j].0 as int, raw@[j].1 as int),
                ),
            forall|k: int|
                0 <= k < raw@.len() ==> (#[trigger] raw@[k]).1 < y && is_peak(
                    *image,
                    min_peak,
                    raw@[k].0 as int,
                    raw@[k].1 as int,
                ) && raw@[k].2 == image.at(raw@[k].0 as int, raw@[k].1 as int),
            forall|px: int, py: int|
                #[trigger] is_peak(*image, min_peak, px, py) && py < y ==> exists|k: int|
                    0 <= k < raw@.len() && #[trigger] raw@[k].0 == px && raw@[k].1 == py,
        decreases h - y,
    {
        let mut x: i32 = 1;
        while x < w - 1
            invariant
                image.wf(),
                h == image.height,
                w == image.width,
                1 <= y < h - 1,
                1 <= x,
                w >= 2 ==> x <= w - 1,
                forall|i: int, j: int|
                    0 <= i < j < raw@.len() ==> before_in_scan(
                        (raw@[i].0 as int, raw@[i].1 as int),
                        (raw@[j].0 as int, raw@[j].1 as int),
                    ),
                forall|k: int|
                    0 <= k < raw@.len() ==> before_in_scan(
                        (raw@[k].0 as int, raw@[k].1 as int),
                        (x as int, y as int),
                    ) && is_peak(*image, min_peak, (#[trigger] raw@[k]).0 as int, raw@[k].1 as int)
                        && raw@[k].2 == image.at(raw@[k].0 as int, raw@[k].1 as int),
                forall|px: int, py: int|
                    #[trigger] is_peak(*image, min_peak, px, py) && before_in_scan((px, py), (x as int, y as int))
                        ==> exists|k: int|
                        0 <= k < raw@.len() && #[trigger] raw@[k].0 == px && raw@[k].1 == py,
            decreases w - x,
        {
            let center = image.get_pixel(x as u32, y as u32);
            if center >= min_peak && is_local_maximum(image, x, y, center) {
                let ghost before = raw@;
                raw.push((x, y, center));
                proof {
                    assert forall|px: int, py: int|
                        #[trigger] is_peak(*image, min_peak, px, py) && before_in_scan((px, py), (x + 1, y as int))
                            implies exists|k: int|
                            0 <= k < raw@.len() && #[trigger] raw@[k].0 == px && raw@[k].1 == py by {
                        if before_in_scan((px, py), (x as int, y as int)) {
                            let k = choose|k: int| 0 <= k < before.len() && #[trigger] before[k].0 == px && before[k].1 == py;
                            assert(raw@[k] == before[k]);
                        } else {
                            assert(raw@[before.len() as int].0 == px);
                        }
                    }
                }
            } else {
                proof {
                    assert forall|px: int, py: int|
                        #[trigger] is_peak(*image, min_peak, px, py) && before_in_scan((px, py), (x + 1, y as int))
                            implies exists|k: int|
                            0 <= k < raw@.len() && #[trigger] raw@[k].0 == px && raw@[k].1 == py by {
                        if px == x && py == y {
                            assert(image.at(px, py) == center);
                        }
                    }
                }
            }
            x = x + 1;
        }
        proof {
            assert forall|px: int, py: int|
                #[trigger] is_peak(*image, min_peak, px, py) && py < y + 1 implies exists|k: int|
                    0 <= k < raw@.len() && #[trigger] raw@[k].0 == px && raw@[k].1 == py by {
                if py == y {
                    assert(before_in_scan((px, py), (x as int, y as int)));
                }
            }
        }
        y = y + 1;
    }
    proof {
        assert forall|i: int, j: int| 0 <= i < raw@.len() && 0 <= j < raw@.len() && i != j implies raw@[i] != raw@[j] by {
            if i < j {
                assert(before_in_scan((raw@[i].0 as int, raw@[i].1 as int), (raw@[j].0 as int, raw@[j].1 as int)));
            } else {
                assert(before_in_scan((raw@[j].0 as int, raw@[j].1 as int), (raw@[i].0 as int, raw@[i].1 as int)));
            }
        }
    }
    raw
}

/// `a` ranks strictly before `b`.
fn ranks_before(a: (i32, i32, u8), b: (i32, i32, u8)) -> (r: bool)
    ensures
        r == (ranks_le(a, b) && a != b),
{
    a.2 > b.2 || (a.2 == b.2 && (a.1 < b.1 || (a.1 == b.1 && a.0 < b.0)))
}

/// The candidates in ranking order (an insertion sort).
pub fn sort_candidates(raw: Vec<(i32, i32, u8)>) -> (sorted: Vec<(i32, i32, u8)>)
    ensures
        sorted@ == raw@.sort_by(rank_order()),
{
    broadcast use vstd::seq_lib::group_to_multiset_ensures;

    let ghost leq = rank_order();
    proof {
        lemma_rank_order_total();
    }
    let mut sorted: Vec<(i32, i32, u8)> = Vec::new();
    let mut i: usize = 0;
    while i < raw.len()
        invariant
            leq == rank_order(),
            total_ordering(leq),
            i <= raw@.len(),
            sorted_by(sorted@, leq),
            sorted@.to_multiset() == raw@.subrange(0, i as int).to_multiset(),
        decreases raw@.len() - i,
    {
        let e = raw[i];
        let mut pos: usize = 0;
        while pos < sorted.len() && !ranks_before(e, sorted[pos])
            invariant
                leq == rank_order(),
                total_ordering(leq),
                pos <= sorted@.len(),
                forall|j: int| 0 <= j < pos ==> #[trigger] ranks_le(sorted@[j], e),
            decreases sorted@.len() - pos,
        {
            assert(ranks_le(sorted@[pos as int], e));
            pos = pos + 1;
        }
        let ghost old_sorted = sorted@;
        sorted.insert(pos, e);
        proof {
            old_sorted.insert_ensures(pos as int, e);
            assert forall|a: int, b: int| 0 <= a < b < sorted@.len() implies #[trigger] leq(sorted@[a], sorted@[b]) by {
                if b < pos {
                    assert(sorted@[a] == old_sorted[a] && sorted@[b] == old_sorted[b]);
                    assert(leq(old_sorted[a], old_sorted[b]));
                } else if b == pos {
                    assert(sorted@[a] == old_sorted[a]);
                    assert(ranks_le(old_sorted[a], e));
                } else if a < pos {
                    assert(sorted@[a] == old_sorted[a] && sorted@[b] == old_sorted[b - 1]);
                    assert(leq(old_sorted[a], old_sorted[b - 1]));
                } else if a == pos {
                    assert(sorted@[b] == old_sorted[b - 1]);
                    assert(ranks_le(e, old_sorted[pos as int]));
                    assert(leq(old_sorted[pos as int], old_sorted[b - 1]) || b - 1 == pos);
                } else {
                    assert(sorted@[a] == old_sorted[a - 1] && sorted@[b] == old_sorted[b - 1]);
                    assert(leq(old_sorted[a - 1], old_sorted[b - 1]));
                }
            }
            vstd::seq_lib::to_multiset_insert(old_sorted, pos as int, e);
            vstd::seq_lib::to_multiset_build(raw@.subrange(0, i as int), e);
            assert(raw@.subrange(0, i + 1) == raw@.subrange(0, i as int).push(e));
        }
        i = i + 1;
    }
    proof {
        assert(raw@.subrange(0, raw@.len() as int) == raw@);
        raw@.lemma_sort_by_ensures(leq);
        vstd::seq_lib::lemma_sorted_unique(sorted@, raw@.sort_by(leq), leq);
    }
    sorted
}

/// Whether some kept candidate lies within `radius` of `c`.
fn near_any(kept: &Vec<(i32, i32, u8)>, c: (i32, i32, u8), radius: u32) -> (r: bool)
    ensures
        r == near_kept(kept@, c, radius),
{
    assert(0 <= radius * radius <= 0x1_0000_0000 * 0x1_0000_0000) by (nonlinear_arith)
        requires
            0 <= radius <= 0xffff_ffff,
    ;
    let r2: u128 = (radius as u128) * (radius as u128);
    let mut t: usize = 0;
    while t < kept.len()
        invariant
            t <= kept@.len(),
            r2 == radius * radius,
            forall|u: int| 0 <= u < t ==> !within_radius(#[trigger] kept@[u], c, radius),
        decreases kept@.len() - t,
    {
        let q = kept[t];
        let dx: i64 = (q.0 as i64) - (c.0 as i64);
        let dy: i64 = (q.1 as i64) - (c.1 as i64);
        let ax: u128 = if dx < 0 {
            (-dx) as u128
        } else {
            dx as u128
        };
        let ay: u128 = if dy < 0 {
            (-dy) as u128
        } else {
            dy as u128
        };
        proof {
            assert(ax * ax == dx * dx && ay * ay == dy * dy) by (nonlinear_arith)
                requires
                    ax == (if dx < 0 { -dx } else { dx as int }),
                    ay == (if dy < 0 { -dy } else { dy as int }),
            ;
            assert(0 <= ax * ax <= 0x1_0000_0000 * 0x1_0000_0000) by (nonlinear_arith)
                requires
                    0 <= ax <= 0x1_0000_0000,
            ;
            assert(0 <= ay * ay <= 0x1_0000_0000 * 0x1_0000_0000) by (nonlinear_arith)
                requires
                    0 <= ay <= 0x1_0000_0000,
            ;
        }
        if ax * ax + ay * ay <= r2 {
            assert(within_radius(kept@[t as int], c, radius));
            return true;
        }
        t = t + 1;
    }
    false
}

/// Greedy non-maximum suppression of ranked candidates: keeps a candidate
/// unless `max` are already kept or a kept one lies within `radius` of it.
pub fn suppress_candidates(sorted: &Vec<(i32, i32, u8)>, radius: u32, max: usize) -> (kept: Vec<(i32, i32, u8)>)
    ensures
        kept@ == suppress(sorted@, radius, max as nat, sorted@.len() as int),
{
    let mut kept: Vec<(i32, i32, u8)> = Vec::new();
    let mut i: usize = 0;
    while i < sorted.len()
        invariant
            i <= sorted@.len(),
            kept@ == suppress(sorted@, radius, max as nat, i as int),
        decreases sorted@.len() - i,
    {
        if kept.len() >= max {
            proof {
                lemma_suppress_capped(sorted@, radius, max as nat, i as int, sorted@.len() as int);
            }
            return kept;
        }
        let c = sorted[i];
        if !near_any(&kept, c, radius) {
            kept.push(c);
        }
        i = i + 1;
    }
    kept
}

/// Detects candidate stars: interior local maxima at least
/// `min_peak_value` bright, ranked brightest first (ties by row, then
/// column), thinned by suppression within `non_max_radius_px` and capped at
/// `max_candidates`, numbered from rank 1.
pub fn detect_stars(image: &GrayImage, config: &DetectionConfig) -> (candidates: Vec<DetectionCandidate>)
    requires
        image.wf(),
    ensures
        exists|raw: Seq<(i32, i32, u8)>|
            #[trigger] lists_peaks(*image, config.min_peak_value, raw) && ranked(
                suppress(
                    raw.sort_by(rank_order()),
                    config.non_max_radius_px,
                    config.max_candidates as nat,
                    raw.len() as int,
                ),
                candidates@,
            ),
{
    let raw = peak_candidates(image, config.min_peak_value);
    let ghost raw_view = raw@;
    let sorted = sort_candidates(raw);
    proof {
        raw_view.lemma_sort_by_ensures(rank_order());
        lemma_rank_order_total();
        assert(sorted@.len() == raw_view.len()) by {
            vstd::seq_lib::to_multiset_len(raw_view);
            vstd::seq_lib::to_multiset_len(sorted@);
        }
    }
    let kept = suppress_candidates(&sorted, config.non_max_radius_px, config.max_candidates);
    let mut candidates: Vec<DetectionCandidate> = Vec::new();
    let mut i: usize = 0;
    while i < kept.len()
        invariant
            i <= kept@.len(),
            candidates@.len() == i,
            forall|j: int|
                0 <= j < i ==> (#[trigger] candidates@[j]).x_px == kept@[j].0 && candidates@[j].y_px
                    == kept@[j].1 && candidates@[j].intensity == kept@[j].2 && candidates@[j].rank == j + 1,
        decreases kept@.len() - i,
    {
        let (x, y, v) = kept[i];
        candidates.push(DetectionCandidate { x_px: x, y_px: y, intensity: v, rank: i + 1 });
        i = i + 1;
    }
    assert(lists_peaks(*image, config.min_peak_value, raw_view));
    candidates
}

} // verus!

//! Records and overlay rendering of the benchmark solver: the recognizer
//! outcome, debug-artifact paths, overlay settings, the split filter of a
//! benchmark run and the detection debug layer.

use vstd::prelude::*;

use std::path::PathBuf;

use crate::dataset::FrameArtifactRecord;
use crate::peaks::DetectionCandidate;
use crate::raster::{draw_circle, raster_index, gray_to_rgb, in_disc, inside, GrayImage, RgbImage};

verus! {

/// Outcome of the benchmark recognizer on one synthetic frame.
#[derive(Debug, Clone, Copy, PartialEq, Eq, Structural)]
pub enum SolveStatus {
    Accepted,
    Rejected,
}

/// Paths of the debug images written for a frame, when written.
#[derive(Debug, Default)]
pub struct DebugArtifacts {
    pub overlay_path: Option<PathBuf>,
    pub detection_layer_path: Option<PathBuf>,
    pub correspondence_layer_path: Option<PathBuf>,
}

/// Paths of the rendered debug layers, when rendered.
#[derive(Debug, Default)]
pub struct RenderedLayers {
    pub overlay_path: Option<PathBuf>,
    pub detection_layer_path: Option<PathBuf>,
    pub correspondence_layer_path: Option<PathBuf>,
}

/// Debug-overlay drawing settings.
#[derive(Debug, Clone, Copy, PartialEq, Eq)]
pub struct OverlayConfig {
    pub detection_marker_radius_px: u32,
}

impl OverlayConfig {
    /// Markers of radius 3 pixels.
    pub fn new_default() -> (r: OverlayConfig)
        ensures
            r.detection_marker_radius_px == 3,
    {
        OverlayConfig { detection_marker_radius_px: 3 }
    }
}

impl Default for OverlayConfig {
    fn default() -> (r: OverlayConfig)
        ensures
            r.detection_marker_radius_px == 3,
    {
        OverlayConfig::new_default()
    }
}

/// A benchmark run over the splits in `filter` (all splits when there is no
/// filter) includes frames of split `split`.
pub open spec fn split_selected(filter: Option<Vec<String>>, split: Seq<char>) -> bool {
    match filter {
        None => true,
        Some(items) => exists|i: int| 0 <= i < items@.len() && #[trigger] items@[i]@ == split,
    }
}

/// Whether a benchmark run over the splits in `filter` (all splits when
/// there is no filter) includes `frame`.
pub fn frame_matches_filter(frame: &FrameArtifactRecord, filter: &Option<Vec<String>>) -> (r: bool)
    ensures
        r == split_selected(*filter, frame.split@),
{
    match filter {
        None => true,
        Some(items) => {
            let mut i: usize = 0;
            while i < items.len()
                invariant
                    *filter == Some(*items),
                    i <= items@.len(),
                    forall|j: int| 0 <= j < i ==> #[trigger] (*items)@[j]@ != frame.split@,
                decreases items@.len() - i,
            {
                if crate::text::str_eq(items[i].as_str(), frame.split.as_str()) {
                    assert((*items)@[i as int]@ == frame.split@);
                    assert(exists|j: int| 0 <= j < (*items)@.len() && #[trigger] (*items)@[j]@ == frame.split@);
                    let ghost fv = *filter;
                    assert(fv is Some);
                    assert(fv->0 == *items);
                    assert(split_selected(fv, frame.split@));
                    return true;
                }
                i = i + 1;
            }
            false
        },
    }
}

/// Marker colour of the detection layer.
pub open spec fn marker_color() -> [u8; 3] {
    [255, 220, 0]
}

/// Some candidate's marker disc covers `(x, y)`.
pub open spec fn marked(candidates: Seq<DetectionCandidate>, radius: int, x: int, y: int) -> bool {
    exists|k: int|
        0 <= k < candidates.len() && #[trigger] in_disc(
            candidates[k].x_px as int,
            candidates[k].y_px as int,
            radius,
            x,
            y,
        )
}

/// The detection debug layer: the frame in colour with a filled yellow disc
/// of the configured radius around each candidate.
pub fn detection_layer(image: &GrayImage, candidates: &Vec<DetectionCandidate>, config: &OverlayConfig) -> (rgb: RgbImage)
    requires
        image.wf(),
        config.detection_marker_radius_px <= 32767,
        forall|k: int|
            0 <= k < candidates@.len() ==> i32::MIN + config.detection_marker_radius_px <= (
            #[trigger] candidates@[k]).x_px <= i32::MAX - config.detection_marker_radius_px
                && i32::MIN + config.detection_marker_radius_px <= candidates@[k].y_px <= i32::MAX
                - config.detection_marker_radius_px,
    ensures
        rgb.wf(),
        rgb.width == image.width,
        rgb.height == image.height,
        forall|x: int, y: int|
            #![trigger rgb.at(x, y)]
            inside(image.width as int, image.height as int, x, y) ==> rgb.at(x, y) == (if marked(
                candidates@,
                config.detection_marker_radius_px as int,
                x,
                y,
            ) {
                marker_color()
            } else {
                [image.at(x, y), image.at(x, y), image.at(x, y)]
            }),
{
    let mut rgb = gray_to_rgb(image);
    let radius = config.detection_marker_radius_px as i32;
    let ghost w = image.width as int;
    let ghost h = image.height as int;
    let mut k: usize = 0;
    proof {
        assert forall|x: int, y: int|
            #![trigger rgb.at(x, y)]
            inside(w, h, x, y) implies rgb.at(x, y) == (if marked(
                candidates@.subrange(0, 0),
                radius as int,
                x,
                y,
            ) {
                marker_color()
            } else {
                [image.at(x, y), image.at(x, y), image.at(x, y)]
            }) by {
            crate::raster::lemma_raster_index(w, h, x, y);
        }
    }
    while k < candidates.len()
        invariant
            rgb.wf(),
            rgb.width == image.width,
            rgb.height == image.height,
            w == image.width,
            h == image.height,
            image.wf(),
            radius == config.detection_marker_radius_px,
            0 <= radius <= 32767,
            k <= candidates@.len(),
            forall|j: int|
                0 <= j < candidates@.len() ==> i32::MIN + radius <= (#[trigger] candidates@[j]).x_px
                    <= i32::MAX - radius && i32::MIN + radius <= candidates@[j].y_px <= i32::MAX - radius,
            forall|x: int, y: int|
                #![trigger rgb.at(x, y)]
                inside(w, h, x, y) ==> rgb.at(x, y) == (if marked(
                    candidates@.subrange(0, k as int),
                    radius as int,
                    x,
                    y,
                ) {
                    marker_color()
                } else {
                    [image.at(x, y), image.at(x, y), image.at(x, y)]
                }),
        decreases candidates@.len() - k,
    {
        let c = candidates[k];
        let ghost before = rgb;
        draw_circle(&mut rgb, c.x_px, c.y_px, radius, [255, 220, 0]);
        proof {
            let done = candidates@.subrange(0, k as int);
            let next = candidates@.subrange(0, k + 1);
            assert forall|x: int, y: int|
                #![trigger rgb.at(x, y)]
                inside(w, h, x, y) implies rgb.at(x, y) == (if marked(next, radius as int, x, y) {
                    marker_color()
                } else {
                    [image.at(x, y), image.at(x, y), image.at(x, y)]
                }) by {
                assert(before.at(x, y) == (if marked(done, radius as int, x, y) {
                    marker_color()
                } else {
                    [image.at(x, y), image.at(x, y), image.at(x, y)]
                }));
                if marked(done, radius as int, x, y) {
                    let j = choose|j: int|
                        0 <= j < done.len() && #[trigger] in_disc(
                            done[j].x_px as int,
                            done[j].y_px as int,
                            radius as int,
                            x,
                            y,
                        );
                    assert(next[j] == done[j]);
                }
                if in_disc(c.x_px as int, c.y_px as int, radius as int, x, y) {
                    assert(next[k as int] == c);
                }
                if marked(next, radius as int, x, y) {
                    let j = choose|j: int|
                        0 <= j < next.len() && #[trigger] in_disc(
                            next[j].x_px as int,
                            next[j].y_px as int,
                            radius as int,
                            x,
                            y,
                        );
                    if j < k {
                        assert(done[j] == next[j]);
                    }
                }
            }
        }
        k = k + 1;
    }
    proof {
        assert(candidates@.subrange(0, candidates@.len() as int) == candidates@);
    }
    rgb
}

/// Detection match counts of one frame: true positives, false positives and
/// missed truth stars.
#[derive(Debug, Clone, Copy, PartialEq, Eq, Structural)]
pub struct DetectionCounts {
    pub tp: usize,
    pub fp: usize,
    pub fn_: usize,
}

/// Sums of the counts of the frames that have them.
pub open spec fn count_sums(m: Seq<Option<DetectionCounts>>) -> (int, int, int)
    decreases m.len(),
{
    if m.len() == 0 {
        (0, 0, 0)
    } else {
        let (tp, fp, fn_) = count_sums(m.drop_last());
        match m.last() {
            Some(c) => (tp + c.tp, fp + c.fp, fn_ + c.fn_),
            None => (tp, fp, fn_),
        }
    }
}

proof fn lemma_count_sums_nonneg(m: Seq<Option<DetectionCounts>>)
    ensures
        count_sums(m).0 >= 0 && count_sums(m).1 >= 0 && count_sums(m).2 >= 0,
    decreases m.len(),
{
    if m.len() > 0 {
        lemma_count_sums_nonneg(m.drop_last());
    }
}

proof fn lemma_count_sums_grow(m: Seq<Option<DetectionCounts>>, k: int)
    requires
        0 <= k <= m.len(),
    ensures
        count_sums(m.subrange(0, k)).0 <= count_sums(m).0,
        count_sums(m.subrange(0, k)).1 <= count_sums(m).1,
        count_sums(m.subrange(0, k)).2 <= count_sums(m).2,
    decreases m.len() - k,
{
    if k < m.len() {
        lemma_count_sums_grow(m, k + 1);
        assert(m.subrange(0, k + 1).drop_last() =~= m.subrange(0, k));
    } else {
        assert(m.subrange(0, k) =~= m);
    }
}

/// Total true positives, false positives and misses over the frames that
/// carry detection counts.
pub fn sum_detection_counts(metrics: &[Option<DetectionCounts>]) -> (r: (usize, usize, usize))
    requires
        count_sums(metrics@).0 <= usize::MAX,
        count_sums(metrics@).1 <= usize::MAX,
        count_sums(metrics@).2 <= usize::MAX,
    ensures
        (r.0 as int, r.1 as int, r.2 as int) == count_sums(metrics@),
{
    let mut tp: usize = 0;
    let mut fp: usize = 0;
    let mut fn_: usize = 0;
    let mut i: usize = 0;
    while i < metrics.len()
        invariant
            i <= metrics@.len(),
            count_sums(metrics@).0 <= usize::MAX,
            count_sums(metrics@).1 <= usize::MAX,
            count_sums(metrics@).2 <= usize::MAX,
            (tp as int, fp as int, fn_ as int) == count_sums(metrics@.subrange(0, i as int)),
        decreases metrics.len() - i,
    {
        proof {
            lemma_count_sums_grow(metrics@, i + 1);
            lemma_count_sums_nonneg(metrics@.subrange(0, i as int));
            assert(metrics@.subrange(0, i + 1).drop_last() =~= metrics@.subrange(0, i as int));
        }
        if let Some(c) = metrics[i] {
            tp = tp + c.tp;
            fp = fp + c.fp;
            fn_ = fn_ + c.fn_;
        }
        i = i + 1;
    }
    proof {
        assert(metrics@.subrange(0, metrics@.len() as int) =~= metrics@);
    }
    (tp, fp, fn_)
}

} // verus!

//! Selection and bookkeeping of the evaluation harness: which manifest
//! entries to run, and per-track solve counts.

use vstd::prelude::*;

use crate::text::{
    chars_of, split, split_seq, str_eq, trim, trim_seq,
};

verus! {

/// One entry of an evaluation manifest.
#[derive(Debug, Clone)]
pub struct ManifestEntry {
    pub id: String,
    pub file: String,
    pub track: String,
    pub solve_status: Option<String>,
    pub wcs: Option<String>,
    pub width: Option<u32>,
    pub height: Option<u32>,
}

/// The trimmed, non-empty pieces of a comma-separated list, in order.
pub open spec fn list_items(pieces: Seq<Seq<char>>) -> Seq<Seq<char>>
    decreases pieces.len(),
{
    if pieces.len() == 0 {
        Seq::empty()
    } else {
        let prev = list_items(pieces.drop_last());
        let t = trim_seq(pieces.last());
        if t.len() > 0 {
            prev.push(t)
        } else {
            prev
        }
    }
}

/// Items of the comma-separated list `s`.
pub open spec fn comma_items(s: Seq<char>) -> Seq<Seq<char>> {
    list_items(split_seq(s, ','))
}

/// Splits a comma-separated list, trims each item and drops empty items.
pub fn parse_ids(s: &str) -> (ids: Vec<String>)
    ensures
        ids@.len() == comma_items(s@).len(),
        forall|i: int| 0 <= i < ids@.len() ==> #[trigger] ids@[i]@ == comma_items(s@)[i],
{
    let pieces = split(s, ',');
    let ghost ps = split_seq(s@, ',');
    let mut ids: Vec<String> = Vec::new();
    let mut j: usize = 0;
    while j < pieces.len()
        invariant
            j <= pieces@.len(),
            pieces@.len() == ps.len(),
            ps == split_seq(s@, ','),
            forall|k: int| 0 <= k < pieces@.len() ==> #[trigger] pieces@[k]@ == ps[k],
            ids@.len() == list_items(ps.subrange(0, j as int)).len(),
            forall|i: int| 0 <= i < ids@.len() ==> #[trigger] ids@[i]@ == list_items(ps.subrange(0, j as int))[i],
        decreases pieces.len() - j,
    {
        let t = trim(pieces[j].as_str());
        let ghost pre = ps.subrange(0, j + 1);
        assert(pre.drop_last() =~= ps.subrange(0, j as int));
        assert(pre.last() == pieces@[j as int]@);
        if chars_of(t.as_str()).len() > 0 {
            ids.push(t);
        }
        j = j + 1;
    }
    assert(ps.subrange(0, pieces@.len() as int) =~= ps);
    ids
}

/// `s` is one of the track names `solver`, `scene`, `stress`.
pub open spec fn is_track_name(s: Seq<char>) -> bool {
    s == "solver"@ || s == "scene"@ || s == "stress"@
}

/// `items` without repeats, each kept at its first occurrence.
pub open spec fn dedup_seq(items: Seq<Seq<char>>) -> Seq<Seq<char>>
    decreases items.len(),
{
    if items.len() == 0 {
        Seq::empty()
    } else {
        let prev = dedup_seq(items.drop_last());
        if prev.contains(items.last()) {
            prev
        } else {
            prev.push(items.last())
        }
    }
}

/// Index of the first item that is not a track name, if any.
pub open spec fn first_unknown(items: Seq<Seq<char>>) -> Option<int> {
    if exists|i: int| 0 <= i < items.len() && !is_track_name(#[trigger] items[i]) {
        Some(choose|i: int| 0 <= i < items.len() && !is_track_name(#[trigger] items[i]) && forall|j: int| 0 <= j < i ==> is_track_name(#[trigger] items[j]))
    } else {
        None
    }
}

/// Whether `name` is one of the known track names.
fn is_known_track(name: &str) -> (r: bool)
    ensures
        r == is_track_name(name@),
{
    str_eq(name, "solver") || str_eq(name, "scene") || str_eq(name, "stress")
}

fn contains_string(v: &Vec<String>, s: &String) -> (r: bool)
    ensures
        r == v@.map_values(|x: String| x@).contains(s@),
{
    let ghost views = v@.map_values(|x: String| x@);
    let mut i: usize = 0;
    while i < v.len()
        invariant
            i <= v@.len(),
            views == v@.map_values(|x: String| x@),
            forall|j: int| 0 <= j < i ==> views[j] != s@,
        decreases v.len() - i,
    {
        if v[i] == *s {
            assert(views[i as int] == s@);
            return true;
        }
        i = i + 1;
    }
    assert forall|j: int| 0 <= j < views.len() implies views[j] != s@ by {}
    false
}

/// Reads the `--tracks` list: the distinct items in first-occurrence order.
/// An empty list is refused, and so is the first item that is not one of
/// `solver`, `scene`, `stress`.
pub fn parse_tracks(s: &str) -> (r: Result<Vec<String>, String>)
    ensures
        comma_items(s@).len() == 0 ==> (r matches Err(m) && m@
            == "--tracks must list at least one track (solver, scene, stress)"@),
        comma_items(s@).len() > 0 && first_unknown(comma_items(s@)) is None ==> (r matches Ok(v)
            && v@.map_values(|x: String| x@) == dedup_seq(comma_items(s@))),
        first_unknown(comma_items(s@)) matches Some(i) ==> (r matches Err(m) && m@ == "unknown track '"@
            + comma_items(s@)[i] + "', expected solver, scene, or stress"@),
{
    let items = parse_ids(s);
    let ghost its = comma_items(s@);
    assert(items@.map_values(|x: String| x@) =~= its);
    if items.len() == 0 {
        let m = "--tracks must list at least one track (solver, scene, stress)".to_owned();
        assert(m@ == "--tracks must list at least one track (solver, scene, stress)"@);
        return Err(m);
    }
    let mut out: Vec<String> = Vec::new();
    let mut i: usize = 0;
    while i < items.len()
        invariant
            i <= items@.len(),
            its == comma_items(s@),
            items@.len() == its.len(),
            forall|k: int| 0 <= k < items@.len() ==> #[trigger] items@[k]@ == its[k],
            forall|k: int| 0 <= k < i ==> is_track_name(#[trigger] its[k]),
            out@.map_values(|x: String| x@) == dedup_seq(its.subrange(0, i as int)),
        decreases items.len() - i,
    {
        let t = &items[i];
        if !is_known_track(t.as_str()) {
            proof {
                assert(t@ == its[i as int]);
                assert(!is_track_name(its[i as int]));
                assert(exists|k: int| 0 <= k < its.len() && !is_track_name(#[trigger] its[k]));
                assert(first_unknown(its) is Some);
                let f = first_unknown(its)->0;
                if f < i {
                    assert(is_track_name(its[f]));
                }
                if f > i {
                    assert(!is_track_name(its[i as int]));
                }
                assert(f == i);
            }
            let mut msg = "unknown track '".to_owned();
            msg.append(t.as_str());
            msg.append("', expected solver, scene, or stress");
            assert(comma_items(s@) == its);
            return Err(msg);
        }
        let ghost pre = its.subrange(0, i + 1);
        assert(pre.drop_last() =~= its.subrange(0, i as int));
        assert(pre.last() == t@);
        if !contains_string(&out, t) {
            out.push(t.clone());
            assert(out@.map_values(|x: String| x@) =~= dedup_seq(its.subrange(0, i as int)).push(t@));
        }
        i = i + 1;
    }
    assert(its.subrange(0, items@.len() as int) =~= its);
    proof {
        if exists|k: int| 0 <= k < its.len() && !is_track_name(#[trigger] its[k]) {
            let k = choose|k: int| 0 <= k < its.len() && !is_track_name(#[trigger] its[k]);
            assert(is_track_name(its[k]));
        }
    }
    Ok(out)
}

/// Whether `tracks` lists `track`.
pub open spec fn lists_track(tracks: Seq<String>, track: Seq<char>) -> bool {
    exists|i: int| 0 <= i < tracks.len() && #[trigger] tracks[i]@ == track
}

/// Manifest entries whose track is listed, in manifest order.
pub open spec fn entries_in_tracks(m: Seq<ManifestEntry>, tracks: Seq<String>) -> Seq<ManifestEntry>
    decreases m.len(),
{
    if m.len() == 0 {
        Seq::empty()
    } else {
        let prev = entries_in_tracks(m.drop_last(), tracks);
        if lists_track(tracks, m.last().track@) {
            prev.push(m.last())
        } else {
            prev
        }
    }
}

/// The last entry of `sel` with identifier `id`.
pub open spec fn last_with_id(sel: Seq<ManifestEntry>, id: Seq<char>) -> Option<ManifestEntry>
    decreases sel.len(),
{
    if sel.len() == 0 {
        None
    } else if sel.last().id@ == id {
        Some(sel.last())
    } else {
        last_with_id(sel.drop_last(), id)
    }
}

/// Index of the first wanted identifier that has no entry in `sel`.
pub open spec fn first_missing_id(sel: Seq<ManifestEntry>, want: Seq<String>) -> Option<int> {
    if exists|k: int| 0 <= k < want.len() && last_with_id(sel, #[trigger] want[k]@) is None {
        Some(choose|k: int| 0 <= k < want.len() && last_with_id(sel, #[trigger] want[k]@) is None
            && forall|j: int| 0 <= j < k ==> last_with_id(sel, #[trigger] want[j]@) is Some)
    } else {
        None
    }
}

fn track_listed(tracks: &[String], track: &String) -> (r: bool)
    ensures
        r == lists_track(tracks@, track@),
{
    let mut i: usize = 0;
    while i < tracks.len()
        invariant
            i <= tracks@.len(),
            forall|j: int| 0 <= j < i ==> tracks@[j]@ != track@,
        decreases tracks.len() - i,
    {
        if tracks[i] == *track {
            return true;
        }
        i = i + 1;
    }
    false
}

fn find_last_with_id<'a>(sel: &Vec<&'a ManifestEntry>, id: &String) -> (r: Option<&'a ManifestEntry>)
    ensures
        match r {
            Some(e) => last_with_id(sel@.map_values(|e: &ManifestEntry| *e), id@) == Some(*e),
            None => last_with_id(sel@.map_values(|e: &ManifestEntry| *e), id@) is None,
        },
{
    let ghost all = sel@.map_values(|e: &ManifestEntry| *e);
    let mut j: usize = sel.len();
    assert(all.subrange(0, j as int) =~= all);
    while j > 0
        invariant
            j <= sel@.len(),
            all == sel@.map_values(|e: &ManifestEntry| *e),
            last_with_id(all, id@) == last_with_id(all.subrange(0, j as int), id@),
        decreases j,
    {
        let e = sel[j - 1];
        let ghost pre = all.subrange(0, j as int);
        assert(pre.last() == *e);
        assert(pre.drop_last() =~= all.subrange(0, j - 1));
        if e.id == *id {
            return Some(e);
        }
        j = j - 1;
    }
    None
}

/// Entries of the selected tracks, in manifest order; with an identifier
/// list, the entry named by each identifier in list order (the last entry
/// when an identifier repeats). The first identifier with no entry in the
/// selected tracks is refused.
pub fn select_entries<'a>(
    manifest: &'a [ManifestEntry],
    tracks: &[String],
    ids: Option<&[String]>,
) -> (r: Result<Vec<&'a ManifestEntry>, String>)
    ensures
        ({
            let sel = entries_in_tracks(manifest@, tracks@);
            match ids {
                None => r matches Ok(v) && v@.map_values(|e: &ManifestEntry| *e) == sel,
                Some(want) => match first_missing_id(sel, want@) {
                    None => r matches Ok(v) && v@.len() == want@.len() && forall|k: int|
                        0 <= k < v@.len() ==> Some(*#[trigger] v@[k]) == last_with_id(sel, want@[k]@),
                    Some(k) => r matches Err(m) && m@ == "manifest has no entry with id '"@
                        + want@[k]@ + "' in selected tracks"@,
                },
            }
        }),
{
    let ghost sel_spec = entries_in_tracks(manifest@, tracks@);
    let mut selected: Vec<&'a ManifestEntry> = Vec::new();
    let mut i: usize = 0;
    while i < manifest.len()
        invariant
            i <= manifest@.len(),
            selected@.map_values(|e: &ManifestEntry| *e) == entries_in_tracks(manifest@.subrange(0, i as int), tracks@),
        decreases manifest.len() - i,
    {
        let e = &manifest[i];
        let ghost pre = manifest@.subrange(0, i + 1);
        assert(pre.drop_last() =~= manifest@.subrange(0, i as int));
        assert(pre.last() == *e);
        if track_listed(tracks, &e.track) {
            selected.push(e);
            assert(selected@.map_values(|x: &ManifestEntry| *x) =~= entries_in_tracks(manifest@.subrange(0, i as int), tracks@).push(*e));
        }
        i = i + 1;
    }
    assert(manifest@.subrange(0, manifest@.len() as int) =~= manifest@);
    let ghost sel = selected@.map_values(|e: &ManifestEntry| *e);
    assert(sel == sel_spec);
    match ids {
        None => Ok(selected),
        Some(want) => {
            let mut out: Vec<&'a ManifestEntry> = Vec::new();
            let mut k: usize = 0;
            while k < want.len()
                invariant
                    k <= want@.len(),
                    sel == selected@.map_values(|e: &ManifestEntry| *e),
                    sel == entries_in_tracks(manifest@, tracks@),
                    ids == Some(want),
                    out@.len() == k,
                    forall|j: int| 0 <= j < k ==> last_with_id(sel, #[trigger] want@[j]@) is Some,
                    forall|j: int| 0 <= j < k ==> Some(*#[trigger] out@[j]) == last_with_id(sel, want@[j]@),
                decreases want.len() - k,
            {
                match find_last_with_id(&selected, &want[k]) {
                    Some(e) => {
                        out.push(e);
                    },
                    None => {
                        proof {
                            assert(last_with_id(sel, want@[k as int]@) is None);
                            assert(exists|q: int| 0 <= q < want@.len() && last_with_id(sel, #[trigger] want@[q]@) is None);
                            assert(first_missing_id(sel, want@) is Some);
                            let f = first_missing_id(sel, want@)->0;
                            if f < k {
                                assert(last_with_id(sel, want@[f]@) is Some);
                            }
                            if f > k {
                                assert(last_with_id(sel, want@[k as int]@) is Some);
                            }
                            assert(f == k);
                        }
                        let mut msg = "manifest has no entry with id '".to_owned();
                        msg.append(want[k].as_str());
                        msg.append("' in selected tracks");
                        assert(msg@ == "manifest has no entry with id '"@ + want@[k as int]@ + "' in selected tracks"@);
                        return Err(msg);
                    },
                }
                k = k + 1;
            }
            proof {
                if exists|q: int| 0 <= q < want@.len() && last_with_id(sel, #[trigger] want@[q]@) is None {
                    let q = choose|q: int| 0 <= q < want@.len() && last_with_id(sel, #[trigger] want@[q]@) is None;
                    assert(last_with_id(sel, want@[q]@) is Some);
                }
            }
            Ok(out)
        },
    }
}

// ---------------------------------------------------------------------------
// Per-track statistics
// ---------------------------------------------------------------------------

/// Outcome of one evaluated frame.
#[derive(Debug, Clone, Copy, PartialEq, Eq, Structural)]
pub enum FrameStatus {
    Solved,
    Failed,
    MissingImage,
    LoadError,
}

/// A solve was attempted: the image was present and loaded.
pub open spec fn attempted(status: FrameStatus) -> bool {
    !(status is MissingImage || status is LoadError)
}

/// Whether a solve was attempted for a frame with this status.
pub fn is_attempted(status: &FrameStatus) -> (r: bool)
    ensures
        r == attempted(*status),
{
    !matches!(status, FrameStatus::MissingImage | FrameStatus::LoadError)
}

/// Whether the frame was solved.
pub fn is_solved(status: &FrameStatus) -> (r: bool)
    ensures
        r == (*status is Solved),
{
    matches!(status, FrameStatus::Solved)
}

/// Identifier and outcome of one evaluated frame.
#[derive(Debug, Clone)]
pub struct TrackFrame {
    pub id: String,
    pub status: FrameStatus,
    /// Failure code reported by a solve that did not succeed.
    pub failure_code: Option<String>,
}

/// Number of frames whose solve was attempted.
pub open spec fn count_attempted(f: Seq<TrackFrame>) -> nat
    decreases f.len(),
{
    if f.len() == 0 {
        0
    } else {
        count_attempted(f.drop_last()) + if attempted(f.last().status) { 1nat } else { 0nat }
    }
}

/// Number of solved frames.
pub open spec fn count_solved(f: Seq<TrackFrame>) -> nat
    decreases f.len(),
{
    if f.len() == 0 {
        0
    } else {
        count_solved(f.drop_last()) + if f.last().status is Solved { 1nat } else { 0nat }
    }
}

/// Identifiers of the solved frames, in order.
pub open spec fn solved_ids(f: Seq<TrackFrame>) -> Seq<Seq<char>>
    decreases f.len(),
{
    if f.len() == 0 {
        Seq::empty()
    } else if f.last().status is Solved {
        solved_ids(f.drop_last()).push(f.last().id@)
    } else {
        solved_ids(f.drop_last())
    }
}

/// Counts of the scene track (frames expected not to solve).
#[derive(Debug, Clone, PartialEq, Eq)]
pub struct SceneTrackStats {
    pub n: usize,
    pub attempted: usize,
    pub solved: usize,
    pub unexpected_solves: Vec<String>,
}

/// Counts of the stress track.
#[derive(Debug, Clone, PartialEq, Eq)]
pub struct StressTrackStats {
    pub n: usize,
    pub attempted: usize,
    pub solved: usize,
}

proof fn lemma_counts_bounded(f: Seq<TrackFrame>)
    ensures
        count_attempted(f) <= f.len(),
        count_solved(f) <= f.len(),
        solved_ids(f).len() == count_solved(f),
    decreases f.len(),
{
    if f.len() > 0 {
        lemma_counts_bounded(f.drop_last());
    }
}

fn tally(frames: &[TrackFrame]) -> (r: (usize, usize, Vec<String>))
    ensures
        r.0 == count_attempted(frames@),
        r.1 == count_solved(frames@),
        r.2@.map_values(|x: String| x@) == solved_ids(frames@),
{
    let mut attempted_n: usize = 0;
    let mut solved_n: usize = 0;
    let mut ids: Vec<String> = Vec::new();
    let mut i: usize = 0;
    while i < frames.len()
        invariant
            i <= frames@.len(),
            attempted_n == count_attempted(frames@.subrange(0, i as int)),
            solved_n == count_solved(frames@.subrange(0, i as int)),
            ids@.map_values(|x: String| x@) == solved_ids(frames@.subrange(0, i as int)),
        decreases frames.len() - i,
    {
        let ghost pre = frames@.subrange(0, i + 1);
        assert(pre.drop_last() =~= frames@.subrange(0, i as int));
        proof {
            lemma_counts_bounded(frames@.subrange(0, i as int));
        }
        if is_attempted(&frames[i].status) {
            attempted_n = attempted_n + 1;
        }
        if is_solved(&frames[i].status) {
            solved_n = solved_n + 1;
            ids.push(frames[i].id.clone());
            assert(ids@.map_values(|x: String| x@) =~= solved_ids(frames@.subrange(0, i as int)).push(frames@[i as int].id@));
        }
        i = i + 1;
    }
    assert(frames@.subrange(0, frames@.len() as int) =~= frames@);
    (attempted_n, solved_n, ids)
}

/// Statistics of the scene track: counts, and the identifiers of frames that
/// solved although they were not expected to.
pub fn build_scene_track(frames: &[TrackFrame]) -> (r: SceneTrackStats)
    ensures
        r.n == frames@.len(),
        r.attempted == count_attempted(frames@),
        r.solved == count_solved(frames@),
        r.unexpected_solves@.map_values(|x: String| x@) == solved_ids(frames@),
{
    let (attempted_n, solved_n, ids) = tally(frames);
    SceneTrackStats { n: frames.len(), attempted: attempted_n, solved: solved_n, unexpected_solves: ids }
}

/// Statistics of the stress track.
pub fn build_stress_track(frames: &[TrackFrame]) -> (r: StressTrackStats)
    ensures
        r.n == frames@.len(),
        r.attempted == count_attempted(frames@),
        r.solved == count_solved(frames@),
{
    let (attempted_n, solved_n, _ids) = tally(frames);
    StressTrackStats { n: frames.len(), attempted: attempted_n, solved: solved_n }
}

/// A solved frame was necessarily attempted: the solved count never exceeds
/// the attempted count, which never exceeds the frame count.
pub proof fn lemma_solved_le_attempted(f: Seq<TrackFrame>)
    ensures
        count_solved(f) <= count_attempted(f) <= f.len(),
    decreases f.len(),
{
    if f.len() > 0 {
        lemma_solved_le_attempted(f.drop_last());
    }
}

// ---------------------------------------------------------------------------
// Solver track
// ---------------------------------------------------------------------------

/// Strict lexicographic order of texts by code point, the order of Rust's
/// `String` comparison.
pub open spec fn text_lt(a: Seq<char>, b: Seq<char>) -> bool
    decreases a.len(),
{
    if a.len() == 0 {
        b.len() > 0
    } else if b.len() == 0 {
        false
    } else if a[0] != b[0] {
        a[0] < b[0]
    } else {
        text_lt(a.drop_first(), b.drop_first())
    }
}

/// `text_lt` is irreflexive and total on distinct texts.
pub proof fn lemma_text_lt_total(a: Seq<char>, b: Seq<char>)
    ensures
        !text_lt(a, a),
        a != b ==> (text_lt(a, b) || text_lt(b, a)),
        !(text_lt(a, b) && text_lt(b, a)),
    decreases a.len(),
{
    if a.len() == 0 && b.len() == 0 {
        assert(a =~= b);
    }
    if a.len() > 0 && b.len() > 0 && a[0] == b[0] {
        lemma_text_lt_total(a.drop_first(), b.drop_first());
        if a != b {
            assert(a.drop_first() != b.drop_first()) by {
                if a.drop_first() == b.drop_first() {
                    assert(a =~= seq![a[0]] + a.drop_first());
                    assert(b =~= seq![b[0]] + b.drop_first());
                }
            }
        }
    }
    if a.len() > 0 {
        lemma_text_lt_total(a.drop_first(), a.drop_first());
    }
}

/// `text_lt` is transitive.
pub proof fn lemma_text_lt_transitive(a: Seq<char>, b: Seq<char>, c: Seq<char>)
    requires
        text_lt(a, b),
        text_lt(b, c),
    ensures
        text_lt(a, c),
    decreases a.len(),
{
    if a.len() > 0 && b.len() > 0 && c.len() > 0 && a[0] == b[0] && b[0] == c[0] {
        lemma_text_lt_transitive(a.drop_first(), b.drop_first(), c.drop_first());
    }
}

/// Whether `a` sorts strictly before `b`.
pub fn text_less(a: &str, b: &str) -> (r: bool)
    ensures
        r == text_lt(a@, b@),
{
    let ca = chars_of(a);
    let cb = chars_of(b);
    let mut i: usize = 0;
    assert(a@.subrange(0, a@.len() as int) =~= a@);
    assert(b@.subrange(0, b@.len() as int) =~= b@);
    while i < ca.len() && i < cb.len() && ca[i] == cb[i]
        invariant
            ca@ == a@,
            cb@ == b@,
            i <= ca@.len(),
            i <= cb@.len(),
            text_lt(a@, b@) == text_lt(a@.subrange(i as int, a@.len() as int), b@.subrange(i as int, b@.len() as int)),
        decreases ca@.len() - i,
    {
        let ghost ra = a@.subrange(i as int, a@.len() as int);
        let ghost rb = b@.subrange(i as int, b@.len() as int);
        assert(ra.drop_first() =~= a@.subrange(i + 1, a@.len() as int));
        assert(rb.drop_first() =~= b@.subrange(i + 1, b@.len() as int));
        i = i + 1;
    }
    let ghost ra = a@.subrange(i as int, a@.len() as int);
    let ghost rb = b@.subrange(i as int, b@.len() as int);
    if i == ca.len() {
        assert(ra.len() == 0);
        i < cb.len()
    } else if i == cb.len() {
        assert(rb.len() == 0);
        false
    } else {
        let x = ca[i];
        let y = cb[i];
        assert(ra[0] == x && rb[0] == y);
        x < y
    }
}

/// `f` failed with failure code `code`.
pub open spec fn failed_with(f: TrackFrame, code: Seq<char>) -> bool {
    f.status is Failed && (f.failure_code matches Some(c) && c@ == code)
}

/// Number of frames that failed with failure code `code`.
pub open spec fn failure_count(f: Seq<TrackFrame>, code: Seq<char>) -> nat
    decreases f.len(),
{
    if f.len() == 0 {
        0
    } else {
        failure_count(f.drop_last(), code) + if failed_with(f.last(), code) { 1nat } else { 0nat }
    }
}

/// Identifiers of the frames with status `status`, in order.
pub open spec fn ids_with_status(f: Seq<TrackFrame>, status: FrameStatus) -> Seq<Seq<char>>
    decreases f.len(),
{
    if f.len() == 0 {
        Seq::empty()
    } else if f.last().status == status {
        ids_with_status(f.drop_last(), status).push(f.last().id@)
    } else {
        ids_with_status(f.drop_last(), status)
    }
}

/// `tally` counts, for the codes it lists, the frames of `f` that failed
/// with each code; its codes are strictly ascending and every code some
/// frame failed with is listed.
pub open spec fn failure_tally(f: Seq<TrackFrame>, tally: Seq<(String, usize)>) -> bool {
    &&& forall|i: int, j: int| 0 <= i < j < tally.len() ==> text_lt(#[trigger] tally[i].0@, #[trigger] tally[j].0@)
    &&& forall|k: int| 0 <= k < tally.len() ==> #[trigger] tally[k].1 == failure_count(f, tally[k].0@)
        && tally[k].1 > 0
    &&& forall|c: Seq<char>| #[trigger] failure_count(f, c) > 0 ==> exists|k: int|
        0 <= k < tally.len() && #[trigger] tally[k].0@ == c
}

/// Statistics of the solver track (the solve rate is derived from them).
#[derive(Debug, Clone, PartialEq, Eq)]
pub struct SolverTrackCounts {
    pub n: usize,
    pub attempted: usize,
    pub solved: usize,
    /// Failure codes with their counts, in ascending code order.
    pub failures_by_code: Vec<(String, usize)>,
    pub missing: Vec<String>,
    pub load_errors: Vec<String>,
}

proof fn lemma_failure_count_bounded(f: Seq<TrackFrame>, code: Seq<char>)
    ensures
        failure_count(f, code) <= f.len(),
    decreases f.len(),
{
    if f.len() > 0 {
        lemma_failure_count_bounded(f.drop_last(), code);
    }
}

proof fn lemma_ids_with_status_bounded(f: Seq<TrackFrame>, status: FrameStatus)
    ensures
        ids_with_status(f, status).len() <= f.len(),
    decreases f.len(),
{
    if f.len() > 0 {
        lemma_ids_with_status_bounded(f.drop_last(), status);
    }
}

/// Adds one failure with `code` to a tally of the first frames.
fn count_failure(tally: &mut Vec<(String, usize)>, code: &String, Ghost(pre): Ghost<Seq<TrackFrame>>, Ghost(next): Ghost<TrackFrame>)
    requires
        failure_tally(pre, old(tally)@),
        failed_with(next, code@),
        pre.len() < usize::MAX,
    ensures
        failure_tally(pre.push(next), final(tally)@),
{
    let ghost all = pre.push(next);
    proof {
        assert(all.drop_last() =~= pre);
        assert forall|c: Seq<char>| #[trigger] failure_count(all, c) == failure_count(pre, c) + if c == code@ { 1nat } else { 0nat } by {
            assert(all.last() == next);
        }
    }
    let mut j: usize = 0;
    while j < tally.len() && text_less(tally[j].0.as_str(), code.as_str())
        invariant
            j <= tally@.len(),
            forall|i: int| 0 <= i < j ==> text_lt(#[trigger] tally@[i].0@, code@),
        decreases tally@.len() - j,
    {
        j = j + 1;
    }
    let ghost before = tally@;
    if j < tally.len() && crate::text::str_eq(tally[j].0.as_str(), code.as_str()) {
        let n = tally[j].1;
        proof {
            lemma_failure_count_bounded(pre, code@);
        }
        let name = tally[j].0.clone();
        tally.set(j, (name, n + 1));
        proof {
            assert forall|i: int, k: int| 0 <= i < k < tally@.len() implies text_lt(#[trigger] tally@[i].0@, #[trigger] tally@[k].0@) by {
                assert(text_lt(before[i].0@, before[k].0@));
            }
            assert forall|k: int| 0 <= k < tally@.len() implies #[trigger] tally@[k].1 == failure_count(all, tally@[k].0@)
                && tally@[k].1 > 0 by {
                if k != j {
                    assert(tally@[k] == before[k]);
                    if before[k].0@ == code@ {
                        lemma_text_lt_total(before[k].0@, before[j as int].0@);
                        if k < j {
                            assert(text_lt(before[k].0@, before[j as int].0@));
                        } else {
                            assert(text_lt(before[j as int].0@, before[k].0@));
                        }
                    }
                }
            }
            assert forall|c: Seq<char>| #[trigger] failure_count(all, c) > 0 implies exists|k: int|
                0 <= k < tally@.len() && #[trigger] tally@[k].0@ == c by {
                if c == code@ {
                    assert(tally@[j as int].0@ == c);
                } else {
                    assert(failure_count(pre, c) > 0);
                    let k = choose|k: int| 0 <= k < before.len() && #[trigger] before[k].0@ == c;
                    assert(tally@[k].0@ == c);
                }
            }
        }
    } else {
        let item: (String, usize) = (code.clone(), 1);
        let ghost item_g = item;
        tally.insert(j, item);
        proof {
            before.insert_ensures(j as int, item_g);
            if j < before.len() {
                lemma_text_lt_total(before[j as int].0@, code@);
            }
            assert forall|i: int, k: int| 0 <= i < k < tally@.len() implies text_lt(#[trigger] tally@[i].0@, #[trigger] tally@[k].0@) by {
                if k < j {
                    assert(tally@[i] == before[i] && tally@[k] == before[k]);
                    assert(text_lt(before[i].0@, before[k].0@));
                } else if k == j {
                    assert(tally@[i] == before[i]);
                } else if i < j {
                    assert(tally@[i] == before[i] && tally@[k] == before[k - 1]);
                    assert(text_lt(before[i].0@, before[k - 1].0@));
                } else if i == j {
                    assert(tally@[k] == before[k - 1]);
                    if k - 1 > j {
                        assert(text_lt(before[j as int].0@, before[k - 1].0@));
                        lemma_text_lt_transitive(code@, before[j as int].0@, before[k - 1].0@);
                    }
                } else {
                    assert(tally@[i] == before[i - 1] && tally@[k] == before[k - 1]);
                    assert(text_lt(before[i - 1].0@, before[k - 1].0@));
                }
            }
            assert forall|k: int| 0 <= k < tally@.len() implies #[trigger] tally@[k].1 == failure_count(all, tally@[k].0@)
                && tally@[k].1 > 0 by {
                if k < j {
                    assert(tally@[k] == before[k]);
                    lemma_text_lt_total(before[k].0@, code@);
                } else if k > j {
                    assert(tally@[k] == before[k - 1]);
                    if before[k - 1].0@ == code@ {
                        if k - 1 > j {
                            assert(text_lt(before[j as int].0@, before[k - 1].0@));
                            lemma_text_lt_transitive(code@, before[j as int].0@, before[k - 1].0@);
                        }
                        lemma_text_lt_total(code@, code@);
                    }
                } else {
                    if failure_count(pre, code@) > 0 {
                        let m = choose|m: int| 0 <= m < before.len() && #[trigger] before[m].0@ == code@;
                        if m < j {
                            lemma_text_lt_total(code@, code@);
                        } else {
                            if m > j {
                                assert(text_lt(before[j as int].0@, before[m].0@));
                                lemma_text_lt_transitive(code@, before[j as int].0@, before[m].0@);
                            }
                            lemma_text_lt_total(code@, code@);
                        }
                    }
                }
            }
            assert forall|c: Seq<char>| #[trigger] failure_count(all, c) > 0 implies exists|k: int|
                0 <= k < tally@.len() && #[trigger] tally@[k].0@ == c by {
                if c == code@ {
                    assert(tally@[j as int].0@ == c);
                } else {
                    assert(failure_count(pre, c) > 0);
                    let k = choose|k: int| 0 <= k < before.len() && #[trigger] before[k].0@ == c;
                    if k < j {
                        assert(tally@[k].0@ == c);
                    } else {
                        assert(tally@[k + 1].0@ == c);
                    }
                }
            }
        }
    }
}

/// Statistics of the solver track: counts, the identifiers of frames whose
/// image is missing or failed to load, and the failure codes of failed
/// solves with their counts.
pub fn build_solver_track(frames: &[TrackFrame]) -> (r: SolverTrackCounts)
    ensures
        r.n == frames@.len(),
        r.attempted == count_attempted(frames@),
        r.solved == count_solved(frames@),
        r.missing@.map_values(|x: String| x@) == ids_with_status(frames@, FrameStatus::MissingImage),
        r.load_errors@.map_values(|x: String| x@) == ids_with_status(frames@, FrameStatus::LoadError),
        failure_tally(frames@, r.failures_by_code@),
{
    let (attempted_n, solved_n, _ids) = tally(frames);
    let mut missing: Vec<String> = Vec::new();
    let mut load_errors: Vec<String> = Vec::new();
    let mut failures: Vec<(String, usize)> = Vec::new();
    let mut i: usize = 0;
    while i < frames.len()
        invariant
            i <= frames@.len(),
            missing@.map_values(|x: String| x@) == ids_with_status(frames@.subrange(0, i as int), FrameStatus::MissingImage),
            load_errors@.map_values(|x: String| x@) == ids_with_status(frames@.subrange(0, i as int), FrameStatus::LoadError),
            failure_tally(frames@.subrange(0, i as int), failures@),
        decreases frames.len() - i,
    {
        let ghost pre = frames@.subrange(0, i as int);
        let ghost cur = frames@.subrange(0, i + 1);
        proof {
            assert(cur.drop_last() =~= pre);
            assert(cur =~= pre.push(frames@[i as int]));
            lemma_ids_with_status_bounded(pre, FrameStatus::MissingImage);
        }
        let f = &frames[i];
        match f.status {
            FrameStatus::MissingImage => {
                missing.push(f.id.clone());
                assert(missing@.map_values(|x: String| x@) =~= ids_with_status(pre, FrameStatus::MissingImage).push(f.id@));
            },
            FrameStatus::LoadError => {
                load_errors.push(f.id.clone());
                assert(load_errors@.map_values(|x: String| x@) =~= ids_with_status(pre, FrameStatus::LoadError).push(f.id@));
            },
            _ => {},
        }
        let mut counted = false;
        if let FrameStatus::Failed = f.status {
            if let Some(code) = &f.failure_code {
                count_failure(&mut failures, code, Ghost(pre), Ghost(*f));
                counted = true;
            }
        }
        if !counted {
            proof {
                assert forall|c: Seq<char>| #[trigger] failure_count(cur, c) == failure_count(pre, c) by {
                    assert(!failed_with(cur.last(), c));
                }
            }
        }
        i = i + 1;
    }
    proof {
        assert(frames@.subrange(0, frames@.len() as int) =~= frames@);
    }
    SolverTrackCounts {
        n: frames.len(),
        attempted: attempted_n,
        solved: solved_n,
        failures_by_code: failures,
        missing,
        load_errors,
    }
}

/// Description of the evaluated dataset, as written to the summary.
#[derive(Debug, Clone, PartialEq, Eq)]
pub struct DatasetInfo {
    pub manifest: String,
    pub tracks: Vec<String>,
    pub ids_filter: Option<Vec<String>>,
    pub n_selected: usize,
}

/// Final verdict of an evaluation run.
#[derive(Debug, Clone, Copy, PartialEq, Eq, Structural)]
pub enum EvalOutcome {
    Success,
    GateFailed,
}

} // verus!

//! Logic behind the desktop viewer: start-up arguments, exposure labels read
//! from frame names, progress-stage names and data attribution.

use vstd::prelude::*;

use std::path::PathBuf;

use crate::calendar::{format_timestamp, parse_timestamp_from_stem, timestamp_display, timestamp_of};
use crate::files::{file_name_of, path_file_name};
use crate::solve::{stage_name, stage_to_string, SolveStage};
use crate::text::{chars_of, split_chars, split_seq, str_eq, string_from_chars};

verus! {

// ---------------------------------------------------------------------------
// Start-up arguments
// ---------------------------------------------------------------------------

/// Startup image path and optional auto-solve flag from process args.
#[derive(Debug, Clone, PartialEq, Eq)]
pub struct StartupRequest {
    pub path: String,
    pub auto_solve: bool,
}

/// `s` begins with `-`.
pub open spec fn is_flag(s: Seq<char>) -> bool {
    s.len() > 0 && s[0] == '-'
}

/// Index of the first argument that is not a flag.
pub open spec fn first_positional(args: Seq<Seq<char>>, i: int) -> bool {
    0 <= i < args.len() && !is_flag(args[i]) && forall|j: int| 0 <= j < i ==> is_flag(#[trigger] args[j])
}

/// Reads start-up arguments: the first argument not starting with `-` is the
/// image path, and `--auto-solve` anywhere turns on automatic solving. With no
/// such path there is no request.
pub fn parse_startup_args(args: &[&str]) -> (r: Option<StartupRequest>)
    ensures
        match r {
            Some(req) => (exists|i: int| first_positional(args@.map_values(|a: &str| a@), i)
                && req.path@ == args@[i]@) && req.auto_solve == (exists|i: int|
                0 <= i < args@.len() && #[trigger] args@[i]@ == "--auto-solve"@),
            None => forall|i: int| 0 <= i < args@.len() ==> is_flag(#[trigger] args@[i]@),
        },
{
    let ghost views = args@.map_values(|a: &str| a@);
    let mut image_path: Option<String> = None;
    let mut auto_solve = false;
    let mut i: usize = 0;
    while i < args.len()
        invariant
            i <= args@.len(),
            views == args@.map_values(|a: &str| a@),
            auto_solve == (exists|j: int| 0 <= j < i && #[trigger] args@[j]@ == "--auto-solve"@),
            match image_path {
                Some(p) => exists|j: int| 0 <= j < i && first_positional(views, j) && p@ == args@[j]@,
                None => forall|j: int| 0 <= j < i ==> is_flag(#[trigger] args@[j]@),
            },
        decreases args.len() - i,
    {
        let arg: &str = args[i];
        let cs = chars_of(arg);
        if str_eq(arg, "--auto-solve") {
            auto_solve = true;
            proof {
                reveal_strlit("--auto-solve");
            }
        } else if !(cs.len() > 0 && cs[0] == '-') && image_path.is_none() {
            image_path = Some(string_from_chars(cs.as_slice()));
            proof {
                assert(views[i as int] == args@[i as int]@);
                assert forall|j: int| 0 <= j < i implies is_flag(#[trigger] views[j]) by {
                    assert(views[j] == args@[j]@);
                }
                assert(first_positional(views, i as int));
            }
        }
        i = i + 1;
    }
    match image_path {
        Some(path) => Some(StartupRequest { path, auto_solve }),
        None => None,
    }
}

// ---------------------------------------------------------------------------
// Exposure labels in frame names
// ---------------------------------------------------------------------------

/// First position at or after `from` where `pat` occurs in `s`, or `s.len()`
/// when it does not occur there.
pub open spec fn find_from(s: Seq<char>, pat: Seq<char>, from: int) -> int
    decreases s.len() - from,
{
    if from < 0 || from + pat.len() > s.len() {
        s.len() as int
    } else if s.subrange(from, from + pat.len()) == pat {
        from
    } else if from >= s.len() {
        s.len() as int
    } else {
        find_from(s, pat, from + 1)
    }
}

/// The marker that introduces an exposure in a frame name.
pub open spec fn exp_marker() -> Seq<char> {
    seq!['E', 'x', 'p', '-']
}

/// The token after the first `Exp-` marker, up to the next `_` or the next
/// `Exp-` marker, when that token is non-empty.
pub open spec fn exposure_after_marker(s: Seq<char>) -> Option<Seq<char>> {
    let i = find_from(s, exp_marker(), 0);
    if i + 4 <= s.len() {
        let start = i + 4;
        let end = find_from(s, exp_marker(), start);
        let us = find_from(s, seq!['_'], start);
        let stop = if us < end { us } else { end };
        if stop > start {
            Some(s.subrange(start, stop))
        } else {
            None
        }
    } else {
        None
    }
}

/// Position of the first non-digit of `t` at or after `from`, or `t.len()`.
pub open spec fn first_non_digit(t: Seq<char>, from: int) -> int
    decreases t.len() - from,
{
    if from < 0 || from >= t.len() {
        t.len() as int
    } else if !crate::text::is_digit(t[from]) {
        from
    } else {
        first_non_digit(t, from + 1)
    }
}

/// A non-empty run of digits followed by exactly `ms`, `s` or `m`.
pub open spec fn is_exposure_token_seq(t: Seq<char>) -> bool {
    let k = first_non_digit(t, 0);
    let suffix = t.subrange(k, t.len() as int);
    k > 0 && (suffix == seq!['m', 's'] || suffix == seq!['s'] || suffix == seq!['m'])
}

proof fn lemma_first_non_digit(t: Seq<char>, from: int)
    requires
        0 <= from <= t.len(),
    ensures
        from <= first_non_digit(t, from) <= t.len(),
        forall|i: int| from <= i < first_non_digit(t, from) ==> crate::text::is_digit(#[trigger] t[i]),
        first_non_digit(t, from) < t.len() ==> !crate::text::is_digit(t[first_non_digit(t, from)]),
    decreases t.len() - from,
{
    if from < t.len() && crate::text::is_digit(t[from]) {
        lemma_first_non_digit(t, from + 1);
    }
}

/// A token is read as an exposure exactly when it is a non-empty run of
/// digits followed by the unit `ms`, `s` or `m`; in particular an
/// all-digit token (such as a frame counter) is never an exposure.
pub proof fn lemma_exposure_token_shape(t: Seq<char>)
    ensures
        is_exposure_token_seq(t) <==> exists|k: int|
            0 < k < t.len() && (forall|i: int| 0 <= i < k ==> crate::text::is_digit(#[trigger] t[i]))
                && (t.subrange(k, t.len() as int) == seq!['m', 's'] || t.subrange(k, t.len() as int)
                == seq!['s'] || t.subrange(k, t.len() as int) == seq!['m']),
        (forall|i: int| 0 <= i < t.len() ==> crate::text::is_digit(#[trigger] t[i])) ==> !is_exposure_token_seq(t),
{
    lemma_first_non_digit(t, 0);
    let f = first_non_digit(t, 0);
    if is_exposure_token_seq(t) {
        let suffix = t.subrange(f, t.len() as int);
        assert(suffix.len() > 0);
        assert(0 < f < t.len());
    }
    if exists|k: int|
        0 < k < t.len() && (forall|i: int| 0 <= i < k ==> crate::text::is_digit(#[trigger] t[i]))
            && (t.subrange(k, t.len() as int) == seq!['m', 's'] || t.subrange(k, t.len() as int)
            == seq!['s'] || t.subrange(k, t.len() as int) == seq!['m']) {
        let k = choose|k: int|
            0 < k < t.len() && (forall|i: int| 0 <= i < k ==> crate::text::is_digit(#[trigger] t[i]))
                && (t.subrange(k, t.len() as int) == seq!['m', 's'] || t.subrange(k, t.len() as int)
                == seq!['s'] || t.subrange(k, t.len() as int) == seq!['m']);
        assert(t[k] == t.subrange(k, t.len() as int)[0]);
        assert(!crate::text::is_digit(t[k]));
        if f < k {
            assert(crate::text::is_digit(t[f]));
        }
        if f > k {
            assert(crate::text::is_digit(t[k]));
        }
        assert(f == k);
    }
    if forall|i: int| 0 <= i < t.len() ==> crate::text::is_digit(#[trigger] t[i]) {
        if f < t.len() {
            assert(crate::text::is_digit(t[f]));
        }
        assert(f == t.len());
    }
}

/// The last piece that is an exposure token.
pub open spec fn last_exposure_token(pieces: Seq<Seq<char>>) -> Option<Seq<char>>
    decreases pieces.len(),
{
    if pieces.len() == 0 {
        None
    } else if is_exposure_token_seq(pieces.last()) {
        Some(pieces.last())
    } else {
        last_exposure_token(pieces.drop_last())
    }
}

/// Exposure label of a frame name: the token after `Exp-`, or else the last
/// `_`-separated piece that reads like `20ms`, `1s` or `20m`.
pub open spec fn exposure_label_of(s: Seq<char>) -> Option<Seq<char>> {
    match exposure_after_marker(s) {
        Some(t) => Some(t),
        None => last_exposure_token(split_seq(s, '_')),
    }
}

/// First occurrence of `pat` in `cs` at or after `from`, or `cs.len()`.
fn find_chars_from(cs: &[char], pat: &[char], from: usize) -> (r: usize)
    requires
        pat@.len() > 0,
        from <= cs@.len(),
    ensures
        r == find_from(cs@, pat@, from as int),
        from <= r <= cs@.len(),
    decreases cs@.len() - from,
{
    let n = cs.len();
    if pat.len() > n - from {
        return n;
    }
    let mut k: usize = 0;
    while k < pat.len()
        invariant
            n == cs@.len(),
            from + pat@.len() <= cs@.len(),
            k <= pat@.len(),
            forall|j: int| 0 <= j < k ==> cs@[from + j] == pat@[j],
        decreases pat.len() - k,
    {
        if cs[from + k] != pat[k] {
            proof {
                assert(cs@.subrange(from as int, from + pat@.len())[k as int] != pat@[k as int]);
            }
            return find_chars_from(cs, pat, from + 1);
        }
        k = k + 1;
    }
    assert(cs@.subrange(from as int, from + pat@.len()) =~= pat@);
    from
}

/// Whether a name piece reads like an exposure (`20ms`, `1s`, `20m`).
pub fn is_exposure_token(token: &str) -> (r: bool)
    ensures
        r == is_exposure_token_seq(token@),
{
    let cs = chars_of(token);
    let mut k: usize = 0;
    while k < cs.len() && '0' <= cs[k] && cs[k] <= '9'
        invariant
            k <= cs@.len(),
            first_non_digit(cs@, 0) == first_non_digit(cs@, k as int),
        decreases cs.len() - k,
    {
        k = k + 1;
    }
    assert(first_non_digit(cs@, k as int) == k);
    let rest = cs.len() - k;
    let ghost suffix = cs@.subrange(k as int, cs@.len() as int);
    assert(suffix.len() == rest);
    if k == 0 {
        return false;
    }
    if rest == 2 {
        proof {
            assert(suffix[0] == cs@[k as int] && suffix[1] == cs@[k + 1]);
            if suffix == seq!['m', 's'] {
                assert(suffix[0] == 'm' && suffix[1] == 's');
            }
            if cs@[k as int] == 'm' && cs@[k + 1] == 's' {
                assert(suffix =~= seq!['m', 's']);
            }
        }
        cs[k] == 'm' && cs[k + 1] == 's'
    } else if rest == 1 {
        proof {
            if cs@[k as int] == 's' {
                assert(suffix =~= seq!['s']);
            }
            if cs@[k as int] == 'm' {
                assert(suffix =~= seq!['m']);
            }
            assert(suffix[0] == cs@[k as int]);
            if suffix == seq!['s'] {
                assert(seq!['s'][0] == 's');
            }
            if suffix == seq!['m'] {
                assert(seq!['m'][0] == 'm');
            }
        }
        cs[k] == 's' || cs[k] == 'm'
    } else {
        proof {
            assert(seq!['m', 's'].len() == 2);
            assert(seq!['s'].len() == 1);
            assert(seq!['m'].len() == 1);
        }
        false
    }
}

/// Exposure label carried in a frame name, if any.
pub fn parse_exposure_label(stem: &str) -> (r: Option<String>)
    ensures
        match r {
            Some(l) => exposure_label_of(stem@) == Some(l@),
            None => exposure_label_of(stem@) is None,
        },
{
    let cs = chars_of(stem);
    let marker: [char; 4] = ['E', 'x', 'p', '-'];
    let underscore: [char; 1] = ['_'];
    proof {
        assert(marker@ =~= exp_marker());
        assert(underscore@ =~= seq!['_']);
    }
    let i = find_chars_from(cs.as_slice(), marker.as_slice(), 0);
    if cs.len() - i >= 4 {
        let start = i + 4;
        let end = find_chars_from(cs.as_slice(), marker.as_slice(), start);
        let us = find_chars_from(cs.as_slice(), underscore.as_slice(), start);
        let stop = if us < end { us } else { end };
        if stop > start {
            let mut token: Vec<char> = Vec::new();
            let mut p = start;
            while p < stop
                invariant
                    start <= p <= stop <= cs@.len(),
                    token@ == cs@.subrange(start as int, p as int),
                decreases stop - p,
            {
                token.push(cs[p]);
                p = p + 1;
                assert(token@ =~= cs@.subrange(start as int, p as int));
            }
            return Some(string_from_chars(token.as_slice()));
        }
    }
    assert(exposure_after_marker(stem@) is None);
    let pieces = split_chars(cs.as_slice(), '_');
    let mut j: usize = pieces.len();
    assert(split_seq(cs@, '_').subrange(0, j as int) =~= split_seq(cs@, '_'));
    while j > 0
        invariant
            j <= pieces@.len(),
            cs@ == stem@,
            exposure_after_marker(stem@) is None,
            pieces@.len() == split_seq(cs@, '_').len(),
            forall|k: int| 0 <= k < pieces@.len() ==> #[trigger] pieces@[k]@ == split_seq(cs@, '_')[k],
            last_exposure_token(split_seq(cs@, '_')) == last_exposure_token(
                split_seq(cs@, '_').subrange(0, j as int),
            ),
        decreases j,
    {
        let piece = string_from_chars(pieces[j - 1].as_slice());
        let ghost pre = split_seq(cs@, '_').subrange(0, j as int);
        assert(pre.last() == pieces@[j - 1]@);
        if is_exposure_token(piece.as_str()) {
            assert(last_exposure_token(pre) == Some(piece@));
            return Some(piece);
        }
        assert(pre.drop_last() =~= split_seq(cs@, '_').subrange(0, j - 1));
        j = j - 1;
    }
    None
}

// ---------------------------------------------------------------------------
// Records returned to the viewer
// ---------------------------------------------------------------------------

/// Resolved on-disk locations for catalog and constellation data.
#[derive(Debug)]
pub struct DataPaths {
    pub catalog: PathBuf,
    pub constellation_lines: PathBuf,
    pub constellation_names: PathBuf,
}

/// Metadata returned after loading an image.
#[derive(Debug, Clone, PartialEq, Eq)]
pub struct ImageMeta {
    pub id: u32,
    pub file_name: String,
    pub width: u32,
    pub height: u32,
    pub timestamp: Option<String>,
    pub exposure_label: Option<String>,
}

/// Metadata of a loaded image: its file name (the whole path when it has
/// none), its size, and the timestamp and exposure read from its name stem.
pub fn image_meta(id: u32, path: &str, source_name: &str, width: u32, height: u32) -> (r: ImageMeta)
    ensures
        r.id == id && r.width == width && r.height == height,
        r.file_name@ == (match path_file_name(path@) {
            Some(n) => n,
            None => path@,
        }),
        match r.timestamp {
            Some(t) => timestamp_of(source_name@) matches Some(ts) && t@ == timestamp_display(ts),
            None => timestamp_of(source_name@) is None,
        },
        match r.exposure_label {
            Some(l) => exposure_label_of(source_name@) == Some(l@),
            None => exposure_label_of(source_name@) is None,
        },
{
    let file_name = match file_name_of(path) {
        Some(n) => n,
        None => path.to_owned(),
    };
    let timestamp = match parse_timestamp_from_stem(source_name) {
        Some(t) => Some(format_timestamp(t)),
        None => None,
    };
    let exposure_label = parse_exposure_label(source_name);
    ImageMeta { id, file_name, width, height, timestamp, exposure_label }
}

/// Progress event streamed during a solve.
#[derive(Debug, Clone, PartialEq, Eq)]
pub struct ProgressEvent {
    pub stage: String,
    pub detail: Option<String>,
}

/// The progress event announcing `stage`.
pub fn progress_event(stage: SolveStage) -> (r: ProgressEvent)
    ensures
        r.stage@ == stage_name(stage),
        r.detail is None,
{
    ProgressEvent { stage: stage_to_string(stage).to_owned(), detail: None }
}

/// One third-party data attribution entry.
#[derive(Debug, Clone, PartialEq, Eq)]
pub struct AttributionItem {
    pub name: String,
    pub license: String,
    pub url: String,
}

/// Attribution bundle for the status bar.
#[derive(Debug, Clone, PartialEq, Eq)]
pub struct AttributionInfo {
    pub items: Vec<AttributionItem>,
}

/// Attribution of the bundled star catalog and constellation figures.
pub fn data_attribution() -> (r: AttributionInfo)
    ensures
        r.items@.len() == 2,
        r.items@[0].name@ == "HYG v4.2"@ && r.items@[0].license@ == "CC BY-SA 4.0"@
            && r.items@[0].url@ == "https://codeberg.org/astronexus/hyg"@,
        r.items@[1].name@ == "d3-celestial"@ && r.items@[1].license@ == "BSD-3-Clause"@
            && r.items@[1].url@ == "https://github.com/ofrohn/d3-celestial"@,
{
    let mut items: Vec<AttributionItem> = Vec::new();
    items.push(
        AttributionItem {
            name: "HYG v4.2".to_owned(),
            license: "CC BY-SA 4.0".to_owned(),
            url: "https://codeberg.org/astronexus/hyg".to_owned(),
        },
    );
    items.push(
        AttributionItem {
            name: "d3-celestial".to_owned(),
            license: "BSD-3-Clause".to_owned(),
            url: "https://github.com/ofrohn/d3-celestial".to_owned(),
        },
    );
    AttributionInfo { items }
}

} // verus!

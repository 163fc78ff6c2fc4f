//! Where the catalog and constellation data live: the file names tried, the
//! layout under a data root, the directories searched upward from a start
//! directory, and paths relative to a dataset root.

use vstd::prelude::*;

use crate::dataset::{frame_id, frame_id_of, split_name, PlannedFrame};

verus! {

/// `std::path::Path::join` of `base` and `rel`, as text.
pub uninterp spec fn path_join(base: Seq<char>, rel: Seq<char>) -> Seq<char>;

/// `std::path::Path::parent` of `p`, as text.
pub uninterp spec fn path_parent(p: Seq<char>) -> Option<Seq<char>>;

/// `std::path::Path::strip_prefix` of `p` by `base`, as text.
pub uninterp spec fn path_strip_prefix(p: Seq<char>, base: Seq<char>) -> Option<Seq<char>>;

/// `Path::new(base).join(rel)`; the joined path of two strings is valid
/// Unicode, so the text conversion is exact.
#[verifier::external_body]
fn join_path(base: &str, rel: &str) -> (r: String)
    ensures
        r@ == path_join(base@, rel@),
{
    std::path::Path::new(base).join(rel).to_string_lossy().into_owned()
}

/// `Path::new(p).parent()`. The parent is `p` without its final component,
/// so it is shorter than `p`.
#[verifier::external_body]
fn parent_of(p: &str) -> (r: Option<String>)
    ensures
        match r {
            Some(q) => path_parent(p@) == Some(q@) && q@.len() < p@.len(),
            None => path_parent(p@) is None,
        },
{
    std::path::Path::new(p).parent().map(|q| q.to_string_lossy().into_owned())
}

/// `Path::new(p).strip_prefix(base)`, the error mapped to `None`.
#[verifier::external_body]
fn strip_path_prefix(p: &str, base: &str) -> (r: Option<String>)
    ensures
        match r {
            Some(q) => path_strip_prefix(p@, base@) == Some(q@),
            None => path_strip_prefix(p@, base@) is None,
        },
{
    std::path::Path::new(p).strip_prefix(base).ok().map(|q| q.to_string_lossy().into_owned())
}

/// Catalog file names in order of preference: the committed gzip export
/// first, then its plain form, then the older release.
pub open spec fn catalog_candidate_names() -> Seq<Seq<char>> {
    seq!["hyg_v42.csv.gz"@, "hyg_v42.csv"@, "hyg_v3.csv.gz"@, "hyg_v3.csv"@]
}

/// The candidate catalog paths inside directory `dir`, in preference order.
pub fn catalog_candidate_paths(dir: &str) -> (paths: Vec<String>)
    ensures
        paths@.len() == catalog_candidate_names().len(),
        forall|i: int|
            0 <= i < paths@.len() ==> #[trigger] paths@[i]@ == path_join(
                dir@,
                catalog_candidate_names()[i],
            ),
{
    let names: [&str; 4] = ["hyg_v42.csv.gz", "hyg_v42.csv", "hyg_v3.csv.gz", "hyg_v3.csv"];
    assert(names@.map_values(|s: &str| s@) =~= catalog_candidate_names());
    let mut paths: Vec<String> = Vec::new();
    let mut i: usize = 0;
    while i < 4
        invariant
            i <= 4,
            names@.map_values(|s: &str| s@) == catalog_candidate_names(),
            paths@.len() == i,
            forall|j: int|
                0 <= j < i ==> #[trigger] paths@[j]@ == path_join(dir@, catalog_candidate_names()[j]),
        decreases 4 - i,
    {
        assert(names@[i as int]@ == catalog_candidate_names()[i as int]);
        paths.push(join_path(dir, names[i]));
        i = i + 1;
    }
    paths
}

/// Index of the first path marked present, if any.
pub fn first_present(present: &[bool]) -> (r: Option<usize>)
    ensures
        match r {
            Some(i) => i < present@.len() && present@[i as int] && forall|j: int|
                0 <= j < i ==> !#[trigger] present@[j],
            None => forall|j: int| 0 <= j < present@.len() ==> !#[trigger] present@[j],
        },
{
    let mut i: usize = 0;
    while i < present.len()
        invariant
            i <= present@.len(),
            forall|j: int| 0 <= j < i ==> !#[trigger] present@[j],
        decreases present@.len() - i,
    {
        if present[i] {
            return Some(i);
        }
        i = i + 1;
    }
    None
}

/// The files a data root must hold.
#[derive(Debug, Clone, PartialEq, Eq)]
pub struct DataLayout {
    /// Candidate catalogs under `data/catalogs`, in preference order.
    pub catalogs: Vec<String>,
    /// `data/celestial/constellations.lines.json`.
    pub constellation_lines: String,
    /// `data/celestial/constellations.json`.
    pub constellation_names: String,
}

/// The data files expected under the data root `root`.
pub fn data_layout(root: &str) -> (layout: DataLayout)
    ensures
        ({
            let catalogs_dir = path_join(root@, "data/catalogs"@);
            let celestial_dir = path_join(root@, "data/celestial"@);
            &&& layout.catalogs@.len() == catalog_candidate_names().len()
            &&& forall|i: int|
                0 <= i < layout.catalogs@.len() ==> #[trigger] layout.catalogs@[i]@ == path_join(
                    catalogs_dir,
                    catalog_candidate_names()[i],
                )
            &&& layout.constellation_lines@ == path_join(celestial_dir, "constellations.lines.json"@)
            &&& layout.constellation_names@ == path_join(celestial_dir, "constellations.json"@)
        }),
{
    let catalogs_dir = join_path(root, "data/catalogs");
    let celestial_dir = join_path(root, "data/celestial");
    DataLayout {
        catalogs: catalog_candidate_paths(catalogs_dir.as_str()),
        constellation_lines: join_path(celestial_dir.as_str(), "constellations.lines.json"),
        constellation_names: join_path(celestial_dir.as_str(), "constellations.json"),
    }
}

/// The directories searched for a data root, from `start` up to the
/// filesystem root: each entry is the parent of the one before, and the last
/// has no parent.
pub fn walk_up_candidates(start: &str) -> (dirs: Vec<String>)
    ensures
        dirs@.len() > 0,
        dirs@[0]@ == start@,
        forall|k: int|
            0 <= k < dirs@.len() - 1 ==> path_parent((#[trigger] dirs@[k])@) == Some(dirs@[k + 1]@),
        path_parent(dirs@[dirs@.len() - 1]@) is None,
{
    let mut dirs: Vec<String> = Vec::new();
    dirs.push(start.to_string());
    loop
        invariant
            dirs@.len() > 0,
            dirs@[0]@ == start@,
            forall|k: int|
                0 <= k < dirs@.len() - 1 ==> path_parent((#[trigger] dirs@[k])@) == Some(
                    dirs@[k + 1]@,
                ),
        decreases dirs@[dirs@.len() - 1]@.len(),
    {
        let last = dirs.len() - 1;
        match parent_of(dirs[last].as_str()) {
            Some(p) => {
                let ghost before = dirs@;
                dirs.push(p);
                proof {
                    assert forall|k: int|
                        0 <= k < dirs@.len() - 1 implies path_parent((#[trigger] dirs@[k])@) == Some(
                            dirs@[k + 1]@,
                        ) by {
                        if k < before.len() - 1 {
                            assert(dirs@[k] == before[k] && dirs@[k + 1] == before[k + 1]);
                        }
                    }
                }
            },
            None => {
                return dirs;
            },
        }
    }
}

/// `absolute_path` relative to `root`, or unchanged when it does not lie
/// under `root`.
pub fn relative_to_root(root: &str, absolute_path: &str) -> (r: String)
    ensures
        r@ == (match path_strip_prefix(absolute_path@, root@) {
            Some(rel) => rel,
            None => absolute_path@,
        }),
{
    match strip_path_prefix(absolute_path, root) {
        Some(rel) => rel,
        None => absolute_path.to_string(),
    }
}

/// Where a generated frame's files go under the dataset output root.
#[derive(Debug, Clone, PartialEq, Eq)]
pub struct FramePaths {
    /// `frame-NNNNNN`.
    pub frame_id: String,
    /// `<root>/<split>/<frame_id>`.
    pub frame_dir: String,
    /// `image.png` in the frame directory.
    pub image: String,
    /// `truth-stars.csv` in the frame directory.
    pub truth: String,
    /// `meta.json` in the frame directory.
    pub meta: String,
}

/// The directory and file paths of a planned frame under `output_root`.
pub fn frame_paths(output_root: &str, frame: PlannedFrame) -> (p: FramePaths)
    requires
        frame.split_frame_index < usize::MAX,
    ensures
        p.frame_id@ == frame_id_of(frame.split_frame_index as nat),
        p.frame_dir@ == path_join(path_join(output_root@, split_name(frame.split)), p.frame_id@),
        p.image@ == path_join(p.frame_dir@, "image.png"@),
        p.truth@ == path_join(p.frame_dir@, "truth-stars.csv"@),
        p.meta@ == path_join(p.frame_dir@, "meta.json"@),
{
    let id = frame_id(frame.split_frame_index);
    let split_dir = join_path(output_root, frame.split.as_str());
    let frame_dir = join_path(split_dir.as_str(), id.as_str());
    let image = join_path(frame_dir.as_str(), "image.png");
    let truth = join_path(frame_dir.as_str(), "truth-stars.csv");
    let meta = join_path(frame_dir.as_str(), "meta.json");
    FramePaths { frame_id: id, frame_dir, image, truth, meta }
}

} // verus!

//! Connected components of a thresholded detection mask (8-connectivity),
//! the first step from a star map to candidate blobs.

use vstd::prelude::*;

verus! {

/// A connected group of lit mask pixels, with its bounding box.
pub struct Blob {
    pub pixels: Vec<(i32, i32)>,
    pub min_x: i32,
    pub min_y: i32,
    pub max_x: i32,
    pub max_y: i32,
}

/// `p` lies inside a `width` x `height` image.
pub open spec fn in_image(width: int, height: int, p: (i32, i32)) -> bool {
    0 <= p.0 < width && 0 <= p.1 < height
}

/// Row-major index of pixel `p`.
pub open spec fn pixel_index(width: int, p: (i32, i32)) -> int {
    p.1 * width + p.0
}

/// `p` is an in-image pixel whose mask entry is set.
pub open spec fn lit(mask: Seq<bool>, width: int, height: int, p: (i32, i32)) -> bool {
    in_image(width, height, p) && mask[pixel_index(width, p)]
}

/// `a` and `b` are distinct 8-neighbours.
pub open spec fn touching(a: (i32, i32), b: (i32, i32)) -> bool {
    a != b && -1 <= a.0 - b.0 <= 1 && -1 <= a.1 - b.1 <= 1
}

/// Pixel `j` of `g` touches an earlier pixel of `g`.
pub open spec fn touches_earlier(g: Seq<(i32, i32)>, j: int) -> bool {
    exists|i: int| 0 <= i < j && #[trigger] touching(g[i], g[j])
}

/// Every pixel after the first touches an earlier one, so the pixels form
/// one 8-connected group.
pub open spec fn chained(g: Seq<(i32, i32)>) -> bool {
    forall|j: int| 0 < j < g.len() ==> #[trigger] touches_earlier(g, j)
}

/// `(min_x, min_y, max_x, max_y)` is the bounding box of the non-empty `g`.
pub open spec fn bounding_box(g: Seq<(i32, i32)>, min_x: i32, min_y: i32, max_x: i32, max_y: i32) -> bool {
    &&& forall|j: int|
        0 <= j < g.len() ==> min_x <= #[trigger] g[j].0 <= max_x && min_y <= g[j].1 <= max_y
    &&& exists|j: int| 0 <= j < g.len() && #[trigger] g[j].0 == min_x
    &&& exists|j: int| 0 <= j < g.len() && #[trigger] g[j].1 == min_y
    &&& exists|j: int| 0 <= j < g.len() && #[trigger] g[j].0 == max_x
    &&& exists|j: int| 0 <= j < g.len() && #[trigger] g[j].1 == max_y
}

/// Size limits under which pixel coordinates fit in `i32`.
pub open spec fn mask_shape(mask: Seq<bool>, width: int, height: int) -> bool {
    &&& 0 <= width <= 0x7fff_ffff
    &&& 0 <= height <= 0x7fff_ffff
    &&& width * height <= mask.len()
}

// ---------------------------------------------------------------------------
// Index arithmetic
// ---------------------------------------------------------------------------

proof fn lemma_index_bounds(width: int, height: int, p: (i32, i32))
    requires
        in_image(width, height, p),
    ensures
        0 <= pixel_index(width, p) < width * height,
{
    let x = p.0 as int;
    let y = p.1 as int;
    assert(0 <= y * width + x < width * height) by (nonlinear_arith)
        requires
            0 <= x < width,
            0 <= y < height,
    ;
}

proof fn lemma_index_injective(width: int, height: int, p: (i32, i32), q: (i32, i32))
    requires
        in_image(width, height, p),
        in_image(width, height, q),
        pixel_index(width, p) == pixel_index(width, q),
    ensures
        p == q,
{
    let (px, py, qx, qy) = (p.0 as int, p.1 as int, q.0 as int, q.1 as int);
    assert(py == qy) by (nonlinear_arith)
        requires
            0 <= px < width,
            0 <= qx < width,
            py * width + px == qy * width + qx,
    {
        if py < qy {
            assert(qy * width >= (py + 1) * width);
        } else if py > qy {
            assert(py * width >= (qy + 1) * width);
        }
    }
}

// ---------------------------------------------------------------------------
// Neighbour directions
// ---------------------------------------------------------------------------

spec fn off_x(d: int) -> int {
    if d == 0 || d == 4 || d == 5 {
        1
    } else if d == 1 || d == 6 || d == 7 {
        -1
    } else {
        0
    }
}

spec fn off_y(d: int) -> int {
    if d == 2 || d == 4 || d == 6 {
        1
    } else if d == 3 || d == 5 || d == 7 {
        -1
    } else {
        0
    }
}

/// The direction whose offset is `(dx, dy)`.
spec fn direction_of(dx: int, dy: int) -> int {
    if dy == 0 {
        if dx == 1 { 0 } else { 1 }
    } else if dx == 0 {
        if dy == 1 { 2 } else { 3 }
    } else if dx == 1 {
        if dy == 1 { 4 } else { 5 }
    } else {
        if dy == 1 { 6 } else { 7 }
    }
}

fn offset(d: usize) -> (r: (i32, i32))
    requires
        d < 8,
    ensures
        r.0 == off_x(d as int),
        r.1 == off_y(d as int),
{
    if d == 0 {
        (1, 0)
    } else if d == 1 {
        (-1, 0)
    } else if d == 2 {
        (0, 1)
    } else if d == 3 {
        (0, -1)
    } else if d == 4 {
        (1, 1)
    } else if d == 5 {
        (1, -1)
    } else if d == 6 {
        (-1, 1)
    } else {
        (-1, -1)
    }
}

// ---------------------------------------------------------------------------
// Labelling state
// ---------------------------------------------------------------------------

/// `label[t]` is `k + 1` when pixel `t` belongs to group `k` (at position
/// `slot[t]`) and 0 when it is not yet assigned.
spec fn labels_ok(
    mask: Seq<bool>,
    width: int,
    height: int,
    label: Seq<usize>,
    slot: Seq<int>,
    groups: Seq<Seq<(i32, i32)>>,
) -> bool {
    &&& label.len() == width * height
    &&& slot.len() == width * height
    &&& forall|t: int|
        #![trigger label[t]]
        0 <= t < width * height && label[t] != 0 ==> {
            &&& label[t] <= groups.len()
            &&& 0 <= slot[t] < groups[label[t] - 1].len()
            &&& pixel_index(width, groups[label[t] - 1][slot[t]]) == t
        }
    &&& forall|k: int, j: int|
        #![trigger groups[k][j]]
        0 <= k < groups.len() && 0 <= j < groups[k].len() ==> {
            &&& lit(mask, width, height, groups[k][j])
            &&& label[pixel_index(width, groups[k][j])] == k + 1
            &&& slot[pixel_index(width, groups[k][j])] == j
        }
}

/// Every lit neighbour of a pixel of group `k` carries label `k + 1`.
spec fn group_closed(
    mask: Seq<bool>,
    width: int,
    height: int,
    label: Seq<usize>,
    g: Seq<(i32, i32)>,
    k: int,
) -> bool {
    forall|j: int, q: (i32, i32)|
        #![trigger g[j], lit(mask, width, height, q)]
        0 <= j < g.len() && touching(g[j], q) && lit(mask, width, height, q) ==> label[pixel_index(
            width,
            q,
        )] == k + 1
}

spec fn all_closed(
    mask: Seq<bool>,
    width: int,
    height: int,
    label: Seq<usize>,
    groups: Seq<Seq<(i32, i32)>>,
) -> bool {
    forall|k: int|
        0 <= k < groups.len() ==> #[trigger] group_closed(mask, width, height, label, groups[k], k)
}

/// `wit[j]` names an earlier pixel that pixel `j` touches.
spec fn linked(g: Seq<(i32, i32)>, wit: Seq<int>) -> bool {
    &&& wit.len() == g.len()
    &&& forall|j: int| 0 < j < g.len() ==> 0 <= #[trigger] wit[j] < j && touching(g[wit[j]], g[j])
}

proof fn lemma_linked_chained(g: Seq<(i32, i32)>, wit: Seq<int>)
    requires
        linked(g, wit),
    ensures
        chained(g),
{
    assert forall|j: int| 0 < j < g.len() implies #[trigger] touches_earlier(g, j) by {
        let i = wit[j];
        assert(0 <= i < j && touching(g[i], g[j]));
    }
}

/// `free` is the finite set of unassigned pixel indices.
spec fn free_ok(label: Seq<usize>, n: int, free: Set<int>) -> bool {
    &&& free.finite()
    &&& forall|t: int| #[trigger] free.contains(t) <==> (0 <= t < n && label[t] == 0)
}

/// State while group `groups.len()` grows as `px`.
spec fn growing(
    mask: Seq<bool>,
    width: int,
    height: int,
    label: Seq<usize>,
    slot: Seq<int>,
    groups: Seq<Seq<(i32, i32)>>,
    px: Seq<(i32, i32)>,
    wit: Seq<int>,
    free: Set<int>,
) -> bool {
    &&& labels_ok(mask, width, height, label, slot, groups.push(px))
    &&& all_closed(mask, width, height, label, groups)
    &&& linked(px, wit)
    &&& px.len() > 0
    &&& free_ok(label, width * height, free)
}

/// Lit pixels in direction `d` of `p` are assigned.
spec fn direction_done(
    mask: Seq<bool>,
    width: int,
    height: int,
    label: Seq<usize>,
    p: (i32, i32),
    d: int,
) -> bool {
    forall|q: (i32, i32)|
        q.0 == p.0 + off_x(d) && q.1 == p.1 + off_y(d) && #[trigger] lit(mask, width, height, q)
            ==> label[pixel_index(width, q)] != 0
}

/// A lit neighbour of a pixel of the growing group, once assigned, belongs to
/// the growing group: the finished groups are closed.
proof fn lemma_neighbour_joins(
    mask: Seq<bool>,
    width: int,
    height: int,
    label: Seq<usize>,
    slot: Seq<int>,
    groups: Seq<Seq<(i32, i32)>>,
    px: Seq<(i32, i32)>,
    p: (i32, i32),
    q: (i32, i32),
)
    requires
        labels_ok(mask, width, height, label, slot, groups.push(px)),
        all_closed(mask, width, height, label, groups),
        lit(mask, width, height, p),
        lit(mask, width, height, q),
        touching(p, q),
        label[pixel_index(width, p)] == groups.len() + 1,
        label[pixel_index(width, q)] != 0,
    ensures
        label[pixel_index(width, q)] == groups.len() + 1,
{
    let t = pixel_index(width, q);
    lemma_index_bounds(width, height, q);
    lemma_index_bounds(width, height, p);
    let all = groups.push(px);
    if label[t] <= groups.len() {
        let k = label[t] - 1;
        let j = slot[t];
        let r = all[k][j];
        assert(all[k] == groups[k]);
        assert(lit(mask, width, height, r));
        lemma_index_injective(width, height, r, q);
        assert(group_closed(mask, width, height, label, groups[k], k));
        assert(touching(groups[k][j], p));
        assert(label[pixel_index(width, p)] == k + 1);
    }
}

/// Assigns the lit, unassigned neighbour of `px[hd]` in direction `d` to the
/// growing group.
fn visit(
    mask: &[bool],
    width: usize,
    height: usize,
    nb: usize,
    hd: usize,
    d: usize,
    label: &mut Vec<usize>,
    px: &mut Vec<(i32, i32)>,
    Ghost(groups): Ghost<Seq<Seq<(i32, i32)>>>,
    Ghost(slot): Ghost<Seq<int>>,
    Ghost(wit): Ghost<Seq<int>>,
    Ghost(free): Ghost<Set<int>>,
) -> (r: (Ghost<Seq<int>>, Ghost<Seq<int>>, Ghost<Set<int>>))
    requires
        mask_shape(mask@, width as int, height as int),
        width * height <= usize::MAX,
        nb == groups.len(),
        nb < usize::MAX,
        hd < old(px)@.len(),
        d < 8,
        growing(mask@, width as int, height as int, old(label)@, slot, groups, old(px)@, wit, free),
    ensures
        growing(mask@, width as int, height as int, final(label)@, r.0@, groups, final(px)@, r.1@, r.2@),
        old(px)@.len() <= final(px)@.len(),
        forall|j: int| 0 <= j < old(px)@.len() ==> #[trigger] final(px)@[j] == old(px)@[j],
        forall|t: int|
            0 <= t < width * height && #[trigger] old(label)@[t] != 0 ==> final(label)@[t]
                == old(label)@[t],
        r.2@.len() + final(px)@.len() == free.len() + old(px)@.len(),
        direction_done(mask@, width as int, height as int, final(label)@, old(px)@[hd as int], d as int),
{
    let ghost n = width * height;
    let p = px[hd];
    proof {
        assert(groups.push(px@)[groups.len() as int] == px@);
        assert(groups.push(px@)[groups.len() as int][hd as int] == p);
        lemma_index_bounds(width as int, height as int, p);
    }
    let (dx, dy) = offset(d);
    let nx: i32 = p.0 + dx;
    let ny: i32 = p.1 + dy;
    if nx >= 0 && ny >= 0 && (nx as usize) < width && (ny as usize) < height {
        let q: (i32, i32) = (nx, ny);
        proof {
            lemma_index_bounds(width as int, height as int, q);
            assert((ny as usize) as int == ny as int);
            assert((nx as usize) as int == nx as int);
            assert((ny as usize) * width <= pixel_index(width as int, q));
        }
        let t: usize = (ny as usize) * width + (nx as usize);
        assert(t == pixel_index(width as int, q));
        if mask[t] && label[t] == 0 {
            let ghost old_label = label@;
            let ghost old_px = px@;
            let ghost all0 = groups.push(old_px);
            let len = px.len();
            label.set(t, nb + 1);
            px.push(q);
            let ghost slot2 = slot.update(t as int, len as int);
            let ghost wit2 = wit.push(hd as int);
            let ghost free2 = free.remove(t as int);
            proof {
                let all = groups.push(px@);
                assert(all.len() == all0.len());
                assert forall|k: int| 0 <= k < groups.len() implies #[trigger] all[k] == all0[k] by {}
                assert(all[groups.len() as int] == px@);
                assert(labels_ok(mask@, width as int, height as int, label@, slot2, all)) by {
                    assert forall|s: int|
                        #![trigger label@[s]]
                        0 <= s < n && label@[s] != 0 implies {
                        &&& label@[s] <= all.len()
                        &&& 0 <= slot2[s] < all[label@[s] - 1].len()
                        &&& pixel_index(width as int, all[label@[s] - 1][slot2[s]]) == s
                    } by {
                        if s != t {
                            assert(old_label[s] != 0);
                            let k = old_label[s] - 1;
                            assert(all0[k][slot[s]] == all[k][slot[s]]);
                        }
                    }
                    assert forall|k: int, j: int|
                        #![trigger all[k][j]]
                        0 <= k < all.len() && 0 <= j < all[k].len() implies {
                        &&& lit(mask@, width as int, height as int, all[k][j])
                        &&& label@[pixel_index(width as int, all[k][j])] == k + 1
                        &&& slot2[pixel_index(width as int, all[k][j])] == j
                    } by {
                        if k == groups.len() && j == len {
                        } else {
                            assert(all[k][j] == all0[k][j]);
                            let u = pixel_index(width as int, all0[k][j]);
                            lemma_index_bounds(width as int, height as int, all0[k][j]);
                            assert(old_label[u] == k + 1);
                        }
                    }
                }
                assert(all_closed(mask@, width as int, height as int, label@, groups)) by {
                    assert forall|k: int| 0 <= k < groups.len() implies #[trigger] group_closed(
                        mask@,
                        width as int,
                        height as int,
                        label@,
                        groups[k],
                        k,
                    ) by {
                        assert(group_closed(mask@, width as int, height as int, old_label, groups[k], k));
                        assert forall|j: int, q2: (i32, i32)|
                            #![trigger groups[k][j], lit(mask@, width as int, height as int, q2)]
                            0 <= j < groups[k].len() && touching(groups[k][j], q2) && lit(
                                mask@,
                                width as int,
                                height as int,
                                q2,
                            ) implies label@[pixel_index(width as int, q2)] == k + 1 by {
                            lemma_index_bounds(width as int, height as int, q2);
                            assert(old_label[pixel_index(width as int, q2)] == k + 1);
                        }
                    }
                }
                assert(linked(px@, wit2)) by {
                    assert forall|j: int| 0 < j < px@.len() implies 0 <= #[trigger] wit2[j] < j
                        && touching(px@[wit2[j]], px@[j]) by {
                        if j < len {
                            assert(px@[j] == old_px[j]);
                            assert(px@[wit[j]] == old_px[wit[j]]);
                        } else {
                            assert(px@[hd as int] == p);
                        }
                    }
                }
                assert(free_ok(label@, n, free2)) by {
                    vstd::set::axiom_set_remove_finite(free, t as int);
                }
                vstd::set::axiom_set_remove_len(free, t as int);
                assert(free.contains(t as int));
            }
            return (Ghost(slot2), Ghost(wit2), Ghost(free2));
        }
    }
    proof {
        assert forall|q: (i32, i32)|
            q.0 == p.0 + off_x(d as int) && q.1 == p.1 + off_y(d as int) && #[trigger] lit(
                mask@,
                width as int,
                height as int,
                q,
            ) implies label@[pixel_index(width as int, q)] != 0 by {
            lemma_index_bounds(width as int, height as int, q);
        }
    }
    (Ghost(slot), Ghost(wit), Ghost(free))
}

/// Grows the group of the unassigned lit pixel `(sx, sy)` breadth-first; the
/// pixel list doubles as the queue.
fn grow_group(
    mask: &[bool],
    width: usize,
    height: usize,
    nb: usize,
    sx: usize,
    sy: usize,
    label: &mut Vec<usize>,
    Ghost(groups): Ghost<Seq<Seq<(i32, i32)>>>,
    Ghost(slot0): Ghost<Seq<int>>,
) -> (r: (Vec<(i32, i32)>, Ghost<Seq<int>>))
    requires
        mask_shape(mask@, width as int, height as int),
        width * height <= usize::MAX,
        nb == groups.len(),
        nb < usize::MAX,
        sx < width,
        sy < height,
        mask@[sy * width + sx],
        old(label)@[sy * width + sx] == 0,
        labels_ok(mask@, width as int, height as int, old(label)@, slot0, groups),
        all_closed(mask@, width as int, height as int, old(label)@, groups),
    ensures
        labels_ok(mask@, width as int, height as int, final(label)@, r.1@, groups.push(r.0@)),
        all_closed(mask@, width as int, height as int, final(label)@, groups.push(r.0@)),
        chained(r.0@),
        r.0@.len() > 0,
        forall|t: int|
            0 <= t < width * height && #[trigger] old(label)@[t] != 0 ==> final(label)@[t]
                == old(label)@[t],
        final(label)@[sy * width + sx] != 0,
{
    let ghost n = width * height;
    let seed: (i32, i32) = (sx as i32, sy as i32);
    proof {
        lemma_index_bounds(width as int, height as int, seed);
    }
    let si: usize = sy * width + sx;
    let ghost old_label = label@;
    let ghost free0 = Set::new(|t: int| 0 <= t < n && old_label[t] == 0);
    proof {
        vstd::set_lib::lemma_int_range(0, n);
        assert(free0.subset_of(vstd::set_lib::set_int_range(0, n)));
        vstd::set_lib::lemma_len_subset(free0, vstd::set_lib::set_int_range(0, n));
    }
    label.set(si, nb + 1);
    let mut px: Vec<(i32, i32)> = Vec::new();
    px.push(seed);
    let ghost mut slot = slot0.update(si as int, 0);
    let ghost mut wit: Seq<int> = seq![0int];
    let ghost mut free = free0.remove(si as int);
    proof {
        let all = groups.push(px@);
        let all0 = groups;
        assert forall|k: int| 0 <= k < groups.len() implies #[trigger] all[k] == all0[k] by {}
        assert(all[groups.len() as int] == px@);
        assert(labels_ok(mask@, width as int, height as int, label@, slot, all)) by {
            assert forall|s: int|
                #![trigger label@[s]]
                0 <= s < n && label@[s] != 0 implies {
                &&& label@[s] <= all.len()
                &&& 0 <= slot[s] < all[label@[s] - 1].len()
                &&& pixel_index(width as int, all[label@[s] - 1][slot[s]]) == s
            } by {
                if s != si {
                    let k = old_label[s] - 1;
                    assert(all0[k][slot0[s]] == all[k][slot0[s]]);
                }
            }
            assert forall|k: int, j: int|
                #![trigger all[k][j]]
                0 <= k < all.len() && 0 <= j < all[k].len() implies {
                &&& lit(mask@, width as int, height as int, all[k][j])
                &&& label@[pixel_index(width as int, all[k][j])] == k + 1
                &&& slot[pixel_index(width as int, all[k][j])] == j
            } by {
                if k < groups.len() {
                    assert(all[k][j] == all0[k][j]);
                    lemma_index_bounds(width as int, height as int, all0[k][j]);
                }
            }
        }
        assert(all_closed(mask@, width as int, height as int, label@, groups)) by {
            assert forall|k: int| 0 <= k < groups.len() implies #[trigger] group_closed(
                mask@,
                width as int,
                height as int,
                label@,
                groups[k],
                k,
            ) by {
                assert(group_closed(mask@, width as int, height as int, old_label, groups[k], k));
                assert forall|j: int, q: (i32, i32)|
                    #![trigger groups[k][j], lit(mask@, width as int, height as int, q)]
                    0 <= j < groups[k].len() && touching(groups[k][j], q) && lit(
                        mask@,
                        width as int,
                        height as int,
                        q,
                    ) implies label@[pixel_index(width as int, q)] == k + 1 by {
                    lemma_index_bounds(width as int, height as int, q);
                    assert(old_label[pixel_index(width as int, q)] == k + 1);
                }
            }
        }
        vstd::set::axiom_set_remove_finite(free0, si as int);
    }
    let mut hd: usize = 0;
    while hd < px.len()
        invariant
            mask_shape(mask@, width as int, height as int),
            width * height <= usize::MAX,
            n == width * height,
            nb == groups.len(),
            nb < usize::MAX,
            hd <= px@.len(),
            si == sy * width + sx,
            growing(mask@, width as int, height as int, label@, slot, groups, px@, wit, free),
            forall|j: int, q: (i32, i32)|
                #![trigger px@[j], lit(mask@, width as int, height as int, q)]
                0 <= j < hd && touching(px@[j], q) && lit(mask@, width as int, height as int, q)
                    ==> label@[pixel_index(width as int, q)] == nb + 1,
            forall|t: int|
                0 <= t < n && #[trigger] old_label[t] != 0 ==> label@[t] == old_label[t],
            si < n,
            label@[si as int] != 0,
        decreases free.len(), px@.len() - hd,
    {
        let ghost p = px@[hd as int];
        let ghost f_start = free.len();
        let ghost p_start = px@.len();
        let mut d: usize = 0;
        while d < 8
            invariant
                mask_shape(mask@, width as int, height as int),
                width * height <= usize::MAX,
                n == width * height,
                nb == groups.len(),
                nb < usize::MAX,
                hd < px@.len(),
                d <= 8,
                px@[hd as int] == p,
                p_start <= px@.len(),
                growing(mask@, width as int, height as int, label@, slot, groups, px@, wit, free),
                forall|e: int|
                    0 <= e < d ==> #[trigger] direction_done(
                        mask@,
                        width as int,
                        height as int,
                        label@,
                        p,
                        e,
                    ),
                forall|j: int, q: (i32, i32)|
                    #![trigger px@[j], lit(mask@, width as int, height as int, q)]
                    0 <= j < hd && touching(px@[j], q) && lit(mask@, width as int, height as int, q)
                        ==> label@[pixel_index(width as int, q)] == nb + 1,
                forall|t: int|
                    0 <= t < n && #[trigger] old_label[t] != 0 ==> label@[t] == old_label[t],
                si < n,
                label@[si as int] != 0,
                free.len() + px@.len() == f_start + p_start,
            decreases 8 - d,
        {
            let ghost label_before = label@;
            let ghost px_before = px@;
            let (Ghost(s2), Ghost(w2), Ghost(f2)) = visit(
                mask,
                width,
                height,
                nb,
                hd,
                d,
                label,
                &mut px,
                Ghost(groups),
                Ghost(slot),
                Ghost(wit),
                Ghost(free),
            );
            proof {
                slot = s2;
                wit = w2;
                free = f2;
                assert forall|e: int| 0 <= e <= d implies #[trigger] direction_done(
                    mask@,
                    width as int,
                    height as int,
                    label@,
                    p,
                    e,
                ) by {
                    if e < d {
                        assert(direction_done(mask@, width as int, height as int, label_before, p, e));
                        assert forall|q: (i32, i32)|
                            q.0 == p.0 + off_x(e) && q.1 == p.1 + off_y(e) && #[trigger] lit(
                                mask@,
                                width as int,
                                height as int,
                                q,
                            ) implies label@[pixel_index(width as int, q)] != 0 by {
                            lemma_index_bounds(width as int, height as int, q);
                            assert(label_before[pixel_index(width as int, q)] != 0);
                        }
                    }
                }
                assert forall|j: int, q: (i32, i32)|
                    #![trigger px@[j], lit(mask@, width as int, height as int, q)]
                    0 <= j < hd && touching(px@[j], q) && lit(mask@, width as int, height as int, q)
                        implies label@[pixel_index(width as int, q)] == nb + 1 by {
                    assert(px@[j] == px_before[j]);
                    lemma_index_bounds(width as int, height as int, q);
                    assert(label_before[pixel_index(width as int, q)] == nb + 1);
                }
                assert(px@[hd as int] == px_before[hd as int]);
            }
            d = d + 1;
        }
        proof {
            let all = groups.push(px@);
            assert(all[groups.len() as int] == px@);
            assert(lit(mask@, width as int, height as int, all[groups.len() as int][hd as int]));
            lemma_index_bounds(width as int, height as int, p);
            assert forall|q: (i32, i32)|
                #![trigger lit(mask@, width as int, height as int, q)]
                touching(p, q) && lit(mask@, width as int, height as int, q) implies label@[pixel_index(
                    width as int,
                    q,
                )] == nb + 1 by {
                let e = direction_of(q.0 - p.0, q.1 - p.1);
                assert(direction_done(mask@, width as int, height as int, label@, p, e));
                assert(label@[pixel_index(width as int, q)] != 0);
                lemma_neighbour_joins(mask@, width as int, height as int, label@, slot, groups, px@, p, q);
            }
        }
        hd = hd + 1;
    }
    proof {
        let all = groups.push(px@);
        assert(all[groups.len() as int] == px@);
        assert forall|k: int| 0 <= k < all.len() implies #[trigger] group_closed(
            mask@,
            width as int,
            height as int,
            label@,
            all[k],
            k,
        ) by {
            if k < groups.len() {
                assert(all[k] == groups[k]);
            }
        }
        lemma_linked_chained(px@, wit);
    }
    (px, Ghost(slot))
}

/// The pixel lists of `blobs`.
pub open spec fn blob_pixels(blobs: Seq<Blob>) -> Seq<Seq<(i32, i32)>> {
    blobs.map_values(|b: Blob| b.pixels@)
}

/// Bounding box of a non-empty pixel list.
fn blob_of(pixels: Vec<(i32, i32)>) -> (b: Blob)
    requires
        pixels@.len() > 0,
    ensures
        b.pixels@ == pixels@,
        bounding_box(pixels@, b.min_x, b.min_y, b.max_x, b.max_y),
{
    let mut min_x = i32::MAX;
    let mut min_y = i32::MAX;
    let mut max_x = i32::MIN;
    let mut max_y = i32::MIN;
    let ghost g = pixels@;
    let ghost mut a: int = 0;
    let ghost mut b: int = 0;
    let ghost mut c: int = 0;
    let ghost mut e: int = 0;
    let mut i: usize = 0;
    while i < pixels.len()
        invariant
            g == pixels@,
            i <= g.len(),
            forall|j: int|
                0 <= j < i ==> min_x <= #[trigger] g[j].0 <= max_x && min_y <= g[j].1 <= max_y,
            i > 0 ==> 0 <= a < i && g[a].0 == min_x,
            i > 0 ==> 0 <= b < i && g[b].1 == min_y,
            i > 0 ==> 0 <= c < i && g[c].0 == max_x,
            i > 0 ==> 0 <= e < i && g[e].1 == max_y,
        decreases g.len() - i,
    {
        let (x, y) = pixels[i];
        if i == 0 || x < min_x {
            min_x = x;
            proof {
                a = i as int;
            }
        }
        if i == 0 || y < min_y {
            min_y = y;
            proof {
                b = i as int;
            }
        }
        if i == 0 || x > max_x {
            max_x = x;
            proof {
                c = i as int;
            }
        }
        if i == 0 || y > max_y {
            max_y = y;
            proof {
                e = i as int;
            }
        }
        i = i + 1;
    }
    proof {
        assert(g[a].0 == min_x);
        assert(g[b].1 == min_y);
        assert(g[c].0 == max_x);
        assert(g[e].1 == max_y);
    }
    Blob { pixels, min_x, min_y, max_x, max_y }
}

/// Splits the lit pixels of a row-major `width` x `height` mask into its
/// 8-connected components, each with its bounding box. Every lit pixel lies
/// in exactly one blob, touching pixels share a blob, and each blob is
/// connected; the order of the blobs is not part of the contract.
pub fn label_components(mask: &[bool], width: usize, height: usize) -> (blobs: Vec<Blob>)
    requires
        mask_shape(mask@, width as int, height as int),
    ensures
        ({
            let gs = blob_pixels(blobs@);
            &&& forall|k: int, j: int|
                0 <= k < gs.len() && 0 <= j < gs[k].len() ==> lit(
                    mask@,
                    width as int,
                    height as int,
                    #[trigger] gs[k][j],
                )
            &&& forall|p: (i32, i32)|
                #[trigger] lit(mask@, width as int, height as int, p) ==> exists|k: int, j: int|
                    0 <= k < gs.len() && 0 <= j < gs[k].len() && #[trigger] gs[k][j] == p
            &&& forall|k1: int, j1: int, k2: int, j2: int|
                0 <= k1 < gs.len() && 0 <= j1 < gs[k1].len() && 0 <= k2 < gs.len() && 0 <= j2
                    < gs[k2].len() && #[trigger] gs[k1][j1] == #[trigger] gs[k2][j2] ==> k1 == k2
                    && j1 == j2
            &&& forall|k1: int, j1: int, k2: int, j2: int|
                0 <= k1 < gs.len() && 0 <= j1 < gs[k1].len() && 0 <= k2 < gs.len() && 0 <= j2
                    < gs[k2].len() && touching(#[trigger] gs[k1][j1], #[trigger] gs[k2][j2])
                    ==> k1 == k2
            &&& forall|k: int|
                0 <= k < gs.len() ==> #[trigger] gs[k].len() > 0 && chained(gs[k])
                    && bounding_box(gs[k], blobs@[k].min_x, blobs@[k].min_y, blobs@[k].max_x, blobs@[k].max_y)
        }),
{
    let total = mask.len();
    assert(width * height <= total);
    let n: usize = width * height;
    let mut label: Vec<usize> = Vec::new();
    while label.len() < n
        invariant
            n == width * height,
            label@.len() <= n,
            forall|t: int| 0 <= t < label@.len() ==> #[trigger] label@[t] == 0,
        decreases n - label@.len(),
    {
        label.push(0);
    }
    let ghost mut slot: Seq<int> = Seq::new(n as nat, |t: int| 0int);
    let ghost mut gs: Seq<Seq<(i32, i32)>> = Seq::empty();
    let mut blobs: Vec<Blob> = Vec::new();
    let mut i: usize = 0;
    let mut y: usize = 0;
    while y < height
        invariant
            mask_shape(mask@, width as int, height as int),
            n == width * height,
            y <= height,
            i == y * width,
            labels_ok(mask@, width as int, height as int, label@, slot, gs),
            all_closed(mask@, width as int, height as int, label@, gs),
            forall|k: int| 0 <= k < gs.len() ==> #[trigger] gs[k].len() > 0 && chained(gs[k]),
            blobs@.len() == gs.len(),
            forall|k: int|
                0 <= k < gs.len() ==> #[trigger] blobs@[k].pixels@ == gs[k] && bounding_box(
                    gs[k],
                    blobs@[k].min_x,
                    blobs@[k].min_y,
                    blobs@[k].max_x,
                    blobs@[k].max_y,
                ),
            gs.len() <= i,
            forall|t: int| 0 <= t < i && #[trigger] mask@[t] ==> label@[t] != 0,
        decreases height - y,
    {
        proof {
            assert(i + width <= n) by (nonlinear_arith)
                requires
                    i == y * width,
                    y < height,
                    n == width * height,
            ;
        }
        let mut x: usize = 0;
        while x < width
            invariant
                mask_shape(mask@, width as int, height as int),
                n == width * height,
                y < height,
                x <= width,
                i == y * width + x,
                i + width - x <= n,
                labels_ok(mask@, width as int, height as int, label@, slot, gs),
                all_closed(mask@, width as int, height as int, label@, gs),
                forall|k: int| 0 <= k < gs.len() ==> #[trigger] gs[k].len() > 0 && chained(gs[k]),
                blobs@.len() == gs.len(),
                forall|k: int|
                    0 <= k < gs.len() ==> #[trigger] blobs@[k].pixels@ == gs[k] && bounding_box(
                        gs[k],
                        blobs@[k].min_x,
                        blobs@[k].min_y,
                        blobs@[k].max_x,
                        blobs@[k].max_y,
                    ),
                gs.len() <= i,
                forall|t: int| 0 <= t < i && #[trigger] mask@[t] ==> label@[t] != 0,
            decreases width - x,
        {
            if mask[i] && label[i] == 0 {
                let ghost label_before = label@;
                let (px, Ghost(s2)) = grow_group(
                    mask,
                    width,
                    height,
                    blobs.len(),
                    x,
                    y,
                    &mut label,
                    Ghost(gs),
                    Ghost(slot),
                );
                let ghost g_new = px@;
                let blob = blob_of(px);
                blobs.push(blob);
                proof {
                    let gs2 = gs.push(g_new);
                    assert forall|k: int| 0 <= k < gs2.len() implies #[trigger] gs2[k].len() > 0
                        && chained(gs2[k]) by {
                        if k < gs.len() {
                            assert(gs2[k] == gs[k]);
                        }
                    }
                    assert forall|k: int| 0 <= k < gs2.len() implies #[trigger] blobs@[k].pixels@
                        == gs2[k] && bounding_box(
                        gs2[k],
                        blobs@[k].min_x,
                        blobs@[k].min_y,
                        blobs@[k].max_x,
                        blobs@[k].max_y,
                    ) by {
                        if k < gs.len() {
                            assert(gs2[k] == gs[k]);
                        }
                    }
                    assert forall|t: int| 0 <= t < i && #[trigger] mask@[t] implies label@[t] != 0 by {
                        assert(label_before[t] != 0);
                    }
                    gs = gs2;
                    slot = s2;
                }
            }
            i = i + 1;
            x = x + 1;
        }
        proof {
            assert(i == (y + 1) * width) by (nonlinear_arith)
                requires
                    i == y * width + width,
            ;
        }
        y = y + 1;
    }
    proof {
        assert(i == n) by (nonlinear_arith)
            requires
                i == y * width,
                y == height,
                n == width * height,
        ;
        let w = width as int;
        let h = height as int;
        assert(blob_pixels(blobs@) =~= gs);
        assert forall|p: (i32, i32)| #[trigger] lit(mask@, w, h, p) implies exists|k: int, j: int|
            0 <= k < gs.len() && 0 <= j < gs[k].len() && #[trigger] gs[k][j] == p by {
            lemma_index_bounds(w, h, p);
            let t = pixel_index(w, p);
            assert(mask@[t]);
            let k = label@[t] - 1;
            let j = slot[t];
            lemma_index_injective(w, h, gs[k][j], p);
        }
        assert forall|k1: int, j1: int, k2: int, j2: int|
            0 <= k1 < gs.len() && 0 <= j1 < gs[k1].len() && 0 <= k2 < gs.len() && 0 <= j2
                < gs[k2].len() && #[trigger] gs[k1][j1] == #[trigger] gs[k2][j2] implies k1 == k2
                && j1 == j2 by {
            let t = pixel_index(w, gs[k1][j1]);
            assert(label@[t] == k1 + 1);
            assert(label@[t] == k2 + 1);
        }
        assert forall|k1: int, j1: int, k2: int, j2: int|
            0 <= k1 < gs.len() && 0 <= j1 < gs[k1].len() && 0 <= k2 < gs.len() && 0 <= j2
                < gs[k2].len() && touching(#[trigger] gs[k1][j1], #[trigger] gs[k2][j2])
                implies k1 == k2 by {
            assert(group_closed(mask@, w, h, label@, gs[k1], k1));
            assert(lit(mask@, w, h, gs[k2][j2]));
            assert(label@[pixel_index(w, gs[k2][j2])] == k2 + 1);
        }
    }
    blobs
}

} // verus!

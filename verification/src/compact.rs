//! The second pass over a grid: from provisional labels to final ones.
//!
//! The pixels are visited row by row once more. The class of each
//! foreground pixel gets, when it is first met, the next unused number
//! counting from 1, and every pixel is overwritten with the number of its
//! class.

use crate::components::{before, component_count, component_label, connected, foreground};
use crate::components::{has_label, is_leader, leader_of, leaders, leaders_before};
use crate::components::{lemma_component_count_bounded, lemma_connected_pixels};
use crate::components::lemma_leader_exists;
use crate::grid::{lemma_row_major, Grid};
use crate::regionlabelling::{value_equality, Connectivity};
use crate::scan::{marks, provisional};
use crate::unionfind::DisjointSetForest;
use vstd::prelude::*;

verus! {

/// The state of the second pass when every pixel before `cur` has been
/// visited. `prov` holds the labels of the first pass and `out` the grid
/// being rewritten in place; `ids[r]` is the final label given to the class
/// with root `r`, or 0 if none was given yet; `owner[v]` is the pixel at
/// which the final label `v + 1` was first given.
spec fn compacted<P>(
    image: &Grid<P>,
    background: P,
    conn: Connectivity,
    prov: &Grid<u32>,
    forest: &DisjointSetForest,
    out: &Grid<u32>,
    ids: Seq<u32>,
    owner: Seq<(int, int)>,
    cur: (int, int),
) -> bool {
    let k = owner.len() as int;
    &&& provisional(image, background, conn, prov, forest)
    &&& out.well_formed()
    &&& out.spec_width() == image.spec_width()
    &&& out.spec_height() == image.spec_height()
    &&& ids.len() == forest.spec_len()
    &&& forall|p: (int, int)| #[trigger]
        image.inside(p) ==> if foreground(image, background, p) && before(p, cur) {
            &&& 1 <= out.at(p) <= k
            &&& out.at(p) == ids[forest.root_of(prov.at(p) - 1)]
        } else {
            out.at(p) == prov.at(p)
        }
    &&& forall|r: int|
        0 <= r < ids.len() && #[trigger] ids[r] != 0 ==> {
            &&& 1 <= ids[r] <= k
            &&& forest.root_of(prov.at(owner[ids[r] - 1]) - 1) == r
        }
    &&& forall|v: int|
        0 <= v < k ==> {
            &&& is_leader(image, background, conn, #[trigger] owner[v])
            &&& before(owner[v], cur)
            &&& out.at(owner[v]) == v + 1
        }
    &&& leaders_before(image, background, conn, cur).finite()
    &&& leaders_before(image, background, conn, cur).len() == k
    &&& forall|p: (int, int)|
        before(p, cur) && #[trigger] is_leader(image, background, conn, p) ==> out.at(p)
            == leaders_before(image, background, conn, p).len() + 1
}

/// Before any pixel is visited, with no final label given.
proof fn lemma_compact_start<P>(
    image: &Grid<P>,
    background: P,
    conn: Connectivity,
    prov: &Grid<u32>,
    forest: &DisjointSetForest,
    ids: Seq<u32>,
)
    requires
        provisional(image, background, conn, prov, forest),
        ids.len() == forest.spec_len(),
        forall|r: int| 0 <= r < ids.len() ==> #[trigger] ids[r] == 0,
    ensures
        compacted(image, background, conn, prov, forest, prov, ids, Seq::empty(), (0, 0)),
{
    assert(leaders_before(image, background, conn, (0, 0)) =~= Set::empty());
}

/// From the end of one row the pass goes on at the start of the next.
proof fn lemma_compact_row<P>(
    image: &Grid<P>,
    background: P,
    conn: Connectivity,
    prov: &Grid<u32>,
    forest: &DisjointSetForest,
    out: &Grid<u32>,
    ids: Seq<u32>,
    owner: Seq<(int, int)>,
    y: int,
)
    requires
        compacted(
            image,
            background,
            conn,
            prov,
            forest,
            out,
            ids,
            owner,
            (image.spec_width() as int, y),
        ),
    ensures
        compacted(image, background, conn, prov, forest, out, ids, owner, (0, y + 1)),
{
    let end = (image.spec_width() as int, y);
    let next = (0int, y + 1);
    assert(leaders_before(image, background, conn, next) =~= leaders_before(
        image,
        background,
        conn,
        end,
    ));
    assert forall|p: (int, int)|
        before(p, next) && #[trigger] is_leader(image, background, conn, p) implies out.at(p)
        == leaders_before(image, background, conn, p).len() + 1 by {
        assert(image.inside(p));
        assert(before(p, end));
    }
}

/// Looking up a root may reshape the forest but keeps the classes and their roots.
proof fn lemma_compact_roots<P>(
    image: &Grid<P>,
    background: P,
    conn: Connectivity,
    prov: &Grid<u32>,
    forest: &DisjointSetForest,
    reshaped: &DisjointSetForest,
    out: &Grid<u32>,
    ids: Seq<u32>,
    owner: Seq<(int, int)>,
    cur: (int, int),
)
    requires
        compacted(image, background, conn, prov, forest, out, ids, owner, cur),
        reshaped.well_formed(),
        reshaped.spec_len() == forest.spec_len(),
        forall|i: int| reshaped.root_of(i) == forest.root_of(i),
    ensures
        compacted(image, background, conn, prov, reshaped, out, ids, owner, cur),
{
    assert forall|p: (int, int), q: (int, int)|
        foreground(image, background, p) && foreground(image, background, q) implies (
    #[trigger] connected(image, background, conn, p, q) <==> reshaped.same_set(
        prov.at(p) - 1,
        prov.at(q) - 1,
    )) by {
        assert(reshaped.same_set(prov.at(p) - 1, prov.at(q) - 1) == forest.same_set(
            prov.at(p) - 1,
            prov.at(q) - 1,
        ));
    }
}

/// A background pixel keeps its 0 and begins no component.
proof fn lemma_compact_skip<P>(
    image: &Grid<P>,
    background: P,
    conn: Connectivity,
    prov: &Grid<u32>,
    forest: &DisjointSetForest,
    out: &Grid<u32>,
    ids: Seq<u32>,
    owner: Seq<(int, int)>,
    cur: (int, int),
)
    requires
        compacted(image, background, conn, prov, forest, out, ids, owner, cur),
        image.inside(cur),
        !foreground(image, background, cur),
    ensures
        compacted(image, background, conn, prov, forest, out, ids, owner, (cur.0 + 1, cur.1)),
{
    let next = (cur.0 + 1, cur.1);
    assert(leaders_before(image, background, conn, next) =~= leaders_before(
        image,
        background,
        conn,
        cur,
    ));
    assert forall|p: (int, int)| #[trigger] image.inside(p) implies if foreground(
        image,
        background,
        p,
    ) && before(p, next) {
        &&& 1 <= out.at(p) <= owner.len()
        &&& out.at(p) == ids[forest.root_of(prov.at(p) - 1)]
    } else {
        out.at(p) == prov.at(p)
    } by {
        if p != cur && before(p, next) {
            assert(before(p, cur));
        }
    }
    assert forall|p: (int, int)|
        before(p, next) && #[trigger] is_leader(image, background, conn, p) implies out.at(p)
        == leaders_before(image, background, conn, p).len() + 1 by {
        assert(before(p, cur));
    }
}

/// A foreground pixel whose class has no final label yet is the first pixel
/// of its component, and gets the next unused label.
proof fn lemma_compact_fresh<P>(
    image: &Grid<P>,
    background: P,
    conn: Connectivity,
    prov: &Grid<u32>,
    forest: &DisjointSetForest,
    out: &Grid<u32>,
    marked: &Grid<u32>,
    ids: Seq<u32>,
    owner: Seq<(int, int)>,
    cur: (int, int),
)
    requires
        compacted(image, background, conn, prov, forest, out, ids, owner, cur),
        foreground(image, background, cur),
        ids[forest.root_of(prov.at(cur) - 1)] == 0,
        owner.len() + 1 <= u32::MAX,
        marks(out, marked, cur, (owner.len() + 1) as u32),
    ensures
        compacted(
            image,
            background,
            conn,
            prov,
            forest,
            marked,
            ids.update(forest.root_of(prov.at(cur) - 1), (owner.len() + 1) as u32),
            owner.push(cur),
            (cur.0 + 1, cur.1),
        ),
{
    let next = (cur.0 + 1, cur.1);
    let k = owner.len() as int;
    let r = forest.root_of(prov.at(cur) - 1);
    let given = ids.update(r, (k + 1) as u32);
    let grown = owner.push(cur);
    assert(image.inside(cur));
    forest.lemma_root_of(prov.at(cur) - 1);
    assert forall|q: (int, int)| before(q, cur) implies !#[trigger] connected(
        image,
        background,
        conn,
        q,
        cur,
    ) by {
        if connected(image, background, conn, q, cur) {
            lemma_connected_pixels(image, background, conn, q, cur);
            assert(image.inside(q));
            assert(forest.same_set(prov.at(q) - 1, prov.at(cur) - 1));
        }
    }
    assert(is_leader(image, background, conn, cur));
    assert(leaders_before(image, background, conn, next) =~= leaders_before(
        image,
        background,
        conn,
        cur,
    ).insert(cur));
    assert forall|p: (int, int)| #[trigger] image.inside(p) implies if foreground(
        image,
        background,
        p,
    ) && before(p, next) {
        &&& 1 <= marked.at(p) <= k + 1
        &&& marked.at(p) == given[forest.root_of(prov.at(p) - 1)]
    } else {
        marked.at(p) == prov.at(p)
    } by {
        assert(out.inside(p));
        if p != cur {
            if before(p, next) {
                assert(before(p, cur));
            }
            if foreground(image, background, p) && before(p, cur) {
                forest.lemma_root_of(prov.at(p) - 1);
            }
        }
    }
    assert forall|x: int| 0 <= x < given.len() && #[trigger] given[x] != 0 implies {
        &&& 1 <= given[x] <= k + 1
        &&& forest.root_of(prov.at(grown[given[x] - 1]) - 1) == x
    } by {
        if x != r {
            assert(ids[x] != 0);
        }
    }
    assert forall|v: int| 0 <= v < k + 1 implies {
        &&& is_leader(image, background, conn, #[trigger] grown[v])
        &&& before(grown[v], next)
        &&& marked.at(grown[v]) == v + 1
    } by {
        if v < k {
            assert(is_leader(image, background, conn, owner[v]));
            assert(out.inside(owner[v]));
        }
    }
    assert forall|p: (int, int)|
        before(p, next) && #[trigger] is_leader(image, background, conn, p) implies marked.at(p)
        == leaders_before(image, background, conn, p).len() + 1 by {
        assert(out.inside(p));
        if p != cur {
            assert(before(p, cur));
        }
    }
}

/// A foreground pixel whose class has a final label takes it, and begins no component.
proof fn lemma_compact_reuse<P>(
    image: &Grid<P>,
    background: P,
    conn: Connectivity,
    prov: &Grid<u32>,
    forest: &DisjointSetForest,
    out: &Grid<u32>,
    marked: &Grid<u32>,
    ids: Seq<u32>,
    owner: Seq<(int, int)>,
    cur: (int, int),
)
    requires
        compacted(image, background, conn, prov, forest, out, ids, owner, cur),
        foreground(image, background, cur),
        ids[forest.root_of(prov.at(cur) - 1)] != 0,
        marks(out, marked, cur, ids[forest.root_of(prov.at(cur) - 1)]),
    ensures
        compacted(image, background, conn, prov, forest, marked, ids, owner, (cur.0 + 1, cur.1)),
{
    let next = (cur.0 + 1, cur.1);
    let k = owner.len() as int;
    let r = forest.root_of(prov.at(cur) - 1);
    assert(image.inside(cur));
    forest.lemma_root_of(prov.at(cur) - 1);
    let first = owner[ids[r] - 1];
    assert(is_leader(image, background, conn, first));
    assert(forest.same_set(prov.at(first) - 1, prov.at(cur) - 1));
    assert(connected(image, background, conn, first, cur));
    assert(!is_leader(image, background, conn, cur));
    assert(leaders_before(image, background, conn, next) =~= leaders_before(
        image,
        background,
        conn,
        cur,
    ));
    assert forall|p: (int, int)| #[trigger] image.inside(p) implies if foreground(
        image,
        background,
        p,
    ) && before(p, next) {
        &&& 1 <= marked.at(p) <= k
        &&& marked.at(p) == ids[forest.root_of(prov.at(p) - 1)]
    } else {
        marked.at(p) == prov.at(p)
    } by {
        assert(out.inside(p));
        if p != cur && before(p, next) {
            assert(before(p, cur));
        }
    }
    assert forall|v: int| 0 <= v < k implies {
        &&& is_leader(image, background, conn, #[trigger] owner[v])
        &&& before(owner[v], next)
        &&& marked.at(owner[v]) == v + 1
    } by {
        assert(is_leader(image, background, conn, owner[v]));
        assert(out.inside(owner[v]));
    }
    assert forall|p: (int, int)|
        before(p, next) && #[trigger] is_leader(image, background, conn, p) implies marked.at(p)
        == leaders_before(image, background, conn, p).len() + 1 by {
        assert(out.inside(p));
        assert(before(p, cur));
    }
}

/// When the last row is done, the grid holds the final labelling.
proof fn lemma_compact_end<P>(
    image: &Grid<P>,
    background: P,
    conn: Connectivity,
    prov: &Grid<u32>,
    forest: &DisjointSetForest,
    out: &Grid<u32>,
    ids: Seq<u32>,
    owner: Seq<(int, int)>,
)
    requires
        compacted(
            image,
            background,
            conn,
            prov,
            forest,
            out,
            ids,
            owner,
            (0, image.spec_height() as int),
        ),
    ensures
        forall|p: (int, int)| #[trigger]
            image.inside(p) ==> out.at(p) == component_label(image, background, conn, p),
        forall|p: (int, int)| #[trigger]
            image.inside(p) ==> (out.at(p) == 0 <==> image.at(p) == background),
        forall|p: (int, int), q: (int, int)|
            foreground(image, background, p) && foreground(image, background, q) ==> (
            #[trigger] connected(image, background, conn, p, q) <==> out.at(p) == out.at(q)),
        forall|v: u32|
            v != 0 ==> (#[trigger] has_label(out, v) <==> v <= component_count(
                image,
                background,
                conn,
            )),
{
    let end = (0int, image.spec_height() as int);
    let k = owner.len() as int;
    assert(leaders(image, background, conn) =~= leaders_before(image, background, conn, end));
    lemma_component_count_bounded(image, background, conn);
    assert forall|p: (int, int)| #[trigger] image.inside(p) implies (out.at(p) == 0 <==> image.at(
        p,
    ) == background) by {
        assert(before(p, end));
    }
    assert forall|p: (int, int), q: (int, int)|
        foreground(image, background, p) && foreground(image, background, q) implies (
    #[trigger] connected(image, background, conn, p, q) <==> out.at(p) == out.at(q)) by {
        assert(image.inside(p) && image.inside(q));
        assert(before(p, end) && before(q, end));
        let rp = forest.root_of(prov.at(p) - 1);
        let rq = forest.root_of(prov.at(q) - 1);
        forest.lemma_root_of(prov.at(p) - 1);
        forest.lemma_root_of(prov.at(q) - 1);
        assert(connected(image, background, conn, p, q) <==> forest.same_set(
            prov.at(p) - 1,
            prov.at(q) - 1,
        ));
        if out.at(p) == out.at(q) {
            assert(ids[rp] != 0 && ids[rq] != 0);
        }
    }
    assert forall|p: (int, int)| #[trigger] image.inside(p) implies out.at(p) == component_label(
        image,
        background,
        conn,
        p,
    ) by {
        assert(before(p, end));
        if foreground(image, background, p) {
            lemma_leader_exists(image, background, conn, p);
            let first = leader_of(image, background, conn, p);
            assert(image.inside(first));
            assert(before(first, end));
            assert(out.at(first) == out.at(p));
        }
    }
    assert forall|v: u32| v != 0 implies (#[trigger] has_label(out, v) <==> v <= k) by {
        if has_label(out, v) {
            let p = choose|p: (int, int)| out.inside(p) && #[trigger] out.at(p) == v;
            assert(image.inside(p));
            assert(before(p, end));
        }
        if v <= k {
            let p = owner[v - 1];
            assert(is_leader(image, background, conn, p));
            assert(out.inside(p) && out.at(p) == v);
        }
    }
}

/// Visits the pixel at `(x, y)` in the second pass: a foreground pixel gets
/// the final label of its class, which is the next unused one if the class
/// had none.
fn relabel_pixel<P: Eq>(
    image: &Grid<P>,
    conn: Ghost<Connectivity>,
    background: &P,
    prov: Ghost<Grid<u32>>,
    forest: &mut DisjointSetForest,
    out: &mut Grid<u32>,
    output_labels: &mut Vec<u32>,
    count: &mut u32,
    owner: Ghost<Seq<(int, int)>>,
    x: u32,
    y: u32,
) -> (grown: Ghost<Seq<(int, int)>>)
    requires
        image.well_formed(),
        value_equality::<P>(),
        image.contains(x as int, y as int),
        compacted(
            image,
            *background,
            conn@,
            &prov@,
            old(forest),
            old(out),
            old(output_labels)@,
            owner@,
            (x as int, y as int),
        ),
        *old(count) == owner@.len(),
        owner@.len() < image.spec_width() * image.spec_height() <= u32::MAX,
    ensures
        compacted(
            image,
            *background,
            conn@,
            &prov@,
            final(forest),
            final(out),
            final(output_labels)@,
            grown@,
            (x as int + 1, y as int),
        ),
        *final(count) == grown@.len(),
        grown@.len() <= owner@.len() + 1,
{
    let ghost cur = (x as int, y as int);
    let ghost bg = *background;
    if *image.get_pixel(x, y) == *background {
        proof {
            lemma_compact_skip(image, bg, conn@, &prov@, forest, out, output_labels@, owner@, cur);
        }
        return owner;
    }
    let label = *out.get_pixel(x, y);
    proof {
        assert(image.inside(cur));
        assert(label == prov@.at(cur));
    }
    let ghost searched = *forest;
    let root = forest.root((label - 1) as usize);
    proof {
        lemma_compact_roots(
            image,
            bg,
            conn@,
            &prov@,
            &searched,
            forest,
            out,
            output_labels@,
            owner@,
            cur,
        );
    }
    let mut output_label = output_labels[root];
    let ghost unmarked = *out;
    if output_label < 1 {
        output_label = *count + 1;
        *count = output_label;
        let ghost ids = output_labels@;
        output_labels.set(root, output_label);
        out.put_pixel(x, y, output_label);
        proof {
            lemma_compact_fresh(image, bg, conn@, &prov@, forest, &unmarked, out, ids, owner@, cur);
        }
        Ghost(owner@.push(cur))
    } else {
        out.put_pixel(x, y, output_label);
        proof {
            lemma_compact_reuse(
                image,
                bg,
                conn@,
                &prov@,
                forest,
                &unmarked,
                out,
                output_labels@,
                owner@,
                cur,
            );
        }
        owner
    }
}

/// The second pass: gives the classes of the forest the labels 1, 2, 3 and
/// so on, in the order in which the rows, read top to bottom and left to
/// right, first meet each class, and writes to every foreground pixel the
/// label of its class.
pub(crate) fn compact<P: Eq>(
    image: &Grid<P>,
    conn: Ghost<Connectivity>,
    background: &P,
    labels: Grid<u32>,
    forest: DisjointSetForest,
) -> (out: Grid<u32>)
    requires
        image.well_formed(),
        value_equality::<P>(),
        image.spec_width() * image.spec_height() <= u32::MAX,
        provisional(image, *background, conn@, &labels, &forest),
    ensures
        out.well_formed(),
        out.spec_width() == image.spec_width(),
        out.spec_height() == image.spec_height(),
        forall|p: (int, int)| #[trigger]
            image.inside(p) ==> out.at(p) == component_label(image, *background, conn@, p),
        forall|p: (int, int)| #[trigger]
            image.inside(p) ==> (out.at(p) == 0 <==> image.at(p) == *background),
        forall|p: (int, int), q: (int, int)|
            foreground(image, *background, p) && foreground(image, *background, q) ==> (
            #[trigger] connected(image, *background, conn@, p, q) <==> out.at(p) == out.at(q)),
        forall|v: u32|
            v != 0 ==> (#[trigger] has_label(&out, v) <==> v <= component_count(
                image,
                *background,
                conn@,
            )),
{
    let width = image.width();
    let height = image.height();
    let ghost bg = *background;
    let ghost prov = labels;
    let mut out = labels;
    let mut forest = forest;
    let image_size: usize = forest.len();
    let mut output_labels: Vec<u32> = Vec::with_capacity(image_size);
    let mut i: usize = 0;
    while i < image_size
        invariant
            i <= image_size,
            output_labels@.len() == i,
            forall|r: int| 0 <= r < i ==> #[trigger] output_labels@[r] == 0,
        decreases image_size - i,
    {
        output_labels.push(0u32);
        i += 1;
    }
    let mut count: u32 = 0;
    let ghost mut owner: Seq<(int, int)> = Seq::empty();
    proof {
        lemma_compact_start(image, bg, conn@, &prov, &forest, output_labels@);
    }
    let mut y: u32 = 0;
    while y < height
        invariant
            image.well_formed(),
            value_equality::<P>(),
            width == image.spec_width(),
            height == image.spec_height(),
            width * height <= u32::MAX,
            y <= height,
            bg == *background,
            compacted(
                image,
                bg,
                conn@,
                &prov,
                &forest,
                &out,
                output_labels@,
                owner,
                (0, y as int),
            ),
            count == owner.len(),
            owner.len() <= y * width,
        decreases height - y,
    {
        let mut x: u32 = 0;
        while x < width
            invariant
                image.well_formed(),
                value_equality::<P>(),
                width == image.spec_width(),
                height == image.spec_height(),
                width * height <= u32::MAX,
                y < height,
                x <= width,
                bg == *background,
                compacted(
                    image,
                    bg,
                    conn@,
                    &prov,
                    &forest,
                    &out,
                    output_labels@,
                    owner,
                    (x as int, y as int),
                ),
                count == owner.len(),
                owner.len() <= y * width + x,
            decreases width - x,
        {
            proof {
                lemma_row_major(width as int, height as int, x as int, y as int);
            }
            let grown = relabel_pixel(
                image,
                conn,
                background,
                Ghost(prov),
                &mut forest,
                &mut out,
                &mut output_labels,
                &mut count,
                Ghost(owner),
                x,
                y,
            );
            proof {
                owner = grown@;
            }
            x += 1;
        }
        proof {
            lemma_compact_row(
                image,
                bg,
                conn@,
                &prov,
                &forest,
                &out,
                output_labels@,
                owner,
                y as int,
            );
            assert((y + 1) * width == y * width + width) by (nonlinear_arith);
        }
        y += 1;
    }
    proof {
        lemma_compact_end(image, bg, conn@, &prov, &forest, &out, output_labels@, owner);
    }
    out
}

} // verus!

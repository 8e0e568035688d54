//! The first pass over a grid: provisional labels and the classes they fall into.
//!
//! The pixels are visited row by row. A foreground pixel looks at the
//! neighbours that were visited before it and hold its value: if there are
//! none it gets a label of its own, otherwise it takes the least of their
//! labels and all their labels are merged into one class of a disjoint-set
//! forest. The label `l` is the element `l - 1` of the forest.

use crate::components::{adjacent, before, connected, foreground, linked};
use crate::components::{lemma_connected_reflexive, lemma_connected_symmetric};
use crate::components::{lemma_connected_transitive, lemma_constant_on_component};
use crate::components::lemma_linked_connected;
use crate::grid::{lemma_row_major, Grid};
use crate::regionlabelling::{value_equality, Connectivity};
use crate::unionfind::DisjointSetForest;
use vstd::prelude::*;

verus! {

/// The state of the first pass when every pixel before `cur` has been
/// visited: `origin[e]` is the pixel for which the label `e + 1` was made,
/// every visited foreground pixel is connected to the origin of its label,
/// the classes of the forest hold only labels whose origins are connected,
/// and the labels of linked visited pixels share a class.
spec fn scanned<P>(
    image: &Grid<P>,
    background: P,
    conn: Connectivity,
    labels: &Grid<u32>,
    forest: &DisjointSetForest,
    origin: Seq<(int, int)>,
    cur: (int, int),
) -> bool {
    let n = origin.len() as int;
    &&& labels.well_formed()
    &&& labels.spec_width() == image.spec_width()
    &&& labels.spec_height() == image.spec_height()
    &&& forest.well_formed()
    &&& forest.spec_len() == image.spec_width() * image.spec_height()
    &&& n <= forest.spec_len()
    &&& forall|p: (int, int)| #[trigger]
        image.inside(p) ==> if foreground(image, background, p) {
            before(p, cur) ==> {
                &&& 1 <= labels.at(p) <= n
                &&& connected(image, background, conn, p, origin[labels.at(p) - 1])
            }
        } else {
            labels.at(p) == 0
        }
    &&& forall|a: int, b: int|
        0 <= a < n && 0 <= b < n && #[trigger] forest.same_set(a, b) ==> connected(
            image,
            background,
            conn,
            origin[a],
            origin[b],
        )
    &&& forall|a: int, b: int|
        0 <= a < forest.spec_len() && 0 <= b < forest.spec_len() && a != b && (n <= a || n <= b)
            ==> !#[trigger] forest.same_set(a, b)
    &&& forall|p: (int, int), q: (int, int)|
        before(p, cur) && before(q, cur) && #[trigger] linked(image, background, conn, p, q)
            ==> forest.same_set(labels.at(p) - 1, labels.at(q) - 1)
}

/// Before any pixel is visited, with all labels unset and every class a singleton.
proof fn lemma_scan_start<P>(
    image: &Grid<P>,
    background: P,
    conn: Connectivity,
    labels: &Grid<u32>,
    forest: &DisjointSetForest,
)
    requires
        labels.well_formed(),
        labels.spec_width() == image.spec_width(),
        labels.spec_height() == image.spec_height(),
        forall|x: int, y: int| labels.contains(x, y) ==> #[trigger] labels.pixel(x, y) == 0,
        forest.well_formed(),
        forest.spec_len() == image.spec_width() * image.spec_height(),
        forall|i: int| 0 <= i < forest.spec_len() ==> #[trigger] forest.root_of(i) == i,
    ensures
        scanned(image, background, conn, labels, forest, Seq::empty(), (0, 0)),
{
}

/// A background pixel needs no work.
proof fn lemma_scan_skip<P>(
    image: &Grid<P>,
    background: P,
    conn: Connectivity,
    labels: &Grid<u32>,
    forest: &DisjointSetForest,
    origin: Seq<(int, int)>,
    cur: (int, int),
)
    requires
        scanned(image, background, conn, labels, forest, origin, cur),
        image.inside(cur),
        !foreground(image, background, cur),
    ensures
        scanned(image, background, conn, labels, forest, origin, (cur.0 + 1, cur.1)),
{
    let next = (cur.0 + 1, cur.1);
    assert forall|p: (int, int), q: (int, int)|
        before(p, next) && before(q, next) && #[trigger] linked(
            image,
            background,
            conn,
            p,
            q,
        ) implies forest.same_set(labels.at(p) - 1, labels.at(q) - 1) by {
        assert(p != cur && q != cur);
        assert(before(p, cur) && before(q, cur));
    }
}

/// From the end of one row the scan goes on at the start of the next.
proof fn lemma_scan_row<P>(
    image: &Grid<P>,
    background: P,
    conn: Connectivity,
    labels: &Grid<u32>,
    forest: &DisjointSetForest,
    origin: Seq<(int, int)>,
    y: int,
)
    requires
        scanned(image, background, conn, labels, forest, origin, (image.spec_width() as int, y)),
    ensures
        scanned(image, background, conn, labels, forest, origin, (0, y + 1)),
{
    let end = (image.spec_width() as int, y);
    let next = (0int, y + 1);
    assert forall|p: (int, int), q: (int, int)|
        before(p, next) && before(q, next) && #[trigger] linked(
            image,
            background,
            conn,
            p,
            q,
        ) implies forest.same_set(labels.at(p) - 1, labels.at(q) - 1) by {
        assert(image.inside(p) && image.inside(q));
        assert(before(p, end) && before(q, end));
    }
}

/// Whether `marked` is `labels` with the pixel at `cur` set to `label`.
pub(crate) open spec fn marks(labels: &Grid<u32>, marked: &Grid<u32>, cur: (int, int), label: u32) -> bool {
    &&& marked.well_formed()
    &&& marked.spec_width() == labels.spec_width()
    &&& marked.spec_height() == labels.spec_height()
    &&& marked.at(cur) == label
    &&& forall|p: (int, int)| #[trigger] labels.inside(p) && p != cur ==> marked.at(p) == labels.at(p)
}

/// A foreground pixel that is linked to no visited pixel gets a label of its own.
proof fn lemma_scan_fresh<P>(
    image: &Grid<P>,
    background: P,
    conn: Connectivity,
    labels: &Grid<u32>,
    marked: &Grid<u32>,
    forest: &DisjointSetForest,
    origin: Seq<(int, int)>,
    cur: (int, int),
)
    requires
        scanned(image, background, conn, labels, forest, origin, cur),
        foreground(image, background, cur),
        forall|q: (int, int)| before(q, cur) ==> !#[trigger] linked(image, background, conn, q, cur),
        origin.len() < forest.spec_len(),
        marks(labels, marked, cur, (origin.len() + 1) as u32),
        origin.len() + 1 <= u32::MAX,
    ensures
        scanned(image, background, conn, marked, forest, origin.push(cur), (cur.0 + 1, cur.1)),
{
    let next = (cur.0 + 1, cur.1);
    let n = origin.len() as int;
    let grown = origin.push(cur);
    lemma_connected_reflexive(image, background, conn, cur);
    assert forall|p: (int, int)| #[trigger] image.inside(p) implies if foreground(
        image,
        background,
        p,
    ) {
        before(p, next) ==> {
            &&& 1 <= marked.at(p) <= n + 1
            &&& connected(image, background, conn, p, grown[marked.at(p) - 1])
        }
    } else {
        marked.at(p) == 0
    } by {
        assert(labels.inside(p));
        if p != cur && before(p, next) {
            assert(before(p, cur));
        }
    }
    assert forall|a: int, b: int|
        0 <= a < n + 1 && 0 <= b < n + 1 && #[trigger] forest.same_set(a, b) implies connected(
        image,
        background,
        conn,
        grown[a],
        grown[b],
    ) by {
        if a == n || b == n {
            assert(a == b);
        }
    }
    assert forall|p: (int, int), q: (int, int)|
        before(p, next) && before(q, next) && #[trigger] linked(
            image,
            background,
            conn,
            p,
            q,
        ) implies forest.same_set(marked.at(p) - 1, marked.at(q) - 1) by {
        assert(labels.inside(p) && labels.inside(q));
        if p == cur {
            assert(before(q, cur));
            assert(linked(image, background, conn, q, cur));
        } else if q == cur {
            assert(before(p, cur));
            assert(linked(image, background, conn, p, cur));
        } else {
            assert(before(p, cur) && before(q, cur));
        }
    }
}

/// Writing a label to the pixel being visited does not disturb what holds
/// of the pixels before it.
proof fn lemma_scan_mark<P>(
    image: &Grid<P>,
    background: P,
    conn: Connectivity,
    labels: &Grid<u32>,
    marked: &Grid<u32>,
    forest: &DisjointSetForest,
    origin: Seq<(int, int)>,
    cur: (int, int),
    label: u32,
)
    requires
        scanned(image, background, conn, labels, forest, origin, cur),
        foreground(image, background, cur),
        marks(labels, marked, cur, label),
    ensures
        scanned(image, background, conn, marked, forest, origin, cur),
{
    assert forall|p: (int, int)| #[trigger] image.inside(p) implies if foreground(
        image,
        background,
        p,
    ) {
        before(p, cur) ==> {
            &&& 1 <= marked.at(p) <= origin.len()
            &&& connected(image, background, conn, p, origin[marked.at(p) - 1])
        }
    } else {
        marked.at(p) == 0
    } by {
        assert(labels.inside(p));
    }
    assert forall|p: (int, int), q: (int, int)|
        before(p, cur) && before(q, cur) && #[trigger] linked(
            image,
            background,
            conn,
            p,
            q,
        ) implies forest.same_set(marked.at(p) - 1, marked.at(q) - 1) by {
        assert(labels.inside(p) && labels.inside(q));
    }
}

/// Whether `merged` is `forest` after the classes of `a` and `b` were made one.
spec fn unites(forest: &DisjointSetForest, merged: &DisjointSetForest, a: int, b: int) -> bool {
    &&& merged.well_formed()
    &&& merged.spec_len() == forest.spec_len()
    &&& forall|x: int, y: int|
        0 <= x < forest.spec_len() && 0 <= y < forest.spec_len() ==> (#[trigger] merged.same_set(
            x,
            y,
        ) <==> {
            ||| forest.same_set(x, y)
            ||| forest.same_set(x, a) && forest.same_set(y, b)
            ||| forest.same_set(x, b) && forest.same_set(y, a)
        })
}

/// Merging the classes of two labels whose origins are connected keeps
/// every class within one component.
proof fn lemma_scan_union<P>(
    image: &Grid<P>,
    background: P,
    conn: Connectivity,
    labels: &Grid<u32>,
    forest: &DisjointSetForest,
    merged: &DisjointSetForest,
    origin: Seq<(int, int)>,
    cur: (int, int),
    a: int,
    b: int,
)
    requires
        scanned(image, background, conn, labels, forest, origin, cur),
        0 <= a < origin.len(),
        0 <= b < origin.len(),
        connected(image, background, conn, origin[a], origin[b]),
        unites(forest, merged, a, b),
    ensures
        scanned(image, background, conn, labels, merged, origin, cur),
{
    let n = origin.len() as int;
    lemma_connected_symmetric(image, background, conn, origin[a], origin[b]);
    assert forall|x: int, y: int|
        0 <= x < n && 0 <= y < n && #[trigger] merged.same_set(x, y) implies connected(
        image,
        background,
        conn,
        origin[x],
        origin[y],
    ) by {
        if forest.same_set(x, y) {
        } else if forest.same_set(x, a) && forest.same_set(y, b) {
            assert(forest.same_set(b, y));
            lemma_connected_transitive(image, background, conn, origin[x], origin[a], origin[b]);
            lemma_connected_transitive(image, background, conn, origin[x], origin[b], origin[y]);
        } else {
            assert(forest.same_set(x, b) && forest.same_set(y, a));
            assert(forest.same_set(a, y));
            lemma_connected_transitive(image, background, conn, origin[x], origin[b], origin[a]);
            lemma_connected_transitive(image, background, conn, origin[x], origin[a], origin[y]);
        }
    }
    assert forall|x: int, y: int|
        0 <= x < merged.spec_len() && 0 <= y < merged.spec_len() && x != y && (n <= x || n
            <= y) implies !#[trigger] merged.same_set(x, y) by {
        assert(!forest.same_set(x, y));
        if n <= x {
            assert(!forest.same_set(x, a));
            assert(!forest.same_set(x, b));
        } else {
            assert(!forest.same_set(y, a));
            assert(!forest.same_set(y, b));
        }
    }
    assert forall|p: (int, int), q: (int, int)|
        before(p, cur) && before(q, cur) && #[trigger] linked(
            image,
            background,
            conn,
            p,
            q,
        ) implies merged.same_set(labels.at(p) - 1, labels.at(q) - 1) by {
        assert(image.inside(p) && image.inside(q));
        assert(forest.same_set(labels.at(p) - 1, labels.at(q) - 1));
    }
}

/// Once the pixel at `cur` carries a label whose origin it is connected to,
/// and that label shares a class with the label of every visited pixel
/// linked to `cur`, the pixel counts as visited.
proof fn lemma_scan_joined<P>(
    image: &Grid<P>,
    background: P,
    conn: Connectivity,
    labels: &Grid<u32>,
    forest: &DisjointSetForest,
    origin: Seq<(int, int)>,
    cur: (int, int),
)
    requires
        scanned(image, background, conn, labels, forest, origin, cur),
        foreground(image, background, cur),
        1 <= labels.at(cur) <= origin.len(),
        connected(image, background, conn, cur, origin[labels.at(cur) - 1]),
        forall|q: (int, int)|
            before(q, cur) && #[trigger] linked(image, background, conn, q, cur)
                ==> forest.same_set(labels.at(cur) - 1, labels.at(q) - 1),
    ensures
        scanned(image, background, conn, labels, forest, origin, (cur.0 + 1, cur.1)),
{
    let next = (cur.0 + 1, cur.1);
    assert forall|p: (int, int)| #[trigger] image.inside(p) implies if foreground(
        image,
        background,
        p,
    ) {
        before(p, next) ==> {
            &&& 1 <= labels.at(p) <= origin.len()
            &&& connected(image, background, conn, p, origin[labels.at(p) - 1])
        }
    } else {
        labels.at(p) == 0
    } by {
        if p != cur && before(p, next) {
            assert(before(p, cur));
        }
    }
    assert forall|p: (int, int), q: (int, int)|
        before(p, next) && before(q, next) && #[trigger] linked(
            image,
            background,
            conn,
            p,
            q,
        ) implies forest.same_set(labels.at(p) - 1, labels.at(q) - 1) by {
        if p == cur {
            assert(before(q, cur));
            assert(linked(image, background, conn, q, cur));
        } else if q == cur {
            assert(before(p, cur));
            assert(linked(image, background, conn, p, cur));
        } else {
            assert(before(p, cur) && before(q, cur));
        }
    }
}

/// What the first pass leaves behind: every foreground pixel carries a
/// label, and the labels of two foreground pixels share a class of the
/// forest exactly if the pixels are connected.
pub(crate) open spec fn provisional<P>(
    image: &Grid<P>,
    background: P,
    conn: Connectivity,
    labels: &Grid<u32>,
    forest: &DisjointSetForest,
) -> bool {
    &&& labels.well_formed()
    &&& labels.spec_width() == image.spec_width()
    &&& labels.spec_height() == image.spec_height()
    &&& forest.well_formed()
    &&& forest.spec_len() == image.spec_width() * image.spec_height()
    &&& forall|p: (int, int)| #[trigger]
        image.inside(p) ==> if foreground(image, background, p) {
            1 <= labels.at(p) <= forest.spec_len()
        } else {
            labels.at(p) == 0
        }
    &&& forall|p: (int, int), q: (int, int)|
        foreground(image, background, p) && foreground(image, background, q) ==> (
        #[trigger] connected(image, background, conn, p, q) <==> forest.same_set(
            labels.at(p) - 1,
            labels.at(q) - 1,
        ))
}

/// When the last row is done, the classes of the forest are the components.
proof fn lemma_scan_end<P>(
    image: &Grid<P>,
    background: P,
    conn: Connectivity,
    labels: &Grid<u32>,
    forest: &DisjointSetForest,
    origin: Seq<(int, int)>,
)
    requires
        scanned(
            image,
            background,
            conn,
            labels,
            forest,
            origin,
            (0, image.spec_height() as int),
        ),
    ensures
        provisional(image, background, conn, labels, forest),
{
    let end = (0int, image.spec_height() as int);
    let class = |p: (int, int)| forest.root_of(labels.at(p) - 1);
    assert forall|a: (int, int), b: (int, int)| #[trigger]
        linked(image, background, conn, a, b) implies class(a) == class(b) by {
        assert(image.inside(a) && image.inside(b));
        assert(before(a, end) && before(b, end));
        assert(forest.same_set(labels.at(a) - 1, labels.at(b) - 1));
    }
    assert forall|p: (int, int), q: (int, int)|
        foreground(image, background, p) && foreground(image, background, q) implies (
    #[trigger] connected(image, background, conn, p, q) <==> forest.same_set(
        labels.at(p) - 1,
        labels.at(q) - 1,
    )) by {
        assert(image.inside(p) && image.inside(q));
        assert(before(p, end) && before(q, end));
        let a = labels.at(p) - 1;
        let b = labels.at(q) - 1;
        if connected(image, background, conn, p, q) {
            lemma_constant_on_component(image, background, conn, class, p, q);
            assert(class(p) == class(q));
        }
        if forest.same_set(a, b) {
            lemma_connected_symmetric(image, background, conn, q, origin[b]);
            lemma_connected_transitive(image, background, conn, p, origin[a], origin[b]);
            lemma_connected_transitive(image, background, conn, p, origin[b], q);
        }
    }
}

/// The labels of the neighbours of the pixel at `(x, y)` that were visited
/// before it and hold the value it holds: West and North, and with `Eight`
/// North-West and North-East as well. The first `num_adj` entries of the
/// array count; `from` names the pixel that each was read from.
fn causal_labels<P: Eq>(
    image: &Grid<P>,
    labels: &Grid<u32>,
    conn: Connectivity,
    x: u32,
    y: u32,
) -> (r: ([u32; 4], usize, Ghost<Seq<(int, int)>>))
    requires
        image.well_formed(),
        labels.well_formed(),
        labels.spec_width() == image.spec_width(),
        labels.spec_height() == image.spec_height(),
        value_equality::<P>(),
        image.contains(x as int, y as int),
    ensures
        ({
            let (adj, num_adj, from) = r;
            let cur = (x as int, y as int);
            &&& num_adj <= 4
            &&& from@.len() == num_adj
            &&& forall|k: int|
                0 <= k < num_adj ==> {
                    &&& image.inside(#[trigger] from@[k])
                    &&& before(from@[k], cur)
                    &&& adjacent(conn, from@[k], cur)
                    &&& image.at(from@[k]) == image.at(cur)
                    &&& adj@[k] == labels.at(from@[k])
                }
            &&& forall|q: (int, int)|
                image.inside(q) && before(q, cur) && #[trigger] adjacent(conn, q, cur) && image.at(
                    q,
                ) == image.at(cur) ==> exists|k: int| 0 <= k < num_adj && from@[k] == q
        }),
{
    let width = image.width();
    let current = image.get_pixel(x, y);
    let mut adj_labels: [u32; 4] = [0u32; 4];
    let mut num_adj: usize = 0;
    let ghost cur = (x as int, y as int);
    let ghost mut from: Seq<(int, int)> = Seq::empty();
    let ghost mut west: int = -1;
    let ghost mut north: int = -1;
    let ghost mut north_west: int = -1;
    let ghost mut north_east: int = -1;

    if x > 0 {
        // West
        if *image.get_pixel(x - 1, y) == *current {
            let label = *labels.get_pixel(x - 1, y);
            adj_labels[num_adj] = label;
            proof {
                west = num_adj as int;
                from = from.push((x - 1, y as int));
            }
            num_adj += 1;
        }
    }
    if y > 0 {
        // North
        if *image.get_pixel(x, y - 1) == *current {
            let label = *labels.get_pixel(x, y - 1);
            adj_labels[num_adj] = label;
            proof {
                north = num_adj as int;
                from = from.push((x as int, y - 1));
            }
            num_adj += 1;
        }
        if conn == Connectivity::Eight {
            if x > 0 {
                // North West
                if *image.get_pixel(x - 1, y - 1) == *current {
                    let label = *labels.get_pixel(x - 1, y - 1);
                    adj_labels[num_adj] = label;
                    proof {
                        north_west = num_adj as int;
                        from = from.push((x - 1, y - 1));
                    }
                    num_adj += 1;
                }
            }
            if x < width - 1 {
                // North East
                if *image.get_pixel(x + 1, y - 1) == *current {
                    let label = *labels.get_pixel(x + 1, y - 1);
                    adj_labels[num_adj] = label;
                    proof {
                        north_east = num_adj as int;
                        from = from.push((x + 1, y - 1));
                    }
                    num_adj += 1;
                }
            }
        }
    }
    proof {
        assert forall|q: (int, int)|
            image.inside(q) && before(q, cur) && #[trigger] adjacent(conn, q, cur) && image.at(q)
                == image.at(cur) implies exists|k: int| 0 <= k < num_adj && from[k] == q by {
            if q == (x - 1, y as int) {
                assert(from[west] == q);
            } else if q == (x as int, y - 1) {
                assert(from[north] == q);
            } else if q == (x - 1, y - 1) {
                assert(from[north_west] == q);
            } else {
                assert(q == (x + 1, y - 1));
                assert(from[north_east] == q);
            }
        }
    }
    (adj_labels, num_adj, Ghost(from))
}

/// Visits the pixel at `(x, y)`: a background pixel is left alone, a
/// foreground pixel with no visited neighbour of its value gets the next
/// unused label, and any other takes the least label of those neighbours,
/// whose labels are all merged into one class.
fn label_pixel<P: Eq>(
    image: &Grid<P>,
    conn: Connectivity,
    background: &P,
    labels: &mut Grid<u32>,
    forest: &mut DisjointSetForest,
    num_labels: &mut u32,
    origin: Ghost<Seq<(int, int)>>,
    x: u32,
    y: u32,
) -> (grown: Ghost<Seq<(int, int)>>)
    requires
        image.well_formed(),
        value_equality::<P>(),
        image.contains(x as int, y as int),
        scanned(image, *background, conn, old(labels), old(forest), origin@, (x as int, y as int)),
        *old(num_labels) == origin@.len(),
        origin@.len() < image.spec_width() * image.spec_height() <= u32::MAX,
    ensures
        scanned(
            image,
            *background,
            conn,
            final(labels),
            final(forest),
            grown@,
            (x as int + 1, y as int),
        ),
        *final(num_labels) == grown@.len(),
        grown@.len() <= origin@.len() + 1,
{
    let ghost cur = (x as int, y as int);
    let ghost bg = *background;
    let current = image.get_pixel(x, y);
    if *current == *background {
        proof {
            lemma_scan_skip(image, bg, conn, labels, forest, origin@, cur);
        }
        return origin;
    }
    let (adj_labels, num_adj, Ghost(from)) = causal_labels(image, labels, conn, x, y);

    if num_adj == 0 {
        let ghost unmarked = *labels;
        *num_labels = *num_labels + 1;
        labels.put_pixel(x, y, *num_labels);
        proof {
            lemma_scan_fresh(image, bg, conn, &unmarked, labels, forest, origin@, cur);
        }
        Ghost(origin@.push(cur))
    } else {
        let mut min_label: u32 = adj_labels[0];
        let ghost mut least: int = 0;
        let mut n: usize = 1;
        while n < num_adj
            invariant
                1 <= n <= num_adj <= 4,
                0 <= least < n,
                min_label == adj_labels@[least],
                forall|k: int| 0 <= k < n ==> min_label <= adj_labels@[k],
            decreases num_adj - n,
        {
            if adj_labels[n] < min_label {
                min_label = adj_labels[n];
                proof {
                    least = n as int;
                }
            }
            n += 1;
        }
        proof {
            assert forall|k: int| 0 <= k < num_adj implies {
                &&& linked(image, bg, conn, from[k], cur)
                &&& 1 <= #[trigger] adj_labels@[k] <= origin@.len()
                &&& connected(image, bg, conn, cur, origin@[adj_labels@[k] - 1])
            } by {
                let q = from[k];
                assert(image.inside(q));
                lemma_linked_connected(image, bg, conn, cur, q);
                lemma_connected_transitive(image, bg, conn, cur, q, origin@[adj_labels@[k] - 1]);
            }
            assert(linked(image, bg, conn, from[least], cur));
        }
        let ghost unmarked = *labels;
        labels.put_pixel(x, y, min_label);
        proof {
            lemma_scan_mark(image, bg, conn, &unmarked, labels, forest, origin@, cur, min_label);
        }
        let mut n: usize = 0;
        while n < num_adj
            invariant
                n <= num_adj <= 4,
                scanned(image, bg, conn, labels, forest, origin@, cur),
                1 <= min_label <= origin@.len(),
                connected(image, bg, conn, cur, origin@[min_label - 1]),
                forall|k: int|
                    0 <= k < num_adj ==> {
                        &&& 1 <= #[trigger] adj_labels@[k] <= origin@.len()
                        &&& connected(image, bg, conn, cur, origin@[adj_labels@[k] - 1])
                    },
                forall|k: int|
                    0 <= k < n ==> forest.same_set(min_label - 1, #[trigger] adj_labels@[k] - 1),
            decreases num_adj - n,
        {
            let ghost before_union = *forest;
            let a: usize = (min_label - 1) as usize;
            let b: usize = (adj_labels[n] - 1) as usize;
            forest.union(a, b);
            proof {
                lemma_connected_symmetric(image, bg, conn, cur, origin@[a as int]);
                lemma_connected_transitive(
                    image,
                    bg,
                    conn,
                    origin@[a as int],
                    cur,
                    origin@[b as int],
                );
                assert(unites(&before_union, forest, a as int, b as int));
                lemma_scan_union(
                    image,
                    bg,
                    conn,
                    labels,
                    &before_union,
                    forest,
                    origin@,
                    cur,
                    a as int,
                    b as int,
                );
                assert forall|k: int| 0 <= k < n + 1 implies forest.same_set(
                    min_label - 1,
                    #[trigger] adj_labels@[k] - 1,
                ) by {
                    if k < n {
                        assert(before_union.same_set(min_label - 1, adj_labels@[k] - 1));
                    }
                }
            }
            n += 1;
        }
        proof {
            assert forall|q: (int, int)|
                before(q, cur) && #[trigger] linked(image, bg, conn, q, cur) implies forest.same_set(
                labels.at(cur) - 1,
                labels.at(q) - 1,
            ) by {
                assert(adjacent(conn, q, cur));
                let k = choose|k: int| 0 <= k < num_adj && from[k] == q;
                assert(adj_labels@[k] == unmarked.at(q));
                assert(unmarked.inside(q));
            }
            lemma_scan_joined(image, bg, conn, labels, forest, origin@, cur);
        }
        origin
    }
}

/// The first pass: visits the pixels row by row and gives every foreground
/// pixel a label such that the labels of two pixels end in one class of the
/// forest exactly if the pixels are connected.
pub(crate) fn scan<P: Eq>(image: &Grid<P>, conn: Connectivity, background: &P) -> (r: (
    Grid<u32>,
    DisjointSetForest,
))
    requires
        image.well_formed(),
        value_equality::<P>(),
        image.spec_width() * image.spec_height() <= u32::MAX,
    ensures
        provisional(image, *background, conn, &r.0, &r.1),
{
    let width = image.width();
    let height = image.height();
    let ghost bg = *background;
    assert(0 <= width * height) by (nonlinear_arith)
        requires
            0 <= width,
            0 <= height,
    ;
    let image_size: usize = (width as usize) * (height as usize);
    let mut labels: Grid<u32> = Grid::new(width, height, 0u32);
    let mut forest = DisjointSetForest::new(image_size);
    let mut num_labels: u32 = 0;
    let ghost mut origin: Seq<(int, int)> = Seq::empty();
    proof {
        lemma_scan_start(image, bg, conn, &labels, &forest);
    }
    let mut y: u32 = 0;
    while y < height
        invariant
            image.well_formed(),
            value_equality::<P>(),
            width == image.spec_width(),
            height == image.spec_height(),
            width * height <= u32::MAX,
            y <= height,
            bg == *background,
            scanned(image, bg, conn, &labels, &forest, origin, (0, y as int)),
            num_labels == origin.len(),
            origin.len() <= y * width,
        decreases height - y,
    {
        let mut x: u32 = 0;
        while x < width
            invariant
                image.well_formed(),
                value_equality::<P>(),
                width == image.spec_width(),
                height == image.spec_height(),
                width * height <= u32::MAX,
                y < height,
                x <= width,
                bg == *background,
                scanned(image, bg, conn, &labels, &forest, origin, (x as int, y as int)),
                num_labels == origin.len(),
                origin.len() <= y * width + x,
            decreases width - x,
        {
            proof {
                lemma_row_major(width as int, height as int, x as int, y as int);
            }
            let grown = label_pixel(
                image,
                conn,
                background,
                &mut labels,
                &mut forest,
                &mut num_labels,
                Ghost(origin),
                x,
                y,
            );
            proof {
                origin = grown@;
            }
            x += 1;
        }
        proof {
            lemma_scan_row(image, bg, conn, &labels, &forest, origin, y as int);
            assert((y + 1) * width == y * width + width) by (nonlinear_arith);
        }
        y += 1;
    }
    proof {
        lemma_scan_end(image, bg, conn, &labels, &forest, origin);
    }
    (labels, forest)
}

} // verus!

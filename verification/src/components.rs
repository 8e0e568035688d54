//! What it means for pixels of a grid to belong to one connected component.
//!
//! A position is a pair of a column and a row. Two foreground pixels are
//! linked if they are neighbours and hold equal values; a component is a
//! class of the foreground pixels under the paths that such links make.

use crate::grid::Grid;
use crate::regionlabelling::Connectivity;
use vstd::prelude::*;
use vstd::set_lib::*;

verus! {

/// Row-major order: `p` is visited before `q` when rows are read top to
/// bottom and each row left to right.
pub open spec fn before(p: (int, int), q: (int, int)) -> bool {
    p.1 < q.1 || (p.1 == q.1 && p.0 < q.0)
}

/// Whether `p` and `q` are neighbours: one step apart along an axis, or,
/// with `Eight`, along a diagonal too.
pub open spec fn adjacent(conn: Connectivity, p: (int, int), q: (int, int)) -> bool {
    let dx = p.0 - q.0;
    let dy = p.1 - q.1;
    match conn {
        Connectivity::Four => (dx == 0 && (dy == 1 || dy == -1)) || (dy == 0 && (dx == 1 || dx
            == -1)),
        Connectivity::Eight => -1 <= dx <= 1 && -1 <= dy <= 1 && !(dx == 0 && dy == 0),
    }
}

/// Whether `p` is a pixel of the grid that differs from the background.
pub open spec fn foreground<P>(grid: &Grid<P>, background: P, p: (int, int)) -> bool {
    grid.inside(p) && grid.at(p) != background
}

/// Whether `p` and `q` are neighbouring foreground pixels of equal value.
pub open spec fn linked<P>(
    grid: &Grid<P>,
    background: P,
    conn: Connectivity,
    p: (int, int),
    q: (int, int),
) -> bool {
    &&& foreground(grid, background, p)
    &&& foreground(grid, background, q)
    &&& adjacent(conn, p, q)
    &&& grid.at(p) == grid.at(q)
}

/// Whether `path` is a walk over foreground pixels in which each pixel is
/// linked to the next.
pub open spec fn is_path<P>(
    grid: &Grid<P>,
    background: P,
    conn: Connectivity,
    path: Seq<(int, int)>,
) -> bool {
    &&& path.len() >= 1
    &&& foreground(grid, background, path[0])
    &&& forall|i: int|
        0 <= i < path.len() - 1 ==> linked(grid, background, conn, #[trigger] path[i], path[i + 1])
}

/// Whether a path leads from `p` to `q`, that is, whether both are
/// foreground pixels of one component.
pub open spec fn connected<P>(
    grid: &Grid<P>,
    background: P,
    conn: Connectivity,
    p: (int, int),
    q: (int, int),
) -> bool {
    exists|path: Seq<(int, int)>|
        #[trigger] is_path(grid, background, conn, path) && path[0] == p && path.last() == q
}

/// Whether `p` is the pixel of its component that comes first in row-major order.
pub open spec fn is_leader<P>(
    grid: &Grid<P>,
    background: P,
    conn: Connectivity,
    p: (int, int),
) -> bool {
    &&& foreground(grid, background, p)
    &&& forall|q: (int, int)|
        before(q, p) ==> !#[trigger] connected(grid, background, conn, q, p)
}

/// The first pixels of all components.
pub open spec fn leaders<P>(grid: &Grid<P>, background: P, conn: Connectivity) -> Set<(int, int)> {
    Set::new(|p: (int, int)| is_leader(grid, background, conn, p))
}

/// The first pixels of the components that begin before `end`.
pub open spec fn leaders_before<P>(
    grid: &Grid<P>,
    background: P,
    conn: Connectivity,
    end: (int, int),
) -> Set<(int, int)> {
    Set::new(|p: (int, int)| is_leader(grid, background, conn, p) && before(p, end))
}

/// The component of `p`: the pixels that `p` is connected to.
pub open spec fn component_of<P>(
    grid: &Grid<P>,
    background: P,
    conn: Connectivity,
    p: (int, int),
) -> Set<(int, int)> {
    Set::new(|q: (int, int)| connected(grid, background, conn, p, q))
}

/// The connected components of the foreground, each as the set of its pixels.
pub open spec fn components<P>(grid: &Grid<P>, background: P, conn: Connectivity) -> Set<
    Set<(int, int)>,
> {
    Set::new(
        |c: Set<(int, int)>|
            exists|p: (int, int)|
                foreground(grid, background, p) && c == #[trigger] component_of(
                    grid,
                    background,
                    conn,
                    p,
                ),
    )
}

/// The number of connected components of the foreground.
pub open spec fn component_count<P>(grid: &Grid<P>, background: P, conn: Connectivity) -> nat {
    components(grid, background, conn).len()
}

/// The first pixel of the component of `p`.
pub open spec fn leader_of<P>(
    grid: &Grid<P>,
    background: P,
    conn: Connectivity,
    p: (int, int),
) -> (int, int) {
    choose|l: (int, int)|
        is_leader(grid, background, conn, l) && connected(grid, background, conn, l, p)
}

/// The number of the component of `p` when the components are counted from 1
/// in the order of their first pixels, and 0 for a pixel of the background.
pub open spec fn component_label<P>(
    grid: &Grid<P>,
    background: P,
    conn: Connectivity,
    p: (int, int),
) -> nat {
    if foreground(grid, background, p) {
        leaders_before(grid, background, conn, leader_of(grid, background, conn, p)).len() + 1
    } else {
        0
    }
}

/// Whether some pixel of `labels` holds `label`.
pub open spec fn has_label(labels: &Grid<u32>, label: u32) -> bool {
    exists|p: (int, int)| labels.inside(p) && #[trigger] labels.at(p) == label
}

/// A foreground pixel is connected to itself.
pub proof fn lemma_connected_reflexive<P>(
    grid: &Grid<P>,
    background: P,
    conn: Connectivity,
    p: (int, int),
)
    requires
        foreground(grid, background, p),
    ensures
        connected(grid, background, conn, p, p),
{
    let path = seq![p];
    assert(is_path(grid, background, conn, path));
    assert(path[0] == p && path.last() == p);
}

/// Linked pixels are connected.
pub proof fn lemma_linked_connected<P>(
    grid: &Grid<P>,
    background: P,
    conn: Connectivity,
    p: (int, int),
    q: (int, int),
)
    requires
        linked(grid, background, conn, p, q),
    ensures
        connected(grid, background, conn, p, q),
{
    let path = seq![p, q];
    assert(is_path(grid, background, conn, path));
    assert(path[0] == p && path.last() == q);
}

/// Every pixel of a path is a foreground pixel with the value of the first.
proof fn lemma_path_pixels<P>(
    grid: &Grid<P>,
    background: P,
    conn: Connectivity,
    path: Seq<(int, int)>,
    i: int,
)
    requires
        is_path(grid, background, conn, path),
        0 <= i < path.len(),
    ensures
        foreground(grid, background, path[i]),
        grid.at(path[i]) == grid.at(path[0]),
    decreases i,
{
    if i > 0 {
        lemma_path_pixels(grid, background, conn, path, i - 1);
        assert(linked(grid, background, conn, path[i - 1], path[i - 1 + 1]));
    }
}

/// Connected pixels are foreground pixels of equal value.
pub proof fn lemma_connected_pixels<P>(
    grid: &Grid<P>,
    background: P,
    conn: Connectivity,
    p: (int, int),
    q: (int, int),
)
    requires
        connected(grid, background, conn, p, q),
    ensures
        foreground(grid, background, p),
        foreground(grid, background, q),
        grid.at(p) == grid.at(q),
{
    let path = choose|path: Seq<(int, int)>|
        #[trigger] is_path(grid, background, conn, path) && path[0] == p && path.last() == q;
    lemma_path_pixels(grid, background, conn, path, path.len() - 1);
}

/// Being connected is symmetric.
pub proof fn lemma_connected_symmetric<P>(
    grid: &Grid<P>,
    background: P,
    conn: Connectivity,
    p: (int, int),
    q: (int, int),
)
    requires
        connected(grid, background, conn, p, q),
    ensures
        connected(grid, background, conn, q, p),
{
    let path = choose|path: Seq<(int, int)>|
        #[trigger] is_path(grid, background, conn, path) && path[0] == p && path.last() == q;
    let back = path.reverse();
    let n = path.len() as int;
    lemma_path_pixels(grid, background, conn, path, n - 1);
    assert forall|i: int| 0 <= i < back.len() - 1 implies linked(
        grid,
        background,
        conn,
        #[trigger] back[i],
        back[i + 1],
    ) by {
        assert(back[i] == path[n - 1 - i]);
        assert(back[i + 1] == path[n - 2 - i]);
        assert(linked(grid, background, conn, path[n - 2 - i], path[n - 2 - i + 1]));
    }
    assert(is_path(grid, background, conn, back));
    assert(back[0] == q && back.last() == p);
}

/// Being connected is transitive.
pub proof fn lemma_connected_transitive<P>(
    grid: &Grid<P>,
    background: P,
    conn: Connectivity,
    p: (int, int),
    q: (int, int),
    r: (int, int),
)
    requires
        connected(grid, background, conn, p, q),
        connected(grid, background, conn, q, r),
    ensures
        connected(grid, background, conn, p, r),
{
    let first = choose|path: Seq<(int, int)>|
        #[trigger] is_path(grid, background, conn, path) && path[0] == p && path.last() == q;
    let second = choose|path: Seq<(int, int)>|
        #[trigger] is_path(grid, background, conn, path) && path[0] == q && path.last() == r;
    let n = first.len() as int;
    let joined = first + second.subrange(1, second.len() as int);
    assert forall|i: int| 0 <= i < joined.len() - 1 implies linked(
        grid,
        background,
        conn,
        #[trigger] joined[i],
        joined[i + 1],
    ) by {
        if i < n - 1 {
            assert(linked(grid, background, conn, first[i], first[i + 1]));
        } else {
            let k = i - n + 1;
            assert(joined[i] == second[k]);
            assert(joined[i + 1] == second[k + 1]);
            assert(linked(grid, background, conn, second[k], second[k + 1]));
        }
    }
    assert(joined[0] == first[0]);
    assert(is_path(grid, background, conn, joined));
    assert(joined[0] == p && joined.last() == r);
}

/// A function on positions that agrees on linked pixels agrees along a path.
proof fn lemma_constant_on_path<P>(
    grid: &Grid<P>,
    background: P,
    conn: Connectivity,
    f: spec_fn((int, int)) -> int,
    path: Seq<(int, int)>,
    i: int,
)
    requires
        forall|a: (int, int), b: (int, int)| #[trigger]
            linked(grid, background, conn, a, b) ==> f(a) == f(b),
        is_path(grid, background, conn, path),
        0 <= i < path.len(),
    ensures
        f(path[i]) == f(path[0]),
    decreases i,
{
    if i > 0 {
        lemma_constant_on_path(grid, background, conn, f, path, i - 1);
        assert(linked(grid, background, conn, path[i - 1], path[i - 1 + 1]));
    }
}

/// A function on positions that agrees on linked pixels agrees on connected pixels.
pub proof fn lemma_constant_on_component<P>(
    grid: &Grid<P>,
    background: P,
    conn: Connectivity,
    f: spec_fn((int, int)) -> int,
    p: (int, int),
    q: (int, int),
)
    requires
        forall|a: (int, int), b: (int, int)| #[trigger]
            linked(grid, background, conn, a, b) ==> f(a) == f(b),
        connected(grid, background, conn, p, q),
    ensures
        f(p) == f(q),
{
    let path = choose|path: Seq<(int, int)>|
        #[trigger] is_path(grid, background, conn, path) && path[0] == p && path.last() == q;
    lemma_constant_on_path(grid, background, conn, f, path, path.len() - 1);
}

/// Pixels connected through axis steps alone stay connected when diagonal
/// steps are allowed as well.
pub proof fn lemma_four_within_eight<P>(
    grid: &Grid<P>,
    background: P,
    p: (int, int),
    q: (int, int),
)
    requires
        connected(grid, background, Connectivity::Four, p, q),
    ensures
        connected(grid, background, Connectivity::Eight, p, q),
{
    let path = choose|path: Seq<(int, int)>|
        #[trigger] is_path(grid, background, Connectivity::Four, path) && path[0] == p
            && path.last() == q;
    assert forall|i: int| 0 <= i < path.len() - 1 implies linked(
        grid,
        background,
        Connectivity::Eight,
        #[trigger] path[i],
        path[i + 1],
    ) by {
        assert(linked(grid, background, Connectivity::Four, path[i], path[i + 1]));
    }
    assert(is_path(grid, background, Connectivity::Eight, path));
}

/// The positions of row `y` in the columns `0..w`.
spec fn row(w: int, y: int) -> Set<(int, int)> {
    Set::new(|p: (int, int)| p.1 == y && 0 <= p.0 < w)
}

/// The positions of a rectangle of `w` columns and `h` rows.
spec fn rectangle(w: int, h: int) -> Set<(int, int)> {
    Set::new(|p: (int, int)| 0 <= p.0 < w && 0 <= p.1 < h)
}

proof fn lemma_row_size(w: int, y: int)
    requires
        0 <= w,
    ensures
        row(w, y).finite(),
        row(w, y).len() == w,
    decreases w,
{
    if w == 0 {
        assert(row(w, y) =~= Set::empty());
    } else {
        lemma_row_size(w - 1, y);
        assert(row(w, y) =~= row(w - 1, y).insert((w - 1, y)));
    }
}

proof fn lemma_rectangle_size(w: int, h: int)
    requires
        0 <= w,
        0 <= h,
    ensures
        rectangle(w, h).finite(),
        rectangle(w, h).len() == w * h,
    decreases h,
{
    if h == 0 {
        assert(rectangle(w, h) =~= Set::empty());
        assert(w * h == 0) by (nonlinear_arith)
            requires
                h == 0,
        ;
    } else {
        lemma_rectangle_size(w, h - 1);
        lemma_row_size(w, h - 1);
        assert(rectangle(w, h) =~= rectangle(w, h - 1) + row(w, h - 1));
        assert(rectangle(w, h - 1).disjoint(row(w, h - 1)));
        lemma_set_disjoint_lens(rectangle(w, h - 1), row(w, h - 1));
        assert(w * h == w * (h - 1) + w) by (nonlinear_arith);
    }
}

/// Every foreground pixel is connected to the first pixel of its component.
pub proof fn lemma_leader_exists<P>(
    grid: &Grid<P>,
    background: P,
    conn: Connectivity,
    p: (int, int),
)
    requires
        foreground(grid, background, p),
    ensures
        is_leader(grid, background, conn, leader_of(grid, background, conn, p)),
        connected(grid, background, conn, leader_of(grid, background, conn, p), p),
    decreases p.1, p.0,
{
    if is_leader(grid, background, conn, p) {
        lemma_connected_reflexive(grid, background, conn, p);
    } else {
        let q = choose|q: (int, int)| before(q, p) && connected(grid, background, conn, q, p);
        lemma_connected_pixels(grid, background, conn, q, p);
        lemma_leader_exists(grid, background, conn, q);
        let l = leader_of(grid, background, conn, q);
        lemma_connected_transitive(grid, background, conn, l, q, p);
    }
}

/// Two first pixels that are connected are one pixel.
pub proof fn lemma_leader_unique<P>(
    grid: &Grid<P>,
    background: P,
    conn: Connectivity,
    a: (int, int),
    b: (int, int),
)
    requires
        is_leader(grid, background, conn, a),
        is_leader(grid, background, conn, b),
        connected(grid, background, conn, a, b),
    ensures
        a == b,
{
    lemma_connected_symmetric(grid, background, conn, a, b);
    if a != b {
        assert(before(a, b) || before(b, a));
    }
}

/// Connected pixels have the same component.
pub proof fn lemma_component_shared<P>(
    grid: &Grid<P>,
    background: P,
    conn: Connectivity,
    p: (int, int),
    q: (int, int),
)
    requires
        connected(grid, background, conn, p, q),
    ensures
        component_of(grid, background, conn, p) == component_of(grid, background, conn, q),
{
    lemma_connected_symmetric(grid, background, conn, p, q);
    assert forall|r: (int, int)|
        connected(grid, background, conn, p, r) <==> connected(grid, background, conn, q, r) by {
        if connected(grid, background, conn, p, r) {
            lemma_connected_transitive(grid, background, conn, q, p, r);
        }
        if connected(grid, background, conn, q, r) {
            lemma_connected_transitive(grid, background, conn, p, q, r);
        }
    }
    assert(component_of(grid, background, conn, p) =~= component_of(grid, background, conn, q));
}

/// A grid has finitely many components, no more than it has pixels, and
/// each has exactly one first pixel.
pub proof fn lemma_component_count_bounded<P>(grid: &Grid<P>, background: P, conn: Connectivity)
    ensures
        leaders(grid, background, conn).finite(),
        components(grid, background, conn).finite(),
        component_count(grid, background, conn) == leaders(grid, background, conn).len(),
        component_count(grid, background, conn) <= grid.spec_width() * grid.spec_height(),
{
    let all = rectangle(grid.spec_width() as int, grid.spec_height() as int);
    let firsts = leaders(grid, background, conn);
    let classes = components(grid, background, conn);
    lemma_rectangle_size(grid.spec_width() as int, grid.spec_height() as int);
    assert(firsts.subset_of(all));
    lemma_len_subset(firsts, all);
    let class = |l: (int, int)| component_of(grid, background, conn, l);
    assert forall|a: (int, int), b: (int, int)|
        firsts.contains(a) && firsts.contains(b) && #[trigger] class(a) == #[trigger] class(
            b,
        ) implies a == b by {
        lemma_connected_reflexive(grid, background, conn, b);
        assert(class(b).contains(b));
        assert(connected(grid, background, conn, a, b));
        lemma_leader_unique(grid, background, conn, a, b);
    }
    assert forall|c: Set<(int, int)>| firsts.map(class).contains(c) <==> classes.contains(c) by {
        if firsts.map(class).contains(c) {
            let l = choose|l: (int, int)| firsts.contains(l) && c == class(l);
            assert(foreground(grid, background, l) && c == component_of(grid, background, conn, l));
        }
        if classes.contains(c) {
            let p = choose|p: (int, int)|
                foreground(grid, background, p) && c == #[trigger] component_of(
                    grid,
                    background,
                    conn,
                    p,
                );
            lemma_leader_exists(grid, background, conn, p);
            let l = leader_of(grid, background, conn, p);
            lemma_component_shared(grid, background, conn, l, p);
            assert(firsts.contains(l) && c == class(l));
        }
    }
    assert(firsts.map(class) =~= classes);
    lemma_map_size(firsts, classes, class);
}

/// Allowing diagonal steps can merge components but never split one: a grid
/// has at most as many components under `Eight` as under `Four`.
pub proof fn lemma_eight_no_more_than_four<P>(grid: &Grid<P>, background: P)
    ensures
        component_count(grid, background, Connectivity::Eight) <= component_count(
            grid,
            background,
            Connectivity::Four,
        ),
{
    let eight = leaders(grid, background, Connectivity::Eight);
    let four = leaders(grid, background, Connectivity::Four);
    assert forall|p: (int, int)| eight.contains(p) implies four.contains(p) by {
        assert forall|q: (int, int)| before(q, p) implies !#[trigger] connected(
            grid,
            background,
            Connectivity::Four,
            q,
            p,
        ) by {
            if connected(grid, background, Connectivity::Four, q, p) {
                lemma_four_within_eight(grid, background, q, p);
            }
        }
    }
    lemma_component_count_bounded(grid, background, Connectivity::Four);
    lemma_component_count_bounded(grid, background, Connectivity::Eight);
    lemma_len_subset(eight, four);
}

} // verus!

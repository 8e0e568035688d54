//! Finding and labelling the connected components of a grid.

use crate::compact::compact;
use crate::components::{component_count, component_label, components, connected, foreground};
use crate::components::has_label;
use crate::grid::Grid;
use crate::scan::scan;
use vstd::prelude::*;
use vstd::std_specs::cmp::PartialEqSpec;

verus! {

/// Determines which neighbors of a pixel we consider
/// to be connected to it.
#[derive(Debug, PartialEq, Eq, Copy, Clone, Structural)]
pub enum Connectivity {
    /// A pixel is connected to its N, S, E and W neighbors.
    Four,
    /// A pixel is connected to all of its neighbors.
    Eight,
}

/// Whether `==` on `P` tells exactly whether two pixels hold the same value.
pub open spec fn value_equality<P: PartialEq>() -> bool {
    &&& P::obeys_eq_spec()
    &&& forall|a: P, b: P| #[trigger] a.eq_spec(&b) <==> a == b
}

/// Returns a grid of the same size as the input, where each pixel
/// is labelled by the connected foreground component it belongs to,
/// or 0 if it's in the background. Input pixels are treated as belonging
/// to the background if and only if they are equal to the provided background pixel.
///
/// Two foreground pixels get the same label exactly if a path of neighbouring
/// pixels of equal value leads from one to the other. The components are
/// numbered 1, 2, 3 and so on in the order in which their first pixels occur
/// when the rows are read top to bottom and each row left to right.
pub fn connected_components<P: Eq>(image: &Grid<P>, conn: Connectivity, background: P) -> (out:
    Grid<u32>)
    requires
        image.well_formed(),
        value_equality::<P>(),
        image.spec_width() * image.spec_height() <= u32::MAX,
    ensures
        out.well_formed(),
        out.spec_width() == image.spec_width(),
        out.spec_height() == image.spec_height(),
        forall|p: (int, int)| #[trigger]
            image.inside(p) ==> out.at(p) == component_label(image, background, conn, p),
        forall|p: (int, int)| #[trigger]
            image.inside(p) ==> (out.at(p) == 0 <==> image.at(p) == background),
        forall|p: (int, int), q: (int, int)|
            foreground(image, background, p) && foreground(image, background, q) ==> (
            #[trigger] connected(image, background, conn, p, q) <==> out.at(p) == out.at(q)),
        forall|v: u32|
            v != 0 ==> (#[trigger] has_label(&out, v) <==> v <= component_count(
                image,
                background,
                conn,
            )),
{
    let (width, height) = image.dimensions();
    if width == 0 || height == 0 {
        let out = Grid::new(width, height, 0u32);
        proof {
            assert(width * height == 0) by (nonlinear_arith)
                requires
                    width == 0 || height == 0,
            ;
            assert(components(image, background, conn) =~= Set::empty());
        }
        return out;
    }
    let (labels, forest) = scan(image, conn, &background);
    compact(image, Ghost(conn), &background, labels, forest)
}

} // verus!

use region_labelling::grid::Grid;
use region_labelling::regionlabelling::connected_components;
use region_labelling::regionlabelling::Connectivity::{Eight, Four};

fn gray(width: u32, height: u32, data: Vec<u8>) -> Grid<u8> {
    Grid::from_raw(width, height, data).unwrap()
}

// One huge component with eight-way connectivity, loads of
// isolated components with four-way conectivity.
fn chessboard(width: u32, height: u32) -> Grid<u8> {
    let mut data = Vec::new();
    for y in 0..height {
        for x in 0..width {
            if (x + y) % 2 == 0 {
                data.push(255u8);
            } else {
                data.push(0u8);
            }
        }
    }
    gray(width, height, data)
}

#[test]
fn test_connected_components_four() {
    let image = gray(4, 4, vec![
        1, 0, 2, 1,
        0, 1, 1, 0,
        0, 0, 0, 0,
        0, 0, 0, 1]);

    let expected: Grid<u32> = Grid::from_raw(4, 4, vec![
        1, 0, 2, 3,
        0, 4, 4, 0,
        0, 0, 0, 0,
        0, 0, 0, 5]).unwrap();

    let labelled = connected_components(&image, Four, 0u8);
    assert_eq!(labelled, expected);
}

#[test]
fn test_connected_components_eight() {
    let image = gray(4, 4, vec![
        1, 0, 2, 1,
        0, 1, 1, 0,
        0, 0, 0, 0,
        0, 0, 0, 1]);

    let expected: Grid<u32> = Grid::from_raw(4, 4, vec![
        1, 0, 2, 1,
        0, 1, 1, 0,
        0, 0, 0, 0,
        0, 0, 0, 3]).unwrap();

    let labelled = connected_components(&image, Eight, 0u8);
    assert_eq!(labelled, expected);
}

#[test]
fn test_connected_components_eight_white_background() {
    let image = gray(4, 4, vec![
          1, 255,   2,   1,
        255,   1,   1, 255,
        255, 255, 255, 255,
        255, 255, 255,   1]);

    let expected: Grid<u32> = Grid::from_raw(4, 4, vec![
        1, 0, 2, 1,
        0, 1, 1, 0,
        0, 0, 0, 0,
        0, 0, 0, 3]).unwrap();

    let labelled = connected_components(&image, Eight, 255u8);
    assert_eq!(labelled, expected);
}

#[test]
fn test_connected_components_eight_chessboard() {
    let image = chessboard(30, 30);
    let components = connected_components(&image, Eight, 0u8);
    let max_component = components.as_raw().iter().map(|p| *p).max();
    assert_eq!(max_component, Some(1u32));
}

#[test]
fn test_connected_components_four_chessboard() {
    let image = chessboard(30, 30);
    let components = connected_components(&image, Four, 0u8);
    let max_component = components.as_raw().iter().map(|p| *p).max();
    assert_eq!(max_component, Some(450u32));
}

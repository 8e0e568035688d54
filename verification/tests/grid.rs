use region_labelling::grid::Grid;

#[test]
fn from_raw_takes_exactly_width_times_height_pixels() {
    assert!(Grid::from_raw(2, 3, vec![0u8; 6]).is_some());
    assert!(Grid::from_raw(2, 3, vec![0u8; 5]).is_none());
    assert!(Grid::from_raw(2, 3, vec![0u8; 7]).is_none());
    assert!(Grid::from_raw(0, 3, Vec::<u8>::new()).is_some());
    assert!(Grid::from_raw(0, 3, vec![0u8; 1]).is_none());
}

#[test]
fn from_raw_reads_rows_top_to_bottom() {
    let grid = Grid::from_raw(3, 2, vec![10u8, 11, 12, 20, 21, 22]).unwrap();
    assert_eq!(grid.width(), 3);
    assert_eq!(grid.height(), 2);
    assert_eq!(grid.dimensions(), (3, 2));
    assert_eq!(*grid.get_pixel(0, 0), 10);
    assert_eq!(*grid.get_pixel(2, 0), 12);
    assert_eq!(*grid.get_pixel(0, 1), 20);
    assert_eq!(*grid.get_pixel(1, 1), 21);
    assert_eq!(*grid.get_pixel(2, 1), 22);
}

#[test]
fn new_fills_every_pixel() {
    let grid = Grid::new(4, 3, 5u32);
    assert_eq!(grid.dimensions(), (4, 3));
    assert_eq!(grid.as_raw(), &vec![5u32; 12]);
}

#[test]
fn new_with_no_pixels_is_empty() {
    let grid = Grid::new(0, 3, 5u32);
    assert_eq!(grid.dimensions(), (0, 3));
    assert!(grid.as_raw().is_empty());
}

#[test]
fn put_pixel_changes_one_pixel_only() {
    let mut grid = Grid::new(3, 2, 0u32);
    grid.put_pixel(1, 1, 9);
    assert_eq!(*grid.get_pixel(1, 1), 9);
    assert_eq!(grid.into_raw(), vec![0, 0, 0, 0, 9, 0]);
}

#[test]
fn into_raw_gives_the_pixels_back() {
    let data = vec![1u8, 2, 3, 4];
    let grid = Grid::from_raw(2, 2, data.clone()).unwrap();
    assert_eq!(grid.as_raw(), &data);
    assert_eq!(grid.into_raw(), data);
}

#[test]
fn grids_compare_by_size_and_pixels() {
    let a = Grid::from_raw(2, 3, vec![0u8; 6]).unwrap();
    let b = Grid::from_raw(3, 2, vec![0u8; 6]).unwrap();
    let c = Grid::from_raw(2, 3, vec![0u8; 6]).unwrap();
    assert_ne!(a, b);
    assert_eq!(a, c);
    assert_eq!(a.clone(), a);
}

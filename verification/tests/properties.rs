use region_labelling::grid::Grid;
use region_labelling::regionlabelling::connected_components;
use region_labelling::regionlabelling::Connectivity;

/// Labels the components by flood fill, numbering them in the order in
/// which their first pixels occur row by row.
fn flood_fill(width: u32, height: u32, data: &[u8], background: u8, eight: bool) -> Vec<u32> {
    let w = width as i64;
    let h = height as i64;
    let mut out = vec![0u32; data.len()];
    let mut next = 0u32;
    for start in 0..data.len() {
        if data[start] == background || out[start] != 0 {
            continue;
        }
        next += 1;
        out[start] = next;
        let mut stack = vec![start];
        while let Some(i) = stack.pop() {
            let x = i as i64 % w;
            let y = i as i64 / w;
            for dy in -1i64..=1 {
                for dx in -1i64..=1 {
                    if dx == 0 && dy == 0 {
                        continue;
                    }
                    if !eight && dx != 0 && dy != 0 {
                        continue;
                    }
                    let nx = x + dx;
                    let ny = y + dy;
                    if nx < 0 || ny < 0 || nx >= w || ny >= h {
                        continue;
                    }
                    let j = (ny * w + nx) as usize;
                    if data[j] == data[i] && out[j] == 0 {
                        out[j] = next;
                        stack.push(j);
                    }
                }
            }
        }
    }
    out
}

/// A grid of values below `palette`, drawn from a fixed sequence.
fn scrambled(width: u32, height: u32, palette: u32, seed: u32) -> Vec<u8> {
    let mut state = seed;
    let mut data = Vec::new();
    for _ in 0..(width * height) {
        state = state.wrapping_mul(1664525).wrapping_add(1013904223);
        data.push(((state >> 16) % palette) as u8);
    }
    data
}

fn label(width: u32, height: u32, data: &[u8], conn: Connectivity, background: u8) -> Vec<u32> {
    let image = Grid::from_raw(width, height, data.to_vec()).unwrap();
    let out = connected_components(&image, conn, background);
    assert_eq!(out.dimensions(), (width, height));
    out.into_raw()
}

fn sample_grids() -> Vec<(u32, u32, Vec<u8>)> {
    let mut grids = Vec::new();
    let mut seed = 1u32;
    for &(w, h) in [(1u32, 1u32), (1, 7), (7, 1), (2, 2), (3, 5), (8, 8), (13, 9), (16, 16)].iter() {
        for palette in 2u32..=4 {
            seed += 1;
            grids.push((w, h, scrambled(w, h, palette, seed)));
        }
    }
    grids
}

#[test]
fn background_pixels_and_no_others_are_zero() {
    for (w, h, data) in sample_grids() {
        for &conn in [Connectivity::Four, Connectivity::Eight].iter() {
            let out = label(w, h, &data, conn, 0);
            for i in 0..data.len() {
                assert_eq!(out[i] == 0, data[i] == 0);
            }
        }
    }
}

#[test]
fn labels_form_a_range_without_gaps() {
    for (w, h, data) in sample_grids() {
        for &conn in [Connectivity::Four, Connectivity::Eight].iter() {
            let out = label(w, h, &data, conn, 0);
            let filled = flood_fill(w, h, &data, 0, conn == Connectivity::Eight);
            let count = filled.iter().copied().max().unwrap_or(0);
            let max = out.iter().copied().max().unwrap_or(0);
            assert_eq!(max, count);
            for v in 1..=max {
                assert!(out.contains(&v));
            }
        }
    }
}

#[test]
fn labelling_agrees_with_flood_fill() {
    for (w, h, data) in sample_grids() {
        for background in 0u8..2 {
            let four = label(w, h, &data, Connectivity::Four, background);
            assert_eq!(four, flood_fill(w, h, &data, background, false));
            let eight = label(w, h, &data, Connectivity::Eight, background);
            assert_eq!(eight, flood_fill(w, h, &data, background, true));
        }
    }
}

#[test]
fn connected_pixels_share_a_label() {
    // One snake that touches itself only through its own turns.
    let data = vec![
        1, 1, 1, 1, 1,
        0, 0, 0, 0, 1,
        1, 1, 1, 0, 1,
        1, 0, 0, 0, 1,
        1, 1, 1, 1, 1];
    let out = label(5, 5, &data, Connectivity::Four, 0);
    for i in 0..data.len() {
        assert_eq!(out[i], data[i] as u32);
    }
}

#[test]
fn unconnected_pixels_get_different_labels() {
    let data = vec![
        1, 0, 1,
        0, 0, 0,
        1, 0, 1];
    let out = label(3, 3, &data, Connectivity::Eight, 0);
    assert_eq!(out, vec![
        1, 0, 2,
        0, 0, 0,
        3, 0, 4]);
}

#[test]
fn regions_of_different_value_stay_apart() {
    let data = vec![
        1, 1, 2, 2,
        1, 1, 2, 2,
        3, 3, 3, 3];
    let expected = vec![
        1, 1, 2, 2,
        1, 1, 2, 2,
        3, 3, 3, 3];
    assert_eq!(label(4, 3, &data, Connectivity::Four, 0), expected);
    assert_eq!(label(4, 3, &data, Connectivity::Eight, 0), expected);
}

#[test]
fn diagonal_neighbours_of_different_value_stay_apart() {
    let data = vec![
        1, 2,
        2, 1];
    assert_eq!(label(2, 2, &data, Connectivity::Four, 0), vec![1, 2, 3, 4]);
    assert_eq!(label(2, 2, &data, Connectivity::Eight, 0), vec![1, 2, 2, 1]);
}

#[test]
fn eight_never_gives_more_components_than_four() {
    for (w, h, data) in sample_grids() {
        let four = label(w, h, &data, Connectivity::Four, 0);
        let eight = label(w, h, &data, Connectivity::Eight, 0);
        let four_count = four.iter().copied().max().unwrap_or(0);
        let eight_count = eight.iter().copied().max().unwrap_or(0);
        assert!(eight_count <= four_count);
    }
}

#[test]
fn zero_width_gives_an_empty_grid() {
    let image: Grid<u8> = Grid::from_raw(0, 5, Vec::new()).unwrap();
    let out = connected_components(&image, Connectivity::Four, 0u8);
    assert_eq!(out.width(), 0);
    assert_eq!(out.height(), 5);
    assert!(out.as_raw().is_empty());
}

#[test]
fn zero_height_gives_an_empty_grid() {
    let image: Grid<u8> = Grid::from_raw(5, 0, Vec::new()).unwrap();
    let out = connected_components(&image, Connectivity::Eight, 0u8);
    assert_eq!(out.width(), 5);
    assert_eq!(out.height(), 0);
    assert!(out.as_raw().is_empty());
}

#[test]
fn zero_by_zero_gives_an_empty_grid() {
    let image: Grid<u8> = Grid::from_raw(0, 0, Vec::new()).unwrap();
    let out = connected_components(&image, Connectivity::Eight, 0u8);
    assert_eq!(out.dimensions(), (0, 0));
    assert!(out.as_raw().is_empty());
}

#[test]
fn single_foreground_pixel_is_component_one() {
    assert_eq!(label(1, 1, &[9], Connectivity::Four, 0), vec![1]);
    assert_eq!(label(1, 1, &[9], Connectivity::Eight, 0), vec![1]);
}

#[test]
fn single_background_pixel_stays_zero() {
    assert_eq!(label(1, 1, &[0], Connectivity::Four, 0), vec![0]);
}

#[test]
fn every_pixel_its_own_component() {
    // No two neighbours along an axis hold the same value, so the first
    // pass makes as many labels as there are pixels.
    let data = vec![
        1, 2, 1,
        2, 1, 2,
        1, 2, 1];
    assert_eq!(label(3, 3, &data, Connectivity::Four, 0), vec![1, 2, 3, 4, 5, 6, 7, 8, 9]);
}

#[test]
fn all_background_gives_all_zero() {
    assert_eq!(label(3, 2, &[7; 6], Connectivity::Eight, 7), vec![0; 6]);
}

#[test]
fn all_foreground_is_one_component() {
    assert_eq!(label(3, 2, &[7; 6], Connectivity::Four, 0), vec![1; 6]);
}

#[test]
fn labels_merged_late_end_as_one_component() {
    // The two arms get different labels in the first pass and meet in the last row.
    let data = vec![
        1, 0, 1,
        1, 0, 1,
        1, 1, 1];
    assert_eq!(label(3, 3, &data, Connectivity::Four, 0), vec![
        1, 0, 1,
        1, 0, 1,
        1, 1, 1]);
}

#[test]
fn components_are_numbered_in_order_of_first_pixel() {
    // The first pass gives the right arm the label 2 and the lone pixel the
    // label 3; once the arms are merged the lone pixel is the second component.
    let data = vec![
        1, 0, 1, 0, 1,
        1, 0, 1, 0, 0,
        1, 1, 1, 0, 1];
    assert_eq!(label(5, 3, &data, Connectivity::Four, 0), vec![
        1, 0, 1, 0, 2,
        1, 0, 1, 0, 0,
        1, 1, 1, 0, 3]);
}

#[test]
fn north_east_neighbour_joins_under_eight() {
    let data = vec![
        0, 1,
        1, 0];
    assert_eq!(label(2, 2, &data, Connectivity::Eight, 0), vec![0, 1, 1, 0]);
    assert_eq!(label(2, 2, &data, Connectivity::Four, 0), vec![0, 1, 2, 0]);
}

#[test]
fn north_west_neighbour_joins_under_eight() {
    let data = vec![
        1, 0,
        0, 1];
    assert_eq!(label(2, 2, &data, Connectivity::Eight, 0), vec![1, 0, 0, 1]);
    assert_eq!(label(2, 2, &data, Connectivity::Four, 0), vec![1, 0, 0, 2]);
}

#[test]
fn same_input_gives_same_output() {
    let data = scrambled(20, 20, 3, 77);
    let first = label(20, 20, &data, Connectivity::Eight, 0);
    let second = label(20, 20, &data, Connectivity::Eight, 0);
    assert_eq!(first, second);
}

#[test]
fn works_for_pixels_of_other_types() {
    let data: Vec<(u8, u8, u8)> = vec![(1, 2, 3), (1, 2, 3), (0, 0, 0), (3, 2, 1)];
    let image = Grid::from_raw(2, 2, data).unwrap();
    let out = connected_components(&image, Connectivity::Four, (0u8, 0u8, 0u8));
    assert_eq!(out.into_raw(), vec![1, 1, 0, 2]);
}

#[test]
fn large_chessboard_has_one_or_many_components() {
    let mut data = Vec::new();
    for y in 0..300u32 {
        for x in 0..300u32 {
            data.push(if (x + y) % 2 == 0 { 255u8 } else { 0u8 });
        }
    }
    let eight = label(300, 300, &data, Connectivity::Eight, 0);
    assert_eq!(eight.iter().copied().max(), Some(1));
    let four = label(300, 300, &data, Connectivity::Four, 0);
    assert_eq!(four.iter().copied().max(), Some(45000));
}

#[test]
fn comb_is_one_component() {
    // Every tooth gets a label of its own until the last row joins them.
    let width = 101u32;
    let height = 50u32;
    let mut data = Vec::new();
    for y in 0..height {
        for x in 0..width {
            data.push(if x % 2 == 0 || y == height - 1 { 1u8 } else { 0u8 });
        }
    }
    let out = label(width, height, &data, Connectivity::Four, 0);
    for i in 0..data.len() {
        assert_eq!(out[i], data[i] as u32);
    }
}

#[test]
fn large_scrambled_grid_agrees_with_flood_fill() {
    let data = scrambled(64, 48, 3, 2024);
    assert_eq!(label(64, 48, &data, Connectivity::Four, 0), flood_fill(64, 48, &data, 0, false));
    assert_eq!(label(64, 48, &data, Connectivity::Eight, 0), flood_fill(64, 48, &data, 0, true));
}

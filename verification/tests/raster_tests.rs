use wirecube::screen::Screen;

fn lit_cells(screen: &Screen) -> Vec<(usize, usize)> {
    let mut cells = Vec::new();
    for y in 0..screen.height {
        for x in 0..screen.width {
            if screen.pixels[x + y * screen.width] {
                cells.push((x, y));
            }
        }
    }
    cells
}

#[test]
fn point_line_sets_exactly_one_cell() {
    let mut screen = Screen::new(10, 10);
    screen.draw_line((0, 0), (0, 0));
    assert_eq!(lit_cells(&screen), vec![(0, 0)]);
}

#[test]
fn horizontal_line_sets_exactly_row_zero() {
    let w = 8;
    let mut screen = Screen::new(w, 5);
    screen.draw_line((0, 0), (w - 1, 0));
    let expected: Vec<(usize, usize)> = (0..w).map(|x| (x, 0)).collect();
    assert_eq!(lit_cells(&screen), expected);
}

#[test]
fn diagonal_line_sets_exactly_the_diagonal() {
    let mut screen = Screen::new(10, 10);
    screen.draw_line((0, 0), (5, 5));
    let expected: Vec<(usize, usize)> = (0..=5).map(|k| (k, k)).collect();
    assert_eq!(lit_cells(&screen), expected);
}

#[test]
fn reversed_diagonal_sets_the_same_cells() {
    let mut screen = Screen::new(10, 10);
    screen.draw_line((5, 5), (0, 0));
    let expected: Vec<(usize, usize)> = (0..=5).map(|k| (k, k)).collect();
    assert_eq!(lit_cells(&screen), expected);
}

#[test]
fn vertical_line_sets_exactly_one_column_segment() {
    let mut screen = Screen::new(6, 8);
    screen.draw_line((3, 1), (3, 4));
    let expected: Vec<(usize, usize)> = (1..=4).map(|y| (3, y)).collect();
    assert_eq!(lit_cells(&screen), expected);
}

#[test]
fn line_leaving_the_grid_is_clipped() {
    let mut screen = Screen::new(8, 5);
    screen.draw_line((0, 0), (12, 0));
    let expected: Vec<(usize, usize)> = (0..8).map(|x| (x, 0)).collect();
    assert_eq!(lit_cells(&screen), expected);
}

#[test]
fn shallow_line_has_no_gaps() {
    let mut screen = Screen::new(10, 10);
    screen.draw_line((0, 0), (9, 3));
    let cells = lit_cells(&screen);
    assert_eq!(cells.len(), 10);
    for x in 0..=9 {
        let ys: Vec<usize> = cells.iter().filter(|c| c.0 == x).map(|c| c.1).collect();
        assert_eq!(ys.len(), 1);
    }
    for pair in cells.windows(2) {
        let (x0, y0) = pair[0];
        let (x1, y1) = pair[1];
        assert!(x1 - x0 <= 1 && y1.abs_diff(y0) <= 1);
    }
}

#[test]
fn drawing_a_line_twice_changes_nothing_more() {
    let mut screen = Screen::new(10, 10);
    screen.draw_line((2, 7), (8, 1));
    let first = lit_cells(&screen);
    screen.draw_line((2, 7), (8, 1));
    assert_eq!(lit_cells(&screen), first);
}

use wirecube::screen::Screen;

fn rows(screen: &Screen) -> Vec<String> {
    screen.buffer.lines().map(|l| l.to_string()).collect()
}

#[test]
fn new_screen_is_blank() {
    let mut screen = Screen::new(3, 2);
    screen.build();
    assert_eq!(screen.buffer, "   \n   \n");
}

#[test]
fn set_in_bounds_marks_exactly_one_cell() {
    let mut screen = Screen::new(5, 4);
    screen.set(2, 1, true);
    screen.build();
    let rows = rows(&screen);
    assert_eq!(rows.len(), 4);
    for (y, row) in rows.iter().enumerate() {
        assert_eq!(row.chars().count(), 5);
        for (x, c) in row.chars().enumerate() {
            if (x, y) == (2, 1) {
                assert_eq!(c, '.');
            } else {
                assert_eq!(c, ' ');
            }
        }
    }
}

#[test]
fn set_out_of_bounds_is_a_no_op() {
    let mut screen = Screen::new(5, 4);
    screen.set(1, 2, true);
    screen.build();
    let before = screen.buffer.clone();
    screen.set(5, 0, true);
    screen.set(0, 4, true);
    screen.set(100, 100, true);
    screen.build();
    assert_eq!(screen.buffer, before);
}

#[test]
fn set_false_unmarks_a_cell() {
    let mut screen = Screen::new(2, 2);
    screen.set(0, 0, true);
    screen.set(0, 0, false);
    screen.build();
    assert_eq!(screen.buffer, "  \n  \n");
}

#[test]
fn clear_yields_all_spaces() {
    let mut screen = Screen::new(4, 3);
    screen.set(0, 0, true);
    screen.set(3, 2, true);
    screen.set(1, 1, true);
    screen.clear();
    screen.build();
    assert_eq!(screen.buffer, "    \n    \n    \n");
}

#[test]
fn build_is_a_pure_function_of_the_cells() {
    let mut screen = Screen::new(6, 3);
    screen.set(4, 2, true);
    screen.build();
    let first = screen.buffer.clone();
    screen.build();
    assert_eq!(screen.buffer, first);
}

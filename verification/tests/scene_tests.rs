use wirecube::scene::cube_edges;
use wirecube::screen::Screen;

#[test]
fn cube_topology_has_twelve_edges() {
    let edges = cube_edges();
    let expected = vec![
        (0, 1),
        (1, 2),
        (2, 3),
        (3, 0),
        (4, 5),
        (5, 6),
        (6, 7),
        (7, 4),
        (0, 4),
        (1, 5),
        (2, 6),
        (3, 7),
    ];
    assert_eq!(edges, expected);
}

#[test]
fn draw_edges_draws_the_line_between_projected_endpoints() {
    let mut by_edges = Screen::new(10, 10);
    let points = vec![Some((1, 1)), Some((6, 4))];
    let edges = vec![(0, 1)];
    by_edges.draw_edges(&points, &edges);
    by_edges.build();

    let mut by_line = Screen::new(10, 10);
    by_line.draw_line((1, 1), (6, 4));
    by_line.build();

    assert_eq!(by_edges.buffer, by_line.buffer);
    assert!(by_edges.buffer.contains('.'));
}

#[test]
fn draw_edges_skips_edges_with_a_missing_endpoint() {
    let mut screen = Screen::new(10, 10);
    let points = vec![Some((1, 1)), None, Some((6, 4))];
    let edges = vec![(0, 1), (1, 2)];
    screen.draw_edges(&points, &edges);
    screen.build();
    assert!(!screen.buffer.contains('.'));
}

#[test]
fn draw_edges_skips_out_of_range_vertex_indices() {
    let mut screen = Screen::new(10, 10);
    let points = vec![Some((1, 1)), Some((6, 4))];
    let edges = vec![(0, 9), (7, 1)];
    screen.draw_edges(&points, &edges);
    screen.build();
    assert!(!screen.buffer.contains('.'));
}

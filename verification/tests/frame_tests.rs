//! End-to-end frame rendering with the reference configuration: the cube at
//! rest, the reference camera, and a 160 by 80 screen.
use wirecube::scene::cube_edges;
use wirecube::screen::Screen;

const WIDTH: usize = 160;
const HEIGHT: usize = 80;
const CAMERA: (f64, f64, f64) = (0.0, 2.0, -5.0);
const DISPLAY_SURFACE_Z: f64 = 1.0;

fn cube_vertices() -> Vec<(f64, f64, f64)> {
    vec![
        (-1.0, -1.0, -1.0),
        (1.0, -1.0, -1.0),
        (1.0, 1.0, -1.0),
        (-1.0, 1.0, -1.0),
        (-1.0, -1.0, 1.0),
        (1.0, -1.0, 1.0),
        (1.0, 1.0, 1.0),
        (-1.0, 1.0, 1.0),
    ]
}

fn project(point: (f64, f64, f64)) -> Option<(usize, usize)> {
    let tx = point.0 - CAMERA.0;
    let ty = point.1 - CAMERA.1;
    let tz = point.2 - CAMERA.2;
    if tz > 0.0 {
        let projected_x = (DISPLAY_SURFACE_Z / tz) * tx;
        let projected_y = (DISPLAY_SURFACE_Z / tz) * ty;
        let screen_x = ((projected_x + 1.0) * 0.5 * (WIDTH as f64)) as usize;
        let screen_y = ((1.0 - (projected_y + 1.0) * 0.5) * (HEIGHT as f64)) as usize;
        if screen_x < WIDTH && screen_y < HEIGHT {
            return Some((screen_x, screen_y));
        }
    }
    None
}

fn render_frame() -> String {
    let mut screen = Screen::new(WIDTH, HEIGHT);
    let points: Vec<Option<(usize, usize)>> = cube_vertices().into_iter().map(project).collect();
    let edges = cube_edges();
    screen.clear();
    screen.draw_edges(&points, &edges);
    screen.build();
    screen.buffer
}

#[test]
fn rest_frame_is_reproducible_byte_for_byte() {
    let first = render_frame();
    let second = render_frame();
    assert_eq!(first, second);
}

#[test]
fn rest_frame_has_the_output_shape() {
    let frame = render_frame();
    let lines: Vec<&str> = frame.split('\n').collect();
    assert_eq!(lines.len(), HEIGHT + 1);
    assert_eq!(lines[HEIGHT], "");
    for line in &lines[..HEIGHT] {
        assert_eq!(line.chars().count(), WIDTH);
        for c in line.chars() {
            assert!(c == ' ' || c == '.');
        }
    }
    assert!(frame.contains('.'));
}

#[test]
fn rest_frame_vertices_project_on_screen() {
    for v in cube_vertices() {
        let p = project(v);
        assert!(p.is_some());
        let (x, y) = p.unwrap();
        assert!(x < WIDTH && y < HEIGHT);
    }
}

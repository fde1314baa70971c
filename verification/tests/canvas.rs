use truster::canvas::Canvas;

#[test]
fn new_canvas_reports_its_dimensions() {
    let canvas = Canvas::new(10, 20, (0.0f64, 0.0f64, 0.0f64));
    assert_eq!(canvas.width(), 10);
    assert_eq!(canvas.height(), 20);
    assert_eq!(canvas.pixel_count(), 200);
}

#[test]
fn new_canvas_is_filled_uniformly() {
    let canvas = Canvas::new(4, 3, 9u32);
    for i in 0..canvas.pixel_count() {
        assert_eq!(canvas.pixel_at(i), 9);
    }
}

#[test]
fn set_pixel_then_read_it_back() {
    let black = (0.0f64, 0.0f64, 0.0f64);
    let red = (1.0f64, 0.0f64, 0.0f64);
    let mut canvas = Canvas::new(10, 20, black);
    canvas.set(2, 3, red);
    assert_eq!(canvas.get(2, 3), red);
    assert_eq!(canvas.get(3, 2), black);
    assert_eq!(canvas.get(9, 19), black);
}

#[test]
fn pixels_are_stored_row_major() {
    let mut canvas = Canvas::new(3, 2, 0u8);
    canvas.set(1, 0, 10);
    canvas.set(0, 1, 20);
    assert_eq!(canvas.pixel_at(1), 10);
    assert_eq!(canvas.pixel_at(3), 20);
}

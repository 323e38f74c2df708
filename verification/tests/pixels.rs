use raytracer::{double_threshold, non_max_suppression, write_edge, GrayImage, ImageRgb, Position};

#[test]
fn double_threshold_classifies_interior() {
    let mut g = GrayImage::new(5, 5);
    g.put_pixel(1, 1, 200);
    g.put_pixel(2, 1, 30);
    g.put_pixel(3, 3, 5);
    let out = double_threshold(&g, 10, 100);
    // Strong pixel becomes 0.
    assert_eq!(out.get_pixel(1, 1), 0);
    // Weak-but-adjacent-to-strong pixel becomes 0.
    assert_eq!(out.get_pixel(2, 1), 0);
    // Below the low threshold becomes 255.
    assert_eq!(out.get_pixel(3, 3), 255);
    // In-between with no strong neighbor becomes 128.
    let mut g2 = GrayImage::new(5, 5);
    g2.put_pixel(2, 2, 50);
    let out2 = double_threshold(&g2, 10, 100);
    assert_eq!(out2.get_pixel(2, 2), 128);
    // Border pixels are classified too: below the low threshold means
    // no edge (255).
    assert_eq!(out2.get_pixel(0, 0), 255);
    assert_eq!(out2.get_pixel(4, 4), 255);
}

#[test]
fn gradient_magnitude_small_image_all_zero() {
    // An image too small to have interior pixels maps to all zeros.
    let mut g = GrayImage::new(2, 2);
    g.put_pixel(0, 0, 200);
    let m = raytracer::gradient_magnitude(&g);
    for x in 0..2 {
        for y in 0..2 {
            assert_eq!(m.get_pixel(x, y), 0);
        }
    }
}

#[test]
fn non_max_suppression_keeps_local_maxima() {
    let mut mag = GrayImage::new(5, 5);
    let dir = GrayImage::new(5, 5);
    // Horizontal sector (direction 0): compare left/right neighbors.
    mag.put_pixel(1, 2, 10);
    mag.put_pixel(2, 2, 50);
    mag.put_pixel(3, 2, 20);
    let out = non_max_suppression(&mag, &dir);
    // The local maximum survives; its weaker neighbors are zeroed.
    assert_eq!(out.get_pixel(2, 2), 50);
    assert_eq!(out.get_pixel(1, 2), 0);
    assert_eq!(out.get_pixel(3, 2), 0);
}

#[test]
fn write_edge_overlays_edges() {
    let img = ImageRgb::new(4, 4);
    let mut edge = GrayImage::new(4, 4);
    // Everything defaults to 0 (an edge value): the overlay copies it.
    edge.put_pixel(1, 1, 77);
    let out = write_edge(&img, &edge);
    let px = raytracer::read_color(&out, Position::pos(1, 1));
    assert_eq!((px.x, px.y, px.z), (77, 77, 77));
}

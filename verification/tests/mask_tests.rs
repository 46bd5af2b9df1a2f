use puzzle_solver::mask::{extract_surrounding_rect, Mask};

#[test]
fn pixels_read_back_what_was_written() {
    let mut m = Mask::new(3, 2);
    assert_eq!(m.dimensions(), (3, 2));
    assert_eq!(m.get_pixel(2, 1), 0);
    m.put_pixel(2, 1, 127);
    m.put_pixel(0, 0, 64);
    assert_eq!(m.get_pixel(2, 1), 127);
    assert_eq!(m.get_pixel(0, 0), 64);
    assert_eq!(m.get_pixel(1, 0), 0);
}

#[test]
fn from_vec_lays_pixels_out_row_major() {
    let m = Mask::from_vec(2, 2, vec![1, 2, 3, 4]);
    assert_eq!(m.get_pixel(0, 0), 1);
    assert_eq!(m.get_pixel(1, 0), 2);
    assert_eq!(m.get_pixel(0, 1), 3);
    assert_eq!(m.get_pixel(1, 1), 4);
}

#[test]
fn quarter_turns_move_each_pixel_once_around() {
    let m = Mask::from_vec(3, 2, vec![1, 2, 3, 4, 5, 6]);
    let r90 = m.rotated90();
    assert_eq!(r90.dimensions(), (2, 3));
    assert_eq!(r90.get_pixel(0, 0), 4);
    assert_eq!(r90.get_pixel(1, 0), 1);
    assert_eq!(r90.get_pixel(0, 2), 6);
    assert_eq!(r90.get_pixel(1, 2), 3);
    let r180 = m.rotated180();
    assert_eq!(r180.dimensions(), (3, 2));
    assert_eq!(r180.get_pixel(0, 0), 6);
    assert_eq!(r180.get_pixel(2, 1), 1);
    let r270 = m.rotated270();
    assert_eq!(r270.dimensions(), (2, 3));
    assert_eq!(r270.get_pixel(0, 0), 3);
    assert_eq!(r270.get_pixel(1, 2), 4);
}

#[test]
fn surrounding_rect_bounds_the_material() {
    let mut m = Mask::new(5, 4);
    m.put_pixel(1, 2, 127);
    m.put_pixel(3, 1, 64);
    assert_eq!(extract_surrounding_rect(&m), (1, 1, 3, 2));
}

#[test]
fn surrounding_rect_of_an_empty_mask_keeps_the_sentinels() {
    let m = Mask::new(3, 3);
    assert_eq!(extract_surrounding_rect(&m), (u32::MAX, u32::MAX, 0, 0));
}

#[test]
fn duplicate_is_a_deep_copy() {
    let mut m = Mask::new(2, 2);
    m.put_pixel(1, 1, 9);
    let d = m.duplicate();
    m.put_pixel(1, 1, 5);
    assert_eq!(d.get_pixel(1, 1), 9);
    assert_eq!(m.get_pixel(1, 1), 5);
}

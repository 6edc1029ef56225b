use isoline::buffer::{brighten, PixelBuffer};
use isoline::solid::{draw_line, root_floor, step_at, step_count};

fn painted(buf: &PixelBuffer, color: (u8, u8, u8)) -> Vec<(usize, usize)> {
    let mut v = Vec::new();
    for y in 0..buf.height {
        for x in 0..buf.width {
            if buf.get(x, y) == color {
                v.push((x, y));
            }
        }
    }
    v
}

#[test]
fn solid_line_along_a_row() {
    let mut buf = PixelBuffer::new(6, 3, (255, 255, 255)).unwrap();
    draw_line((0, 0, 255), (1, 1), (4, 1), &mut buf);
    assert_eq!(painted(&buf, (0, 0, 255)), vec![(1, 1), (2, 1), (3, 1), (4, 1)]);
    assert_eq!(painted(&buf, (255, 255, 255)).len(), 14);
}

#[test]
fn solid_line_of_no_length() {
    let mut buf = PixelBuffer::new(4, 4, (255, 255, 255)).unwrap();
    draw_line((1, 2, 3), (2, 3), (2, 3), &mut buf);
    assert_eq!(painted(&buf, (1, 2, 3)), vec![(2, 3)]);
}

#[test]
fn solid_line_overwrites() {
    let mut buf = PixelBuffer::new(4, 4, (9, 9, 9)).unwrap();
    draw_line((200, 100, 50), (0, 0), (3, 3), &mut buf);
    draw_line((1, 2, 3), (3, 3), (0, 0), &mut buf);
    assert_eq!(painted(&buf, (1, 2, 3)), vec![(0, 0), (1, 1), (2, 2), (3, 3)]);
    assert_eq!(painted(&buf, (200, 100, 50)), vec![]);
}

#[test]
fn solid_line_takes_the_rounded_distance_in_steps() {
    // the ends are the square root of 13 apart, which rounds to 4
    assert_eq!(step_count((0, 0), (2, 3)), 4);
    let mut buf = PixelBuffer::new(4, 5, (0, 0, 0)).unwrap();
    draw_line((7, 7, 7), (0, 0), (2, 3), &mut buf);
    assert_eq!(painted(&buf, (7, 7, 7)), vec![(0, 0), (1, 1), (1, 2), (2, 3)]);
}

#[test]
fn solid_line_backwards_rounds_toward_the_start() {
    let mut buf = PixelBuffer::new(4, 5, (0, 0, 0)).unwrap();
    draw_line((7, 7, 7), (2, 3), (0, 0), &mut buf);
    // steps of -2/4 and -3/4, each rounded toward zero
    assert_eq!(painted(&buf, (7, 7, 7)), vec![(0, 0), (1, 1), (1, 2), (2, 3)]);
    let mut buf = PixelBuffer::new(6, 2, (0, 0, 0)).unwrap();
    draw_line((7, 7, 7), (5, 1), (0, 0), &mut buf);
    assert_eq!(
        painted(&buf, (7, 7, 7)),
        vec![(0, 0), (1, 1), (2, 1), (3, 1), (4, 1), (5, 1)]
    );
}

#[test]
fn step_counts() {
    assert_eq!(step_count((0, 0), (0, 0)), 0);
    assert_eq!(step_count((0, 0), (1, 0)), 1);
    assert_eq!(step_count((0, 0), (1, 1)), 1);
    assert_eq!(step_count((0, 0), (2, 2)), 3);
    assert_eq!(step_count((3, 4), (0, 0)), 5);
    assert_eq!(step_count((-3, 1), (3, 1)), 6);
    assert_eq!(step_count((i32::MIN, i32::MIN), (i32::MAX, i32::MAX)), 6074000999);
}

#[test]
fn roots_round_down() {
    assert_eq!(root_floor(0), 0);
    assert_eq!(root_floor(1), 1);
    assert_eq!(root_floor(3), 1);
    assert_eq!(root_floor(4), 2);
    assert_eq!(root_floor(99), 9);
    assert_eq!(root_floor(100), 10);
    assert_eq!(root_floor(0x2_0000_0000_0000_0000), 6074000999);
    assert_eq!(root_floor(0x3fff_ffff_ffff_ffff_ffff_ffff_ffff_ffff), 0x7fff_ffff_ffff_ffff);
}

#[test]
fn steps_between_two_coordinates() {
    assert_eq!(step_at(0, 10, 0, 4), 0);
    assert_eq!(step_at(0, 10, 1, 4), 2);
    assert_eq!(step_at(0, 10, 3, 4), 7);
    assert_eq!(step_at(0, 10, 4, 4), 10);
    assert_eq!(step_at(10, 0, 1, 4), 8);
    assert_eq!(step_at(10, 0, 3, 4), 3);
}

#[test]
fn raster_of_no_room() {
    assert!(PixelBuffer::new(usize::MAX, 2, (0, 0, 0)).is_none());
    let empty = PixelBuffer::new(0, 5, (0, 0, 0)).unwrap();
    assert_eq!(empty.data.len(), 0);
    let b = PixelBuffer::new(3, 2, (1, 2, 3)).unwrap();
    assert_eq!(b.data, vec![(1, 2, 3); 6]);
}

#[test]
fn put_and_get_are_row_major() {
    let mut b = PixelBuffer::new(3, 2, (0, 0, 0)).unwrap();
    b.put(2, 0, (1, 1, 1));
    b.put(0, 1, (2, 2, 2));
    assert_eq!(b.data[2], (1, 1, 1));
    assert_eq!(b.data[3], (2, 2, 2));
    assert_eq!(b.get(2, 0), (1, 1, 1));
    assert_eq!(b.get(0, 1), (2, 2, 2));
    assert_eq!(b.get(1, 1), (0, 0, 0));
}

#[test]
fn bytes_are_channel_by_channel() {
    let mut b = PixelBuffer::new(2, 2, (1, 2, 3)).unwrap();
    b.put(1, 0, (4, 5, 6));
    assert_eq!(b.to_bytes(), Some(vec![1, 2, 3, 4, 5, 6, 1, 2, 3, 1, 2, 3]));
}

#[test]
fn lighten_stops_at_full_brightness() {
    let mut b = PixelBuffer::new(2, 1, (0, 200, 255)).unwrap();
    b.put(1, 0, (215, 216, 100));
    b.lighten(40);
    assert_eq!(b.data, vec![(40, 240, 255), (255, 255, 140)]);
    assert_eq!(brighten(215, 40), 255);
    assert_eq!(brighten(214, 40), 254);
}

use ink_ribbon::raster::Mask;

fn full(w: i32, h: i32) -> Mask {
    let mut m = Mask::new(w, h);
    m.fill_cells(0, 0, w, h, true);
    m
}

fn count(m: &Mask) -> usize {
    let mut n = 0;
    for y in 0..m.h {
        for x in 0..m.w {
            if m.get(x, y) {
                n += 1;
            }
        }
    }
    n
}

#[test]
fn dilation_and_flood() {
    let mut m = Mask::new(9, 9);
    m.set(4, 4, true);
    let d = m.dilate(1);
    assert!(d.get(3, 3) && d.get(5, 5) && !d.get(2, 2));

    // A closed box: the enclosed centre stays dry, the border floods.
    let mut free = Mask::new(5, 5);
    for y in 0..5 {
        for x in 0..5 {
            free.set(x, y, true);
        }
    }
    for x in 1..=3 {
        free.set(x, 1, false);
        free.set(x, 3, false);
    }
    for y in 1..=3 {
        free.set(1, y, false);
        free.set(3, y, false);
    }
    let ext = free.flood_from_border();
    assert!(ext.get(0, 0), "the border floods");
    assert!(!ext.get(2, 2), "the enclosed centre stays dry");
}

#[test]
fn to_bytes_header() {
    let mut m = Mask::new(10, 3);
    m.set(0, 0, true);
    let b = m.to_bytes(8);
    assert_eq!(&b[0..4], &8u32.to_le_bytes());
    assert_eq!(&b[4..8], &10u32.to_le_bytes());
    assert_eq!(&b[8..12], &3u32.to_le_bytes());
    assert_eq!(b[12], 1);
}

#[test]
fn new_masks_are_clear_and_sized() {
    let m = Mask::new(10, 3);
    assert_eq!((m.w, m.h), (10, 3));
    assert_eq!(m.bits.len(), 4);
    assert!(!m.any());
    let neg = Mask::new(-4, 7);
    assert_eq!((neg.w, neg.h), (0, 7));
    assert!(neg.bits.is_empty());
}

#[test]
fn cells_pack_row_major_lsb_first() {
    let mut m = Mask::new(10, 3);
    m.set(9, 0, true);
    m.set(0, 1, true);
    m.set(3, 2, true);
    // Bits 9, 10 and 23.
    assert_eq!(m.bits, vec![0, 0b0000_0110, 0b1000_0000, 0]);
    let b = m.to_bytes(2);
    assert_eq!(&b[12..], &m.bits[..]);
}

#[test]
fn out_of_range_cells_read_clear_and_ignore_writes() {
    let mut m = Mask::new(4, 4);
    m.set(-1, 0, true);
    m.set(4, 0, true);
    m.set(0, 4, true);
    assert!(!m.any());
    assert!(!m.get(-1, 0) && !m.get(4, 0) && !m.get(0, 4));
    m.set(3, 3, true);
    assert!(m.get(3, 3) && m.any());
    m.set(3, 3, false);
    assert!(!m.any());
}

#[test]
fn not_flips_in_bounds_cells_only() {
    let mut m = Mask::new(3, 3);
    m.set(1, 1, true);
    let n = m.not();
    assert_eq!(count(&n), 8);
    assert!(!n.get(1, 1) && n.get(0, 0));
    // Padding bits past the ninth cell stay clear.
    assert_eq!(n.bits[1] & 0b1111_1110, 0);
    assert_eq!(n.not(), m);
}

#[test]
fn or_and_subtract_are_cellwise() {
    let mut a = Mask::new(4, 2);
    a.fill_cells(0, 0, 2, 2, true);
    let mut b = Mask::new(4, 2);
    b.fill_cells(1, 0, 4, 1, true);
    let mut u = a.clone();
    u.or_with(&b);
    assert_eq!(count(&u), 6);
    assert!(u.get(3, 0) && !u.get(3, 1));
    let mut d = a.clone();
    d.subtract(&b);
    assert_eq!(count(&d), 3);
    assert!(d.get(0, 0) && !d.get(1, 0) && d.get(1, 1));
}

#[test]
fn dilate_grows_a_square_and_clips_at_the_edge() {
    let mut m = Mask::new(7, 7);
    m.set(0, 0, true);
    let d = m.dilate(2);
    assert_eq!(count(&d), 9);
    assert!(d.get(2, 2) && !d.get(3, 0));
    assert_eq!(m.dilate(0), m);
}

#[test]
fn erode_shrinks_and_keeps_only_full_neighbourhoods() {
    let mut m = Mask::new(7, 7);
    m.fill_cells(1, 1, 6, 6, true);
    let e = m.erode(1);
    assert_eq!(count(&e), 9);
    assert!(e.get(2, 2) && e.get(4, 4) && !e.get(1, 1));
    // Neighbours outside the mask do not count against a cell.
    let f = full(5, 5).erode(1);
    assert_eq!(count(&f), 25);
    assert!(f.get(0, 2));
}

#[test]
fn flood_follows_four_connected_free_cells() {
    // A diagonal gap does not let the flood through.
    let mut free = full(5, 5);
    free.fill_cells(1, 1, 4, 4, false);
    free.set(2, 2, true);
    let ext = free.flood_from_border();
    assert!(!ext.get(2, 2));
    assert_eq!(count(&ext), 16);
    // Opening a side lets it in.
    free.set(2, 1, true);
    let ext = free.flood_from_border();
    assert!(ext.get(2, 2));
    assert_eq!(count(&ext), 18);
    // Nothing free, nothing flooded.
    assert!(!Mask::new(6, 4).flood_from_border().any());
}

#[test]
fn fill_cells_clips_to_the_mask() {
    let mut m = Mask::new(10, 10);
    m.fill_cells(-5, -5, 3, 2, true);
    assert_eq!(count(&m), 6);
    m.fill_cells(8, 8, 20, 20, true);
    assert_eq!(count(&m), 10);
    m.fill_cells(0, 0, 10, 10, false);
    assert!(!m.any());
}

#[test]
fn rect_fill_and_clear() {
    // The cells of the rectangle (2, 2, 4, 4) filled, then those of
    // (3, 3, 2, 2) cleared: their floor/ceil cell bounds.
    let mut m = Mask::new(10, 10);
    m.fill_cells(2, 2, 6, 6, true);
    assert!(m.get(2, 2) && m.get(5, 5) && !m.get(6, 6));
    m.fill_cells(3, 3, 5, 5, false);
    assert!(m.get(2, 2) && !m.get(3, 3) && m.get(5, 5));
}

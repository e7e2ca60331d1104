use vulkano_text::{Atlas, AtlasError, AtlasRect, AtlasSlot, GlyphBitmap, GlyphKey};

fn key(glyph: u32) -> GlyphKey {
    GlyphKey { font: 0, glyph, scale: 1500, offset_x: 0, offset_y: 0 }
}

fn bitmap(width: u32, height: u32, fill: u8) -> GlyphBitmap {
    let mut coverage = Vec::new();
    for i in 0..(width * height) {
        coverage.push(fill.wrapping_add(i as u8));
    }
    GlyphBitmap { width, height, coverage }
}

fn overlap(a: &AtlasRect, b: &AtlasRect) -> bool {
    a.x < b.x + b.w && b.x < a.x + a.w && a.y < b.y + b.h && b.y < a.y + a.h
}

fn assert_consistent(atlas: &Atlas) {
    let slots: &[AtlasSlot] = atlas.resident_slots();
    for (i, a) in slots.iter().enumerate() {
        assert!(a.rect.x + a.rect.w <= atlas.width() as u32);
        assert!(a.rect.y + a.rect.h <= atlas.height() as u32);
        assert_eq!(atlas.lookup(a.key), Some(a.rect));
        for b in &slots[i + 1..] {
            assert_ne!(a.key, b.key);
            assert!(!overlap(&a.rect, &b.rect), "{:?} overlaps {:?}", a, b);
        }
    }
}

#[test]
fn new_atlas_is_blank() {
    let atlas = Atlas::new(16, 8);
    assert_eq!(atlas.width(), 16);
    assert_eq!(atlas.height(), 8);
    assert_eq!(atlas.pixels().len(), 128);
    assert!(atlas.pixels().iter().all(|&p| p == 0));
    assert!(atlas.resident_slots().is_empty());
    assert_eq!(atlas.lookup(key(1)), None);
}

#[test]
fn new_glyph_is_packed_and_written() {
    let mut atlas = Atlas::new(16, 8);
    let b = bitmap(3, 2, 10);
    let rect = atlas.ensure_resident(key(1), &b).unwrap();
    assert_eq!(rect, AtlasRect { x: 0, y: 0, w: 3, h: 2 });
    let pixels = atlas.pixels();
    for row in 0..8usize {
        for col in 0..16usize {
            let expected = if row < 2 && col < 3 { b.coverage[row * 3 + col] } else { 0 };
            assert_eq!(pixels[row * 16 + col], expected);
        }
    }
    let second = atlas.ensure_resident(key(2), &bitmap(4, 2, 50)).unwrap();
    assert_eq!(second, AtlasRect { x: 3, y: 0, w: 4, h: 2 });
    assert_eq!(atlas.pixels()[3], 50);
    let tall = atlas.ensure_resident(key(3), &bitmap(2, 3, 90)).unwrap();
    assert_eq!(tall, AtlasRect { x: 0, y: 2, w: 2, h: 3 });
    assert_consistent(&atlas);
}

#[test]
fn second_request_keeps_rect_and_pixels() {
    let mut atlas = Atlas::new(32, 32);
    let first = atlas.ensure_resident(key(7), &bitmap(5, 6, 1)).unwrap();
    let before: Vec<u8> = atlas.pixels().to_vec();
    let again = atlas.ensure_resident(key(7), &bitmap(5, 6, 200)).unwrap();
    assert_eq!(again, first);
    assert_eq!(atlas.pixels(), &before[..]);
    assert_eq!(atlas.resident_slots().len(), 1);
}

#[test]
fn too_large_bitmap_is_refused() {
    let mut atlas = Atlas::new(10, 10);
    assert_eq!(atlas.ensure_resident(key(1), &bitmap(11, 1, 0)), Err(AtlasError::TooLarge));
    assert_eq!(atlas.ensure_resident(key(2), &bitmap(1, 11, 0)), Err(AtlasError::TooLarge));
    assert!(atlas.resident_slots().is_empty());
    assert!(atlas.pixels().iter().all(|&p| p == 0));
    assert_eq!(atlas.ensure_resident(key(3), &bitmap(10, 10, 0)).map(|r| r.w), Ok(10));
}

#[test]
fn pinned_slots_leave_atlas_full() {
    let mut atlas = Atlas::new(4, 4);
    for g in 0..4 {
        assert!(atlas.ensure_resident(key(g), &bitmap(2, 2, 1)).is_ok());
    }
    let before: Vec<u8> = atlas.pixels().to_vec();
    assert_eq!(atlas.ensure_resident(key(9), &bitmap(1, 1, 1)), Err(AtlasError::Full));
    assert_eq!(atlas.pixels(), &before[..]);
    assert_eq!(atlas.resident_slots().len(), 4);
    for g in 0..4 {
        assert!(atlas.lookup(key(g)).is_some());
    }
}

#[test]
fn unpinned_slots_are_evicted_below_pinned_ones() {
    let mut atlas = Atlas::new(4, 4);
    for g in 0..4 {
        atlas.ensure_resident(key(g), &bitmap(2, 2, 1)).unwrap();
    }
    atlas.release_pins();
    assert!(atlas.resident_slots().iter().all(|s| !s.pinned));
    atlas.ensure_resident(key(1), &bitmap(2, 2, 1)).unwrap();
    let rect = atlas.ensure_resident(key(9), &bitmap(1, 2, 77)).unwrap();
    assert_eq!(rect, AtlasRect { x: 0, y: 2, w: 1, h: 2 });
    assert_eq!(atlas.lookup(key(0)), None);
    assert_eq!(atlas.lookup(key(2)), None);
    assert_eq!(atlas.lookup(key(3)), None);
    assert_eq!(atlas.lookup(key(1)), Some(AtlasRect { x: 2, y: 0, w: 2, h: 2 }));
    assert_eq!(atlas.pixels()[8], 77);
    assert_eq!(atlas.pixels()[12], 78);
    assert_consistent(&atlas);
}

#[test]
fn stale_small_glyphs_make_room_for_a_tall_one() {
    let mut atlas = Atlas::new(20, 20);
    for g in 0..100 {
        atlas.ensure_resident(key(g), &bitmap(2, 2, 1)).unwrap();
    }
    atlas.release_pins();
    let kept = atlas.ensure_resident(key(0), &bitmap(2, 2, 1)).unwrap();
    let tall = atlas.ensure_resident(key(500), &bitmap(3, 15, 9)).unwrap();
    assert_eq!(tall, AtlasRect { x: 0, y: 2, w: 3, h: 15 });
    assert_eq!(atlas.lookup(key(0)), Some(kept));
    assert_eq!(
        atlas.ensure_resident(key(501), &bitmap(3, 4, 9)),
        Ok(AtlasRect { x: 3, y: 2, w: 3, h: 4 })
    );
    assert_consistent(&atlas);
}

#[test]
fn pinned_glyph_low_in_the_atlas_leaves_room_above() {
    let mut atlas = Atlas::new(20, 20);
    for g in 0..100 {
        atlas.ensure_resident(key(g), &bitmap(2, 2, 1)).unwrap();
    }
    atlas.release_pins();
    // The reused glyph sits on the bottom shelf, at the right end.
    let kept = atlas.ensure_resident(key(99), &bitmap(2, 2, 1)).unwrap();
    assert_eq!(kept, AtlasRect { x: 18, y: 18, w: 2, h: 2 });
    // Nine emptied shelves of ten places each take new glyphs.
    for g in 500..590 {
        assert!(atlas.ensure_resident(key(g), &bitmap(2, 2, 4)).is_ok());
    }
    assert_eq!(atlas.ensure_resident(key(590), &bitmap(2, 2, 4)), Err(AtlasError::Full));
    assert_eq!(atlas.lookup(key(99)), Some(kept));
    assert_eq!(atlas.lookup(key(0)), None);
    assert_consistent(&atlas);
}

#[test]
fn atlas_is_cleared_when_nothing_is_pinned() {
    let mut atlas = Atlas::new(4, 4);
    for g in 0..4 {
        atlas.ensure_resident(key(g), &bitmap(2, 2, 1)).unwrap();
    }
    atlas.release_pins();
    let rect = atlas.ensure_resident(key(20), &bitmap(3, 3, 5)).unwrap();
    assert_eq!(rect, AtlasRect { x: 0, y: 0, w: 3, h: 3 });
    assert_eq!(atlas.resident_slots().len(), 1);
    assert_eq!(atlas.lookup(key(20)), Some(rect));
}

#[test]
fn eviction_keeps_the_atlas_consistent() {
    // 100 by 100 pixels hold 500 glyphs of 5 by 4.
    let mut atlas = Atlas::new(100, 100);
    let mut refused = 0;
    for g in 0..2000u32 {
        match atlas.ensure_resident(key(g), &bitmap(5, 4, g as u8)) {
            Ok(rect) => assert_eq!(atlas.lookup(key(g)), Some(rect)),
            Err(_) => refused += 1,
        }
        atlas.release_pins();
    }
    assert_eq!(refused, 0);
    assert_eq!(atlas.resident_slots().len(), 500);
    // The oldest placements were evicted first.
    for g in 0..1500u32 {
        assert_eq!(atlas.lookup(key(g)), None);
    }
    for g in 1500..2000u32 {
        assert!(atlas.lookup(key(g)).is_some());
    }
    assert_consistent(&atlas);
}

#[test]
fn mixed_sizes_never_overlap() {
    let mut atlas = Atlas::new(64, 64);
    for g in 0..600u32 {
        let w = 1 + (g * 7) % 13;
        let h = 1 + (g * 5) % 11;
        let _ = atlas.ensure_resident(key(g), &bitmap(w, h, 3));
        if g % 10 == 9 {
            atlas.release_pins();
        }
        assert_consistent(&atlas);
    }
}

#[test]
fn one_frame_beyond_capacity_reports_full() {
    let mut atlas = Atlas::new(100, 100);
    let mut placed = 0;
    let mut full = 0;
    for g in 0..2000u32 {
        match atlas.ensure_resident(key(g), &bitmap(5, 4, 0)) {
            Ok(_) => placed += 1,
            Err(AtlasError::Full) => full += 1,
            Err(AtlasError::TooLarge) => panic!("a 5 by 4 glyph fits"),
        }
    }
    assert_eq!(placed, 500);
    assert_eq!(full, 1500);
    assert_consistent(&atlas);
}

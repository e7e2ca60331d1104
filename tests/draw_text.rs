use vulkano_text::{
    build_run_vertices, to_ndc, to_uv, Atlas, AtlasRect, DrawText, Fraction, GlyphBitmap,
    GlyphKey, GlyphRequest, PositionedGlyph, Rgba, ScreenRect, Vertex, ATLAS_HEIGHT, ATLAS_WIDTH,
};

const WHITE: Rgba = Rgba { r: 255, g: 255, b: 255, a: 255 };

fn key(glyph: u32) -> GlyphKey {
    GlyphKey { font: 0, glyph, scale: 1500, offset_x: 0, offset_y: 0 }
}

fn request(glyph: u32, min_x: i32, min_y: i32, w: u32, h: u32) -> GlyphRequest {
    GlyphRequest {
        key: key(glyph),
        screen: ScreenRect { min_x, min_y, max_x: min_x + w as i32, max_y: min_y + h as i32 },
        bitmap: GlyphBitmap { width: w, height: h, coverage: vec![200; (w * h) as usize] },
    }
}

fn frac(num: i64, den: u32) -> Fraction {
    Fraction { num, den }
}

fn overlap(a: &AtlasRect, b: &AtlasRect) -> bool {
    a.x < b.x + b.w && b.x < a.x + a.w && a.y < b.y + b.h && b.y < a.y + a.h
}

#[test]
fn new_engine_is_empty() {
    let engine = DrawText::new();
    assert_eq!(engine.atlas().width(), ATLAS_WIDTH);
    assert_eq!(engine.atlas().height(), ATLAS_HEIGHT);
    assert!(engine.atlas().resident_slots().is_empty());
}

#[test]
fn full_screen_maps_to_unit_corners() {
    assert_eq!(to_ndc(0, 640), frac(-640, 640));
    assert_eq!(to_ndc(640, 640), frac(640, 640));
    assert_eq!(to_ndc(0, 480), frac(-480, 480));
    assert_eq!(to_ndc(480, 480), frac(480, 480));
    assert_eq!(to_ndc(160, 640), frac(-320, 640));
    assert_eq!(to_uv(250, 1000), frac(250, 1000));

    let mut atlas = Atlas::new(10, 10);
    atlas
        .ensure_resident(key(1), &GlyphBitmap { width: 2, height: 2, coverage: vec![1; 4] })
        .unwrap();
    let glyphs = vec![PositionedGlyph {
        key: key(1),
        screen: ScreenRect { min_x: 0, min_y: 0, max_x: 640, max_y: 480 },
    }];
    let v = build_run_vertices(&glyphs, WHITE, &atlas, 640, 480);
    assert_eq!(v.len(), 6);
    assert_eq!((v[1].x, v[1].y), (frac(-640, 640), frac(-480, 480)));
    assert_eq!((v[4].x, v[4].y), (frac(640, 640), frac(480, 480)));
}

#[test]
fn quad_corners_in_order() {
    let mut atlas = Atlas::new(10, 20);
    atlas
        .ensure_resident(key(1), &GlyphBitmap { width: 3, height: 4, coverage: vec![1; 12] })
        .unwrap();
    let glyphs = vec![PositionedGlyph {
        key: key(1),
        screen: ScreenRect { min_x: 10, min_y: 20, max_x: 13, max_y: 24 },
    }];
    let color = Rgba { r: 1, g: 2, b: 3, a: 4 };
    let v = build_run_vertices(&glyphs, color, &atlas, 100, 50);
    let corner = |x: i64, y: i64, u: i64, vv: i64| Vertex {
        x: frac(x, 100),
        y: frac(y, 50),
        u: frac(u, 10),
        v: frac(vv, 20),
        color,
    };
    let bottom_left = corner(-80, -2, 0, 4);
    let top_left = corner(-80, -10, 0, 0);
    let top_right = corner(-74, -10, 3, 0);
    let bottom_right = corner(-74, -2, 3, 4);
    assert_eq!(v, vec![bottom_left, top_left, top_right, top_right, bottom_right, bottom_left]);
}

#[test]
fn hi_scenario() {
    let mut engine = DrawText::new();
    // "H" and "i" laid out at origin (0, 0) with size 15.
    engine.queue_text(vec![request(43, 1, 3, 8, 11), request(76, 11, 2, 2, 12)], WHITE);
    let h = engine.atlas().lookup(key(43)).unwrap();
    let i = engine.atlas().lookup(key(76)).unwrap();
    assert_ne!(h, i);
    assert!(!overlap(&h, &i));
    let frame = engine.draw_text(100, 100);
    assert!(frame.upload_atlas);
    assert_eq!(frame.draws.len(), 1);
    assert_eq!(frame.draws[0].len(), 12);
    assert!(frame.draws[0].iter().all(|v| v.color == WHITE));
    assert_eq!(frame.draws[0][1].x, frac(-98, 100));
    assert_eq!(frame.draws[0][7].x, frac(-78, 100));
}

#[test]
fn empty_string_draws_nothing() {
    let mut engine = DrawText::new();
    engine.queue_text(Vec::new(), WHITE);
    let frame = engine.draw_text(100, 100);
    assert!(frame.upload_atlas);
    assert!(frame.draws.is_empty());
    assert!(engine.atlas().resident_slots().is_empty());
}

#[test]
fn empty_queue_skips_upload_and_draws() {
    let mut engine = DrawText::new();
    let frame = engine.draw_text(100, 100);
    assert!(!frame.upload_atlas);
    assert!(frame.draws.is_empty());
    engine.queue_text(vec![request(1, 0, 0, 4, 4)], WHITE);
    let first = engine.draw_text(100, 100);
    assert_eq!(first.draws.len(), 1);
    let pixels: Vec<u8> = engine.atlas().pixels().to_vec();
    let again = engine.draw_text(100, 100);
    assert!(!again.upload_atlas);
    assert!(again.draws.is_empty());
    assert_eq!(engine.atlas().pixels(), &pixels[..]);
}

#[test]
fn runs_draw_in_queue_order_and_queue_empties() {
    let mut engine = DrawText::new();
    let red = Rgba { r: 255, g: 0, b: 0, a: 255 };
    engine.queue_text(vec![request(1, 0, 0, 4, 4)], WHITE);
    engine.queue_text(Vec::new(), WHITE);
    engine.queue_text(vec![request(2, 5, 0, 4, 4), request(3, 10, 0, 4, 4)], red);
    let frame = engine.draw_text(50, 50);
    assert_eq!(frame.draws.len(), 2);
    assert_eq!(frame.draws[0].len(), 6);
    assert_eq!(frame.draws[1].len(), 12);
    assert!(frame.draws[1].iter().all(|v| v.color == red));
    let next = engine.draw_text(50, 50);
    assert!(next.draws.is_empty());
    assert!(engine.atlas().resident_slots().iter().all(|s| !s.pinned));
}

#[test]
fn refused_glyph_is_left_out_whole() {
    let mut engine = DrawText::new();
    let huge = request(9, 0, 0, 1001, 2);
    engine.queue_text(vec![request(1, 0, 0, 4, 4), huge, request(2, 5, 0, 3, 3)], WHITE);
    let frame = engine.draw_text(64, 64);
    assert_eq!(frame.draws.len(), 1);
    assert_eq!(frame.draws[0].len(), 12);
    assert_eq!(engine.atlas().lookup(key(9)), None);
}

#[test]
fn run_of_refused_glyphs_makes_no_draw_call() {
    let mut engine = DrawText::new();
    engine.queue_text(vec![request(9, 0, 0, 2000, 2)], WHITE);
    engine.queue_text(vec![request(1, 0, 0, 4, 4)], WHITE);
    let frame = engine.draw_text(64, 64);
    assert_eq!(frame.draws.len(), 1);
    assert_eq!(frame.draws[0].len(), 6);
}

#[test]
fn empty_target_draws_nothing_but_drains() {
    let mut engine = DrawText::new();
    engine.queue_text(vec![request(1, 0, 0, 4, 4)], WHITE);
    let frame = engine.draw_text(0, 100);
    assert!(!frame.upload_atlas);
    assert!(frame.draws.is_empty());
    let after = engine.draw_text(100, 100);
    assert!(after.draws.is_empty());
    assert!(engine.atlas().lookup(key(1)).is_some());
}

#[test]
fn queued_glyphs_survive_atlas_pressure() {
    let mut engine = DrawText::new();
    // Fill the atlas with one frame of 100 by 100 glyphs, then draw it.
    let mut glyphs = Vec::new();
    for g in 0..100u32 {
        glyphs.push(request(g, 0, 0, 100, 100));
    }
    engine.queue_text(glyphs, WHITE);
    engine.draw_text(200, 200);
    // A new frame pins one old glyph, then asks for many new ones.
    engine.queue_text(vec![request(5, 0, 0, 100, 100)], WHITE);
    let pinned = engine.atlas().lookup(key(5)).unwrap();
    let mut fresh = Vec::new();
    for g in 1000..1150u32 {
        fresh.push(request(g, 0, 0, 100, 100));
    }
    engine.queue_text(fresh, WHITE);
    assert_eq!(engine.atlas().lookup(key(5)), Some(pinned));
    let frame = engine.draw_text(200, 200);
    assert_eq!(frame.draws.len(), 2);
    assert_eq!(frame.draws[0].len(), 6);
    // The pinned glyph keeps its place on the top shelf; the four places to
    // its right and nine empty shelves of ten take new glyphs.
    assert_eq!(frame.draws[1].len(), 94 * 6);
}

#[test]
fn resident_key_of_a_run_keeps_its_place_and_pixels() {
    let mut engine = DrawText::new();
    let mut glyphs = Vec::new();
    for g in 0..100u32 {
        glyphs.push(request(g, 0, 0, 100, 100));
    }
    engine.queue_text(glyphs, WHITE);
    engine.draw_text(200, 200);
    let rect = engine.atlas().lookup(key(7)).unwrap();
    let before: Vec<u8> = engine.atlas().pixels().to_vec();
    // The new glyph comes first and forces an eviction; the resident one
    // that follows it in the run is pinned before anything is packed.
    let mut fresh = request(2000, 0, 0, 100, 100);
    fresh.bitmap.coverage = vec![9; 100 * 100];
    engine.queue_text(vec![fresh, request(7, 0, 0, 100, 100)], WHITE);
    assert_eq!(engine.atlas().lookup(key(7)), Some(rect));
    let after = engine.atlas().pixels();
    for row in rect.y..rect.y + rect.h {
        for col in rect.x..rect.x + rect.w {
            let i = (row * 1000 + col) as usize;
            assert_eq!(after[i], before[i]);
        }
    }
    let frame = engine.draw_text(200, 200);
    assert_eq!(frame.draws.len(), 1);
    assert_eq!(frame.draws[0].len(), 12);
}

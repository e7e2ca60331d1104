//! A glyph atlas and text-quad engine for GPU text rendering.
//!
//! The library keeps a fixed-size, single-channel glyph atlas packed with
//! shelves, a per-frame queue of text runs, and turns the queued runs into
//! screen-space textured quads. All positions are exact integer fractions, so
//! the renderer around the library only divides at the very end.

mod atlas;
mod draw_text;
mod geometry;
mod quad;

pub use atlas::{
    evicted_cursor, evicted_top, has_key, key_index, keys_unique, lemma_request_twice,
    lemma_resident_rect_fits, lemma_resident_slots_disjoint, meets_rows, pinned_bottom, pinned_in,
    pixel_at, rect_of, request_outcome, slots_disjoint, slots_fit, Atlas, AtlasError, AtlasSlot,
    GlyphBitmap, GlyphKey,
};
pub use draw_text::{
    draw_views, frame_draws, pins_for, positioned, queued_after_pins, queued_pinned, request_chain, requested_in_order,
    DrawText, FrameDraw, GlyphRequest, ATLAS_HEIGHT, ATLAS_WIDTH,
};
pub use geometry::{ndc_of, rects_disjoint, to_ndc, to_uv, uv_of, AtlasRect, Fraction, ScreenRect};
pub use quad::{
    build_run_vertices, corner, glyph_vertices, lemma_full_screen_corners, lemma_whole_quads, quad,
    run_vertices, PositionedGlyph, Rgba, TextRun, Vertex,
};

//! Quad generation: each resident glyph of a run becomes two triangles.

use vstd::prelude::*;

use crate::atlas::{lemma_resident_rect_fits, Atlas, GlyphKey};
use crate::geometry::{ndc_of, to_ndc, to_uv, uv_of, AtlasRect, Fraction, ScreenRect};

verus! {

/// A text color, one byte per channel; 255 is full intensity.
#[derive(Clone, Copy, Debug, PartialEq, Eq, Structural)]
pub struct Rgba {
    pub r: u8,
    pub g: u8,
    pub b: u8,
    pub a: u8,
}

/// One vertex of a glyph quad: its position in normalized device
/// coordinates, its texture coordinate in the atlas, and the run's color.
#[derive(Clone, Copy, Debug, PartialEq, Eq, Structural)]
pub struct Vertex {
    pub x: Fraction,
    pub y: Fraction,
    pub u: Fraction,
    pub v: Fraction,
    pub color: Rgba,
}

/// A glyph placed by layout: the atlas key of its bitmap and the screen
/// rectangle that the bitmap covers.
#[derive(Clone, Copy, Debug, PartialEq, Eq, Structural)]
pub struct PositionedGlyph {
    pub key: GlyphKey,
    pub screen: ScreenRect,
}

/// The glyphs of one queued string, in order, and their common color.
#[derive(Debug)]
pub struct TextRun {
    pub glyphs: Vec<PositionedGlyph>,
    pub color: Rgba,
}

/// The vertex at one corner of a glyph: the right or left edge, the bottom
/// or top edge, of both the screen rectangle and the atlas rectangle.
pub open spec fn corner(
    screen: ScreenRect,
    uv: AtlasRect,
    screen_w: nat,
    screen_h: nat,
    atlas_w: nat,
    atlas_h: nat,
    color: Rgba,
    right: bool,
    bottom: bool,
) -> Vertex {
    Vertex {
        x: ndc_of(
            if right {
                screen.max_x as int
            } else {
                screen.min_x as int
            },
            screen_w,
        ),
        y: ndc_of(
            if bottom {
                screen.max_y as int
            } else {
                screen.min_y as int
            },
            screen_h,
        ),
        u: uv_of(
            if right {
                uv.right()
            } else {
                uv.x as int
            },
            atlas_w,
        ),
        v: uv_of(
            if bottom {
                uv.bottom()
            } else {
                uv.y as int
            },
            atlas_h,
        ),
        color,
    }
}

/// The two triangles of a glyph quad: bottom-left, top-left, top-right, then
/// top-right, bottom-right, bottom-left. They share the diagonal from the
/// bottom-left to the top-right corner and together cover the rectangle.
pub open spec fn quad(
    screen: ScreenRect,
    uv: AtlasRect,
    screen_w: nat,
    screen_h: nat,
    atlas_w: nat,
    atlas_h: nat,
    color: Rgba,
) -> Seq<Vertex> {
    seq![
        corner(screen, uv, screen_w, screen_h, atlas_w, atlas_h, color, false, true),
        corner(screen, uv, screen_w, screen_h, atlas_w, atlas_h, color, false, false),
        corner(screen, uv, screen_w, screen_h, atlas_w, atlas_h, color, true, false),
        corner(screen, uv, screen_w, screen_h, atlas_w, atlas_h, color, true, false),
        corner(screen, uv, screen_w, screen_h, atlas_w, atlas_h, color, true, true),
        corner(screen, uv, screen_w, screen_h, atlas_w, atlas_h, color, false, true),
    ]
}

/// What one glyph contributes to its run: its quad when its key is
/// resident in `atlas`, nothing otherwise.
pub open spec fn glyph_vertices(
    g: PositionedGlyph,
    atlas: Atlas,
    screen_w: nat,
    screen_h: nat,
    color: Rgba,
) -> Seq<Vertex> {
    match atlas.resident_rect(g.key) {
        Some(uv) => quad(
            g.screen,
            uv,
            screen_w,
            screen_h,
            atlas.spec_width(),
            atlas.spec_height(),
            color,
        ),
        None => Seq::empty(),
    }
}

/// The vertex list of a run: the contributions of its glyphs, in order.
pub open spec fn run_vertices(
    glyphs: Seq<PositionedGlyph>,
    atlas: Atlas,
    screen_w: nat,
    screen_h: nat,
    color: Rgba,
) -> Seq<Vertex> {
    glyphs.map_values(|g: PositionedGlyph| glyph_vertices(g, atlas, screen_w, screen_h, color)).flatten()
}

/// Each glyph of a run contributes to the run's vertex list either one whole
/// quad, six vertices whose texture coordinates span exactly its atlas
/// rectangle, or nothing at all; never part of a quad.
pub proof fn lemma_whole_quads(
    glyphs: Seq<PositionedGlyph>,
    atlas: Atlas,
    screen_w: nat,
    screen_h: nat,
    color: Rgba,
    i: int,
)
    requires
        0 <= i < glyphs.len(),
    ensures
        ({
            let piece = glyph_vertices(glyphs[i], atlas, screen_w, screen_h, color);
            match atlas.resident_rect(glyphs[i].key) {
                Some(uv) => {
                    &&& piece.len() == 6
                    &&& forall|j: int| 0 <= j < 6 ==> (#[trigger] piece[j]).color == color
                    &&& piece[1].u == uv_of(uv.x as int, atlas.spec_width())
                    &&& piece[1].v == uv_of(uv.y as int, atlas.spec_height())
                    &&& piece[4].u == uv_of(uv.right(), atlas.spec_width())
                    &&& piece[4].v == uv_of(uv.bottom(), atlas.spec_height())
                    &&& piece[0] == piece[5]
                    &&& piece[2] == piece[3]
                },
                None => piece.len() == 0,
            }
        }),
{
}

/// A rectangle covering the whole screen has its top-left corner at
/// normalized device coordinates (-1, -1) and its bottom-right corner at (1, 1).
pub proof fn lemma_full_screen_corners(
    screen_w: u32,
    screen_h: u32,
    uv: AtlasRect,
    atlas_w: nat,
    atlas_h: nat,
    color: Rgba,
)
    requires
        0 < screen_w <= i32::MAX,
        0 < screen_h <= i32::MAX,
    ensures
        ({
            let full = ScreenRect { min_x: 0, min_y: 0, max_x: screen_w as i32, max_y: screen_h as i32 };
            let q = quad(full, uv, screen_w as nat, screen_h as nat, atlas_w, atlas_h, color);
            &&& q[1].x.is_int(-1)
            &&& q[1].y.is_int(-1)
            &&& q[4].x.is_int(1)
            &&& q[4].y.is_int(1)
        }),
{
}

/// Builds the quad of a glyph whose atlas rectangle is `uv`.
fn push_quad(
    out: &mut Vec<Vertex>,
    screen: ScreenRect,
    uv: AtlasRect,
    screen_w: u32,
    screen_h: u32,
    atlas_w: u16,
    atlas_h: u16,
    color: Rgba,
)
    requires
        uv.fits_in(atlas_w as int, atlas_h as int),
    ensures
        final(out)@ == old(out)@ + quad(
            screen,
            uv,
            screen_w as nat,
            screen_h as nat,
            atlas_w as nat,
            atlas_h as nat,
            color,
        ),
{
    let left = to_ndc(screen.min_x, screen_w);
    let right = to_ndc(screen.max_x, screen_w);
    let top = to_ndc(screen.min_y, screen_h);
    let bottom = to_ndc(screen.max_y, screen_h);
    let u0 = to_uv(uv.x, atlas_w as u32);
    let u1 = to_uv(uv.x + uv.w, atlas_w as u32);
    let v0 = to_uv(uv.y, atlas_h as u32);
    let v1 = to_uv(uv.y + uv.h, atlas_h as u32);
    let bottom_left = Vertex { x: left, y: bottom, u: u0, v: v1, color };
    let top_left = Vertex { x: left, y: top, u: u0, v: v0, color };
    let top_right = Vertex { x: right, y: top, u: u1, v: v0, color };
    let bottom_right = Vertex { x: right, y: bottom, u: u1, v: v1, color };
    out.push(bottom_left);
    out.push(top_left);
    out.push(top_right);
    out.push(top_right);
    out.push(bottom_right);
    out.push(bottom_left);
    proof {
        let q = quad(
            screen,
            uv,
            screen_w as nat,
            screen_h as nat,
            atlas_w as nat,
            atlas_h as nat,
            color,
        );
        assert(final(out)@ =~= old(out)@ + q);
    }
}

/// The vertex list of a run with glyphs `glyphs` and color `color`, drawn on
/// a `screen_w` by `screen_h` target from `atlas`. A glyph whose key is not
/// resident is left out whole.
pub fn build_run_vertices(
    glyphs: &Vec<PositionedGlyph>,
    color: Rgba,
    atlas: &Atlas,
    screen_w: u32,
    screen_h: u32,
) -> (r: Vec<Vertex>)
    requires
        atlas.wf(),
        screen_w > 0,
        screen_h > 0,
    ensures
        r@ == run_vertices(glyphs@, *atlas, screen_w as nat, screen_h as nat, color),
{
    let ghost f = |g: PositionedGlyph|
        glyph_vertices(g, *atlas, screen_w as nat, screen_h as nat, color);
    let mut out: Vec<Vertex> = Vec::new();
    let mut i: usize = 0;
    proof {
        assert(glyphs@.subrange(0, 0).map_values(f) =~= Seq::<Seq<Vertex>>::empty());
    }
    while i < glyphs.len()
        invariant
            atlas.wf(),
            0 <= i <= glyphs@.len(),
            f == (|g: PositionedGlyph|
                glyph_vertices(g, *atlas, screen_w as nat, screen_h as nat, color)),
            out@ == glyphs@.subrange(0, i as int).map_values(f).flatten(),
        decreases glyphs@.len() - i,
    {
        let g = glyphs[i];
        let ghost prefix = glyphs@.subrange(0, i as int).map_values(f);
        match atlas.lookup(g.key) {
            Some(uv) => {
                proof {
                    lemma_resident_rect_fits(*atlas, g.key);
                }
                push_quad(&mut out, g.screen, uv, screen_w, screen_h, atlas.width(), atlas.height(), color);
            },
            None => {},
        }
        proof {
            assert(glyphs@.subrange(0, i + 1).map_values(f) =~= prefix.push(f(g)));
            prefix.lemma_flatten_push(f(g));
            if atlas.resident_rect(g.key) is None {
                assert(out@ =~= out@ + f(g));
            }
        }
        i += 1;
    }
    proof {
        assert(glyphs@.subrange(0, glyphs@.len() as int) =~= glyphs@);
    }
    out
}

} // verus!

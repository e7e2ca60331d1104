//! The glyph atlas: a fixed-size coverage buffer into which glyph bitmaps
//! are packed on shelves, with one slot per resident glyph key.

use vstd::prelude::*;

use crate::geometry::{rects_disjoint, AtlasRect};

verus! {

/// Identifies one rasterized variant of a glyph: the font, the glyph index,
/// the rounded scale and the rounded sub-pixel offset.
#[derive(Clone, Copy, Debug, PartialEq, Eq, Structural)]
pub struct GlyphKey {
    pub font: u32,
    pub glyph: u32,
    pub scale: u32,
    pub offset_x: u32,
    pub offset_y: u32,
}

/// A rasterized glyph: `width * height` coverage bytes, row by row.
#[derive(Debug)]
pub struct GlyphBitmap {
    pub width: u32,
    pub height: u32,
    pub coverage: Vec<u8>,
}

impl GlyphBitmap {
    /// The coverage holds exactly one byte per pixel.
    pub open spec fn wf(&self) -> bool {
        self.coverage@.len() == self.width * self.height
    }

    /// The coverage byte at column `col` of row `row`.
    pub open spec fn at(&self, col: int, row: int) -> u8 {
        self.coverage@[row * self.width + col]
    }
}

/// A glyph held in the atlas, and the rectangle it occupies. A pinned slot
/// is referenced by text queued in the current frame and is never evicted.
#[derive(Clone, Copy, Debug, PartialEq, Eq, Structural)]
pub struct AtlasSlot {
    pub key: GlyphKey,
    pub rect: AtlasRect,
    pub pinned: bool,
}

/// Why a glyph could not be made resident.
#[derive(Clone, Copy, Debug, PartialEq, Eq, Structural)]
pub enum AtlasError {
    /// The bitmap is wider or taller than the whole atlas.
    TooLarge,
    /// Even with every unpinned slot evicted, no shelf can take the glyph.
    Full,
}

/// A row of the atlas, `height` pixels tall from row `y`, filled from the
/// left up to column `cursor`.
#[derive(Clone, Copy, Debug)]
struct Shelf {
    y: u32,
    height: u32,
    cursor: u32,
}

/// Some slot holds `key`.
pub open spec fn has_key(slots: Seq<AtlasSlot>, key: GlyphKey) -> bool {
    exists|i: int| 0 <= i < slots.len() && slots[i].key == key
}

/// The index of the slot that holds `key`, where there is one.
pub open spec fn key_index(slots: Seq<AtlasSlot>, key: GlyphKey) -> int {
    choose|i: int| 0 <= i < slots.len() && slots[i].key == key
}

/// Where `key` lies in the atlas, if it is resident.
pub open spec fn rect_of(slots: Seq<AtlasSlot>, key: GlyphKey) -> Option<AtlasRect> {
    if has_key(slots, key) {
        Some(slots[key_index(slots, key)].rect)
    } else {
        None
    }
}

/// `key` is resident and pinned.
pub open spec fn pinned_in(slots: Seq<AtlasSlot>, key: GlyphKey) -> bool {
    has_key(slots, key) && slots[key_index(slots, key)].pinned
}

/// No two slots hold the same key.
pub open spec fn keys_unique(slots: Seq<AtlasSlot>) -> bool {
    forall|i: int, j: int|
        0 <= i < slots.len() && 0 <= j < slots.len() && i != j ==> slots[i].key != slots[j].key
}

/// No two slots share a pixel.
pub open spec fn slots_disjoint(slots: Seq<AtlasSlot>) -> bool {
    forall|i: int, j: int|
        0 <= i < slots.len() && 0 <= j < slots.len() && i != j ==> rects_disjoint(
            slots[i].rect,
            slots[j].rect,
        )
}

/// Every slot lies inside a `width` by `height` atlas.
pub open spec fn slots_fit(slots: Seq<AtlasSlot>, width: int, height: int) -> bool {
    forall|i: int| 0 <= i < slots.len() ==> slots[i].rect.fits_in(width, height)
}

/// The byte of pixel `(px, py)` in a row-major image `width` pixels wide.
pub open spec fn pixel_at(pixels: Seq<u8>, width: int, px: int, py: int) -> u8 {
    pixels[py * width + px]
}

/// A slot whose rows meet the shelf's rows ends left of the shelf's cursor.
spec fn clear_of_shelf(r: AtlasRect, s: Shelf) -> bool {
    r.bottom() <= s.y || s.y + s.height <= r.y || r.right() <= s.cursor
}

/// Some shelf has room for a `w` by `h` glyph at its cursor, or a new shelf
/// of height `h` fits below the others.
spec fn shelf_room(
    shelves: Seq<Shelf>,
    top: int,
    width: int,
    height: int,
    w: int,
    h: int,
) -> bool {
    (exists|j: int|
        0 <= j < shelves.len() && h <= shelves[j].height && shelves[j].cursor + w <= width)
        || top + h <= height
}

/// The rectangle has a row among rows `y .. y + height`.
pub open spec fn meets_rows(r: AtlasRect, y: int, height: int) -> bool {
    !(r.bottom() <= y || y + height <= r.y)
}

/// Where the cursor of the shelf on rows `y .. y + height` stands once every
/// unpinned slot is evicted: just right of the rightmost pinned slot that
/// meets those rows, or at the left edge when none does.
pub open spec fn evicted_cursor(slots: Seq<AtlasSlot>, y: int, height: int) -> int
    decreases slots.len(),
{
    if slots.len() == 0 {
        0
    } else {
        let rest = evicted_cursor(slots.drop_last(), y, height);
        let last = slots.last();
        let c = if last.pinned && meets_rows(last.rect, y, height) {
            last.rect.right()
        } else {
            0
        };
        if c > rest {
            c
        } else {
            rest
        }
    }
}

/// `evicted_cursor` lies between 0 and any column `t` that all slots end
/// left of, and every pinned slot meeting the rows ends left of it.
proof fn lemma_evicted_cursor_bounds(slots: Seq<AtlasSlot>, y: int, height: int, t: int)
    requires
        forall|i: int| 0 <= i < slots.len() ==> slots[i].rect.right() <= t,
        0 <= t,
    ensures
        0 <= evicted_cursor(slots, y, height) <= t,
        forall|i: int|
            0 <= i < slots.len() && slots[i].pinned && meets_rows(slots[i].rect, y, height)
                ==> slots[i].rect.right() <= evicted_cursor(slots, y, height),
    decreases slots.len(),
{
    if slots.len() > 0 {
        let rest = slots.drop_last();
        lemma_evicted_cursor_bounds(rest, y, height, t);
        assert forall|i: int|
            0 <= i < slots.len() && slots[i].pinned && meets_rows(slots[i].rect, y, height)
                implies slots[i].rect.right() <= evicted_cursor(slots, y, height) by {
            if i < rest.len() {
                assert(rest[i] == slots[i]);
            }
        }
    }
}

/// The first row below every pinned slot, or 0 when nothing is pinned.
pub open spec fn pinned_bottom(slots: Seq<AtlasSlot>) -> int
    decreases slots.len(),
{
    if slots.len() == 0 {
        0
    } else {
        let rest = pinned_bottom(slots.drop_last());
        let b = if slots.last().pinned {
            slots.last().rect.bottom()
        } else {
            0
        };
        if b > rest {
            b
        } else {
            rest
        }
    }
}

/// Every pinned slot ends above `pinned_bottom`, which lies between 0 and any
/// row `t` that all slots end above.
proof fn lemma_pinned_bottom_bounds(slots: Seq<AtlasSlot>, t: int)
    requires
        forall|i: int| 0 <= i < slots.len() ==> slots[i].rect.bottom() <= t,
        0 <= t,
    ensures
        0 <= pinned_bottom(slots) <= t,
        forall|i: int|
            0 <= i < slots.len() && slots[i].pinned ==> slots[i].rect.bottom() <= pinned_bottom(
                slots,
            ),
        (forall|i: int| 0 <= i < slots.len() ==> !slots[i].pinned) ==> pinned_bottom(slots) == 0,
    decreases slots.len(),
{
    if slots.len() > 0 {
        let rest = slots.drop_last();
        lemma_pinned_bottom_bounds(rest, t);
        assert forall|i: int| 0 <= i < slots.len() && slots[i].pinned implies slots[i].rect.bottom()
            <= pinned_bottom(slots) by {
            if i < rest.len() {
                assert(rest[i] == slots[i]);
            }
        }
        if forall|i: int| 0 <= i < slots.len() ==> !slots[i].pinned {
            assert forall|i: int| 0 <= i < rest.len() implies !rest[i].pinned by {
                assert(rest[i] == slots[i]);
            }
        }
    }
}

/// Where the next shelf starts once the shelves that begin at or below row
/// `floor` are dropped: below the last remaining shelf, and not above `floor`.
/// `rows` holds each shelf's first row and height, from the top down.
pub open spec fn evicted_top(rows: Seq<(int, int)>, floor: int) -> int
    decreases rows.len(),
{
    if rows.len() == 0 {
        floor
    } else if rows.last().0 < floor {
        if rows.last().0 + rows.last().1 > floor {
            rows.last().0 + rows.last().1
        } else {
            floor
        }
    } else {
        evicted_top(rows.drop_last(), floor)
    }
}

/// With no shelf beginning above `floor`, every shelf is dropped.
proof fn lemma_evicted_top_none_kept(rows: Seq<(int, int)>, floor: int)
    requires
        forall|j: int| 0 <= j < rows.len() ==> floor <= #[trigger] rows[j].0,
    ensures
        evicted_top(rows, floor) == floor,
    decreases rows.len(),
{
    if rows.len() > 0 {
        let rest = rows.drop_last();
        assert forall|j: int| 0 <= j < rest.len() implies floor <= #[trigger] rest[j].0 by {
            assert(rest[j] == rows[j]);
        }
        lemma_evicted_top_none_kept(rest, floor);
    }
}

/// Two different resident keys lie in disjoint rectangles.
proof fn lemma_resident_disjoint(slots: Seq<AtlasSlot>, a: GlyphKey, b: GlyphKey)
    requires
        keys_unique(slots),
        slots_disjoint(slots),
        has_key(slots, a),
        has_key(slots, b),
        a != b,
    ensures
        rects_disjoint(rect_of(slots, a).unwrap(), rect_of(slots, b).unwrap()),
{
    let i = key_index(slots, a);
    let j = key_index(slots, b);
    lemma_key_at(slots, i);
    lemma_key_at(slots, j);
}

/// The shelf bookkeeping that lets a new glyph be placed without overlap.
spec fn packing_ok(
    slots: Seq<AtlasSlot>,
    shelves: Seq<Shelf>,
    top: int,
    width: int,
    height: int,
) -> bool {
    &&& top <= height
    &&& forall|i: int| 0 <= i < slots.len() ==> slots[i].rect.bottom() <= top
    &&& forall|j: int|
        0 <= j < shelves.len() ==> shelves[j].y + shelves[j].height <= top && shelves[j].cursor
            <= width
    &&& forall|j: int, k: int|
        0 <= j < k < shelves.len() ==> shelves[j].y + shelves[j].height <= shelves[k].y
    &&& forall|i: int, j: int|
        0 <= i < slots.len() && 0 <= j < shelves.len() ==> clear_of_shelf(
            slots[i].rect,
            shelves[j],
        )
}

/// With one slot per key, the key of slot `i` is resident at that slot.
proof fn lemma_key_at(slots: Seq<AtlasSlot>, i: int)
    requires
        keys_unique(slots),
        0 <= i < slots.len(),
    ensures
        has_key(slots, slots[i].key),
        key_index(slots, slots[i].key) == i,
        rect_of(slots, slots[i].key) == Some(slots[i].rect),
        pinned_in(slots, slots[i].key) == slots[i].pinned,
{
    let key = slots[i].key;
    assert(has_key(slots, key));
    let j = key_index(slots, key);
    assert(slots[j].key == key);
}

/// After placing `key` at `rect`: the key is resident there and pinned, every
/// key pinned before keeps its rectangle and its pin, and every other key
/// resident now was resident before at the same rectangle.
spec fn placed_over(
    before: Seq<AtlasSlot>,
    after: Seq<AtlasSlot>,
    key: GlyphKey,
    rect: AtlasRect,
) -> bool {
    &&& rect_of(after, key) == Some(rect)
    &&& pinned_in(after, key)
    &&& forall|k: GlyphKey|
        #[trigger] pinned_in(before, k) ==> rect_of(after, k) == rect_of(before, k) && pinned_in(
            after,
            k,
        )
    &&& forall|k: GlyphKey|
        k != key && #[trigger] has_key(after, k) ==> rect_of(after, k) == rect_of(before, k)
            && pinned_in(after, k) == pinned_in(before, k)
}

proof fn lemma_place_by_push(before: Seq<AtlasSlot>, slot: AtlasSlot)
    requires
        keys_unique(before),
        !has_key(before, slot.key),
        slot.pinned,
    ensures
        keys_unique(before.push(slot)),
        placed_over(before, before.push(slot), slot.key, slot.rect),
{
    let after = before.push(slot);
    assert forall|i: int, j: int|
        0 <= i < after.len() && 0 <= j < after.len() && i != j implies after[i].key
        != after[j].key by {
        if i == before.len() {
            assert(before[j].key != slot.key);
        } else if j == before.len() {
            assert(before[i].key != slot.key);
        }
    }
    lemma_key_at(after, before.len() as int);
    assert forall|k: GlyphKey| #[trigger] pinned_in(before, k) implies rect_of(after, k) == rect_of(
        before,
        k,
    ) && pinned_in(after, k) by {
        let j = key_index(before, k);
        lemma_key_at(before, j);
        lemma_key_at(after, j);
    }
    assert forall|k: GlyphKey| k != slot.key && #[trigger] has_key(after, k) implies rect_of(
        after,
        k,
    ) == rect_of(before, k) && pinned_in(after, k) == pinned_in(before, k) by {
        let j = key_index(after, k);
        lemma_key_at(after, j);
        assert(j != before.len());
        assert(after[j] == before[j]);
        lemma_key_at(before, j);
    }
}

/// Row-major indices of distinct pixels of one image are distinct.
proof fn lemma_index_unique(width: int, px: int, py: int, qx: int, qy: int)
    requires
        0 <= px < width,
        0 <= qx < width,
        0 <= py,
        0 <= qy,
    ensures
        (py * width + px == qy * width + qx) <==> (px == qx && py == qy),
{
    if py < qy {
        assert(py * width + width <= qy * width) by (nonlinear_arith)
            requires
                py < qy,
                0 <= width,
        ;
    } else if qy < py {
        assert(qy * width + width <= py * width) by (nonlinear_arith)
            requires
                qy < py,
                0 <= width,
        ;
    }
}

/// The row-major index of a pixel inside a `width` by `height` image is in range.
proof fn lemma_index_in_range(width: int, height: int, px: int, py: int)
    requires
        0 <= px < width,
        0 <= py < height,
    ensures
        0 <= py * width + px < width * height,
        py * width + width <= width * height,
{
    assert(py * width + width <= width * height) by (nonlinear_arith)
        requires
            0 <= py < height,
            0 <= width,
    ;
    assert(0 <= py * width) by (nonlinear_arith)
        requires
            0 <= py,
            0 <= width,
    ;
}

/// What a residency request for `key` with rasterized `bitmap` does to the
/// atlas `before`, leaving `after` and answering `r`.
pub open spec fn request_outcome(
    before: Atlas,
    key: GlyphKey,
    bitmap: GlyphBitmap,
    after: Atlas,
    r: Result<AtlasRect, AtlasError>,
) -> bool {
    let fits = bitmap.width <= before.spec_width() && bitmap.height <= before.spec_height();
    let h = bitmap.height as int;
    &&& after.spec_width() == before.spec_width()
    &&& after.spec_height() == before.spec_height()
    // A resident key answers with its own rectangle and changes nothing but
    // its pin.
    &&& before.is_resident(key) ==> {
        &&& r == Ok::<AtlasRect, AtlasError>(before.resident_rect(key).unwrap())
        &&& after.pixel_seq() == before.pixel_seq()
        &&& after.spec_top() == before.spec_top()
        &&& forall|k: GlyphKey| #[trigger] after.resident_rect(k) == before.resident_rect(k)
    }
    // A bitmap larger than the atlas is refused, and only such a bitmap.
    &&& r == Err::<AtlasRect, AtlasError>(AtlasError::TooLarge) <==> !before.is_resident(key)
        && !fits
    // The atlas is full exactly when a new glyph that fits finds no room on
    // a shelf, and none either once every unpinned slot is evicted.
    &&& r == Err::<AtlasRect, AtlasError>(AtlasError::Full) <==> !before.is_resident(key) && fits
        && !before.has_shelf_room(bitmap.width as nat, h as nat) && !before.room_after_eviction(
        bitmap.width as int,
        h,
    )
    // So success is owed when a new shelf fits below the others, and when
    // nothing is pinned.
    &&& !before.is_resident(key) && fits && before.spec_top() + h <= before.spec_height() ==> r is Ok
    &&& !before.is_resident(key) && fits && !before.has_pinned() ==> r is Ok
    // The shelves grow by at most the new glyph's height.
    &&& after.spec_top() <= before.spec_top() + h
    &&& match r {
        Ok(rect) => {
            &&& after.resident_rect(key) == Some(rect)
            &&& after.is_pinned(key)
            // A new glyph gets a rectangle of its bitmap's size inside the
            // atlas, apart from every other resident glyph, and is written
            // into it and nowhere else.
            &&& !before.is_resident(key) ==> {
                &&& rect.w == bitmap.width
                &&& rect.h == bitmap.height
                &&& rect.fits_in(before.spec_width() as int, before.spec_height() as int)
                &&& forall|k: GlyphKey|
                    k != key && #[trigger] after.is_resident(k) ==> rects_disjoint(
                        after.resident_rect(k).unwrap(),
                        rect,
                    )
                &&& forall|px: int, py: int|
                    0 <= px < before.spec_width() && 0 <= py < before.spec_height()
                        ==> #[trigger] after.pixel(px, py) == (if rect.contains(px, py) {
                        bitmap.at(px - rect.x, py - rect.y)
                    } else {
                        before.pixel(px, py)
                    })
            }
        },
        // A refusal writes no pixel and places nothing; a bitmap too large
        // changes nothing at all, while a full atlas has evicted its unpinned
        // slots on the way.
        Err(e) => {
            &&& after.pixel_seq() == before.pixel_seq()
            &&& after.spec_top() <= before.spec_top()
            &&& !after.is_resident(key)
            &&& e == AtlasError::TooLarge ==> after.slot_seq() == before.slot_seq()
                && after.spec_top() == before.spec_top()
            &&& e == AtlasError::Full ==> forall|k: GlyphKey|
                #[trigger] after.is_resident(k) ==> before.is_pinned(k)
        },
    }
    // Live references survive: a pinned key keeps its rectangle and its pin.
    &&& forall|k: GlyphKey|
        #[trigger] before.is_pinned(k) ==> after.resident_rect(k) == before.resident_rect(k)
            && after.is_pinned(k)
    // Slots never move: any other resident key was resident at the same place.
    &&& forall|k: GlyphKey|
        k != key && #[trigger] after.is_resident(k) ==> after.resident_rect(k)
            == before.resident_rect(k) && after.is_pinned(k) == before.is_pinned(k)
}

/// In a well-formed atlas, which a new atlas is and which every residency
/// request and every release of pins keeps, the atlas is consistent: no two
/// resident slots overlap, each lies inside the atlas, and no key has two.
pub proof fn lemma_resident_slots_disjoint(a: Atlas)
    requires
        a.wf(),
    ensures
        a.consistent(),
        forall|i: int, j: int|
            0 <= i < a.slot_seq().len() && 0 <= j < a.slot_seq().len() && i != j
                ==> rects_disjoint(a.slot_seq()[i].rect, a.slot_seq()[j].rect),
        forall|i: int|
            0 <= i < a.slot_seq().len() ==> #[trigger] a.slot_seq()[i].rect.bottom()
                <= a.spec_top(),
        a.spec_top() <= a.spec_height(),
        forall|k1: GlyphKey, k2: GlyphKey|
            k1 != k2 && #[trigger] a.is_resident(k1) && #[trigger] a.is_resident(k2)
                ==> rects_disjoint(a.resident_rect(k1).unwrap(), a.resident_rect(k2).unwrap()),
{
    assert forall|k1: GlyphKey, k2: GlyphKey|
        k1 != k2 && #[trigger] a.is_resident(k1) && #[trigger] a.is_resident(k2)
            implies rects_disjoint(a.resident_rect(k1).unwrap(), a.resident_rect(k2).unwrap()) by {
        lemma_resident_disjoint(a.slot_seq(), k1, k2);
    }
}

/// The rectangle of a resident key lies inside the atlas and belongs to the
/// slot of that key.
pub proof fn lemma_resident_rect_fits(a: Atlas, key: GlyphKey)
    requires
        a.wf(),
        a.is_resident(key),
    ensures
        a.resident_rect(key).unwrap().fits_in(a.spec_width() as int, a.spec_height() as int),
{
    let i = key_index(a.slot_seq(), key);
    assert(0 <= i < a.slot_seq().len());
}

/// Once a request has made `key` resident, a second request for the same key
/// answers with the same rectangle and writes no pixel.
pub proof fn lemma_request_twice(
    a0: Atlas,
    a1: Atlas,
    a2: Atlas,
    key: GlyphKey,
    first: GlyphBitmap,
    second: GlyphBitmap,
    r1: Result<AtlasRect, AtlasError>,
    r2: Result<AtlasRect, AtlasError>,
)
    requires
        request_outcome(a0, key, first, a1, r1),
        r1 is Ok,
        request_outcome(a1, key, second, a2, r2),
    ensures
        r2 == r1,
        a2.pixel_seq() == a1.pixel_seq(),
        a2.resident_rect(key) == a1.resident_rect(key),
{
}

/// A fixed-size, single-channel glyph atlas packed with shelves.
pub struct Atlas {
    width: u16,
    height: u16,
    /// One coverage byte per pixel, row by row.
    pixels: Vec<u8>,
    slots: Vec<AtlasSlot>,
    /// Shelves from the top of the atlas down.
    shelves: Vec<Shelf>,
    /// The first row below every shelf.
    top: u32,
}

impl Atlas {
    /// The atlas width in pixels.
    pub closed spec fn spec_width(&self) -> nat {
        self.width as nat
    }

    /// The atlas height in pixels.
    pub closed spec fn spec_height(&self) -> nat {
        self.height as nat
    }

    /// The resident glyphs.
    pub closed spec fn slot_seq(&self) -> Seq<AtlasSlot> {
        self.slots@
    }

    /// The coverage bytes, row by row.
    pub closed spec fn pixel_seq(&self) -> Seq<u8> {
        self.pixels@
    }

    /// The coverage byte of pixel `(px, py)`.
    pub open spec fn pixel(&self, px: int, py: int) -> u8 {
        pixel_at(self.pixel_seq(), self.spec_width() as int, px, py)
    }

    /// `key` has a slot.
    pub open spec fn is_resident(&self, key: GlyphKey) -> bool {
        has_key(self.slot_seq(), key)
    }

    /// Where `key` lies, if it is resident.
    pub open spec fn resident_rect(&self, key: GlyphKey) -> Option<AtlasRect> {
        rect_of(self.slot_seq(), key)
    }

    /// `key` is resident and pinned for the current frame.
    pub open spec fn is_pinned(&self, key: GlyphKey) -> bool {
        pinned_in(self.slot_seq(), key)
    }

    /// A `w` by `h` glyph fits on a shelf, as it stands, without evicting.
    pub closed spec fn has_shelf_room(&self, w: nat, h: nat) -> bool {
        shelf_room(
            self.shelves@,
            self.top as int,
            self.width as int,
            self.height as int,
            w as int,
            h as int,
        )
    }

    /// The rows of each shelf, from the top down: its first row and height.
    pub closed spec fn shelf_rows(&self) -> Seq<(int, int)> {
        self.shelves@.map_values(|sh: Shelf| (sh.y as int, sh.height as int))
    }

    /// A `w` by `h` glyph finds room once every unpinned slot is evicted and
    /// the shelves that begin below every pinned slot are dropped: on a
    /// remaining shelf at least `h` tall whose pinned slots leave `w` columns
    /// free at the right, or on a new shelf below the remaining ones. With
    /// nothing pinned, every shelf goes and any glyph that fits the atlas
    /// finds room.
    pub open spec fn room_after_eviction(&self, w: int, h: int) -> bool {
        let floor = pinned_bottom(self.slot_seq());
        ||| evicted_top(self.shelf_rows(), floor) + h <= self.spec_height()
        ||| exists|j: int|
            0 <= j < self.shelf_rows().len() && #[trigger] self.shelf_rows()[j].0 < floor && h
                <= self.shelf_rows()[j].1 && evicted_cursor(
                self.slot_seq(),
                self.shelf_rows()[j].0,
                self.shelf_rows()[j].1,
            ) + w <= self.spec_width()
    }

    /// The first row below every shelf: the row where the next shelf starts.
    pub closed spec fn spec_top(&self) -> nat {
        self.top as nat
    }

    /// Some slot is pinned.
    pub open spec fn has_pinned(&self) -> bool {
        exists|i: int| 0 <= i < self.slot_seq().len() && self.slot_seq()[i].pinned
    }

    /// The atlas is internally consistent: one slot per key, no two slots
    /// overlap, every slot lies inside the atlas, and the pixel buffer has
    /// one byte per atlas pixel.
    pub open spec fn consistent(&self) -> bool {
        &&& keys_unique(self.slot_seq())
        &&& slots_disjoint(self.slot_seq())
        &&& slots_fit(self.slot_seq(), self.spec_width() as int, self.spec_height() as int)
        &&& self.pixel_seq().len() == self.spec_width() * self.spec_height()
    }

    /// The atlas is consistent and its shelves account for every slot.
    pub closed spec fn wf(&self) -> bool {
        &&& self.consistent()
        &&& packing_ok(
            self.slots@,
            self.shelves@,
            self.top as int,
            self.width as int,
            self.height as int,
        )
    }

    /// An empty atlas of `width` by `height` pixels, all of coverage zero.
    pub fn new(width: u16, height: u16) -> (r: Atlas)
        ensures
            r.wf(),
            r.spec_width() == width,
            r.spec_height() == height,
            r.slot_seq().len() == 0,
            r.spec_top() == 0,
            forall|px: int, py: int| 0 <= px < width && 0 <= py < height ==> r.pixel(px, py) == 0,
    {
        assert((width as int) * (height as int) <= 65535 * 65535) by (nonlinear_arith)
            requires
                width <= 65535,
                height <= 65535,
        ;
        let n: usize = ((width as u32) * (height as u32)) as usize;
        let pixels: Vec<u8> = vec![0u8; n];
        let r = Atlas { width, height, pixels, slots: Vec::new(), shelves: Vec::new(), top: 0 };
        assert forall|px: int, py: int| 0 <= px < width && 0 <= py < height implies r.pixel(
            px,
            py,
        ) == 0 by {
            lemma_index_in_range(width as int, height as int, px, py);
        }
        r
    }

    /// The atlas width in pixels.
    pub fn width(&self) -> (r: u16)
        ensures
            r == self.spec_width(),
    {
        self.width
    }

    /// The atlas height in pixels.
    pub fn height(&self) -> (r: u16)
        ensures
            r == self.spec_height(),
    {
        self.height
    }

    /// The coverage bytes, row by row, as they are to be uploaded.
    pub fn pixels(&self) -> (r: &[u8])
        ensures
            r@ == self.pixel_seq(),
    {
        self.pixels.as_slice()
    }

    /// The resident glyphs.
    pub fn resident_slots(&self) -> (r: &[AtlasSlot])
        ensures
            r@ == self.slot_seq(),
    {
        self.slots.as_slice()
    }

    /// The index of the slot that holds `key`.
    fn find(&self, key: GlyphKey) -> (r: Option<usize>)
        ensures
            match r {
                Some(i) => i < self.slot_seq().len() && self.slot_seq()[i as int].key == key,
                None => !self.is_resident(key),
            },
    {
        let mut i: usize = 0;
        while i < self.slots.len()
            invariant
                0 <= i <= self.slots@.len(),
                forall|j: int| 0 <= j < i ==> self.slots@[j].key != key,
            decreases self.slots@.len() - i,
        {
            if self.slots[i].key == key {
                return Some(i);
            }
            i += 1;
        }
        None
    }

    /// Where `key` lies in the atlas, if it is resident.
    pub fn lookup(&self, key: GlyphKey) -> (r: Option<AtlasRect>)
        requires
            self.wf(),
        ensures
            r == self.resident_rect(key),
    {
        match self.find(key) {
            Some(i) => {
                proof {
                    lemma_key_at(self.slots@, i as int);
                }
                Some(self.slots[i].rect)
            },
            None => None,
        }
    }

    /// Places a `w` by `h` glyph for `key` on the first shelf with room, or
    /// on a new shelf above the others, and records its slot.
    fn pack_new(&mut self, key: GlyphKey, w: u32, h: u32) -> (r: Option<AtlasRect>)
        requires
            old(self).wf(),
            !old(self).is_resident(key),
            w <= old(self).spec_width(),
            h <= old(self).spec_height(),
        ensures
            final(self).wf(),
            final(self).spec_width() == old(self).spec_width(),
            final(self).spec_height() == old(self).spec_height(),
            final(self).pixel_seq() == old(self).pixel_seq(),
            match r {
                Some(rect) => rect.w == w && rect.h == h && final(self).slot_seq() == old(
                    self,
                ).slot_seq().push(AtlasSlot { key, rect, pinned: true }),
                None => final(self).slot_seq() == old(self).slot_seq(),
            },
            r is Some <==> old(self).has_shelf_room(w as nat, h as nat),
            final(self).top <= old(self).top + h,
            r is None ==> final(self).top == old(self).top && final(self).shelves@ == old(
                self,
            ).shelves@,
    {
        let width: u32 = self.width as u32;
        let height: u32 = self.height as u32;
        let mut j: usize = 0;
        while j < self.shelves.len()
            invariant
                self.wf(),
                *self == *old(self),
                width == self.width,
                height == self.height,
                !self.is_resident(key),
                w <= width,
                h <= height,
                0 <= j <= self.shelves@.len(),
                forall|k: int|
                    0 <= k < j ==> !(h <= #[trigger] self.shelves@[k].height && self.shelves@[k].cursor
                        + w <= width),
            decreases self.shelves@.len() - j,
        {
            let shelf = self.shelves[j];
            if h <= shelf.height && w <= width - shelf.cursor {
                let rect = AtlasRect { x: shelf.cursor, y: shelf.y, w, h };
                let slot = AtlasSlot { key, rect, pinned: true };
                let ghost slots0 = self.slots@;
                let ghost shelves0 = self.shelves@;
                self.shelves.set(j, Shelf { y: shelf.y, height: shelf.height, cursor: shelf.cursor + w });
                self.slots.push(slot);
                proof {
                    lemma_place_by_push(slots0, slot);
                    let slots1 = self.slots@;
                    let shelves1 = self.shelves@;
                    assert forall|a: int, b: int|
                        0 <= a < slots1.len() && 0 <= b < slots1.len() && a != b implies rects_disjoint(
                        slots1[a].rect,
                        slots1[b].rect,
                    ) by {
                        if a == slots0.len() {
                            assert(clear_of_shelf(slots0[b].rect, shelves0[j as int]));
                        } else if b == slots0.len() {
                            assert(clear_of_shelf(slots0[a].rect, shelves0[j as int]));
                        }
                    }
                    assert forall|a: int, k: int|
                        0 <= a < slots1.len() && 0 <= k < shelves1.len() implies clear_of_shelf(
                        slots1[a].rect,
                        shelves1[k],
                    ) by {
                        if a < slots0.len() {
                            assert(clear_of_shelf(slots0[a].rect, shelves0[k]));
                        } else if k < j {
                            assert(shelves0[k].y + shelves0[k].height <= shelves0[j as int].y);
                        } else if k > j {
                            assert(shelves0[j as int].y + shelves0[j as int].height <= shelves0[k].y);
                        }
                    }
                }
                return Some(rect);
            }
            j += 1;
        }
        if h <= height - self.top {
            let rect = AtlasRect { x: 0, y: self.top, w, h };
            let slot = AtlasSlot { key, rect, pinned: true };
            let ghost slots0 = self.slots@;
            let ghost shelves0 = self.shelves@;
            self.shelves.push(Shelf { y: self.top, height: h, cursor: w });
            self.top = self.top + h;
            self.slots.push(slot);
            proof {
                lemma_place_by_push(slots0, slot);
                let slots1 = self.slots@;
                let shelves1 = self.shelves@;
                assert forall|a: int, b: int|
                    0 <= a < slots1.len() && 0 <= b < slots1.len() && a != b implies rects_disjoint(
                    slots1[a].rect,
                    slots1[b].rect,
                ) by {
                    if a == slots0.len() {
                        assert(slots0[b].rect.bottom() <= rect.y);
                    } else if b == slots0.len() {
                        assert(slots0[a].rect.bottom() <= rect.y);
                    }
                }
                assert forall|a: int, k: int|
                    0 <= a < slots1.len() && 0 <= k < shelves1.len() implies clear_of_shelf(
                    slots1[a].rect,
                    shelves1[k],
                ) by {
                    if a < slots0.len() && k < shelves0.len() {
                        assert(clear_of_shelf(slots0[a].rect, shelves0[k]));
                    } else if a < slots0.len() {
                        assert(slots0[a].rect.bottom() <= rect.y);
                    } else if k < shelves0.len() {
                        assert(shelves0[k].y + shelves0[k].height <= rect.y);
                    }
                }
            }
            return Some(rect);
        }
        None
    }

    /// The first row below every pinned slot.
    fn pinned_floor(&self) -> (r: u32)
        requires
            self.wf(),
        ensures
            r == pinned_bottom(self.slot_seq()),
            r <= self.top,
    {
        proof {
            lemma_pinned_bottom_bounds(self.slots@, self.top as int);
        }
        let mut bottom: u32 = 0;
        let mut i: usize = 0;
        while i < self.slots.len()
            invariant
                self.wf(),
                0 <= i <= self.slots@.len(),
                bottom == pinned_bottom(self.slots@.subrange(0, i as int)),
            decreases self.slots@.len() - i,
        {
            let s = self.slots[i];
            proof {
                let sub = self.slots@.subrange(0, i + 1);
                assert(sub.drop_last() =~= self.slots@.subrange(0, i as int));
                assert(sub.last() == s);
                assert(s.rect.fits_in(self.width as int, self.height as int));
            }
            if s.pinned {
                let b = s.rect.y + s.rect.h;
                if b > bottom {
                    bottom = b;
                }
            }
            i += 1;
        }
        proof {
            assert(self.slots@.subrange(0, self.slots@.len() as int) =~= self.slots@);
        }
        bottom
    }

    /// Just right of the rightmost pinned slot that meets rows
    /// `y .. y + height`, or 0 when none does.
    fn pinned_right(&self, y: u32, height: u32) -> (r: u32)
        requires
            slots_fit(self.slots@, self.width as int, self.height as int),
        ensures
            r == evicted_cursor(self.slots@, y as int, height as int),
            r <= self.width,
    {
        let mut c: u32 = 0;
        let mut i: usize = 0;
        while i < self.slots.len()
            invariant
                slots_fit(self.slots@, self.width as int, self.height as int),
                0 <= i <= self.slots@.len(),
                c == evicted_cursor(self.slots@.subrange(0, i as int), y as int, height as int),
                c <= self.width,
            decreases self.slots@.len() - i,
        {
            let s = self.slots[i];
            proof {
                let sub = self.slots@.subrange(0, i + 1);
                assert(sub.drop_last() =~= self.slots@.subrange(0, i as int));
                assert(sub.last() == s);
                assert(s.rect.fits_in(self.width as int, self.height as int));
            }
            let bottom: u64 = s.rect.y as u64 + s.rect.h as u64;
            let end: u64 = y as u64 + height as u64;
            if s.pinned && !(bottom <= y as u64 || end <= s.rect.y as u64) {
                let right = s.rect.x + s.rect.w;
                if right > c {
                    c = right;
                }
            }
            i += 1;
        }
        proof {
            assert(self.slots@.subrange(0, self.slots@.len() as int) =~= self.slots@);
        }
        c
    }

    /// Evicts every unpinned slot. The shelves that begin below every pinned
    /// slot are dropped; each other shelf keeps its rows, and its cursor goes
    /// back to just right of its rightmost pinned slot.
    fn evict_unpinned(&mut self)
        requires
            old(self).wf(),
        ensures
            final(self).wf(),
            final(self).width == old(self).width,
            final(self).height == old(self).height,
            final(self).pixels@ == old(self).pixels@,
            final(self).top == evicted_top(
                old(self).shelf_rows(),
                pinned_bottom(old(self).slots@),
            ),
            final(self).top <= old(self).top,
            final(self).shelves@.len() <= old(self).shelves@.len(),
            forall|m: int|
                0 <= m < final(self).shelves@.len() ==> #[trigger] final(self).shelves@[m] == (Shelf {
                    y: old(self).shelves@[m].y,
                    height: old(self).shelves@[m].height,
                    cursor: evicted_cursor(
                        old(self).slots@,
                        old(self).shelves@[m].y as int,
                        old(self).shelves@[m].height as int,
                    ) as u32,
                }) && old(self).shelves@[m].y < pinned_bottom(old(self).slots@),
            forall|m: int|
                final(self).shelves@.len() <= m < old(self).shelves@.len() ==> pinned_bottom(
                    old(self).slots@,
                ) <= #[trigger] old(self).shelves@[m].y,
            forall|k: GlyphKey|
                #[trigger] pinned_in(old(self).slots@, k) ==> rect_of(final(self).slots@, k)
                    == rect_of(old(self).slots@, k) && pinned_in(final(self).slots@, k),
            forall|k: GlyphKey|
                #[trigger] has_key(final(self).slots@, k) ==> rect_of(final(self).slots@, k)
                    == rect_of(old(self).slots@, k) && pinned_in(final(self).slots@, k)
                    && pinned_in(old(self).slots@, k),
    {
        let floor = self.pinned_floor();
        let ghost old_slots = self.slots@;
        let ghost old_shelves = self.shelves@;
        let ghost rows = old(self).shelf_rows();
        proof {
            lemma_pinned_bottom_bounds(old_slots, self.top as int);
            assert(keys_unique(old_slots));
            assert(slots_disjoint(old_slots));
            assert(slots_fit(old_slots, self.width as int, self.height as int));
        }
        let mut j: usize = 0;
        while j < self.shelves.len()
            invariant
                old_slots == self.slots@,
                old_shelves == old(self).shelves@,
                old_slots == old(self).slots@,
                self.width == old(self).width,
                self.height == old(self).height,
                self.top == old(self).top,
                self.pixels@ == old(self).pixels@,
                slots_fit(old_slots, self.width as int, self.height as int),
                self.shelves@.len() == old_shelves.len(),
                0 <= j <= old_shelves.len(),
                forall|m: int|
                    0 <= m < old_shelves.len() ==> #[trigger] self.shelves@[m] == (if m < j {
                        Shelf {
                            y: old_shelves[m].y,
                            height: old_shelves[m].height,
                            cursor: evicted_cursor(
                                old_slots,
                                old_shelves[m].y as int,
                                old_shelves[m].height as int,
                            ) as u32,
                        }
                    } else {
                        old_shelves[m]
                    }),
            decreases old_shelves.len() - j,
        {
            let sh = self.shelves[j];
            let c = self.pinned_right(sh.y, sh.height);
            self.shelves.set(j, Shelf { y: sh.y, height: sh.height, cursor: c });
            j += 1;
        }
        let mut kept: Vec<AtlasSlot> = Vec::new();
        let ghost mut idx: Seq<int> = Seq::empty();
        let ghost mut pos: Seq<int> = Seq::empty();
        let mut i: usize = 0;
        while i < self.slots.len()
            invariant
                old_slots == self.slots@,
                0 <= i <= old_slots.len(),
                kept@.len() == idx.len(),
                forall|m: int|
                    0 <= m < idx.len() ==> 0 <= #[trigger] idx[m] < i && kept@[m] == old_slots[idx[m]]
                        && old_slots[idx[m]].pinned,
                forall|m1: int, m2: int| 0 <= m1 < m2 < idx.len() ==> idx[m1] < idx[m2],
                pos.len() == i,
                forall|j: int|
                    0 <= j < i && old_slots[j].pinned ==> 0 <= #[trigger] pos[j] < kept@.len()
                        && kept@[pos[j]] == old_slots[j],
            decreases old_slots.len() - i,
        {
            let s = self.slots[i];
            if s.pinned {
                proof {
                    idx = idx.push(i as int);
                    pos = pos.push(kept@.len() as int);
                }
                kept.push(s);
            } else {
                proof {
                    pos = pos.push(0);
                }
            }
            i += 1;
        }
        self.slots = kept;
        let mut n: usize = self.shelves.len();
        proof {
            assert(rows.subrange(0, n as int) =~= rows);
        }
        while n > 0 && self.shelves[n - 1].y >= floor
            invariant
                self.shelves@.len() == old_shelves.len(),
                0 <= n <= old_shelves.len(),
                rows == old(self).shelf_rows(),
                old_shelves == old(self).shelves@,
                forall|m: int| 0 <= m < old_shelves.len() ==> #[trigger] self.shelves@[m].y == old_shelves[m].y,
                evicted_top(rows, floor as int) == evicted_top(rows.subrange(0, n as int), floor as int),
                forall|m: int| n <= m < old_shelves.len() ==> floor <= #[trigger] old_shelves[m].y,
            decreases n,
        {
            proof {
                let sub = rows.subrange(0, n as int);
                assert(sub.drop_last() =~= rows.subrange(0, n - 1));
                assert(sub.last() == rows[n - 1]);
            }
            n -= 1;
        }
        let mut top: u32 = floor;
        if n > 0 {
            let last = self.shelves[n - 1];
            if last.y + last.height > floor {
                top = last.y + last.height;
            }
            proof {
                let sub = rows.subrange(0, n as int);
                assert(sub.last() == rows[n - 1]);
            }
        }
        self.shelves.truncate(n);
        self.top = top;
        proof {
            let ns = self.slots@;
            assert forall|m1: int, m2: int|
                0 <= m1 < ns.len() && 0 <= m2 < ns.len() && m1 != m2 implies ns[m1].key
                != ns[m2].key by {
                assert(idx[m1] != idx[m2]);
                assert(ns[m1] == old_slots[idx[m1]]);
                assert(ns[m2] == old_slots[idx[m2]]);
            }
            assert forall|m1: int, m2: int|
                0 <= m1 < ns.len() && 0 <= m2 < ns.len() && m1 != m2 implies rects_disjoint(
                ns[m1].rect,
                ns[m2].rect,
            ) by {
                assert(idx[m1] != idx[m2]);
                assert(ns[m1] == old_slots[idx[m1]]);
                assert(ns[m2] == old_slots[idx[m2]]);
            }
            assert forall|m: int| 0 <= m < ns.len() implies ns[m].rect.fits_in(
                self.width as int,
                self.height as int,
            ) && ns[m].rect.bottom() <= floor && ns[m].pinned by {
                assert(ns[m] == old_slots[idx[m]]);
            }
            assert(keys_unique(ns));
            assert(slots_disjoint(ns));
            if old(self).has_pinned() {
                let i = choose|i: int| 0 <= i < old_slots.len() && old_slots[i].pinned;
                assert(old_slots[i].pinned);
                assert(0 <= pos[i] < ns.len());
                assert(ns.len() > 0);
            } else {
                if ns.len() > 0 {
                    assert(ns[0] == old_slots[idx[0]]);
                    assert(old(self).slot_seq()[idx[0]].pinned);
                }
            }
            assert forall|a: int, m: int|
                0 <= a < ns.len() && 0 <= m < self.shelves@.len() implies clear_of_shelf(
                ns[a].rect,
                self.shelves@[m],
            ) by {
                let sh = old_shelves[m];
                lemma_evicted_cursor_bounds(old_slots, sh.y as int, sh.height as int, self.width as int);
                assert(ns[a] == old_slots[idx[a]]);
            }
            assert forall|m: int| 0 <= m < self.shelves@.len() implies self.shelves@[m].cursor
                <= self.width by {
                let sh = old_shelves[m];
                lemma_evicted_cursor_bounds(old_slots, sh.y as int, sh.height as int, self.width as int);
            }
            assert forall|k: GlyphKey| #[trigger] pinned_in(old_slots, k) implies rect_of(ns, k)
                == rect_of(old_slots, k) && pinned_in(ns, k) by {
                let j = key_index(old_slots, k);
                lemma_key_at(old_slots, j);
                lemma_key_at(ns, pos[j]);
            }
            assert forall|k: GlyphKey| #[trigger] has_key(ns, k) implies rect_of(ns, k) == rect_of(
                old_slots,
                k,
            ) && pinned_in(ns, k) && pinned_in(old_slots, k) by {
                let m = key_index(ns, k);
                lemma_key_at(ns, m);
                assert(ns[m] == old_slots[idx[m]]);
                lemma_key_at(old_slots, idx[m]);
            }
        }
    }

    /// Makes `key` resident, rasterized as `bitmap`, and pins it for the
    /// current frame. A resident key keeps its slot. A new one is packed on
    /// the first shelf with room, or on a new shelf; failing that, every
    /// unpinned slot is evicted, the shelves below every pinned slot are
    /// dropped, each remaining shelf's cursor goes back to just right of its
    /// pinned slots, and packing is tried once more. With nothing pinned this
    /// clears the whole atlas.
    pub fn ensure_resident(&mut self, key: GlyphKey, bitmap: &GlyphBitmap) -> (r: Result<
        AtlasRect,
        AtlasError,
    >)
        requires
            old(self).wf(),
            bitmap.wf(),
        ensures
            final(self).wf(),
            request_outcome(*old(self), key, *bitmap, *final(self), r),
    {
        match self.find(key) {
            Some(i) => {
                let slot = self.slots[i];
                let ghost slots0 = self.slots@;
                self.slots.set(i, AtlasSlot { key: slot.key, rect: slot.rect, pinned: true });
                proof {
                    let slots1 = self.slots@;
                    lemma_key_at(slots0, i as int);
                    lemma_key_at(slots1, i as int);
                    assert forall|k: GlyphKey| #[trigger] rect_of(slots1, k) == rect_of(slots0, k) by {
                        if has_key(slots0, k) {
                            let j = key_index(slots0, k);
                            assert(slots1[j].key == k);
                        }
                        if has_key(slots1, k) {
                            let j = key_index(slots1, k);
                            assert(slots0[j].key == k);
                        }
                        if has_key(slots0, k) && has_key(slots1, k) {
                            let j = key_index(slots0, k);
                            lemma_key_at(slots0, j);
                            lemma_key_at(slots1, j);
                        }
                    }
                    assert(keys_unique(slots1)) by {
                        assert forall|a: int, b: int|
                            0 <= a < slots1.len() && 0 <= b < slots1.len() && a != b implies slots1[a].key
                            != slots1[b].key by {
                            assert(slots0[a].key != slots0[b].key);
                        }
                    }
                    assert forall|k: GlyphKey| #[trigger] old(self).is_pinned(k) implies self.resident_rect(
                        k,
                    ) == old(self).resident_rect(k) && self.is_pinned(k) by {
                        let j = key_index(slots0, k);
                        lemma_key_at(slots0, j);
                        lemma_key_at(slots1, j);
                    }
                    assert forall|k: GlyphKey| k != key && #[trigger] self.is_resident(k) implies self.resident_rect(
                        k,
                    ) == old(self).resident_rect(k) && self.is_pinned(k) == old(self).is_pinned(k) by {
                        let j = key_index(slots1, k);
                        lemma_key_at(slots1, j);
                        lemma_key_at(slots0, j);
                    }
                    assert forall|a: int, b: int|
                        0 <= a < slots1.len() && 0 <= b < slots1.len() && a != b implies rects_disjoint(
                        slots1[a].rect,
                        slots1[b].rect,
                    ) by {
                        assert(rects_disjoint(slots0[a].rect, slots0[b].rect));
                    }
                    assert forall|a: int, k: int|
                        0 <= a < slots1.len() && 0 <= k < self.shelves@.len() implies clear_of_shelf(
                        slots1[a].rect,
                        self.shelves@[k],
                    ) by {
                        assert(clear_of_shelf(slots0[a].rect, self.shelves@[k]));
                    }
                }
                Ok(slot.rect)
            },
            None => {
                if bitmap.width > self.width as u32 || bitmap.height > self.height as u32 {
                    return Err(AtlasError::TooLarge);
                }
                let ghost slots0 = self.slots@;
                let mut placed = self.pack_new(key, bitmap.width, bitmap.height);
                proof {
                    if let Some(rect) = placed {
                        lemma_place_by_push(slots0, AtlasSlot { key, rect, pinned: true });
                    }
                }
                if placed.is_none() {
                    {
                        let ghost pre = *self;
                        self.evict_unpinned();
                        let ghost ev = *self;
                        let ghost slots2 = self.slots@;
                        proof {
                            if has_key(slots2, key) {
                                assert(pinned_in(slots0, key));
                            }
                        }
                        placed = self.pack_new(key, bitmap.width, bitmap.height);
                        proof {
                            let o = pre;
                            let w = bitmap.width as int;
                            let h = bitmap.height as int;
                            let floor = pinned_bottom(o.slots@);
                            assert forall|m: int| 0 <= m < o.shelves@.len() implies #[trigger] o.shelf_rows()[m]
                                == (o.shelves@[m].y as int, o.shelves@[m].height as int) by {}
                            assert forall|m: int| 0 <= m < ev.shelves@.len() implies #[trigger] ev.shelves@[m].cursor
                                == evicted_cursor(o.slots@, o.shelves@[m].y as int, o.shelves@[m].height as int)
                                && ev.shelves@[m].y == o.shelves@[m].y
                                && ev.shelves@[m].height == o.shelves@[m].height
                                && o.shelves@[m].y < floor by {
                                lemma_evicted_cursor_bounds(
                                    o.slots@,
                                    o.shelves@[m].y as int,
                                    o.shelves@[m].height as int,
                                    o.width as int,
                                );
                            }
                            if ev.has_shelf_room(w as nat, h as nat) && !(ev.top + h <= ev.height) {
                                let j = choose|j: int|
                                    0 <= j < ev.shelves@.len() && h <= ev.shelves@[j].height
                                        && ev.shelves@[j].cursor + w <= ev.width;
                                assert(o.shelf_rows()[j] == (o.shelves@[j].y as int, o.shelves@[j].height as int));
                                assert(ev.shelves@[j].cursor == evicted_cursor(o.slots@, o.shelves@[j].y as int, o.shelves@[j].height as int));
                                assert(o.shelves@[j].y < floor);
                                assert(o.shelf_rows()[j].0 < floor && h <= o.shelf_rows()[j].1 && evicted_cursor(
                                    o.slot_seq(),
                                    o.shelf_rows()[j].0,
                                    o.shelf_rows()[j].1,
                                ) + w <= o.spec_width());
                            }
                            if ev.top + h <= ev.height {
                                assert(evicted_top(o.shelf_rows(), floor) + h <= o.spec_height());
                            }
                            if o.room_after_eviction(w, h) && !(ev.top + h <= ev.height) {
                                let j = choose|j: int|
                                    0 <= j < o.shelf_rows().len() && #[trigger] o.shelf_rows()[j].0 < floor && h
                                        <= o.shelf_rows()[j].1 && evicted_cursor(
                                        o.slot_seq(),
                                        o.shelf_rows()[j].0,
                                        o.shelf_rows()[j].1,
                                    ) + w <= o.spec_width();
                                assert(o.shelf_rows()[j] == (o.shelves@[j].y as int, o.shelves@[j].height as int));
                                assert(j < ev.shelves@.len());
                                assert(ev.shelves@[j].cursor == evicted_cursor(o.slots@, o.shelves@[j].y as int, o.shelves@[j].height as int));
                                assert(h <= ev.shelves@[j].height && ev.shelves@[j].cursor + w <= ev.width);
                            }
                            assert(o.room_after_eviction(w, h) == old(self).room_after_eviction(w, h));
                            if !o.has_pinned() {
                                lemma_pinned_bottom_bounds(o.slots@, o.top as int);
                                assert forall|i: int| 0 <= i < o.slots@.len() implies !o.slots@[i].pinned by {
                                    assert(!o.slot_seq()[i].pinned);
                                }
                                assert forall|j: int| 0 <= j < o.shelf_rows().len() implies floor <= #[trigger] o.shelf_rows()[j].0 by {
                                    assert(o.shelf_rows()[j] == (o.shelves@[j].y as int, o.shelves@[j].height as int));
                                }
                                lemma_evicted_top_none_kept(o.shelf_rows(), floor);
                            }
                            assert(ev.top == evicted_top(o.shelf_rows(), floor));
                            assert(ev.has_shelf_room(w as nat, h as nat) ==> o.room_after_eviction(w, h));
                            assert(o.room_after_eviction(w, h) ==> ev.has_shelf_room(w as nat, h as nat));
                            assert(placed is Some <==> old(self).room_after_eviction(w, h));
                            if let Some(rect) = placed {
                                let slot = AtlasSlot { key, rect, pinned: true };
                                lemma_place_by_push(slots2, slot);
                                let after = self.slots@;
                                assert forall|k: GlyphKey| #[trigger] pinned_in(slots0, k) implies rect_of(after, k)
                                    == rect_of(slots0, k) && pinned_in(after, k) by {
                                    assert(pinned_in(slots2, k));
                                }
                                assert forall|k: GlyphKey|
                                    k != key && #[trigger] has_key(after, k) implies rect_of(after, k)
                                    == rect_of(slots0, k) && pinned_in(after, k) == pinned_in(slots0, k) by {
                                    assert(has_key(slots2, k));
                                }
                            }
                        }
                    }
                }
                match placed {
                    Some(rect) => {
                        self.blit(rect, bitmap);
                        proof {
                            assert(placed_over(slots0, self.slots@, key, rect));
                            assert forall|k: GlyphKey| #[trigger] old(self).is_pinned(k) implies self.resident_rect(
                                k,
                            ) == old(self).resident_rect(k) && self.is_pinned(k) by {
                                assert(pinned_in(slots0, k));
                            }
                            assert forall|k: GlyphKey| k != key && #[trigger] self.is_resident(k) implies self.resident_rect(
                                k,
                            ) == old(self).resident_rect(k) && self.is_pinned(k) == old(self).is_pinned(k) by {
                                assert(has_key(self.slots@, k));
                            }
                        }
                        Ok(rect)
                    },
                    None => Err(AtlasError::Full),
                }
            },
        }
    }

    /// Ends the frame: every slot loses its pin and may be evicted again.
    pub fn release_pins(&mut self)
        requires
            old(self).wf(),
        ensures
            final(self).wf(),
            final(self).spec_width() == old(self).spec_width(),
            final(self).spec_height() == old(self).spec_height(),
            final(self).pixel_seq() == old(self).pixel_seq(),
            final(self).spec_top() == old(self).spec_top(),
            !final(self).has_pinned(),
            forall|k: GlyphKey|
                #[trigger] final(self).resident_rect(k) == old(self).resident_rect(k)
                    && !final(self).is_pinned(k),
    {
        let ghost slots0 = self.slots@;
        let mut i: usize = 0;
        while i < self.slots.len()
            invariant
                self.width == old(self).width,
                self.height == old(self).height,
                self.pixels@ == old(self).pixels@,
                self.shelves@ == old(self).shelves@,
                self.top == old(self).top,
                slots0 == old(self).slots@,
                self.slots@.len() == slots0.len(),
                0 <= i <= slots0.len(),
                forall|j: int|
                    0 <= j < slots0.len() ==> #[trigger] self.slots@[j] == (if j < i {
                        AtlasSlot { key: slots0[j].key, rect: slots0[j].rect, pinned: false }
                    } else {
                        slots0[j]
                    }),
            decreases slots0.len() - i,
        {
            let slot = self.slots[i];
            self.slots.set(i, AtlasSlot { key: slot.key, rect: slot.rect, pinned: false });
            i += 1;
        }
        proof {
            let slots1 = self.slots@;
            assert forall|a: int, b: int|
                0 <= a < slots1.len() && 0 <= b < slots1.len() && a != b implies slots1[a].key
                != slots1[b].key && rects_disjoint(slots1[a].rect, slots1[b].rect) by {
                assert(slots1[a] == AtlasSlot { key: slots0[a].key, rect: slots0[a].rect, pinned: false });
                assert(slots1[b] == AtlasSlot { key: slots0[b].key, rect: slots0[b].rect, pinned: false });
            }
            assert forall|a: int| 0 <= a < slots1.len() implies slots1[a].rect.fits_in(
                self.width as int,
                self.height as int,
            ) && slots1[a].rect.bottom() <= self.top && !slots1[a].pinned by {
                assert(slots1[a] == AtlasSlot { key: slots0[a].key, rect: slots0[a].rect, pinned: false });
            }
            assert forall|a: int, k: int|
                0 <= a < slots1.len() && 0 <= k < self.shelves@.len() implies clear_of_shelf(
                slots1[a].rect,
                self.shelves@[k],
            ) by {
                assert(slots1[a] == AtlasSlot { key: slots0[a].key, rect: slots0[a].rect, pinned: false });
                assert(clear_of_shelf(slots0[a].rect, self.shelves@[k]));
            }
            assert forall|k: GlyphKey| #[trigger] self.resident_rect(k) == old(self).resident_rect(k)
                && !self.is_pinned(k) by {
                if has_key(slots1, k) {
                    let j = key_index(slots1, k);
                    lemma_key_at(slots1, j);
                    assert(slots1[j] == AtlasSlot { key: slots0[j].key, rect: slots0[j].rect, pinned: false });
                    lemma_key_at(slots0, j);
                } else if has_key(slots0, k) {
                    let j = key_index(slots0, k);
                    assert(slots1[j] == AtlasSlot { key: slots0[j].key, rect: slots0[j].rect, pinned: false });
                }
            }
        }
    }

    /// Copies `bitmap` into the pixels of `rect`, leaving every other pixel as it was.
    fn blit(&mut self, rect: AtlasRect, bitmap: &GlyphBitmap)
        requires
            old(self).wf(),
            bitmap.wf(),
            rect.fits_in(old(self).spec_width() as int, old(self).spec_height() as int),
            rect.w == bitmap.width,
            rect.h == bitmap.height,
        ensures
            final(self).wf(),
            final(self).spec_width() == old(self).spec_width(),
            final(self).spec_height() == old(self).spec_height(),
            final(self).slot_seq() == old(self).slot_seq(),
            final(self).top == old(self).top,
            forall|px: int, py: int|
                0 <= px < old(self).spec_width() && 0 <= py < old(self).spec_height()
                    ==> #[trigger] final(self).pixel(px, py) == (if rect.contains(px, py) {
                    bitmap.at(px - rect.x, py - rect.y)
                } else {
                    old(self).pixel(px, py)
                }),
    {
        let ghost start = self.pixels@;
        let ghost aw = self.width as int;
        let ghost ah = self.height as int;
        let stride: usize = self.width as usize;
        let coverage_len: usize = bitmap.coverage.len();
        let pixels_len: usize = self.pixels.len();
        let mut row: u32 = 0;
        while row < rect.h
            invariant
                self.width == old(self).width,
                self.height == old(self).height,
                self.slots@ == old(self).slots@,
                self.shelves@ == old(self).shelves@,
                self.top == old(self).top,
                start == old(self).pixels@,
                aw == self.width,
                ah == self.height,
                stride == aw,
                coverage_len == bitmap.coverage@.len(),
                pixels_len == start.len(),
                self.pixels@.len() == start.len(),
                start.len() == aw * ah,
                bitmap.wf(),
                rect.fits_in(aw, ah),
                rect.w == bitmap.width,
                rect.h == bitmap.height,
                0 <= row <= rect.h,
                forall|px: int, py: int|
                    0 <= px < aw && 0 <= py < ah ==> #[trigger] pixel_at(self.pixels@, aw, px, py)
                        == (if rect.contains(px, py) && py < rect.y + row {
                        bitmap.at(px - rect.x, py - rect.y)
                    } else {
                        pixel_at(start, aw, px, py)
                    }),
            decreases rect.h - row,
        {
            let mut col: u32 = 0;
            while col < rect.w
                invariant
                    self.width == old(self).width,
                    self.height == old(self).height,
                    self.slots@ == old(self).slots@,
                    self.shelves@ == old(self).shelves@,
                    self.top == old(self).top,
                    start == old(self).pixels@,
                    aw == self.width,
                    ah == self.height,
                    stride == aw,
                    coverage_len == bitmap.coverage@.len(),
                pixels_len == start.len(),
                    self.pixels@.len() == start.len(),
                    start.len() == aw * ah,
                    bitmap.wf(),
                    rect.fits_in(aw, ah),
                    rect.w == bitmap.width,
                    rect.h == bitmap.height,
                    0 <= row < rect.h,
                    0 <= col <= rect.w,
                    forall|px: int, py: int|
                        0 <= px < aw && 0 <= py < ah ==> #[trigger] pixel_at(
                            self.pixels@,
                            aw,
                            px,
                            py,
                        ) == (if rect.contains(px, py) && (py < rect.y + row || (py == rect.y
                            + row && px < rect.x + col)) {
                            bitmap.at(px - rect.x, py - rect.y)
                        } else {
                            pixel_at(start, aw, px, py)
                        }),
                decreases rect.w - col,
            {
                let ghost dx = rect.x + col;
                let ghost dy = rect.y + row;
                proof {
                    lemma_index_in_range(aw, ah, dx, dy);
                    lemma_index_in_range(rect.w as int, rect.h as int, col as int, row as int);
                }
                let src: usize = (row as usize) * (rect.w as usize) + (col as usize);
                let dst: usize = ((rect.y + row) as usize) * stride + ((rect.x + col) as usize);
                let ghost before = self.pixels@;
                let value: u8 = bitmap.coverage[src];
                self.pixels[dst] = value;
                proof {
                    assert(self.pixels@ == before.update(dst as int, value));
                    assert(value == bitmap.at(dx - rect.x, dy - rect.y));
                    assert forall|px: int, py: int| 0 <= px < aw && 0 <= py < ah implies #[trigger] pixel_at(
                        self.pixels@,
                        aw,
                        px,
                        py,
                    ) == (if rect.contains(px, py) && (py < rect.y + row || (py == rect.y + row
                        && px < rect.x + col + 1)) {
                        bitmap.at(px - rect.x, py - rect.y)
                    } else {
                        pixel_at(start, aw, px, py)
                    }) by {
                        lemma_index_unique(aw, px, py, dx, dy);
                        lemma_index_in_range(aw, ah, px, py);
                        if px == dx && py == dy {
                            assert(pixel_at(self.pixels@, aw, px, py) == value);
                        } else {
                            assert(py * aw + px != dst);
                            assert(pixel_at(self.pixels@, aw, px, py) == pixel_at(before, aw, px, py));
                        }
                    }
                }
                col += 1;
            }
            row += 1;
        }
        proof {
            assert forall|px: int, py: int|
                0 <= px < aw && 0 <= py < ah implies #[trigger] self.pixel(px, py) == (if rect.contains(px, py) {
                bitmap.at(px - rect.x, py - rect.y)
            } else {
                old(self).pixel(px, py)
            }) by {
                assert(pixel_at(self.pixels@, aw, px, py) == self.pixel(px, py));
            }
        }
    }
}

} // verus!

//! The per-frame text engine: runs are queued with their glyphs made
//! resident, then drained into draw calls.

use vstd::prelude::*;

use crate::atlas::{
    lemma_resident_rect_fits, lemma_resident_slots_disjoint, request_outcome, Atlas, AtlasError,
    GlyphBitmap, GlyphKey,
};
use crate::geometry::{rects_disjoint, AtlasRect, ScreenRect};
use crate::quad::{build_run_vertices, run_vertices, PositionedGlyph, Rgba, TextRun, Vertex};

verus! {

/// The width of the glyph atlas in pixels.
pub const ATLAS_WIDTH: u16 = 1000;

/// The height of the glyph atlas in pixels.
pub const ATLAS_HEIGHT: u16 = 1000;

/// A glyph as the font engine hands it over: its atlas key, the screen
/// rectangle of its pixel bounding box, and its rasterized coverage.
#[derive(Debug)]
pub struct GlyphRequest {
    pub key: GlyphKey,
    pub screen: ScreenRect,
    pub bitmap: GlyphBitmap,
}

/// What one frame asks of the renderer: whether the atlas pixels are to be
/// uploaded to the texture, and one vertex list per draw call, in order.
#[derive(Debug)]
pub struct FrameDraw {
    pub upload_atlas: bool,
    pub draws: Vec<Vec<Vertex>>,
}

/// The draw calls of a frame: the vertex list of each queued run, in queue
/// order, leaving out the runs that yield no vertex.
pub open spec fn frame_draws(
    runs: Seq<TextRun>,
    atlas: Atlas,
    screen_w: nat,
    screen_h: nat,
) -> Seq<Seq<Vertex>>
    decreases runs.len(),
{
    if runs.len() == 0 {
        Seq::empty()
    } else {
        let last = runs.last();
        let earlier = frame_draws(runs.drop_last(), atlas, screen_w, screen_h);
        let v = run_vertices(last.glyphs@, atlas, screen_w, screen_h, last.color);
        if v.len() == 0 {
            earlier
        } else {
            earlier.push(v)
        }
    }
}

/// The vertex lists of a frame's draw calls.
pub open spec fn draw_views(draws: Seq<Vec<Vertex>>) -> Seq<Seq<Vertex>> {
    draws.map_values(|d: Vec<Vertex>| d@)
}

/// The positioned glyphs of a list of requests, in order.
pub open spec fn positioned(requests: Seq<GlyphRequest>) -> Seq<PositionedGlyph> {
    requests.map_values(|q: GlyphRequest| PositionedGlyph { key: q.key, screen: q.screen })
}

/// `states` and `results` record one residency request per glyph of
/// `requests`, in order, leading from the atlas `start` to the atlas `end`.
pub open spec fn request_chain(
    start: Atlas,
    requests: Seq<GlyphRequest>,
    end: Atlas,
    states: Seq<Atlas>,
    results: Seq<Result<AtlasRect, AtlasError>>,
) -> bool {
    &&& states.len() == requests.len() + 1
    &&& results.len() == requests.len()
    &&& states[0] == start
    &&& states.last() == end
    &&& forall|i: int|
        0 <= i < requests.len() ==> #[trigger] request_outcome(
            states[i],
            requests[i].key,
            requests[i].bitmap,
            states[i + 1],
            results[i],
        )
}

/// The atlas went from `start` to `end` through one residency request per
/// glyph of `requests`, in order.
pub open spec fn requested_in_order(start: Atlas, requests: Seq<GlyphRequest>, end: Atlas) -> bool {
    exists|states: Seq<Atlas>, results: Seq<Result<AtlasRect, AtlasError>>|
        #[trigger] request_chain(start, requests, end, states, results)
}

/// `after` is `before` with every key of `requests` that was resident in
/// `before` pinned: no rectangle, pixel or shelf changes.
pub open spec fn pins_for(before: Atlas, requests: Seq<GlyphRequest>, after: Atlas) -> bool {
    &&& after.spec_width() == before.spec_width()
    &&& after.spec_height() == before.spec_height()
    &&& after.spec_top() == before.spec_top()
    &&& after.pixel_seq() == before.pixel_seq()
    &&& forall|k: GlyphKey| #[trigger] after.resident_rect(k) == before.resident_rect(k)
    &&& forall|k: GlyphKey| #[trigger] before.is_pinned(k) ==> after.is_pinned(k)
    &&& forall|i: int|
        0 <= i < requests.len() && before.is_resident(#[trigger] requests[i].key)
            ==> after.is_pinned(requests[i].key)
}

/// The atlas went from `start` to `end` by first pinning the keys of
/// `requests` that were resident, then through one residency request per
/// glyph of `requests`, in order.
pub open spec fn queued_after_pins(start: Atlas, requests: Seq<GlyphRequest>, end: Atlas) -> bool {
    exists|mid: Atlas| #[trigger] pins_for(start, requests, mid) && requested_in_order(mid, requests, end)
}

/// Every queued glyph whose key is resident holds a pin on it.
pub open spec fn queued_pinned(runs: Seq<TextRun>, atlas: Atlas) -> bool {
    forall|i: int, j: int|
        0 <= i < runs.len() && 0 <= j < runs[i].glyphs@.len() && #[trigger] atlas.is_resident(
            runs[i].glyphs@[j].key,
        ) ==> atlas.is_pinned(runs[i].glyphs@[j].key)
}

/// The text engine: a glyph atlas shared across frames, and the text runs
/// queued for the current frame.
pub struct DrawText {
    atlas: Atlas,
    texts: Vec<TextRun>,
}

impl DrawText {
    /// The glyph atlas.
    pub closed spec fn atlas_view(&self) -> Atlas {
        self.atlas
    }

    /// The runs queued for the current frame, in order.
    pub closed spec fn queued(&self) -> Seq<TextRun> {
        self.texts@
    }

    /// The atlas is well formed and of the default size, and every queued glyph that is resident is
    /// pinned, so that no eviction can move it before it is drawn.
    pub closed spec fn wf(&self) -> bool {
        &&& self.atlas.wf()
        &&& self.atlas.spec_width() == ATLAS_WIDTH
        &&& self.atlas.spec_height() == ATLAS_HEIGHT
        &&& queued_pinned(self.texts@, self.atlas)
    }

    /// What a well-formed engine holds: a well-formed, consistent atlas of the
    /// default size, and a pin on every queued glyph that is resident.
    pub proof fn lemma_engine_wf(d: &DrawText)
        requires
            d.wf(),
        ensures
            d.atlas_view().wf(),
            d.atlas_view().consistent(),
            d.atlas_view().spec_width() == ATLAS_WIDTH,
            d.atlas_view().spec_height() == ATLAS_HEIGHT,
            queued_pinned(d.queued(), d.atlas_view()),
    {
        lemma_resident_slots_disjoint(d.atlas);
    }

    /// An engine with an empty atlas of the default size and nothing queued.
    pub fn new() -> (r: DrawText)
        ensures
            r.wf(),
            r.queued().len() == 0,
            r.atlas_view().spec_width() == ATLAS_WIDTH,
            r.atlas_view().spec_height() == ATLAS_HEIGHT,
            r.atlas_view().slot_seq().len() == 0,
            r.atlas_view().consistent(),
            r.atlas_view().spec_top() == 0,
            forall|px: int, py: int|
                0 <= px < ATLAS_WIDTH && 0 <= py < ATLAS_HEIGHT ==> r.atlas_view().pixel(px, py) == 0,
    {
        let r = DrawText { atlas: Atlas::new(ATLAS_WIDTH, ATLAS_HEIGHT), texts: Vec::new() };
        proof {
            lemma_resident_slots_disjoint(r.atlas);
        }
        r
    }

    /// The glyph atlas, for uploading its pixels.
    pub fn atlas(&self) -> (r: &Atlas)
        ensures
            *r == self.atlas_view(),
    {
        &self.atlas
    }

    /// Queues one run of laid-out glyphs in `color`, and makes each glyph
    /// resident in the atlas right away, in order. A glyph that the atlas
    /// refuses stays in the run and is left out when the run is drawn.
    pub fn queue_text(&mut self, glyphs: Vec<GlyphRequest>, color: Rgba)
        requires
            old(self).wf(),
            forall|i: int| 0 <= i < glyphs@.len() ==> (#[trigger] glyphs@[i]).bitmap.wf(),
        ensures
            final(self).wf(),
            final(self).queued().len() == old(self).queued().len() + 1,
            forall|i: int|
                0 <= i < old(self).queued().len() ==> #[trigger] final(self).queued()[i] == old(
                    self,
                ).queued()[i],
            final(self).queued().last().glyphs@ == positioned(glyphs@),
            final(self).queued().last().color == color,
            queued_after_pins(old(self).atlas_view(), glyphs@, final(self).atlas_view()),
            // Live references survive: a key pinned before keeps its place.
            forall|k: GlyphKey|
                #[trigger] old(self).atlas_view().is_pinned(k) ==> final(self).atlas_view().resident_rect(
                    k,
                ) == old(self).atlas_view().resident_rect(k) && final(self).atlas_view().is_pinned(k),
            // A key of the run that was resident keeps its place and its pixels.
            forall|i: int|
                0 <= i < glyphs@.len() && old(self).atlas_view().is_resident(
                    #[trigger] glyphs@[i].key,
                ) ==> final(self).atlas_view().resident_rect(glyphs@[i].key) == old(
                    self,
                ).atlas_view().resident_rect(glyphs@[i].key),
            forall|i: int, px: int, py: int|
                0 <= i < glyphs@.len() && old(self).atlas_view().is_resident(#[trigger] glyphs@[i].key)
                    && old(self).atlas_view().resident_rect(glyphs@[i].key).unwrap().contains(px, py)
                    ==> #[trigger] final(self).atlas_view().pixel(px, py) == old(
                    self,
                ).atlas_view().pixel(px, py),
    {
        let ghost start = self.atlas;
        let mut p: usize = 0;
        while p < glyphs.len()
            invariant
                self.atlas.wf(),
                self.texts@ == old(self).texts@,
                start == old(self).atlas,
                queued_pinned(self.texts@, self.atlas),
                forall|k: int| 0 <= k < glyphs@.len() ==> (#[trigger] glyphs@[k]).bitmap.wf(),
                0 <= p <= glyphs@.len(),
                self.atlas.spec_width() == start.spec_width(),
                self.atlas.spec_height() == start.spec_height(),
                self.atlas.spec_top() == start.spec_top(),
                self.atlas.pixel_seq() == start.pixel_seq(),
                forall|k: GlyphKey| #[trigger] self.atlas.resident_rect(k) == start.resident_rect(k),
                forall|k: GlyphKey| #[trigger] start.is_pinned(k) ==> self.atlas.is_pinned(k),
                forall|i: int|
                    0 <= i < p && start.is_resident(#[trigger] glyphs@[i].key) ==> self.atlas.is_pinned(
                        glyphs@[i].key,
                    ),
            decreases glyphs@.len() - p,
        {
            let request = &glyphs[p];
            if self.atlas.lookup(request.key).is_some() {
                let ghost before = self.atlas;
                let _ = self.atlas.ensure_resident(request.key, &request.bitmap);
                proof {
                    let after = self.atlas;
                    assert(before.is_resident(request.key));
                    assert forall|a: int, b: int|
                        0 <= a < self.texts@.len() && 0 <= b < self.texts@[a].glyphs@.len()
                            && #[trigger] after.is_resident(self.texts@[a].glyphs@[b].key) implies after.is_pinned(
                        self.texts@[a].glyphs@[b].key,
                    ) by {
                        let k = self.texts@[a].glyphs@[b].key;
                        if k != request.key {
                            assert(after.resident_rect(k) == before.resident_rect(k));
                            assert(before.is_resident(k));
                        }
                    }
                    assert forall|i: int|
                        0 <= i < p + 1 && start.is_resident(#[trigger] glyphs@[i].key) implies after.is_pinned(
                        glyphs@[i].key,
                    ) by {
                        let k = glyphs@[i].key;
                        if k != request.key {
                            assert(after.resident_rect(k) == before.resident_rect(k));
                            assert(before.is_pinned(k));
                        }
                    }
                    assert forall|k: GlyphKey| #[trigger] start.is_pinned(k) implies after.is_pinned(k) by {
                        assert(before.is_pinned(k));
                    }
                }
            } else {
                proof {
                    assert(!start.is_resident(request.key));
                }
            }
            p += 1;
        }
        let ghost mid = self.atlas;
        proof {
            assert(pins_for(start, glyphs@, mid));
        }
        let ghost states: Seq<Atlas> = seq![self.atlas];
        let ghost results: Seq<Result<AtlasRect, AtlasError>> = Seq::empty();
        let mut placed: Vec<PositionedGlyph> = Vec::new();
        let mut i: usize = 0;
        while i < glyphs.len()
            invariant
                self.atlas.wf(),
                self.texts@ == old(self).texts@,
                queued_pinned(self.texts@, self.atlas),
                forall|k: int| 0 <= k < glyphs@.len() ==> (#[trigger] glyphs@[k]).bitmap.wf(),
                0 <= i <= glyphs@.len(),
                placed@ == positioned(glyphs@.subrange(0, i as int)),
                forall|k: int|
                    0 <= k < i && #[trigger] self.atlas.is_resident(glyphs@[k].key)
                        ==> self.atlas.is_pinned(glyphs@[k].key),
                states.len() == i + 1,
                results.len() == i,
                states[0] == mid,
                states.last() == self.atlas,
                start == old(self).atlas,
                start.wf(),
                self.atlas.spec_width() == start.spec_width(),
                self.atlas.spec_height() == start.spec_height(),
                pins_for(start, glyphs@, mid),
                forall|k: GlyphKey|
                    #[trigger] start.is_pinned(k) ==> self.atlas.resident_rect(k)
                        == start.resident_rect(k) && self.atlas.is_pinned(k),
                forall|j: int|
                    0 <= j < glyphs@.len() && start.is_resident(#[trigger] glyphs@[j].key)
                        ==> self.atlas.resident_rect(glyphs@[j].key) == start.resident_rect(
                        glyphs@[j].key,
                    ) && self.atlas.is_pinned(glyphs@[j].key),
                forall|j: int, px: int, py: int|
                    0 <= j < glyphs@.len() && start.is_resident(#[trigger] glyphs@[j].key)
                        && start.resident_rect(glyphs@[j].key).unwrap().contains(px, py)
                        ==> #[trigger] self.atlas.pixel(px, py) == start.pixel(px, py),
                forall|k: int|
                    0 <= k < i ==> #[trigger] request_outcome(
                        states[k],
                        glyphs@[k].key,
                        glyphs@[k].bitmap,
                        states[k + 1],
                        results[k],
                    ),
            decreases glyphs@.len() - i,
        {
            let request = &glyphs[i];
            let ghost before = self.atlas;
            let outcome = self.atlas.ensure_resident(request.key, &request.bitmap);
            placed.push(PositionedGlyph { key: request.key, screen: request.screen });
            proof {
                let after = self.atlas;
                let key = request.key;
                assert(request_outcome(before, key, request.bitmap, after, outcome));
                assert forall|a: int, b: int|
                    0 <= a < self.texts@.len() && 0 <= b < self.texts@[a].glyphs@.len()
                        && #[trigger] after.is_resident(self.texts@[a].glyphs@[b].key) implies after.is_pinned(
                    self.texts@[a].glyphs@[b].key,
                ) by {
                    let k = self.texts@[a].glyphs@[b].key;
                    if k != key {
                        assert(after.resident_rect(k) == before.resident_rect(k));
                        assert(before.is_resident(k));
                    }
                }
                assert forall|k: int|
                    0 <= k < i + 1 && #[trigger] after.is_resident(glyphs@[k].key) implies after.is_pinned(
                    glyphs@[k].key,
                ) by {
                    let kk = glyphs@[k].key;
                    if kk != key {
                        assert(after.resident_rect(kk) == before.resident_rect(kk));
                        assert(before.is_resident(kk));
                    }
                }
                assert forall|k: GlyphKey| #[trigger] start.is_pinned(k) implies after.resident_rect(k)
                    == start.resident_rect(k) && after.is_pinned(k) by {
                    assert(before.is_pinned(k));
                }
                assert forall|j: int|
                    0 <= j < glyphs@.len() && start.is_resident(#[trigger] glyphs@[j].key) implies after.resident_rect(
                    glyphs@[j].key,
                ) == start.resident_rect(glyphs@[j].key) && after.is_pinned(glyphs@[j].key) by {
                    assert(before.is_pinned(glyphs@[j].key));
                }
                assert forall|j: int, px: int, py: int|
                    0 <= j < glyphs@.len() && start.is_resident(#[trigger] glyphs@[j].key)
                        && start.resident_rect(glyphs@[j].key).unwrap().contains(px, py) implies #[trigger] after.pixel(
                    px,
                    py,
                ) == start.pixel(px, py) by {
                    let kj = glyphs@[j].key;
                    let rj = start.resident_rect(kj).unwrap();
                    assert(before.is_pinned(kj));
                    assert(before.pixel(px, py) == start.pixel(px, py));
                    lemma_resident_rect_fits(start, kj);
                    if !before.is_resident(key) {
                        if let Ok(rect) = outcome {
                            assert(kj != key);
                            assert(after.is_resident(kj));
                            assert(rects_disjoint(after.resident_rect(kj).unwrap(), rect));
                            assert(!rect.contains(px, py));
                        }
                    }
                }
                assert(positioned(glyphs@.subrange(0, i + 1)) =~= positioned(
                    glyphs@.subrange(0, i as int),
                ).push(PositionedGlyph { key: request.key, screen: request.screen }));
                states = states.push(after);
                results = results.push(outcome);
            }
            i += 1;
        }
        let ghost texts0 = self.texts@;
        self.texts.push(TextRun { glyphs: placed, color });
        proof {
            assert(glyphs@.subrange(0, glyphs@.len() as int) =~= glyphs@);
            assert(request_chain(mid, glyphs@, self.atlas, states, results));
            assert(pins_for(start, glyphs@, mid));
            let runs = self.texts@;
            assert forall|a: int, b: int|
                0 <= a < runs.len() && 0 <= b < runs[a].glyphs@.len() && #[trigger] self.atlas.is_resident(
                    runs[a].glyphs@[b].key,
                ) implies self.atlas.is_pinned(runs[a].glyphs@[b].key) by {
                if a == texts0.len() {
                    assert(runs[a].glyphs@[b].key == glyphs@[b].key);
                }
            }
        }
    }

    /// Turns the queued runs into the frame's draw calls for a `screen_w` by
    /// `screen_h` target, then empties the queue and releases the pins. An
    /// empty queue, or a target with no pixels, asks for no upload and no draw.
    pub fn draw_text(&mut self, screen_w: u32, screen_h: u32) -> (r: FrameDraw)
        requires
            old(self).wf(),
        ensures
            final(self).wf(),
            final(self).queued().len() == 0,
            r.upload_atlas == (old(self).queued().len() > 0 && screen_w > 0 && screen_h > 0),
            draw_views(r.draws@) == (if screen_w > 0 && screen_h > 0 {
                frame_draws(old(self).queued(), old(self).atlas_view(), screen_w as nat, screen_h as nat)
            } else {
                Seq::empty()
            }),
            old(self).queued().len() == 0 ==> r.draws@.len() == 0,
            final(self).atlas_view().pixel_seq() == old(self).atlas_view().pixel_seq(),
            final(self).atlas_view().spec_width() == old(self).atlas_view().spec_width(),
            final(self).atlas_view().spec_height() == old(self).atlas_view().spec_height(),
            final(self).atlas_view().spec_top() == old(self).atlas_view().spec_top(),
            !final(self).atlas_view().has_pinned(),
            forall|k: GlyphKey|
                #[trigger] final(self).atlas_view().resident_rect(k) == old(self).atlas_view().resident_rect(k),
    {
        let mut draws: Vec<Vec<Vertex>> = Vec::new();
        let upload_atlas = self.texts.len() > 0 && screen_w > 0 && screen_h > 0;
        if screen_w > 0 && screen_h > 0 {
            let mut i: usize = 0;
            while i < self.texts.len()
                invariant
                    self.wf(),
                    *self == *old(self),
                    0 <= i <= self.texts@.len(),
                    screen_w > 0,
                    screen_h > 0,
                    draw_views(draws@) == frame_draws(
                        self.texts@.subrange(0, i as int),
                        self.atlas,
                        screen_w as nat,
                        screen_h as nat,
                    ),
                decreases self.texts@.len() - i,
            {
                let run = &self.texts[i];
                let vertices = build_run_vertices(&run.glyphs, run.color, &self.atlas, screen_w, screen_h);
                let ghost draws0 = draws@;
                proof {
                    let sub = self.texts@.subrange(0, i + 1);
                    assert(sub.drop_last() =~= self.texts@.subrange(0, i as int));
                    assert(sub.last() == self.texts@[i as int]);
                }
                if vertices.len() > 0 {
                    draws.push(vertices);
                    proof {
                        assert(draw_views(draws@) =~= draw_views(draws0).push(vertices@));
                    }
                }
                i += 1;
            }
            proof {
                assert(self.texts@.subrange(0, self.texts@.len() as int) =~= self.texts@);
            }
        } else {
            proof {
                assert(draw_views(draws@) =~= Seq::<Seq<Vertex>>::empty());
            }
        }
        self.texts.clear();
        self.atlas.release_pins();
        proof {
            if old(self).texts@.len() == 0 {
                assert(old(self).texts@.subrange(0, 0) =~= old(self).texts@);
            }
        }
        FrameDraw { upload_atlas, draws }
    }
}

} // verus!

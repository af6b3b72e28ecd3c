//! The keyboard layout: an ordered list of regions bound to note
//! identities, the position-to-note lookup, and the note-to-hue mapping.

use crate::evdev::{Position, TouchState};
use crate::shape::Shape;
use vstd::arithmetic::div_mod::{
    lemma_fundamental_div_mod, lemma_fundamental_div_mod_converse,
    lemma_fundamental_div_mod_converse_mod, lemma_mod_multiples_basic, lemma_mod_multiples_vanish,
    lemma_mul_mod_noop_left,
};
use vstd::prelude::*;

verus! {

/// A note event for the sound collaborator: silence, or a note to play.
/// The payload is the note identity (69 = A4); the equal-tempered frequency
/// 440·2^((note−69)/12) is synthesized downstream, in floating point.
#[derive(Debug, Clone, Copy, PartialEq, Eq, Structural)]
pub enum NoteEvent {
    NoteOff,
    NoteOn(i32),
}

impl Default for NoteEvent {
    fn default() -> (r: NoteEvent)
        ensures
            r is NoteOff,
    {
        NoteEvent::NoteOff
    }
}

/// The note of the first region that contains the position, scanning in
/// construction order; `None` when no region matches.
pub open spec fn spec_resolve(regions: Seq<(Shape, i32)>, p: Position) -> Option<i32>
    decreases regions.len(),
{
    if regions.len() == 0 {
        None
    } else if regions[0].0.spec_contains(p) {
        Some(regions[0].1)
    } else {
        spec_resolve(regions.skip(1), p)
    }
}

/// What a touch position plays: the note of the first region containing it,
/// or silence when no region matches.
pub open spec fn spec_note_at(regions: Seq<(Shape, i32)>, p: Position) -> NoteEvent {
    match spec_resolve(regions, p) {
        Some(note) => NoteEvent::NoteOn(note),
        None => NoteEvent::NoteOff,
    }
}

/// Whether `regions` is the stripe layout that `Areas::new` builds: 30
/// consecutive rectangles of width `rect_size` at y = 1 with a tall fixed
/// height, bound to successive notes from `start` upward.
pub open spec fn is_stripe_layout(regions: Seq<(Shape, i32)>, rect_size: int, start: int) -> bool {
    &&& regions.len() == 30
    &&& forall|i: int|
        0 <= i < 30 ==> {
            let (sh, note) = #[trigger] regions[i];
            &&& sh matches Shape::Rectangle { x, y, width, height } && x as int == i * rect_size
                && y == 1 && width as int == rect_size && height == 10000
            &&& note as int == start + i
        }
}

/// An ordered keyboard layout: (region, note) bindings where the first
/// matching region wins, plus the device extent kept for the rendering
/// collaborator. Immutable once built.
#[derive(Clone)]
pub struct Areas {
    areas: Vec<(Shape, i32)>,
    touch_width: u32,
    touch_height: u32,
}

impl Areas {
    /// The (region, note) bindings, in construction order.
    pub closed spec fn regions(self) -> Seq<(Shape, i32)> {
        self.areas@
    }

    pub closed spec fn spec_touch_width(self) -> u32 {
        self.touch_width
    }

    pub closed spec fn spec_touch_height(self) -> u32 {
        self.touch_height
    }

    /// The (region, note) bindings in construction order, as the rendering
    /// collaborator reads them (read-only, no feedback into the core).
    pub fn bindings(&self) -> (r: &Vec<(Shape, i32)>)
        ensures
            r@ == self.regions(),
    {
        &self.areas
    }

    /// The device's coordinate extent, kept for the rendering collaborator.
    pub fn touch_extent(&self) -> (r: (u32, u32))
        ensures
            r.0 == self.spec_touch_width(),
            r.1 == self.spec_touch_height(),
    {
        (self.touch_width, self.touch_height)
    }

    /// Every region is geometrically valid (no degenerate parallelogram).
    pub open spec fn wf(self) -> bool {
        forall|i: int| 0 <= i < self.regions().len() ==> (#[trigger] self.regions()[i]).0.wf()
    }

    /// Builds the stripe layout: 30 consecutive, non-overlapping rectangles
    /// of the given width, starting at x = 0 and y = 1 with a tall fixed
    /// height, bound to successive notes from `start_midi_note` upward.
    pub fn new(touch_width: u32, touch_height: u32, rect_size: i32, start_midi_note: i32) -> (r:
        Areas)
        requires
            0 < rect_size,
            29 * (rect_size as int) <= i32::MAX as int,
            start_midi_note as int + 29 <= i32::MAX as int,
        ensures
            r.wf(),
            is_stripe_layout(r.regions(), rect_size as int, start_midi_note as int),
            r.spec_touch_width() == touch_width,
            r.spec_touch_height() == touch_height,
    {
        let mut areas: Vec<(Shape, i32)> = Vec::new();
        let mut i: i32 = 0;
        while i < 30
            invariant
                0 <= i <= 30,
                0 < rect_size,
                29 * (rect_size as int) <= i32::MAX as int,
                start_midi_note as int + 29 <= i32::MAX as int,
                areas@.len() == i as int,
                forall|j: int|
                    0 <= j < i as int ==> {
                        let (sh, note) = #[trigger] areas@[j];
                        &&& sh matches Shape::Rectangle { x, y, width, height } && x as int == j
                            * (rect_size as int) && y == 1 && width == rect_size && height == 10000
                        &&& note as int == start_midi_note as int + j
                    },
            decreases 30 - i,
        {
            proof {
                assert(0 <= i as int * (rect_size as int) <= 29 * (rect_size as int))
                    by (nonlinear_arith)
                    requires
                        0 <= i as int <= 29,
                        0 < rect_size as int,
                ;
            }
            let x = i * rect_size;
            areas.push(
                (
                    Shape::Rectangle { x, y: 1, width: rect_size, height: 10000 },
                    start_midi_note + i,
                ),
            );
            i = i + 1;
        }
        Areas { areas, touch_width, touch_height }
    }

    /// Scans the regions in construction order and returns the note bound to
    /// the first region containing the position.
    pub fn resolve(&self, position: Position) -> (r: Option<i32>)
        requires
            self.wf(),
        ensures
            r == spec_resolve(self.regions(), position),
    {
        let n = self.areas.len();
        let mut k: usize = 0;
        proof {
            assert(self.regions().skip(0) =~= self.regions());
        }
        while k < n
            invariant
                k <= n == self.regions().len(),
                self.wf(),
                spec_resolve(self.regions(), position) == spec_resolve(
                    self.regions().skip(k as int),
                    position,
                ),
            decreases n - k,
        {
            proof {
                assert(self.regions().skip(k as int)[0] == self.regions()[k as int]);
                assert(self.regions().skip(k as int).skip(1) =~= self.regions().skip(k as int + 1));
            }
            let contained = self.areas[k].0.contains(position);
            if contained {
                return Some(self.areas[k].1);
            }
            k = k + 1;
        }
        proof {
            assert(self.regions().skip(n as int) =~= Seq::<(Shape, i32)>::empty());
        }
        None
    }

    /// The note event a touch position produces: `NoteOn` with the resolved
    /// note, `NoteOff` when no region matches. The note's equal-tempered
    /// frequency is synthesized by the sound collaborator.
    pub fn frequency(&self, position: Position) -> (r: NoteEvent)
        requires
            self.wf(),
        ensures
            r == spec_note_at(self.regions(), position),
    {
        match self.resolve(position) {
            Some(note) => NoteEvent::NoteOn(note),
            None => NoteEvent::NoteOff,
        }
    }
}

/// The hue, in degrees, of a note's display color: chroma·30 + 240 at full
/// saturation and value, where chroma = (note·7) mod 12 steps through the
/// circle of fifths. Octave-equivalent notes share a hue; the HSV-to-RGB
/// conversion runs in the rendering collaborator.
pub open spec fn spec_color_hue(midi_note: int) -> int {
    (midi_note * 7) % 12 * 30 + 240
}

/// The hue of the color for a note, in degrees.
pub fn color_hue(midi_note: i32) -> (hue: u32)
    ensures
        hue as int == spec_color_hue(midi_note as int),
        240 <= hue <= 570,
{
    let ghost note = midi_note as int;
    let m: u32 = if midi_note >= 0 {
        (midi_note as u32) % 12
    } else {
        let neg = (-(midi_note as i64)) as u64;
        let r = (neg % 12) as u32;
        proof {
            lemma_fundamental_div_mod(neg as int, 12);
            if r == 0 {
                lemma_fundamental_div_mod_converse_mod(note, 12, -(neg as int / 12), 0);
            } else {
                lemma_fundamental_div_mod_converse_mod(
                    note,
                    12,
                    -(neg as int / 12) - 1,
                    12 - r as int,
                );
            }
        }
        if r == 0 {
            0
        } else {
            12 - r
        }
    };
    proof {
        assert(m as int == note % 12);
        lemma_mul_mod_noop_left(note, 7, 12);
    }
    let chroma = (m * 7) % 12;
    chroma * 30 + 240
}

/// Law: the color mapping has period 12, so octave-equivalent notes always
/// get the same hue.
pub proof fn lemma_color_period(midi_note: int)
    ensures
        spec_color_hue(midi_note + 12) == spec_color_hue(midi_note),
{
    assert((midi_note + 12) * 7 == 12 * 7 + midi_note * 7) by (nonlinear_arith);
    lemma_mod_multiples_vanish(7, midi_note * 7, 12);
}

/// Law: across any 12 consecutive notes the hues are pairwise distinct, so
/// the full 12-hue cycle is produced with no repeats short of the period.
pub proof fn lemma_hue_cycle_distinct(midi_note: int, i: int, j: int)
    requires
        0 <= i < j < 12,
    ensures
        spec_color_hue(midi_note + i) != spec_color_hue(midi_note + j),
{
    let a = midi_note * 7;
    assert((midi_note + i) * 7 == a + 7 * i) by (nonlinear_arith)
        requires
            a == midi_note * 7,
    ;
    assert((midi_note + j) * 7 == a + 7 * j) by (nonlinear_arith)
        requires
            a == midi_note * 7,
    ;
    if spec_color_hue(midi_note + i) == spec_color_hue(midi_note + j) {
        let ci = (a + 7 * i) % 12;
        let cj = (a + 7 * j) % 12;
        assert(ci == cj);
        lemma_fundamental_div_mod(a + 7 * i, 12);
        lemma_fundamental_div_mod(a + 7 * j, 12);
        let k = (a + 7 * j) / 12 - (a + 7 * i) / 12;
        assert(7 * (j - i) == k * 12);
        lemma_mod_multiples_basic(k, 12);
        assert((7 * (j - i)) % 12 == 0);
        let d = j - i;
        if d == 1 {
            assert(7 * d % 12 == 7);
        } else if d == 2 {
            assert(7 * d % 12 == 2);
        } else if d == 3 {
            assert(7 * d % 12 == 9);
        } else if d == 4 {
            assert(7 * d % 12 == 4);
        } else if d == 5 {
            assert(7 * d % 12 == 11);
        } else if d == 6 {
            assert(7 * d % 12 == 6);
        } else if d == 7 {
            assert(7 * d % 12 == 1);
        } else if d == 8 {
            assert(7 * d % 12 == 8);
        } else if d == 9 {
            assert(7 * d % 12 == 3);
        } else if d == 10 {
            assert(7 * d % 12 == 10);
        } else {
            assert(7 * d % 12 == 5);
        }
    }
}

proof fn lemma_resolve_stripes_from(
    regions: Seq<(Shape, i32)>,
    rect_size: int,
    start: int,
    p: Position,
    k: int,
)
    requires
        0 < rect_size,
        is_stripe_layout(regions, rect_size, start),
        0 <= k < 30,
        k * rect_size <= p.x as int,
        (p.x as int) < 30 * rect_size,
        1 <= p.y as int,
        (p.y as int) < 10001,
    ensures
        spec_resolve(regions.skip(k), p) matches Some(note) && note as int == start + p.x as int
            / rect_size,
    decreases 30 - k,
{
    let px = p.x as int;
    let (sh, note) = regions[k];
    assert(regions.skip(k)[0] == regions[k]);
    assert((k + 1) * rect_size == k * rect_size + rect_size) by (nonlinear_arith);
    if px < (k + 1) * rect_size {
        assert(sh.spec_contains(p));
        lemma_fundamental_div_mod_converse(px, rect_size, k, px - k * rect_size);
    } else {
        assert(!sh.spec_contains(p));
        assert(k + 1 < 30) by (nonlinear_arith)
            requires
                (k + 1) * rect_size <= px,
                px < 30 * rect_size,
                0 < rect_size,
        ;
        assert(regions.skip(k).skip(1) =~= regions.skip(k + 1));
        lemma_resolve_stripes_from(regions, rect_size, start, p, k + 1);
    }
}

/// Law: stripe boundaries are strict and the stripe width is configurable.
/// In the layout `Areas::new` builds, a position inside the keyboard's
/// extent resolves to exactly the note start + x/rect_size — so with width
/// 10, x = 9 still plays the first note and x = 10 already the second, and
/// with width 12 the boundary moves to x = 12.
pub proof fn lemma_resolve_stripes(
    regions: Seq<(Shape, i32)>,
    rect_size: int,
    start: int,
    p: Position,
)
    requires
        0 < rect_size,
        is_stripe_layout(regions, rect_size, start),
        0 <= p.x as int,
        (p.x as int) < 30 * rect_size,
        1 <= p.y as int,
        (p.y as int) < 10001,
    ensures
        spec_resolve(regions, p) matches Some(note) && note as int == start + p.x as int
            / rect_size,
{
    lemma_resolve_stripes_from(regions, rect_size, start, p, 0);
    assert(regions.skip(0) =~= regions);
}

/// What one touch state plays: `NoTouch` is silence; a touch plays the note
/// of the region it falls in, or silence outside every region.
pub open spec fn spec_note_event(regions: Seq<(Shape, i32)>, ts: TouchState<Position>) -> NoteEvent {
    match ts {
        TouchState::NoTouch => NoteEvent::NoteOff,
        TouchState::Touch(p) => spec_note_at(regions, p),
    }
}

/// Combines a per-slot touch-state sequence with an Areas lookup into the
/// stream of note events handed to the sound collaborator. The mapping is
/// stateless per touch state: repeated touches in one region repeat
/// `NoteOn`; edge detection is the consumer's concern.
pub struct Frequencies {
    areas: Areas,
    touches: Vec<TouchState<Position>>,
    pos: usize,
}

impl Frequencies {
    /// The touch states not yet turned into note events.
    pub closed spec fn remaining(self) -> Seq<TouchState<Position>> {
        self.touches@.skip(self.pos as int)
    }

    /// The layout the stream resolves positions against.
    pub closed spec fn layout(self) -> Seq<(Shape, i32)> {
        self.areas.regions()
    }

    pub closed spec fn wf(self) -> bool {
        self.areas.wf() && self.pos <= self.touches@.len()
    }

    pub fn new(areas: Areas, touches: Vec<TouchState<Position>>) -> (r: Frequencies)
        requires
            areas.wf(),
        ensures
            r.wf(),
            r.remaining() == touches@,
            r.layout() == areas.regions(),
    {
        let r = Frequencies { areas, touches, pos: 0 };
        proof {
            assert(r.remaining() =~= r.touches@);
        }
        r
    }

    /// The note event of the next touch state, or `None` at stream end.
    pub fn next(&mut self) -> (r: Option<NoteEvent>)
        requires
            old(self).wf(),
        ensures
            final(self).wf(),
            final(self).layout() == old(self).layout(),
            match r {
                None => old(self).remaining().len() == 0 && final(self).remaining().len() == 0,
                Some(ev) => old(self).remaining().len() > 0 && final(self).remaining() == old(
                    self,
                ).remaining().skip(1) && ev == spec_note_event(
                    old(self).layout(),
                    old(self).remaining()[0],
                ),
            },
    {
        if self.pos < self.touches.len() {
            let ts = self.touches[self.pos];
            proof {
                assert(old(self).remaining()[0] == self.touches@[self.pos as int]);
                assert(self.touches@.skip(self.pos as int + 1) =~= old(self).remaining().skip(1));
            }
            self.pos = self.pos + 1;
            match ts {
                TouchState::NoTouch => Some(NoteEvent::NoteOff),
                TouchState::Touch(position) => Some(self.areas.frequency(position)),
            }
        } else {
            None
        }
    }
}

} // verus!

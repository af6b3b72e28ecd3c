//! The wire protocol of a multi-touch input device: primitive events, the
//! grouping of events into frames, and the per-slot touch tracker.

use vstd::prelude::*;

verus! {

/// The class of a primitive input event, as the device reports it.
#[derive(Debug, Clone, Copy, PartialEq, Eq, Structural)]
pub enum EventType {
    EvSyn,
    EvAbs,
    EvOther,
}

/// The code of a primitive input event, narrowed to the codes this core
/// reads; every other code is `CodeOther`.
#[derive(Debug, Clone, Copy, PartialEq, Eq, Structural)]
pub enum EventCode {
    SynReport,
    SynDropped,
    AbsMtSlot,
    AbsMtPositionX,
    AbsMtPositionY,
    AbsMtTrackingId,
    CodeOther,
}

/// One primitive input event: a (type, code, value) triple.
#[derive(Debug, Clone, Copy, PartialEq, Eq, Structural)]
pub struct InputEvent {
    pub event_type: EventType,
    pub event_code: EventCode,
    pub value: i32,
}

/// An integer device-space coordinate pair.
#[derive(Debug, Clone, Copy, PartialEq, Eq, Structural)]
pub struct Position {
    pub x: i32,
    pub y: i32,
}

/// The numeric event-type codes of the input device's wire protocol.
pub const EV_SYN_RAW: u16 = 0;

pub const EV_ABS_RAW: u16 = 3;

/// The numeric event codes this core reads, in their type's namespace.
pub const SYN_REPORT_RAW: u16 = 0;

pub const SYN_DROPPED_RAW: u16 = 3;

pub const ABS_MT_SLOT_RAW: u16 = 47;

pub const ABS_MT_POSITION_X_RAW: u16 = 53;

pub const ABS_MT_POSITION_Y_RAW: u16 = 54;

pub const ABS_MT_TRACKING_ID_RAW: u16 = 57;

/// The decoding of a raw (type, code, value) triple: the code is read in the
/// namespace of its type, and unknown types and codes are narrowed to the
/// catch-all variants.
pub open spec fn spec_from_raw(event_type: u16, code: u16, value: i32) -> InputEvent {
    let t = if event_type == EV_SYN_RAW {
        EventType::EvSyn
    } else if event_type == EV_ABS_RAW {
        EventType::EvAbs
    } else {
        EventType::EvOther
    };
    let c = if event_type == EV_SYN_RAW {
        if code == SYN_REPORT_RAW {
            EventCode::SynReport
        } else if code == SYN_DROPPED_RAW {
            EventCode::SynDropped
        } else {
            EventCode::CodeOther
        }
    } else if event_type == EV_ABS_RAW {
        if code == ABS_MT_SLOT_RAW {
            EventCode::AbsMtSlot
        } else if code == ABS_MT_POSITION_X_RAW {
            EventCode::AbsMtPositionX
        } else if code == ABS_MT_POSITION_Y_RAW {
            EventCode::AbsMtPositionY
        } else if code == ABS_MT_TRACKING_ID_RAW {
            EventCode::AbsMtTrackingId
        } else {
            EventCode::CodeOther
        }
    } else {
        EventCode::CodeOther
    };
    InputEvent { event_type: t, event_code: c, value }
}

impl InputEvent {
    /// Decodes one raw (type, code, value) triple from the device's wire
    /// protocol into the event model.
    pub fn from_raw(event_type: u16, code: u16, value: i32) -> (r: InputEvent)
        ensures
            r == spec_from_raw(event_type, code, value),
    {
        let t = if event_type == EV_SYN_RAW {
            EventType::EvSyn
        } else if event_type == EV_ABS_RAW {
            EventType::EvAbs
        } else {
            EventType::EvOther
        };
        let c = if event_type == EV_SYN_RAW {
            if code == SYN_REPORT_RAW {
                EventCode::SynReport
            } else if code == SYN_DROPPED_RAW {
                EventCode::SynDropped
            } else {
                EventCode::CodeOther
            }
        } else if event_type == EV_ABS_RAW {
            if code == ABS_MT_SLOT_RAW {
                EventCode::AbsMtSlot
            } else if code == ABS_MT_POSITION_X_RAW {
                EventCode::AbsMtPositionX
            } else if code == ABS_MT_POSITION_Y_RAW {
                EventCode::AbsMtPositionY
            } else if code == ABS_MT_TRACKING_ID_RAW {
                EventCode::AbsMtTrackingId
            } else {
                EventCode::CodeOther
            }
        } else {
            EventCode::CodeOther
        };
        InputEvent { event_type: t, event_code: c, value }
    }
}

/// A frame-boundary marker closes the current frame.
pub open spec fn is_syn_report(event: InputEvent) -> bool {
    event.event_type is EvSyn && event.event_code is SynReport
}

/// A frame-drop marker signals lost events; it never enters a frame.
pub open spec fn is_syn_dropped(event: InputEvent) -> bool {
    event.event_type is EvSyn && event.event_code is SynDropped
}

pub fn is_syn_report_event(event: &InputEvent) -> (r: bool)
    ensures
        r == is_syn_report(*event),
{
    match event.event_type {
        EventType::EvSyn => match event.event_code {
            EventCode::SynReport => true,
            _ => false,
        },
        _ => false,
    }
}

pub fn is_syn_dropped_event(event: &InputEvent) -> (r: bool)
    ensures
        r == is_syn_dropped(*event),
{
    match event.event_type {
        EventType::EvSyn => match event.event_code {
            EventCode::SynDropped => true,
            _ => false,
        },
        _ => false,
    }
}

/// The events of one frame: the input with the frame-drop markers removed.
pub open spec fn frame_events(s: Seq<InputEvent>) -> Seq<InputEvent>
    decreases s.len(),
{
    if s.len() == 0 {
        Seq::empty()
    } else if is_syn_dropped(s.last()) {
        frame_events(s.drop_last())
    } else {
        frame_events(s.drop_last()).push(s.last())
    }
}

pub proof fn lemma_frame_events_push(s: Seq<InputEvent>, e: InputEvent)
    ensures
        !is_syn_dropped(e) ==> frame_events(s.push(e)) == frame_events(s).push(e),
        is_syn_dropped(e) ==> frame_events(s.push(e)) == frame_events(s),
{
    assert(s.push(e).drop_last() =~= s);
    assert(s.push(e).last() == e);
}

/// The index of the first frame-boundary marker, or the length if there is
/// none.
pub open spec fn first_report_index(s: Seq<InputEvent>) -> int
    decreases s.len(),
{
    if s.len() == 0 {
        0
    } else if is_syn_report(s[0]) {
        0
    } else {
        1 + first_report_index(s.skip(1))
    }
}

pub proof fn lemma_first_report_index(s: Seq<InputEvent>)
    ensures
        0 <= first_report_index(s) <= s.len(),
        first_report_index(s) < s.len() ==> is_syn_report(s[first_report_index(s)]),
        forall|j: int| 0 <= j < first_report_index(s) ==> !is_syn_report(s[j]),
    decreases s.len(),
{
    if s.len() == 0 {
    } else if is_syn_report(s[0]) {
    } else {
        lemma_first_report_index(s.skip(1));
        assert forall|j: int| 0 <= j < first_report_index(s) implies !is_syn_report(s[j]) by {
            if j > 0 {
                assert(s.skip(1)[j - 1] == s[j]);
            }
        }
    }
}

/// A scan that saw no boundary marker before index `n`, and one at `n` unless
/// the stream ended there, has found `first_report_index`.
pub proof fn lemma_first_report_index_is(s: Seq<InputEvent>, n: int)
    requires
        0 <= n <= s.len(),
        forall|j: int| 0 <= j < n ==> !is_syn_report(s[j]),
        n < s.len() ==> is_syn_report(s[n]),
    ensures
        first_report_index(s) == n,
    decreases s.len(),
{
    if s.len() == 0 {
    } else if is_syn_report(s[0]) {
        assert(n == 0);
    } else {
        assert(n >= 1);
        assert forall|j: int| 0 <= j < n - 1 implies !is_syn_report(s.skip(1)[j]) by {
            assert(s.skip(1)[j] == s[j + 1]);
        }
        assert(n - 1 < s.skip(1).len() ==> is_syn_report(s.skip(1)[n - 1]));
        lemma_first_report_index_is(s.skip(1), n - 1);
    }
}

/// The frames of an event stream: each boundary marker closes one frame
/// (possibly empty); a trailing unterminated frame is kept only if it still
/// holds an event once the drop markers are removed.
pub open spec fn frames(s: Seq<InputEvent>) -> Seq<Seq<InputEvent>>
    decreases s.len(),
    via frames_decreases
{
    if s.len() == 0 {
        Seq::empty()
    } else {
        let i = first_report_index(s);
        if i < s.len() {
            seq![frame_events(s.take(i))] + frames(s.skip(i + 1))
        } else {
            let f = frame_events(s);
            if f.len() == 0 {
                Seq::empty()
            } else {
                seq![f]
            }
        }
    }
}

#[via_fn]
proof fn frames_decreases(s: Seq<InputEvent>) {
    lemma_first_report_index(s);
}

/// Groups a finite stream of primitive events into frames, one frame per
/// boundary marker, flushing a non-empty trailing frame once at stream end.
pub struct SynChunkSource {
    events: Vec<InputEvent>,
    pos: usize,
}

impl SynChunkSource {
    /// The events not yet folded into an emitted frame.
    pub closed spec fn remaining(self) -> Seq<InputEvent> {
        self.events@.skip(self.pos as int)
    }

    pub closed spec fn wf(self) -> bool {
        self.pos <= self.events@.len()
    }

    pub fn new(input_events: Vec<InputEvent>) -> (r: SynChunkSource)
        ensures
            r.wf(),
            r.remaining() == input_events@,
    {
        let r = SynChunkSource { events: input_events, pos: 0 };
        proof {
            assert(r.remaining() =~= r.events@);
        }
        r
    }

    /// Emits the next frame, or `None` once the stream is exhausted.
    pub fn next(&mut self) -> (r: Option<Vec<InputEvent>>)
        requires
            old(self).wf(),
        ensures
            final(self).wf(),
            match r {
                None => frames(old(self).remaining()).len() == 0 && frames(
                    final(self).remaining(),
                ).len() == 0,
                Some(chunk) => frames(old(self).remaining()).len() > 0 && chunk@ == frames(
                    old(self).remaining(),
                )[0] && frames(final(self).remaining()) == frames(old(self).remaining()).skip(1),
            },
    {
        let ghost ev0 = self.events@;
        let ghost p0 = self.pos as int;
        let ghost s0 = self.remaining();
        let mut result: Vec<InputEvent> = Vec::new();
        loop
            invariant
                ev0 == old(self).events@,
                p0 == old(self).pos as int,
                s0 == old(self).remaining(),
                self.events@ == ev0,
                0 <= p0 <= self.pos as int <= ev0.len(),
                s0 == ev0.skip(p0),
                forall|j: int| p0 <= j < self.pos as int ==> !is_syn_report(ev0[j]),
                result@ == frame_events(ev0.subrange(p0, self.pos as int)),
            decreases ev0.len() - self.pos as int,
        {
            let ghost rel = self.pos as int - p0;
            if self.pos == self.events.len() {
                proof {
                    assert(s0 =~= ev0.subrange(p0, self.pos as int));
                    assert forall|j: int| 0 <= j < s0.len() implies !is_syn_report(s0[j]) by {
                        assert(s0[j] == ev0[p0 + j]);
                    }
                    lemma_first_report_index_is(s0, s0.len() as int);
                    assert(self.remaining() =~= Seq::<InputEvent>::empty());
                }
                if result.len() == 0 {
                    return None;
                } else {
                    proof {
                        assert(frames(s0) =~= seq![result@]);
                        assert(frames(self.remaining()) =~= frames(s0).skip(1));
                    }
                    return Some(result);
                }
            }
            let event = self.events[self.pos];
            self.pos = self.pos + 1;
            proof {
                assert(event == ev0[p0 + rel]);
                assert(ev0.subrange(p0, p0 + rel + 1) =~= ev0.subrange(p0, p0 + rel).push(event));
                lemma_frame_events_push(ev0.subrange(p0, p0 + rel), event);
            }
            if is_syn_dropped_event(&event) {
                // a frame-drop marker signals data loss; it never enters the
                // frame and does not end it
            } else if is_syn_report_event(&event) {
                proof {
                    assert forall|j: int| 0 <= j < rel implies !is_syn_report(s0[j]) by {
                        assert(s0[j] == ev0[p0 + j]);
                    }
                    assert(s0[rel] == event);
                    lemma_first_report_index_is(s0, rel);
                    assert(s0.take(rel) =~= ev0.subrange(p0, p0 + rel));
                    assert(result@ == frames(s0)[0]);
                    assert(self.remaining() =~= s0.skip(rel + 1));
                    assert(frames(self.remaining()) =~= frames(s0).skip(1));
                }
                return Some(result);
            } else {
                result.push(event);
            }
        }
    }
}

/// A two-variant touch value: no touch, or a touch carrying a payload (a
/// position, or downstream a note).
#[derive(Debug, Clone, Copy, PartialEq, Eq, Structural)]
pub enum TouchState<T> {
    NoTouch,
    Touch(T),
}

impl<T> Default for TouchState<T> {
    fn default() -> (r: TouchState<T>)
        ensures
            r is NoTouch,
    {
        TouchState::NoTouch
    }
}

impl<T> TouchState<T> {
    /// The first touch among the given states, or `NoTouch` when none is a
    /// touch.
    pub open spec fn spec_first_touch(states: Seq<TouchState<T>>) -> TouchState<T>
        decreases states.len(),
    {
        if states.len() == 0 {
            TouchState::NoTouch
        } else if states[0] is Touch {
            states[0]
        } else {
            Self::spec_first_touch(states.skip(1))
        }
    }

    pub fn get_first(states: &Vec<TouchState<T>>) -> (r: &TouchState<T>)
        ensures
            *r == Self::spec_first_touch(states@),
    {
        let n = states.len();
        let mut i: usize = 0;
        proof {
            assert(states@.skip(0) =~= states@);
        }
        while i < n
            invariant
                i <= n == states@.len(),
                Self::spec_first_touch(states@) == Self::spec_first_touch(states@.skip(i as int)),
                forall|j: int| 0 <= j < i ==> !(states@[j] is Touch),
            decreases n - i,
        {
            let element = &states[i];
            proof {
                assert(states@.skip(i as int)[0] == states@[i as int]);
                assert(states@.skip(i as int).skip(1) =~= states@.skip(i as int + 1));
            }
            if let TouchState::Touch(_) = element {
                return element;
            }
            i = i + 1;
        }
        proof {
            assert(states@.skip(n as int) =~= Seq::<TouchState<T>>::empty());
        }
        &TouchState::NoTouch
    }
}

/// The persistent state of one touch slot: the last known position, and
/// whether the slot currently reports a touch. The position persists across
/// frames and releases; only a new coordinate update overwrites it.
#[derive(Debug, Clone, Copy, PartialEq, Eq, Structural)]
pub struct SlotState {
    pub position: Position,
    pub btn_touch: bool,
}

/// One value per tracked touch slot; a snapshot always holds exactly 10.
pub type Slots<T> = Vec<T>;

/// Applies `f` to each of the 10 slots of a snapshot.
pub fn slot_map<T, U, F: Fn(&T) -> U>(input: &Slots<T>, f: F) -> (r: Slots<U>)
    requires
        input@.len() == 10,
        forall|i: int| 0 <= i < 10 ==> f.requires((&input@[i],)),
    ensures
        r@.len() == 10,
        forall|i: int| 0 <= i < 10 ==> f.ensures((&input@[i],), #[trigger] r@[i]),
{
    let mut result: Vec<U> = Vec::new();
    let mut i: usize = 0;
    while i < 10
        invariant
            i <= 10,
            input@.len() == 10,
            result@.len() == i,
            forall|j: int| 0 <= j < 10 ==> f.requires((&input@[j],)),
            forall|j: int| 0 <= j < i ==> f.ensures((&input@[j],), #[trigger] result@[j]),
        decreases 10 - i,
    {
        let u = f(&input[i]);
        result.push(u);
        i = i + 1;
    }
    result
}

/// How one event changes the slot states and the active-slot cursor:
/// a slot-select in range moves the cursor (out of range is ignored), a
/// coordinate event overwrites one axis of the active slot, a tracking-id
/// event sets or clears the active slot's presence, everything else is
/// ignored.
pub open spec fn step_slots(slots: Seq<SlotState>, active: int, e: InputEvent) -> (
    Seq<SlotState>,
    int,
) {
    if e.event_type is EvAbs {
        match e.event_code {
            EventCode::AbsMtSlot => {
                if 0 <= e.value as int && (e.value as int) < slots.len() as int {
                    (slots, e.value as int)
                } else {
                    (slots, active)
                }
            },
            EventCode::AbsMtPositionX => {
                let s = slots[active];
                (
                    slots.update(
                        active,
                        SlotState {
                            position: Position { x: e.value, y: s.position.y },
                            btn_touch: s.btn_touch,
                        },
                    ),
                    active,
                )
            },
            EventCode::AbsMtPositionY => {
                let s = slots[active];
                (
                    slots.update(
                        active,
                        SlotState {
                            position: Position { x: s.position.x, y: e.value },
                            btn_touch: s.btn_touch,
                        },
                    ),
                    active,
                )
            },
            EventCode::AbsMtTrackingId => {
                let s = slots[active];
                (slots.update(active, SlotState { position: s.position, btn_touch: e.value != -1 }), active)
            },
            _ => (slots, active),
        }
    } else {
        (slots, active)
    }
}

/// Folds a frame's events into the slot states, strictly in event order.
pub open spec fn fold_frame(slots: Seq<SlotState>, active: int, events: Seq<InputEvent>) -> (
    Seq<SlotState>,
    int,
)
    decreases events.len(),
{
    if events.len() == 0 {
        (slots, active)
    } else {
        let (s1, a1) = step_slots(slots, active, events[0]);
        fold_frame(s1, a1, events.skip(1))
    }
}

pub proof fn lemma_fold_frame_push(
    slots: Seq<SlotState>,
    active: int,
    events: Seq<InputEvent>,
    e: InputEvent,
)
    ensures
        ({
            let (s1, a1) = fold_frame(slots, active, events);
            fold_frame(slots, active, events.push(e)) == step_slots(s1, a1, e)
        }),
    decreases events.len(),
{
    let se = events.push(e);
    if events.len() == 0 {
        assert(se[0] == e);
        assert(se.skip(1) =~= Seq::<InputEvent>::empty());
        let (t1, b1) = step_slots(slots, active, e);
        assert(fold_frame(t1, b1, Seq::<InputEvent>::empty()) == (t1, b1));
        assert(fold_frame(slots, active, se) == (t1, b1));
    } else {
        assert(se[0] == events[0]);
        assert(se.skip(1) =~= events.skip(1).push(e));
        let (s1, a1) = step_slots(slots, active, events[0]);
        lemma_fold_frame_push(s1, a1, events.skip(1), e);
        assert(fold_frame(slots, active, se) == fold_frame(s1, a1, events.skip(1).push(e)));
        assert(fold_frame(slots, active, events) == fold_frame(s1, a1, events.skip(1)));
    }
}

/// Whether folding `events` from the state (slots, active) ever processes an
/// event of code `code` while slot `i` is the active slot — that is, whether
/// any such event is addressed to slot `i`.
pub open spec fn frame_addresses_slot(
    slots: Seq<SlotState>,
    active: int,
    events: Seq<InputEvent>,
    i: int,
    code: EventCode,
) -> bool
    decreases events.len(),
{
    if events.len() == 0 {
        false
    } else {
        let e = events[0];
        let (s1, a1) = step_slots(slots, active, e);
        (e.event_type is EvAbs && e.event_code == code && active == i) || frame_addresses_slot(
            s1,
            a1,
            events.skip(1),
            i,
            code,
        )
    }
}

/// Law: an out-of-range slot select is silently ignored — it changes
/// neither the active-slot cursor nor any slot's state.
pub proof fn lemma_out_of_range_select(slots: Seq<SlotState>, active: int, e: InputEvent)
    requires
        e.event_type is EvAbs,
        e.event_code is AbsMtSlot,
        !(0 <= e.value as int && (e.value as int) < slots.len() as int),
    ensures
        step_slots(slots, active, e) == (slots, active),
{
}

/// Law: folding a frame keeps the slot count and keeps the active-slot
/// cursor in range.
pub proof fn lemma_fold_frame_wf(slots: Seq<SlotState>, active: int, events: Seq<InputEvent>)
    requires
        0 <= active < slots.len(),
    ensures
        ({
            let (s1, a1) = fold_frame(slots, active, events);
            s1.len() == slots.len() && 0 <= a1 < s1.len()
        }),
    decreases events.len(),
{
    if events.len() == 0 {
    } else {
        let (s1, a1) = step_slots(slots, active, events[0]);
        lemma_fold_frame_wf(s1, a1, events.skip(1));
    }
}

/// Law: per-slot, per-field persistence. A slot's x-coordinate changes only
/// through a position-x event addressed to it, its y-coordinate only through
/// a position-y event addressed to it, and its presence only through a
/// tracking-id event addressed to it; anything else — updates to other
/// slots, slot selects, out-of-range selects, unknown events — leaves the
/// field exactly as it was, however frames are interleaved.
pub proof fn lemma_fold_frame_persistence(
    slots: Seq<SlotState>,
    active: int,
    events: Seq<InputEvent>,
    i: int,
)
    requires
        0 <= i < slots.len(),
        0 <= active < slots.len(),
    ensures
        ({
            let (s1, a1) = fold_frame(slots, active, events);
            &&& s1.len() == slots.len()
            &&& !frame_addresses_slot(slots, active, events, i, EventCode::AbsMtPositionX)
                ==> s1[i].position.x == slots[i].position.x
            &&& !frame_addresses_slot(slots, active, events, i, EventCode::AbsMtPositionY)
                ==> s1[i].position.y == slots[i].position.y
            &&& !frame_addresses_slot(slots, active, events, i, EventCode::AbsMtTrackingId)
                ==> s1[i].btn_touch == slots[i].btn_touch
        }),
    decreases events.len(),
{
    if events.len() == 0 {
    } else {
        let (s1, a1) = step_slots(slots, active, events[0]);
        lemma_fold_frame_persistence(s1, a1, events.skip(1), i);
    }
}

/// Law: slot isolation. A frame in which no position or tracking-id event is
/// addressed to slot `i` leaves slot `i`'s state — and so its reported
/// snapshot — unchanged, whatever it does to other slots.
pub proof fn lemma_fold_frame_slot_isolation(
    slots: Seq<SlotState>,
    active: int,
    events: Seq<InputEvent>,
    i: int,
)
    requires
        0 <= i < slots.len(),
        0 <= active < slots.len(),
        !frame_addresses_slot(slots, active, events, i, EventCode::AbsMtPositionX),
        !frame_addresses_slot(slots, active, events, i, EventCode::AbsMtPositionY),
        !frame_addresses_slot(slots, active, events, i, EventCode::AbsMtTrackingId),
    ensures
        ({
            let (s1, a1) = fold_frame(slots, active, events);
            s1.len() == slots.len() && s1[i] == slots[i] && snapshot_of(s1)[i] == snapshot_of(
                slots,
            )[i]
        }),
{
    lemma_fold_frame_persistence(slots, active, events, i);
    let (s1, a1) = fold_frame(slots, active, events);
    assert(s1[i] == slots[i]);
}

/// What the tracker reports of a slot: its position while it touches,
/// `NoTouch` otherwise.
pub open spec fn snapshot_of(slots: Seq<SlotState>) -> Seq<TouchState<Position>> {
    slots.map_values(
        |s: SlotState|
            if s.btn_touch {
                TouchState::Touch(s.position)
            } else {
                TouchState::NoTouch
            },
    )
}

/// Consumes frames and maintains the persistent state of 10 independent
/// touch slots, emitting one snapshot of all 10 slots per frame.
pub struct PositionSource {
    syn_chunk_source: SynChunkSource,
    slots: Slots<SlotState>,
    slot_active: usize,
}

impl PositionSource {
    /// The events not yet folded into an emitted snapshot.
    pub closed spec fn remaining(self) -> Seq<InputEvent> {
        self.syn_chunk_source.remaining()
    }

    pub closed spec fn slots_view(self) -> Seq<SlotState> {
        self.slots@
    }

    pub closed spec fn active_view(self) -> int {
        self.slot_active as int
    }

    pub closed spec fn wf(self) -> bool {
        self.syn_chunk_source.wf() && self.slots@.len() == 10 && self.slot_active < 10
    }

    /// A fresh tracker over a finite event stream: all 10 slots inactive at
    /// position (0, 0), slot 0 assumed active before any slot-select event.
    pub fn new_from_iterator(input_events: Vec<InputEvent>) -> (r: PositionSource)
        ensures
            r.wf(),
            r.remaining() == input_events@,
            r.active_view() == 0,
            r.slots_view().len() == 10,
            forall|i: int|
                0 <= i < 10 ==> r.slots_view()[i] == (SlotState {
                    position: Position { x: 0, y: 0 },
                    btn_touch: false,
                }),
    {
        let mut slots: Vec<SlotState> = Vec::new();
        let mut i: usize = 0;
        while i < 10
            invariant
                i <= 10,
                slots@.len() == i,
                forall|j: int|
                    0 <= j < i ==> slots@[j] == (SlotState {
                        position: Position { x: 0, y: 0 },
                        btn_touch: false,
                    }),
            decreases 10 - i,
        {
            slots.push(SlotState { position: Position { x: 0, y: 0 }, btn_touch: false });
            i = i + 1;
        }
        PositionSource { syn_chunk_source: SynChunkSource::new(input_events), slots, slot_active: 0 }
    }

    /// Folds one frame's events, in order, into the slot states, and reports
    /// the snapshot of all 10 slots.
    pub fn apply_frame(&mut self, frame: &Vec<InputEvent>) -> (snapshot: Slots<
        TouchState<Position>,
    >)
        requires
            old(self).wf(),
        ensures
            final(self).wf(),
            final(self).remaining() == old(self).remaining(),
            (final(self).slots_view(), final(self).active_view()) == fold_frame(
                old(self).slots_view(),
                old(self).active_view(),
                frame@,
            ),
            snapshot@ == snapshot_of(final(self).slots_view()),
            snapshot@.len() == 10,
    {
        let n = frame.len();
        let mut k: usize = 0;
        while k < n
            invariant
                self.syn_chunk_source == old(self).syn_chunk_source,
                self.slots@.len() == 10,
                self.slot_active < 10,
                k <= n == frame@.len(),
                (self.slots@, self.slot_active as int) == fold_frame(
                    old(self).slots@,
                    old(self).slot_active as int,
                    frame@.take(k as int),
                ),
                old(self).wf(),
            decreases n - k,
        {
            let event = frame[k];
            proof {
                assert(frame@.take(k as int + 1) =~= frame@.take(k as int).push(event));
                lemma_fold_frame_push(
                    old(self).slots@,
                    old(self).slot_active as int,
                    frame@.take(k as int),
                    event,
                );
            }
            match event.event_type {
                EventType::EvAbs => match event.event_code {
                    EventCode::AbsMtSlot => {
                        if 0 <= event.value && (event.value as usize) < self.slots.len() {
                            self.slot_active = event.value as usize;
                        }
                    },
                    EventCode::AbsMtPositionX => {
                        let idx = self.slot_active;
                        let mut s = self.slots[idx];
                        s.position.x = event.value;
                        self.slots.set(idx, s);
                    },
                    EventCode::AbsMtPositionY => {
                        let idx = self.slot_active;
                        let mut s = self.slots[idx];
                        s.position.y = event.value;
                        self.slots.set(idx, s);
                    },
                    EventCode::AbsMtTrackingId => {
                        let idx = self.slot_active;
                        let mut s = self.slots[idx];
                        s.btn_touch = event.value != -1;
                        self.slots.set(idx, s);
                    },
                    _ => {},
                },
                _ => {},
            }
            k = k + 1;
        }
        proof {
            assert(frame@.take(n as int) =~= frame@);
        }
        let ghost folded_slots = self.slots@;
        let ghost folded_active = self.slot_active as int;
        let mut snapshot: Vec<TouchState<Position>> = Vec::new();
        let mut i: usize = 0;
        while i < 10
            invariant
                self.syn_chunk_source == old(self).syn_chunk_source,
                self.slots@ == folded_slots,
                self.slot_active as int == folded_active,
                self.slots@.len() == 10,
                self.slot_active < 10,
                i <= 10,
                snapshot@.len() == i,
                forall|j: int| 0 <= j < i ==> snapshot@[j] == snapshot_of(folded_slots)[j],
            decreases 10 - i,
        {
            if self.slots[i].btn_touch {
                let p = self.slots[i].position;
                snapshot.push(TouchState::Touch(p));
            } else {
                snapshot.push(TouchState::NoTouch);
            }
            i = i + 1;
        }
        proof {
            assert(snapshot@ =~= snapshot_of(folded_slots));
        }
        snapshot
    }

    /// Emits the snapshot after folding the next frame, or `None` once the
    /// stream is exhausted. Slot state persists from frame to frame.
    pub fn next(&mut self) -> (r: Option<Slots<TouchState<Position>>>)
        requires
            old(self).wf(),
        ensures
            final(self).wf(),
            match r {
                None => frames(old(self).remaining()).len() == 0 && final(self).slots_view() == old(
                    self,
                ).slots_view() && final(self).active_view() == old(self).active_view() && frames(
                    final(self).remaining(),
                ).len() == 0,
                Some(snapshot) => {
                    &&& frames(old(self).remaining()).len() > 0
                    &&& (final(self).slots_view(), final(self).active_view()) == fold_frame(
                        old(self).slots_view(),
                        old(self).active_view(),
                        frames(old(self).remaining())[0],
                    )
                    &&& snapshot@ == snapshot_of(final(self).slots_view())
                    &&& snapshot@.len() == 10
                    &&& frames(final(self).remaining()) == frames(old(self).remaining()).skip(1)
                },
            },
    {
        match self.syn_chunk_source.next() {
            None => None,
            Some(chunk) => Some(self.apply_frame(&chunk)),
        }
    }
}

} // verus!

use touchmidi::evdev::TouchState::{NoTouch, Touch};
use touchmidi::evdev::{
    slot_map, EventCode, EventType, InputEvent, Position, PositionSource, SynChunkSource,
    TouchState,
};

fn ev(event_type: EventType, event_code: EventCode, value: i32) -> InputEvent {
    InputEvent { event_type, event_code, value }
}

fn positions(events: Vec<InputEvent>) -> PositionSource {
    PositionSource::new_from_iterator(events)
}

fn next_slot(positions: &mut PositionSource, n: usize) -> Option<TouchState<Position>> {
    positions.next().map(|states| states[n].clone())
}

#[test]
fn groups_events_until_ev_syn() {
    let vec = vec![
        ev(EventType::EvAbs, EventCode::AbsMtSlot, 1),
        ev(EventType::EvAbs, EventCode::AbsMtSlot, 2),
        ev(EventType::EvSyn, EventCode::SynReport, 0),
    ];
    assert_eq!(
        SynChunkSource::new(vec).next(),
        Some(vec![
            ev(EventType::EvAbs, EventCode::AbsMtSlot, 1),
            ev(EventType::EvAbs, EventCode::AbsMtSlot, 2),
        ])
    );
}

#[test]
fn bundles_subsequent_chunks_correctly() {
    let vec = vec![
        ev(EventType::EvAbs, EventCode::AbsMtSlot, 1),
        ev(EventType::EvSyn, EventCode::SynReport, 0),
        //
        ev(EventType::EvAbs, EventCode::AbsMtSlot, 2),
        ev(EventType::EvSyn, EventCode::SynReport, 0),
    ];
    let mut syn_chunks = SynChunkSource::new(vec);
    syn_chunks.next();
    assert_eq!(
        syn_chunks.next(),
        Some(vec![ev(EventType::EvAbs, EventCode::AbsMtSlot, 2)])
    );
}

#[test]
fn handles_terminating_streams_gracefully() {
    let vec = vec![ev(EventType::EvAbs, EventCode::AbsMtSlot, 1)];
    let mut syn_chunks = SynChunkSource::new(vec);
    assert_eq!(
        syn_chunks.next(),
        Some(vec![ev(EventType::EvAbs, EventCode::AbsMtSlot, 1)])
    );
    assert_eq!(syn_chunks.next(), None);
    assert_eq!(syn_chunks.next(), None);
}

#[test]
fn empty_streams_yield_no_frames() {
    let mut syn_chunks = SynChunkSource::new(vec![]);
    assert_eq!(syn_chunks.next(), None);
}

#[test]
fn filters_out_frame_drop_markers() {
    let vec = vec![
        ev(EventType::EvSyn, EventCode::SynDropped, 0),
        ev(EventType::EvAbs, EventCode::AbsMtSlot, 1),
        ev(EventType::EvSyn, EventCode::SynDropped, 0),
        ev(EventType::EvSyn, EventCode::SynReport, 0),
    ];
    let mut syn_chunks = SynChunkSource::new(vec);
    assert_eq!(
        syn_chunks.next(),
        Some(vec![ev(EventType::EvAbs, EventCode::AbsMtSlot, 1)])
    );
}

#[test]
fn a_trailing_frame_of_only_drop_markers_is_not_emitted() {
    let vec = vec![ev(EventType::EvSyn, EventCode::SynDropped, 0)];
    let mut syn_chunks = SynChunkSource::new(vec);
    assert_eq!(syn_chunks.next(), None);
}

#[test]
fn an_empty_terminated_frame_is_emitted() {
    let vec = vec![ev(EventType::EvSyn, EventCode::SynReport, 0)];
    let mut syn_chunks = SynChunkSource::new(vec);
    assert_eq!(syn_chunks.next(), Some(vec![]));
    assert_eq!(syn_chunks.next(), None);
}

#[test]
fn returns_the_first_element_if_not_none() {
    let array = vec![Touch(1), Touch(2)];
    assert_eq!(TouchState::get_first(&array), &Touch(1));
}

#[test]
fn returns_the_first_element_that_is_not_none() {
    let array = vec![NoTouch, Touch(2)];
    assert_eq!(TouchState::get_first(&array), &Touch(2));
}

#[test]
fn returns_no_touch_if_every_element_is_none() {
    let array: Vec<TouchState<i32>> = vec![NoTouch, NoTouch];
    assert_eq!(TouchState::get_first(&array), &NoTouch);
}

#[test]
fn returns_no_touch_for_an_empty_iterator() {
    let array: Vec<TouchState<i32>> = vec![];
    assert_eq!(TouchState::get_first(&array), &NoTouch);
}

#[test]
fn relays_a_position() {
    let mut positions = positions(vec![
        ev(EventType::EvAbs, EventCode::AbsMtSlot, 0),
        ev(EventType::EvAbs, EventCode::AbsMtTrackingId, 1),
        ev(EventType::EvAbs, EventCode::AbsMtPositionX, 23),
        ev(EventType::EvAbs, EventCode::AbsMtPositionY, 42),
        ev(EventType::EvSyn, EventCode::SynReport, 0),
    ]);
    assert_eq!(next_slot(&mut positions, 0), Some(Touch(Position { x: 23, y: 42 })));
}

#[test]
fn relays_following_positions() {
    let mut positions = positions(vec![
        ev(EventType::EvAbs, EventCode::AbsMtSlot, 0),
        ev(EventType::EvAbs, EventCode::AbsMtTrackingId, 1),
        ev(EventType::EvAbs, EventCode::AbsMtPositionX, 23),
        ev(EventType::EvAbs, EventCode::AbsMtPositionY, 42),
        ev(EventType::EvSyn, EventCode::SynReport, 0),
        //
        ev(EventType::EvAbs, EventCode::AbsMtPositionX, 51),
        ev(EventType::EvAbs, EventCode::AbsMtPositionY, 84),
        ev(EventType::EvSyn, EventCode::SynReport, 0),
    ]);
    positions.next();
    assert_eq!(next_slot(&mut positions, 0), Some(Touch(Position { x: 51, y: 84 })));
}

#[test]
fn handles_syn_chunks_without_y() {
    let mut positions = positions(vec![
        ev(EventType::EvAbs, EventCode::AbsMtSlot, 0),
        ev(EventType::EvAbs, EventCode::AbsMtTrackingId, 1),
        ev(EventType::EvAbs, EventCode::AbsMtPositionX, 23),
        ev(EventType::EvAbs, EventCode::AbsMtPositionY, 42),
        ev(EventType::EvSyn, EventCode::SynReport, 0),
        //
        ev(EventType::EvAbs, EventCode::AbsMtPositionX, 51),
        ev(EventType::EvSyn, EventCode::SynReport, 0),
    ]);
    positions.next();
    assert_eq!(next_slot(&mut positions, 0), Some(Touch(Position { x: 51, y: 42 })));
}

#[test]
fn handles_syn_chunks_without_x() {
    let mut positions = positions(vec![
        ev(EventType::EvAbs, EventCode::AbsMtSlot, 0),
        ev(EventType::EvAbs, EventCode::AbsMtTrackingId, 1),
        ev(EventType::EvAbs, EventCode::AbsMtPositionX, 23),
        ev(EventType::EvAbs, EventCode::AbsMtPositionY, 42),
        ev(EventType::EvSyn, EventCode::SynReport, 0),
        //
        ev(EventType::EvAbs, EventCode::AbsMtPositionY, 84),
        ev(EventType::EvSyn, EventCode::SynReport, 0),
    ]);
    positions.next();
    assert_eq!(next_slot(&mut positions, 0), Some(Touch(Position { x: 23, y: 84 })));
}

#[test]
fn recognizes_touch_releases() {
    let mut positions = positions(vec![
        ev(EventType::EvAbs, EventCode::AbsMtSlot, 0),
        ev(EventType::EvAbs, EventCode::AbsMtTrackingId, 1),
        ev(EventType::EvAbs, EventCode::AbsMtPositionX, 23),
        ev(EventType::EvAbs, EventCode::AbsMtPositionY, 42),
        ev(EventType::EvSyn, EventCode::SynReport, 0),
        //
        ev(EventType::EvAbs, EventCode::AbsMtTrackingId, -1),
        ev(EventType::EvSyn, EventCode::SynReport, 0),
    ]);
    positions.next();
    assert_eq!(next_slot(&mut positions, 0), Some(NoTouch));
}

#[test]
fn ignores_movements_from_other_slots() {
    let mut positions = positions(vec![
        ev(EventType::EvAbs, EventCode::AbsMtSlot, 0),
        ev(EventType::EvAbs, EventCode::AbsMtTrackingId, 1),
        ev(EventType::EvAbs, EventCode::AbsMtPositionX, 23),
        ev(EventType::EvAbs, EventCode::AbsMtPositionY, 42),
        ev(EventType::EvSyn, EventCode::SynReport, 0),
        //
        ev(EventType::EvAbs, EventCode::AbsMtSlot, 1),
        ev(EventType::EvAbs, EventCode::AbsMtPositionX, 1000),
        ev(EventType::EvAbs, EventCode::AbsMtPositionY, 1000),
        ev(EventType::EvSyn, EventCode::SynReport, 0),
        //
        ev(EventType::EvAbs, EventCode::AbsMtSlot, 0),
        ev(EventType::EvAbs, EventCode::AbsMtPositionX, 51),
        ev(EventType::EvAbs, EventCode::AbsMtPositionY, 84),
        ev(EventType::EvSyn, EventCode::SynReport, 0),
    ]);
    positions.next();
    assert_eq!(next_slot(&mut positions, 0), Some(Touch(Position { x: 23, y: 42 })));
    assert_eq!(next_slot(&mut positions, 0), Some(Touch(Position { x: 51, y: 84 })));
}

#[test]
fn ignores_touch_releases_from_other_slots() {
    let mut positions = positions(vec![
        ev(EventType::EvAbs, EventCode::AbsMtSlot, 0),
        ev(EventType::EvAbs, EventCode::AbsMtTrackingId, 1),
        ev(EventType::EvAbs, EventCode::AbsMtPositionX, 23),
        ev(EventType::EvAbs, EventCode::AbsMtPositionY, 42),
        ev(EventType::EvSyn, EventCode::SynReport, 0),
        //
        ev(EventType::EvAbs, EventCode::AbsMtSlot, 1),
        ev(EventType::EvAbs, EventCode::AbsMtTrackingId, 2),
        ev(EventType::EvAbs, EventCode::AbsMtPositionX, 1000),
        ev(EventType::EvAbs, EventCode::AbsMtPositionY, 1000),
        ev(EventType::EvSyn, EventCode::SynReport, 0),
        //
        ev(EventType::EvAbs, EventCode::AbsMtTrackingId, -1),
        ev(EventType::EvSyn, EventCode::SynReport, 0),
        //
        ev(EventType::EvAbs, EventCode::AbsMtSlot, 0),
        ev(EventType::EvAbs, EventCode::AbsMtPositionX, 51),
        ev(EventType::EvAbs, EventCode::AbsMtPositionY, 84),
        ev(EventType::EvSyn, EventCode::SynReport, 0),
    ]);
    positions.next();
    assert_eq!(next_slot(&mut positions, 0), Some(Touch(Position { x: 23, y: 42 })));
    assert_eq!(next_slot(&mut positions, 0), Some(Touch(Position { x: 23, y: 42 })));
    assert_eq!(next_slot(&mut positions, 0), Some(Touch(Position { x: 51, y: 84 })));
}

#[test]
fn assumes_slot_zero_at_start() {
    let mut positions = positions(vec![
        ev(EventType::EvAbs, EventCode::AbsMtTrackingId, 1),
        ev(EventType::EvAbs, EventCode::AbsMtPositionX, 23),
        ev(EventType::EvAbs, EventCode::AbsMtPositionY, 42),
        ev(EventType::EvSyn, EventCode::SynReport, 0),
    ]);
    assert_eq!(next_slot(&mut positions, 0), Some(Touch(Position { x: 23, y: 42 })));
}

#[test]
fn tracks_slot_changes_and_touch_releases_in_the_same_syn_chunk_correctly() {
    let mut positions = positions(vec![
        ev(EventType::EvAbs, EventCode::AbsMtTrackingId, 1),
        ev(EventType::EvAbs, EventCode::AbsMtPositionX, 23),
        ev(EventType::EvAbs, EventCode::AbsMtPositionY, 42),
        ev(EventType::EvSyn, EventCode::SynReport, 0),
        //
        ev(EventType::EvAbs, EventCode::AbsMtTrackingId, -1),
        ev(EventType::EvAbs, EventCode::AbsMtSlot, 1),
        ev(EventType::EvAbs, EventCode::AbsMtTrackingId, 2),
        ev(EventType::EvAbs, EventCode::AbsMtPositionX, 1000),
        ev(EventType::EvAbs, EventCode::AbsMtPositionY, 1000),
        ev(EventType::EvSyn, EventCode::SynReport, 0),
    ]);
    assert_eq!(next_slot(&mut positions, 0), Some(Touch(Position { x: 23, y: 42 })));
    assert_eq!(next_slot(&mut positions, 0), Some(NoTouch));
}

#[test]
fn relays_a_position_for_other_slots() {
    let mut positions = positions(vec![
        ev(EventType::EvAbs, EventCode::AbsMtSlot, 1),
        ev(EventType::EvAbs, EventCode::AbsMtTrackingId, 1),
        ev(EventType::EvAbs, EventCode::AbsMtPositionX, 23),
        ev(EventType::EvAbs, EventCode::AbsMtPositionY, 42),
        ev(EventType::EvSyn, EventCode::SynReport, 0),
    ]);
    assert_eq!(next_slot(&mut positions, 1), Some(Touch(Position { x: 23, y: 42 })));
}

#[test]
fn ignores_movements_from_the_zero_slot() {
    let mut positions = positions(vec![
        ev(EventType::EvAbs, EventCode::AbsMtSlot, 0),
        ev(EventType::EvAbs, EventCode::AbsMtTrackingId, 1),
        ev(EventType::EvAbs, EventCode::AbsMtPositionX, 23),
        ev(EventType::EvAbs, EventCode::AbsMtPositionY, 42),
        ev(EventType::EvSyn, EventCode::SynReport, 0),
        //
        ev(EventType::EvAbs, EventCode::AbsMtSlot, 1),
        ev(EventType::EvAbs, EventCode::AbsMtTrackingId, 2),
        ev(EventType::EvAbs, EventCode::AbsMtPositionX, 1023),
        ev(EventType::EvAbs, EventCode::AbsMtPositionY, 1042),
        ev(EventType::EvSyn, EventCode::SynReport, 0),
        //
        ev(EventType::EvAbs, EventCode::AbsMtSlot, 0),
        ev(EventType::EvAbs, EventCode::AbsMtPositionX, 51),
        ev(EventType::EvAbs, EventCode::AbsMtPositionY, 84),
        ev(EventType::EvSyn, EventCode::SynReport, 0),
        //
        ev(EventType::EvAbs, EventCode::AbsMtSlot, 1),
        ev(EventType::EvAbs, EventCode::AbsMtPositionX, 1051),
        ev(EventType::EvAbs, EventCode::AbsMtPositionY, 1084),
        ev(EventType::EvSyn, EventCode::SynReport, 0),
    ]);
    assert_eq!(next_slot(&mut positions, 1), Some(NoTouch));
    assert_eq!(next_slot(&mut positions, 1), Some(Touch(Position { x: 1023, y: 1042 })));
    assert_eq!(next_slot(&mut positions, 1), Some(Touch(Position { x: 1023, y: 1042 })));
    assert_eq!(next_slot(&mut positions, 1), Some(Touch(Position { x: 1051, y: 1084 })));
}

#[test]
fn handles_out_of_bound_slots_gracefully() {
    let mut positions = positions(vec![
        ev(EventType::EvAbs, EventCode::AbsMtSlot, 1000),
        ev(EventType::EvAbs, EventCode::AbsMtTrackingId, 1),
        ev(EventType::EvSyn, EventCode::SynReport, 0),
        //
        ev(EventType::EvAbs, EventCode::AbsMtSlot, 2),
        ev(EventType::EvAbs, EventCode::AbsMtTrackingId, 1),
        ev(EventType::EvSyn, EventCode::SynReport, 0),
    ]);
    positions.next();
}

#[test]
fn an_out_of_range_slot_select_keeps_the_active_slot() {
    // the select of slot 1000 is ignored, so the tracking-id applies to the
    // slot that was active before, and no other slot is corrupted
    let mut positions = positions(vec![
        ev(EventType::EvAbs, EventCode::AbsMtPositionX, 23),
        ev(EventType::EvAbs, EventCode::AbsMtPositionY, 42),
        ev(EventType::EvAbs, EventCode::AbsMtSlot, 1000),
        ev(EventType::EvAbs, EventCode::AbsMtTrackingId, 1),
        ev(EventType::EvSyn, EventCode::SynReport, 0),
    ]);
    let snapshot = positions.next().unwrap();
    assert_eq!(snapshot[0], Touch(Position { x: 23, y: 42 }));
    for slot in 1..10 {
        assert_eq!(snapshot[slot], NoTouch);
    }
}

#[test]
fn a_negative_slot_select_is_ignored() {
    let mut positions = positions(vec![
        ev(EventType::EvAbs, EventCode::AbsMtSlot, -3),
        ev(EventType::EvAbs, EventCode::AbsMtTrackingId, 1),
        ev(EventType::EvAbs, EventCode::AbsMtPositionX, 7),
        ev(EventType::EvAbs, EventCode::AbsMtPositionY, 8),
        ev(EventType::EvSyn, EventCode::SynReport, 0),
    ]);
    assert_eq!(next_slot(&mut positions, 0), Some(Touch(Position { x: 7, y: 8 })));
}

#[test]
fn snapshots_always_report_ten_slots() {
    let mut positions = positions(vec![ev(EventType::EvSyn, EventCode::SynReport, 0)]);
    let snapshot = positions.next().unwrap();
    assert_eq!(snapshot.len(), 10);
    assert_eq!(positions.next(), None);
}

#[test]
fn slot_map_applies_the_function_to_every_slot() {
    let input: Vec<i32> = vec![0, 1, 2, 3, 4, 5, 6, 7, 8, 9];
    let doubled = slot_map(&input, |x: &i32| x + x);
    assert_eq!(doubled, vec![0, 2, 4, 6, 8, 10, 12, 14, 16, 18]);
}

#[test]
fn from_raw_decodes_the_wire_protocol() {
    assert_eq!(
        InputEvent::from_raw(3, 47, 5),
        ev(EventType::EvAbs, EventCode::AbsMtSlot, 5)
    );
    assert_eq!(
        InputEvent::from_raw(3, 53, 23),
        ev(EventType::EvAbs, EventCode::AbsMtPositionX, 23)
    );
    assert_eq!(
        InputEvent::from_raw(3, 54, 42),
        ev(EventType::EvAbs, EventCode::AbsMtPositionY, 42)
    );
    assert_eq!(
        InputEvent::from_raw(3, 57, -1),
        ev(EventType::EvAbs, EventCode::AbsMtTrackingId, -1)
    );
    assert_eq!(
        InputEvent::from_raw(0, 0, 0),
        ev(EventType::EvSyn, EventCode::SynReport, 0)
    );
    assert_eq!(
        InputEvent::from_raw(0, 3, 0),
        ev(EventType::EvSyn, EventCode::SynDropped, 0)
    );
    // codes are read in their type's namespace: code 0 under EV_ABS is not
    // a report marker
    assert_eq!(
        InputEvent::from_raw(3, 0, 0),
        ev(EventType::EvAbs, EventCode::CodeOther, 0)
    );
    assert_eq!(
        InputEvent::from_raw(1, 30, 1),
        ev(EventType::EvOther, EventCode::CodeOther, 1)
    );
}

#[test]
fn a_two_frame_stream_is_tracked_end_to_end() {
    let mut positions = positions(vec![
        ev(EventType::EvAbs, EventCode::AbsMtSlot, 0),
        ev(EventType::EvAbs, EventCode::AbsMtTrackingId, 1),
        ev(EventType::EvAbs, EventCode::AbsMtPositionX, 23),
        ev(EventType::EvAbs, EventCode::AbsMtPositionY, 42),
        ev(EventType::EvSyn, EventCode::SynReport, 0),
        //
        ev(EventType::EvAbs, EventCode::AbsMtPositionX, 51),
        ev(EventType::EvAbs, EventCode::AbsMtPositionY, 84),
        ev(EventType::EvSyn, EventCode::SynReport, 0),
    ]);
    let first = positions.next().unwrap();
    assert_eq!(first[0], Touch(Position { x: 23, y: 42 }));
    for slot in 1..10 {
        assert_eq!(first[slot], NoTouch);
    }
    let second = positions.next().unwrap();
    assert_eq!(second[0], Touch(Position { x: 51, y: 84 }));
    for slot in 1..10 {
        assert_eq!(second[slot], NoTouch);
    }
    assert_eq!(positions.next(), None);
}

#[test]
fn touch_state_defaults_to_no_touch() {
    let state: TouchState<i32> = Default::default();
    assert_eq!(state, NoTouch);
}

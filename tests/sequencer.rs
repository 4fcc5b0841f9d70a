use clicktrack::pattern::{parse, Note, PatternItem, Velocity};
use clicktrack::sequencer::{sequence, EventKind, PreconditionError, SequencedEvent, Velocities};

const VELS: Velocities = Velocities { default: 63, accented: 94, ghosted: 31 };

fn on(delta: u64, channel: u8, key: u8, velocity: u8) -> SequencedEvent {
    SequencedEvent { delta, kind: EventKind::NoteOn { channel, key, velocity } }
}

fn tempo(micros: u32) -> SequencedEvent {
    SequencedEvent { delta: 0, kind: EventKind::Tempo(micros) }
}

fn end() -> SequencedEvent {
    SequencedEvent { delta: 1, kind: EventKind::EndOfTrack }
}

#[test]
fn tempo_at_120_bpm() {
    let p = parse("m").unwrap();
    let events = sequence(&p, 1, 1, 120, 10, VELS).unwrap();
    assert_eq!(events[0], tempo(500_000));
}

#[test]
fn tempo_rounds_to_nearest() {
    let p = parse("m").unwrap();
    // 60_000_000 / 7 = 8_571_428.57...
    assert_eq!(sequence(&p, 1, 1, 7, 1, VELS).unwrap()[0], tempo(8_571_429));
    // 60_000_000 / 90 = 666_666.66...
    assert_eq!(sequence(&p, 1, 1, 90, 1, VELS).unwrap()[0], tempo(666_667));
    // 60_000_000 / 130 = 461_538.46...
    assert_eq!(sequence(&p, 1, 1, 130, 1, VELS).unwrap()[0], tempo(461_538));
    assert_eq!(sequence(&p, 1, 1, 1, 1, VELS).unwrap()[0], tempo(60_000_000));
}

#[test]
fn default_click_track() {
    let p = parse("m>mmm").unwrap();
    let events = sequence(&p, 6, 1, 120, 10, VELS).unwrap();
    assert_eq!(
        events,
        vec![
            tempo(500_000),
            on(0, 9, 32, 94),
            on(1, 9, 32, 63),
            on(1, 9, 32, 63),
            on(1, 9, 32, 63),
            on(1, 9, 32, 94),
            on(1, 9, 32, 63),
            end(),
        ]
    );
}

#[test]
fn cycling_over_pattern() {
    let p = parse("c,h>b").unwrap();
    let events = sequence(&p, 7, 1, 120, 1, VELS).unwrap();
    let keys: Vec<u8> = events
        .iter()
        .filter_map(|e| match e.kind {
            EventKind::NoteOn { key, .. } => Some(key),
            _ => None,
        })
        .collect();
    assert_eq!(keys, vec![75, 42, 35, 75, 42, 35, 75]);
    assert_eq!(events[1], on(0, 0, 75, 31));
    assert_eq!(events[2], on(1, 0, 42, 94));
}

#[test]
fn rests_fold_into_next_delta() {
    let p = parse("rrrmrm").unwrap();
    let events = sequence(&p, 6, 1, 120, 2, VELS).unwrap();
    assert_eq!(events, vec![tempo(500_000), on(3, 1, 32, 63), on(2, 1, 32, 63), end()]);
    // the rests after the first cycle carry the pending tick of the last note
    let events = sequence(&p, 3, 4, 120, 2, VELS).unwrap();
    assert_eq!(
        events,
        vec![
            tempo(500_000),
            on(3, 1, 32, 63),
            on(2, 1, 32, 63),
            on(4, 1, 32, 63),
            on(2, 1, 32, 63),
            end(),
        ]
    );
}

#[test]
fn trailing_rests_leave_no_event() {
    let p = parse("mrrr").unwrap();
    let events = sequence(&p, 4, 1, 120, 16, VELS).unwrap();
    assert_eq!(events, vec![tempo(500_000), on(0, 15, 32, 63), end()]);
}

#[test]
fn chord_notes_one_tick_apart() {
    let p = parse("r(c>h,)").unwrap();
    let events = sequence(&p, 2, 1, 120, 10, VELS).unwrap();
    assert_eq!(events, vec![tempo(500_000), on(1, 9, 75, 94), on(1, 9, 42, 31), end()]);
    let p = parse("rr(ch)").unwrap();
    let events = sequence(&p, 3, 1, 120, 10, VELS).unwrap();
    assert_eq!(events, vec![tempo(500_000), on(2, 9, 75, 63), on(1, 9, 42, 63), end()]);
}

#[test]
fn empty_note_group_resets_delta() {
    let p = vec![PatternItem::Rest, PatternItem::Notes(vec![]), PatternItem::Rest,
        PatternItem::Notes(vec![Note { key: 1, vel: Velocity::Default }])];
    let events = sequence(&p, 4, 1, 120, 1, VELS).unwrap();
    assert_eq!(events, vec![tempo(500_000), on(2, 0, 1, 63), end()]);
}

#[test]
fn boundary_rejection() {
    let p = parse("m").unwrap();
    assert_eq!(sequence(&p, 1, 1, 120, 0, VELS), Err(PreconditionError::Channel));
    assert_eq!(sequence(&p, 1, 1, 120, 17, VELS), Err(PreconditionError::Channel));
    assert_eq!(sequence(&p, 0, 1, 120, 1, VELS), Err(PreconditionError::Beats));
    assert_eq!(sequence(&p, 1, 0, 120, 1, VELS), Err(PreconditionError::Subdivisions));
    assert_eq!(sequence(&p, 1, 1, 0, 1, VELS), Err(PreconditionError::Tempo));
    assert_eq!(sequence(&Vec::new(), 1, 1, 120, 1, VELS), Err(PreconditionError::EmptyPattern));
    assert!(sequence(&p, 1, 1, 120, 16, VELS).is_ok());
}

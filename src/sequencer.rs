//! Tiling a parsed pattern over a track and timing its notes.
//!
//! Time is counted in ticks, one tick per subdivision of a beat. The pattern
//! is walked cyclically, one item per tick: a rest adds a tick of silence to
//! the delta of the next note, and a group of notes is emitted one tick apart,
//! the first one carrying the silence that came before it.

use vstd::prelude::*;
use crate::pattern::{ItemModel, Note, PatternItem, Velocity, items_model};

verus! {

/// The numeric velocity used for each intensity class.
#[derive(Debug, Clone, Copy, PartialEq, Eq, Structural)]
pub struct Velocities {
    pub default: u8,
    pub accented: u8,
    pub ghosted: u8,
}

/// What an event does.
#[derive(Debug, Clone, Copy, PartialEq, Eq, Structural)]
pub enum EventKind {
    /// Sets the tempo, in microseconds per beat.
    Tempo(u32),
    /// Starts a note; `channel` is 0-based.
    NoteOn { channel: u8, key: u8, velocity: u8 },
    /// Ends the track.
    EndOfTrack,
}

/// An event and its distance in ticks from the event before it.
#[derive(Debug, Clone, Copy, PartialEq, Eq, Structural)]
pub struct SequencedEvent {
    pub delta: u64,
    pub kind: EventKind,
}

/// A parameter of [`sequence`] that is out of its range.
#[derive(Debug, Clone, Copy, PartialEq, Eq, Structural)]
pub enum PreconditionError {
    /// The channel is not within 1..=16.
    Channel,
    /// The track is zero beats long.
    Beats,
    /// A beat has zero subdivisions.
    Subdivisions,
    /// The tempo is zero beats per minute.
    Tempo,
    /// The pattern has no item.
    EmptyPattern,
}

pub open spec fn velocity_value(v: Velocity, t: Velocities) -> u8 {
    match v {
        Velocity::Default => t.default,
        Velocity::Accented => t.accented,
        Velocity::Ghosted => t.ghosted,
    }
}

/// Microseconds per beat at `bpm` beats per minute: 60,000,000 / bpm rounded
/// to the nearest integer, halves upwards.
pub open spec fn tempo_micros(bpm: nat) -> nat {
    (120_000_000 + bpm) / (2 * bpm)
}

/// The events of a group of notes: the first one `first` ticks after the event
/// before it, each of the others one tick after its predecessor.
pub open spec fn chord_events(notes: Seq<Note>, first: nat, channel: u8, t: Velocities) -> Seq<
    SequencedEvent,
> {
    Seq::new(
        notes.len(),
        |k: int|
            SequencedEvent {
                delta: if k == 0 {
                    first as u64
                } else {
                    1
                },
                kind: EventKind::NoteOn {
                    channel,
                    key: notes[k].key,
                    velocity: velocity_value(notes[k].vel, t),
                },
            },
    )
}

/// The items visited in `n` ticks: item `i mod len` at tick `i`.
pub open spec fn tiled(p: Seq<ItemModel>, n: nat) -> Seq<ItemModel> {
    Seq::new(n, |i: int| p[i % (p.len() as int)])
}

/// The note events of a walk over `steps`, and the ticks pending after it:
/// the delta that the next note would carry.
pub open spec fn play(steps: Seq<ItemModel>, channel: u8, t: Velocities) -> (
    Seq<SequencedEvent>,
    nat,
)
    decreases steps.len(),
{
    if steps.len() == 0 {
        (seq![], 0)
    } else {
        let (ev, d) = play(steps.drop_last(), channel, t);
        match steps.last() {
            ItemModel::Rest => (ev, d + 1),
            ItemModel::Notes(ns) => (ev + chord_events(ns, d, channel, t), 1),
        }
    }
}

/// The parameter that [`sequence`] rejects, if any; they are checked in this order.
pub open spec fn precondition_failure(
    pattern_len: nat,
    beats: u32,
    subdivisions: u16,
    bpm: u16,
    channel: u8,
) -> Option<PreconditionError> {
    if channel < 1 || channel > 16 {
        Some(PreconditionError::Channel)
    } else if beats == 0 {
        Some(PreconditionError::Beats)
    } else if subdivisions == 0 {
        Some(PreconditionError::Subdivisions)
    } else if bpm == 0 {
        Some(PreconditionError::Tempo)
    } else if pattern_len == 0 {
        Some(PreconditionError::EmptyPattern)
    } else {
        None
    }
}

/// The whole track: a tempo event, the notes of `beats * subdivisions` ticks of
/// the pattern, and the end of the track one tick after the last tick.
pub open spec fn track(
    p: Seq<ItemModel>,
    beats: u32,
    subdivisions: u16,
    bpm: u16,
    channel: u8,
    t: Velocities,
) -> Seq<SequencedEvent> {
    seq![SequencedEvent { delta: 0, kind: EventKind::Tempo(tempo_micros(bpm as nat) as u32) }]
        + play(tiled(p, (beats * subdivisions) as nat), (channel - 1) as u8, t).0
        + seq![SequencedEvent { delta: 1, kind: EventKind::EndOfTrack }]
}

/// Pending ticks never exceed the number of steps walked.
proof fn lemma_play_pending_bound(steps: Seq<ItemModel>, channel: u8, t: Velocities)
    ensures
        play(steps, channel, t).1 <= steps.len(),
    decreases steps.len(),
{
    if steps.len() > 0 {
        lemma_play_pending_bound(steps.drop_last(), channel, t);
    }
}

/// `k` rests in a row.
pub open spec fn rests(k: nat) -> Seq<ItemModel> {
    Seq::new(k, |i: int| ItemModel::Rest)
}

/// The pattern is walked cyclically: at tick `i` of an `n`-tick track the
/// item walked is item `i mod len` of the pattern, and a track one tick
/// longer walks the same items and then item `n mod len`.
pub proof fn lemma_cycling(p: Seq<ItemModel>, n: nat)
    requires
        p.len() > 0,
    ensures
        tiled(p, n).len() == n,
        forall|i: int| 0 <= i < n ==> #[trigger] tiled(p, n)[i] == p[i % (p.len() as int)],
        tiled(p, n + 1) == tiled(p, n).push(p[(n % p.len()) as int]),
{
    assert(tiled(p, n + 1) =~= tiled(p, n).push(p[(n % p.len()) as int]));
}

/// A run of `k` rests emits nothing and adds `k` ticks to the pending delta.
pub proof fn lemma_rests_accumulate(steps: Seq<ItemModel>, k: nat, channel: u8, t: Velocities)
    ensures
        play(steps + rests(k), channel, t) == (
            play(steps, channel, t).0,
            play(steps, channel, t).1 + k,
        ),
    decreases k,
{
    if k == 0 {
        assert(steps + rests(0) =~= steps);
    } else {
        lemma_rests_accumulate(steps, (k - 1) as nat, channel, t);
        assert((steps + rests(k)).drop_last() =~= steps + rests((k - 1) as nat));
    }
}

/// After a run of `k` rests, a group of notes is emitted with the pending
/// ticks plus `k` as the delta of its first note, and the pending delta goes
/// back to the single tick that separates consecutive steps.
pub proof fn lemma_rests_then_notes(
    steps: Seq<ItemModel>,
    k: nat,
    notes: Seq<Note>,
    channel: u8,
    t: Velocities,
)
    requires
        notes.len() > 0,
        steps.len() + k <= u64::MAX,
    ensures
        ({
            let (before, pending) = play(steps, channel, t);
            let (after, next) = play(
                steps + rests(k) + seq![ItemModel::Notes(notes)],
                channel,
                t,
            );
            &&& after == before + chord_events(notes, pending + k, channel, t)
            &&& after[before.len() as int].delta == pending + k
            &&& next == 1
        }),
{
    lemma_rests_accumulate(steps, k, channel, t);
    lemma_play_pending_bound(steps, channel, t);
    let all = steps + rests(k) + seq![ItemModel::Notes(notes)];
    assert(all.drop_last() =~= steps + rests(k));
}

fn velocity_of(v: Velocity, t: Velocities) -> (r: u8)
    ensures
        r == velocity_value(v, t),
{
    match v {
        Velocity::Default => t.default,
        Velocity::Accented => t.accented,
        Velocity::Ghosted => t.ghosted,
    }
}

/// Appends the events of a group of notes.
fn push_chord(
    events: &mut Vec<SequencedEvent>,
    notes: &Vec<Note>,
    first: u64,
    channel: u8,
    t: Velocities,
)
    ensures
        final(events)@ == old(events)@ + chord_events(notes@, first as nat, channel, t),
{
    let ghost start = events@;
    let mut k: usize = 0;
    while k < notes.len()
        invariant
            k <= notes.len(),
            events@ == start + chord_events(notes@, first as nat, channel, t).subrange(
                0,
                k as int,
            ),
        decreases notes.len() - k,
    {
        let n = notes[k];
        let delta: u64 = if k == 0 {
            first
        } else {
            1
        };
        events.push(
            SequencedEvent {
                delta,
                kind: EventKind::NoteOn { channel, key: n.key, velocity: velocity_of(n.vel, t) },
            },
        );
        k = k + 1;
        proof {
            assert(events@ =~= start + chord_events(notes@, first as nat, channel, t).subrange(
                0,
                k as int,
            ));
        }
    }
    proof {
        assert(chord_events(notes@, first as nat, channel, t).subrange(0, k as int)
            =~= chord_events(notes@, first as nat, channel, t));
    }
}

/// Builds the track for `pattern`: a tempo event with delta 0, then the notes
/// of `beats * subdivisions` ticks of the pattern walked cyclically, then the
/// end of the track. `channel` counts from 1 and is stored counting from 0.
///
/// Fails, before building anything, exactly when a parameter is out of range.
pub fn sequence(
    pattern: &Vec<PatternItem>,
    beats: u32,
    subdivisions: u16,
    bpm: u16,
    channel: u8,
    velocities: Velocities,
) -> (r: Result<Vec<SequencedEvent>, PreconditionError>)
    ensures
        match precondition_failure(pattern@.len(), beats, subdivisions, bpm, channel) {
            Some(e) => r == Err::<Vec<SequencedEvent>, PreconditionError>(e),
            None => r is Ok && r->Ok_0@ == track(
                items_model(pattern@),
                beats,
                subdivisions,
                bpm,
                channel,
                velocities,
            ),
        },
{
    if channel < 1 || channel > 16 {
        return Err(PreconditionError::Channel);
    }
    if beats == 0 {
        return Err(PreconditionError::Beats);
    }
    if subdivisions == 0 {
        return Err(PreconditionError::Subdivisions);
    }
    if bpm == 0 {
        return Err(PreconditionError::Tempo);
    }
    if pattern.len() == 0 {
        return Err(PreconditionError::EmptyPattern);
    }
    let ch: u8 = channel - 1;
    let tempo: u32 = (120_000_000u32 + bpm as u32) / (2 * bpm as u32);
    proof {
        assert(beats as int * subdivisions as int <= 0xffff_ffff * 0xffff) by (nonlinear_arith)
            requires
                beats <= 0xffff_ffff,
                subdivisions <= 0xffff,
        ;
    }
    let ticks: u64 = beats as u64 * subdivisions as u64;
    let len_us: usize = pattern.len();
    let len: u64 = len_us as u64;
    let ghost p = items_model(pattern@);
    let ghost steps = tiled(p, ticks as nat);
    let mut events: Vec<SequencedEvent> = Vec::new();
    events.push(SequencedEvent { delta: 0, kind: EventKind::Tempo(tempo) });
    let ghost head = events@;
    let mut pending: u64 = 0;
    let mut i: u64 = 0;
    while i < ticks
        invariant
            i <= ticks,
            ticks == beats as u64 * subdivisions as u64,
            len == len_us as u64,
            len_us == pattern@.len(),
            len > 0,
            p == items_model(pattern@),
            steps == tiled(p, ticks as nat),
            events@ == head + play(steps.subrange(0, i as int), ch, velocities).0,
            pending as nat == play(steps.subrange(0, i as int), ch, velocities).1,
            pending <= i,
        decreases ticks - i,
    {
        proof {
            assert(i % len < len) by (nonlinear_arith)
                requires
                    len > 0,
            ;
        }
        let idx = (i % len) as usize;
        let ghost prev = steps.subrange(0, i as int);
        proof {
            assert(p.len() == pattern@.len());
            assert(steps[i as int] == p[idx as int]);
            assert(steps.subrange(0, i + 1).drop_last() =~= prev);
            assert(steps.subrange(0, i + 1).last() == pattern@[idx as int]@);
        }
        match &pattern[idx] {
            PatternItem::Rest => {
                pending = pending + 1;
            },
            PatternItem::Notes(notes) => {
                push_chord(&mut events, notes, pending, ch, velocities);
                proof {
                    assert(head + play(prev, ch, velocities).0 + chord_events(
                        notes@,
                        pending as nat,
                        ch,
                        velocities,
                    ) =~= head + (play(prev, ch, velocities).0 + chord_events(
                        notes@,
                        pending as nat,
                        ch,
                        velocities,
                    )));
                }
                pending = 1;
            },
        }
        i = i + 1;
    }
    events.push(SequencedEvent { delta: 1, kind: EventKind::EndOfTrack });
    proof {
        assert(steps.subrange(0, ticks as int) =~= steps);
    }
    Ok(events)
}

} // verus!

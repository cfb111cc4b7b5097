//! What holds of whole read sessions.
//!
//! A session is a run of reads on one adapter, each with a target of some
//! size. Every `read` does what [`step`] says, so what the reads of a session
//! hand out together is a function of the state the session starts in and of
//! the sizes of the targets: [`session`]. The laws below are proved of it.

use vstd::prelude::*;
use crate::model::{
    all_single, exhausted, flatten, hollow_prefix, is_hollow, lemma_flatten_single,
    lemma_flatten_skips_hollow, lemma_flatten_split, lemma_flatten_stops_at_fault,
    lemma_hollow_prefix, lemma_sound_prefix, lemma_sound_prefix_is, payload, sound_prefix, step,
    Piece, Shape,
};

verus! {

/// Whether a state can occur with items of the given shape: atomic items are
/// single bytes and are never carried.
pub open spec fn coherent(shape: Shape, carry: Seq<u8>, pieces: Seq<Piece>) -> bool {
    shape is Atomic ==> carry.len() == 0 && all_single(pieces)
}

/// What a run of reads comes to.
pub struct Session {
    /// The bytes that the reads returned, in order.
    pub output: Seq<u8>,
    /// The bytes that a failing read wrote to its target before it failed.
    /// The read returns the failure and not their number.
    pub spilled: Seq<u8>,
    /// How many items the reads pulled.
    pub pulled: nat,
    /// The carry after the last read.
    pub carry: Seq<u8>,
    /// The pieces that are left in the source.
    pub rest: Seq<Piece>,
    /// Whether the run ended in a failure.
    pub failed: bool,
}

/// The run of reads that starts with `carry` and a source of `pieces` and
/// has targets of the sizes `rooms`, one after the other. It ends with the
/// first read that fails, or with the last target.
pub open spec fn session(shape: Shape, carry: Seq<u8>, pieces: Seq<Piece>, rooms: Seq<nat>) -> Session
    decreases rooms.len(),
{
    if rooms.len() == 0 {
        Session {
            output: Seq::empty(),
            spilled: Seq::empty(),
            pulled: 0,
            carry,
            rest: pieces,
            failed: false,
        }
    } else {
        let done = step(shape, carry, pieces, rooms[0]);
        let rest = pieces.skip(done.pulled as int);
        if done.failed {
            Session {
                output: Seq::empty(),
                spilled: done.written,
                pulled: done.pulled,
                carry: done.carry,
                rest,
                failed: true,
            }
        } else {
            let later = session(shape, done.carry, rest, rooms.drop_first());
            Session {
                output: done.written + later.output,
                spilled: later.spilled,
                pulled: done.pulled + later.pulled,
                carry: later.carry,
                rest: later.rest,
                failed: later.failed,
            }
        }
    }
}

/// Whether every target has room for a byte.
pub open spec fn all_positive(rooms: Seq<nat>) -> bool {
    forall|i: int| 0 <= i < rooms.len() ==> #[trigger] rooms[i] > 0
}

/// The pieces without those that are hollow.
pub open spec fn solid(pieces: Seq<Piece>) -> Seq<Piece>
    decreases pieces.len(),
{
    if pieces.len() == 0 {
        Seq::empty()
    } else if is_hollow(pieces[0]) {
        solid(pieces.drop_first())
    } else {
        seq![pieces[0]] + solid(pieces.drop_first())
    }
}

/// A read stays within its target and its source, leaves a state that can
/// occur, and fails on a fault only: the last piece it pulled. After a
/// failure nothing is carried.
pub proof fn lemma_step_in_bounds(shape: Shape, carry: Seq<u8>, pieces: Seq<Piece>, room: nat)
    requires
        coherent(shape, carry, pieces),
    ensures
        ({
            let done = step(shape, carry, pieces, room);
            let rest = pieces.skip(done.pulled as int);
            &&& done.pulled <= pieces.len()
            &&& done.written.len() <= room
            &&& coherent(shape, done.carry, rest)
            &&& done.failed ==> {
                &&& done.pulled == sound_prefix(pieces) + 1
                &&& pieces[done.pulled - 1] is Fault
                &&& done.carry.len() == 0
            }
            &&& !done.failed ==> done.pulled <= sound_prefix(pieces)
        }),
{
    let done = step(shape, carry, pieces, room);
    let rest = pieces.skip(done.pulled as int);
    lemma_sound_prefix(pieces);
    lemma_hollow_prefix(pieces);
    match shape {
        Shape::Atomic => {
            let taken = done.written.len() as int;
            let front = pieces.take(if done.failed {
                done.pulled - 1
            } else {
                done.pulled as int
            });
            lemma_sound_prefix_is(front, front.len() as int);
            lemma_flatten_single(front);
            assert forall|i: int| 0 <= i < rest.len() implies (#[trigger] rest[i] matches Piece::Data(
                bytes,
            ) ==> bytes.len() == 1) by {
                assert(rest[i] == pieces[i + done.pulled]);
            }
        },
        Shape::Chunked => {
            if carry.len() == 0 {
                let skipped = hollow_prefix(pieces) as int;
                if skipped < pieces.len() {
                    if pieces[skipped] is Fault {
                        lemma_sound_prefix_is(pieces, skipped);
                    } else {
                        if sound_prefix(pieces) <= skipped {
                            assert(pieces[sound_prefix(pieces) as int] is Fault);
                            assert(is_hollow(pieces[sound_prefix(pieces) as int])
                                || sound_prefix(pieces) == skipped);
                        }
                    }
                } else {
                    lemma_sound_prefix_is(pieces, skipped);
                }
            }
        },
    }
}

/// A read that succeeds writes the front of the payload and leaves the rest
/// of it; a read that fails has written the whole payload.
pub proof fn lemma_step_conserves(shape: Shape, carry: Seq<u8>, pieces: Seq<Piece>, room: nat)
    requires
        coherent(shape, carry, pieces),
    ensures
        ({
            let done = step(shape, carry, pieces, room);
            let rest = pieces.skip(done.pulled as int);
            if done.failed {
                done.written == payload(carry, pieces)
            } else {
                done.written + payload(done.carry, rest) == payload(carry, pieces)
            }
        }),
{
    let done = step(shape, carry, pieces, room);
    let rest = pieces.skip(done.pulled as int);
    lemma_sound_prefix(pieces);
    lemma_hollow_prefix(pieces);
    match shape {
        Shape::Atomic => {
            if done.failed {
                lemma_flatten_stops_at_fault(pieces);
                assert(done.written =~= payload(carry, pieces));
            } else {
                lemma_flatten_split(pieces, done.pulled as int);
                assert(done.written + payload(done.carry, rest) =~= payload(carry, pieces));
            }
        },
        Shape::Chunked => {
            if carry.len() > 0 {
                assert(rest =~= pieces);
                assert(done.written + payload(done.carry, rest) =~= payload(carry, pieces));
            } else {
                let skipped = hollow_prefix(pieces) as int;
                lemma_flatten_skips_hollow(pieces, skipped);
                let tail = pieces.skip(skipped);
                if skipped == pieces.len() {
                    assert(done.written + payload(done.carry, rest) =~= payload(carry, pieces));
                } else {
                    assert(tail[0] == pieces[skipped]);
                    assert(tail.drop_first() =~= pieces.skip(skipped + 1));
                    if done.failed {
                        assert(done.written =~= payload(carry, pieces));
                    } else {
                        assert(done.written + payload(done.carry, rest) =~= payload(carry, pieces));
                    }
                }
            }
        },
    }
}

/// A read into a target with room hands out at least one byte, unless it
/// fails or finds the end of the source.
pub proof fn lemma_step_makes_progress(shape: Shape, carry: Seq<u8>, pieces: Seq<Piece>, room: nat)
    requires
        coherent(shape, carry, pieces),
        room > 0,
    ensures
        ({
            let done = step(shape, carry, pieces, room);
            done.failed || done.written.len() > 0 || exhausted(
                done.carry,
                pieces.skip(done.pulled as int),
            )
        }),
{
    let done = step(shape, carry, pieces, room);
    lemma_sound_prefix(pieces);
    lemma_hollow_prefix(pieces);
    match shape {
        Shape::Atomic => {
            if !done.failed && done.pulled > 0 {
                let front = pieces.take(done.pulled as int);
                lemma_sound_prefix_is(front, front.len() as int);
                lemma_flatten_single(front);
            }
        },
        Shape::Chunked => {},
    }
}

/// What a run of reads hands out and what it leaves adds up to the payload
/// it started with: nothing is lost, repeated or reordered, whatever the
/// sizes of the targets. A run that failed has written the whole payload,
/// and pulled the fault and nothing behind it.
pub proof fn lemma_session_conserves(
    shape: Shape,
    carry: Seq<u8>,
    pieces: Seq<Piece>,
    rooms: Seq<nat>,
)
    requires
        coherent(shape, carry, pieces),
    ensures
        ({
            let run = session(shape, carry, pieces, rooms);
            &&& coherent(shape, run.carry, run.rest)
            &&& run.pulled <= pieces.len()
            &&& run.rest == pieces.skip(run.pulled as int)
            &&& if run.failed {
                &&& run.output + run.spilled == payload(carry, pieces)
                &&& run.pulled == sound_prefix(pieces) + 1
                &&& run.carry.len() == 0
            } else {
                &&& run.output + payload(run.carry, run.rest) == payload(carry, pieces)
                &&& run.pulled <= sound_prefix(pieces)
                &&& run.spilled.len() == 0
            }
        }),
    decreases rooms.len(),
{
    let run = session(shape, carry, pieces, rooms);
    if rooms.len() == 0 {
        assert(pieces.skip(0) =~= pieces);
        assert(run.output + payload(carry, pieces) =~= payload(carry, pieces));
    } else {
        let done = step(shape, carry, pieces, rooms[0]);
        let rest = pieces.skip(done.pulled as int);
        lemma_step_in_bounds(shape, carry, pieces, rooms[0]);
        lemma_step_conserves(shape, carry, pieces, rooms[0]);
        if done.failed {
            assert(run.output + run.spilled =~= payload(carry, pieces));
        } else {
            let later = session(shape, done.carry, rest, rooms.drop_first());
            lemma_session_conserves(shape, done.carry, rest, rooms.drop_first());
            lemma_sound_prefix_of_rest(pieces, done.pulled as int);
            assert(rest.skip(later.pulled as int) =~= pieces.skip(run.pulled as int));
            if later.failed {
                assert(run.output + run.spilled =~= done.written + (later.output + later.spilled));
            } else {
                assert(run.output + payload(run.carry, run.rest) =~= done.written + (later.output
                    + payload(later.carry, later.rest)));
            }
        }
    }
}

/// Reads at the end of the stream: with nothing carried and nothing left in
/// the source, every read returns no bytes and no failure, pulls nothing
/// and leaves the state as it is.
pub proof fn lemma_exhausted_stays(shape: Shape, rooms: Seq<nat>)
    ensures
        ({
            let run = session(shape, Seq::empty(), Seq::empty(), rooms);
            &&& !run.failed
            &&& run.output.len() == 0
            &&& run.spilled.len() == 0
            &&& run.pulled == 0
            &&& exhausted(run.carry, run.rest)
        }),
    decreases rooms.len(),
{
    let none = Seq::<Piece>::empty();
    if rooms.len() > 0 {
        let done = step(shape, Seq::empty(), none, rooms[0]);
        assert(none.take(0) =~= none);
        assert(none.skip(0) =~= none);
        assert(done.carry =~= Seq::<u8>::empty());
        lemma_exhausted_stays(shape, rooms.drop_first());
    }
}

/// Concatenation. Where every item of the source is sound, no read fails,
/// and for targets of any sizes, those of size zero and one among them, the
/// bytes handed out are a prefix of the payload: followed by what is still
/// carried and still in the source they are the payload. Once the reads
/// have used up carry and source, they have handed out exactly the bytes of
/// the items, in order.
pub proof fn lemma_reads_concatenate(
    shape: Shape,
    carry: Seq<u8>,
    pieces: Seq<Piece>,
    rooms: Seq<nat>,
)
    requires
        coherent(shape, carry, pieces),
        sound_prefix(pieces) == pieces.len(),
    ensures
        ({
            let run = session(shape, carry, pieces, rooms);
            &&& !run.failed
            &&& run.output + payload(run.carry, run.rest) == payload(carry, pieces)
            &&& exhausted(run.carry, run.rest) ==> run.output == payload(carry, pieces)
        }),
{
    let run = session(shape, carry, pieces, rooms);
    lemma_session_conserves(shape, carry, pieces, rooms);
    if exhausted(run.carry, run.rest) {
        assert(run.output + payload(run.carry, run.rest) =~= run.output);
    }
}

/// Reading to the end. Reads into targets that all have room, more of them
/// than the payload has bytes, come to a failure or use up carry and
/// source.
pub proof fn lemma_session_drains(
    shape: Shape,
    carry: Seq<u8>,
    pieces: Seq<Piece>,
    rooms: Seq<nat>,
)
    requires
        coherent(shape, carry, pieces),
        all_positive(rooms),
        rooms.len() > payload(carry, pieces).len(),
    ensures
        ({
            let run = session(shape, carry, pieces, rooms);
            run.failed || exhausted(run.carry, run.rest)
        }),
    decreases rooms.len(),
{
    let done = step(shape, carry, pieces, rooms[0]);
    let rest = pieces.skip(done.pulled as int);
    let later_rooms = rooms.drop_first();
    assert(rooms[0] > 0);
    lemma_step_in_bounds(shape, carry, pieces, rooms[0]);
    lemma_step_conserves(shape, carry, pieces, rooms[0]);
    lemma_step_makes_progress(shape, carry, pieces, rooms[0]);
    if !done.failed {
        if exhausted(done.carry, rest) {
            assert(done.carry =~= Seq::<u8>::empty());
            assert(rest =~= Seq::<Piece>::empty());
            lemma_exhausted_stays(shape, later_rooms);
        } else {
            assert(payload(carry, pieces).len() == done.written.len() + payload(
                done.carry,
                rest,
            ).len());
            assert forall|i: int| 0 <= i < later_rooms.len() implies #[trigger] later_rooms[i]
                > 0 by {
                assert(later_rooms[i] == rooms[i + 1]);
            }
            lemma_session_drains(shape, done.carry, rest, later_rooms);
        }
    }
}

/// Buffer-size independence. Two runs of reads over the same sound items,
/// with targets of whatever sizes, hand out the same bytes once each has
/// used up carry and source.
pub proof fn lemma_buffer_sizes_do_not_matter(
    shape: Shape,
    carry: Seq<u8>,
    pieces: Seq<Piece>,
    rooms_a: Seq<nat>,
    rooms_b: Seq<nat>,
)
    requires
        coherent(shape, carry, pieces),
        sound_prefix(pieces) == pieces.len(),
        exhausted(
            session(shape, carry, pieces, rooms_a).carry,
            session(shape, carry, pieces, rooms_a).rest,
        ),
        exhausted(
            session(shape, carry, pieces, rooms_b).carry,
            session(shape, carry, pieces, rooms_b).rest,
        ),
    ensures
        session(shape, carry, pieces, rooms_a).output == session(
            shape,
            carry,
            pieces,
            rooms_b,
        ).output,
{
    lemma_reads_concatenate(shape, carry, pieces, rooms_a);
    lemma_reads_concatenate(shape, carry, pieces, rooms_b);
}

/// Hollow pieces add nothing to the payload: it is that of the solid pieces.
pub proof fn lemma_flatten_solid(pieces: Seq<Piece>)
    ensures
        flatten(solid(pieces)) == flatten(pieces),
        sound_prefix(pieces) == pieces.len() <==> sound_prefix(solid(pieces)) == solid(
            pieces,
        ).len(),
    decreases pieces.len(),
{
    if pieces.len() > 0 {
        let rest = pieces.drop_first();
        lemma_flatten_solid(rest);
        lemma_sound_prefix(rest);
        lemma_sound_prefix(solid(rest));
        if is_hollow(pieces[0]) {
            assert(flatten(pieces) =~= flatten(rest));
        } else {
            let kept = seq![pieces[0]] + solid(rest);
            assert(kept[0] == pieces[0]);
            assert(kept.drop_first() =~= solid(rest));
        }
    }
}

/// A hollow piece put in anywhere leaves the solid pieces as they are.
pub proof fn lemma_solid_ignores_insertion(pieces: Seq<Piece>, at: int)
    requires
        0 <= at <= pieces.len(),
    ensures
        solid(pieces.insert(at, Piece::Data(Seq::empty()))) == solid(pieces),
    decreases at,
{
    let padded = pieces.insert(at, Piece::Data(Seq::empty()));
    if at == 0 {
        assert(padded.drop_first() =~= pieces);
    } else {
        let rest = pieces.drop_first();
        lemma_solid_ignores_insertion(rest, at - 1);
        assert(padded[0] == pieces[0]);
        assert(padded.drop_first() =~= rest.insert(at - 1, Piece::Data(Seq::empty())));
    }
}

/// Empty-item transparency. Two sources of sound chunked items that differ
/// only in hollow items, how many of them and where, have the same payload,
/// and runs of reads that use them up hand out the same bytes.
pub proof fn lemma_empty_items_are_transparent(
    carry: Seq<u8>,
    pieces: Seq<Piece>,
    padded: Seq<Piece>,
    rooms: Seq<nat>,
    rooms_padded: Seq<nat>,
)
    requires
        solid(padded) == solid(pieces),
        sound_prefix(pieces) == pieces.len(),
    ensures
        payload(carry, padded) == payload(carry, pieces),
        ({
            let run = session(Shape::Chunked, carry, pieces, rooms);
            let run_padded = session(Shape::Chunked, carry, padded, rooms_padded);
            exhausted(run.carry, run.rest) && exhausted(run_padded.carry, run_padded.rest)
                ==> run_padded.output == run.output
        }),
{
    lemma_flatten_solid(pieces);
    lemma_flatten_solid(padded);
    lemma_reads_concatenate(Shape::Chunked, carry, pieces, rooms);
    lemma_reads_concatenate(Shape::Chunked, carry, padded, rooms_padded);
}

/// End-of-stream idempotence. A read into a target with room that returns
/// no bytes and no failure has found the end of the source: nothing is
/// carried and nothing is left. Every read after it, whatever the size of
/// its target, returns no bytes and no failure either, and pulls nothing.
///
/// A target without room gets no bytes wherever the source stands, so of a
/// read into such a target the same holds only where it did reach the end.
pub proof fn lemma_end_of_stream_is_final(
    shape: Shape,
    carry: Seq<u8>,
    pieces: Seq<Piece>,
    room: nat,
    rooms: Seq<nat>,
)
    requires
        coherent(shape, carry, pieces),
        !step(shape, carry, pieces, room).failed,
        step(shape, carry, pieces, room).written.len() == 0,
        room > 0 || exhausted(
            step(shape, carry, pieces, room).carry,
            pieces.skip(step(shape, carry, pieces, room).pulled as int),
        ),
    ensures
        ({
            let done = step(shape, carry, pieces, room);
            let rest = pieces.skip(done.pulled as int);
            let run = session(shape, done.carry, rest, rooms);
            &&& exhausted(done.carry, rest)
            &&& !run.failed
            &&& run.output.len() == 0
            &&& run.pulled == 0
            &&& exhausted(run.carry, run.rest)
        }),
{
    let done = step(shape, carry, pieces, room);
    let rest = pieces.skip(done.pulled as int);
    if room > 0 {
        lemma_step_makes_progress(shape, carry, pieces, room);
    }
    assert(done.carry =~= Seq::<u8>::empty());
    assert(rest =~= Seq::<Piece>::empty());
    lemma_exhausted_stays(shape, rooms);
}

/// Failure placement. Of a source with a fault, the reads before the one
/// that fails hand out bytes of the items before the fault only, in order.
/// The failing read pulls the fault and nothing behind it and leaves nothing
/// carried, so that a read after it starts with the item behind the fault.
/// Reads into targets that all have room, more of them than there are bytes
/// before the fault, come to the failure.
///
/// By the failure every byte of the items before the fault has been written
/// to a target. The reads have returned all of them, and the failure comes
/// exactly after them, where the failing read wrote nothing itself. That is
/// so for chunked items. A read of atomic items that meets the fault behind
/// items it has already moved returns the failure in place of their number.
pub proof fn lemma_failure_placement(
    shape: Shape,
    carry: Seq<u8>,
    pieces: Seq<Piece>,
    rooms: Seq<nat>,
)
    requires
        coherent(shape, carry, pieces),
        sound_prefix(pieces) < pieces.len(),
    ensures
        ({
            let run = session(shape, carry, pieces, rooms);
            let fault = sound_prefix(pieces) as int;
            let before = payload(carry, pieces.take(fault));
            &&& before == payload(carry, pieces)
            &&& run.rest == pieces.skip(run.pulled as int)
            &&& if run.failed {
                &&& run.output + run.spilled == before
                &&& run.output == before <==> run.spilled.len() == 0
                &&& shape is Chunked ==> run.spilled.len() == 0
                &&& run.pulled == fault + 1
                &&& run.carry.len() == 0
            } else {
                &&& run.output + payload(run.carry, run.rest) == before
                &&& run.pulled <= fault
            }
            &&& all_positive(rooms) && rooms.len() > before.len() ==> run.failed
        }),
{
    let run = session(shape, carry, pieces, rooms);
    lemma_flatten_stops_at_fault(pieces);
    lemma_session_conserves(shape, carry, pieces, rooms);
    if run.failed {
        lemma_chunked_spills_nothing(shape, carry, pieces, rooms);
        if run.spilled.len() == 0 {
            assert(run.output + run.spilled =~= run.output);
        } else {
            assert((run.output + run.spilled).len() > run.output.len());
        }
    }
    if all_positive(rooms) && rooms.len() > payload(carry, pieces).len() {
        lemma_session_drains(shape, carry, pieces, rooms);
        if !run.failed {
            assert(run.pulled == pieces.len());
        }
    }
}

/// A failing read of chunked items writes nothing.
proof fn lemma_chunked_spills_nothing(
    shape: Shape,
    carry: Seq<u8>,
    pieces: Seq<Piece>,
    rooms: Seq<nat>,
)
    ensures
        shape is Chunked ==> session(shape, carry, pieces, rooms).spilled.len() == 0,
    decreases rooms.len(),
{
    if rooms.len() > 0 {
        let done = step(shape, carry, pieces, rooms[0]);
        if !done.failed {
            lemma_chunked_spills_nothing(
                shape,
                done.carry,
                pieces.skip(done.pulled as int),
                rooms.drop_first(),
            );
        }
    }
}

/// Behind sound pieces, the first fault is as many pieces nearer as were
/// passed.
proof fn lemma_sound_prefix_of_rest(pieces: Seq<Piece>, k: int)
    requires
        0 <= k <= sound_prefix(pieces),
    ensures
        sound_prefix(pieces.skip(k)) == sound_prefix(pieces) - k,
{
    lemma_sound_prefix(pieces);
    let rest = pieces.skip(k);
    let f = sound_prefix(pieces) - k;
    assert forall|i: int| 0 <= i < f implies #[trigger] rest[i] is Data by {
        assert(rest[i] == pieces[i + k]);
    }
    lemma_sound_prefix_is(rest, f);
}

} // verus!

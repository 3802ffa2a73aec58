//! What the framing guarantees of a whole stream.
//!
//! A sender hands over frames and flushes them, in writes of any size. A
//! receiver gets the bytes in reads of any size. The laws here say what the
//! receiver makes of them.

use vstd::prelude::*;

use crate::quic_framed::{Delivery, Framing, QuicFramedError, MAX_QUIC_FRAME_SIZE};
use crate::{quic_framed, varint};

verus! {

/// The frames one after the other on the wire.
pub open spec fn on_the_wire(frames: Seq<Seq<u8>>) -> Seq<u8>
    decreases frames.len(),
{
    if frames.len() == 0 {
        Seq::empty()
    } else {
        quic_framed::framed(frames[0]) + on_the_wire(frames.drop_first())
    }
}

/// None of the frames is larger than the limit.
pub open spec fn all_fit(frames: Seq<Seq<u8>>) -> bool {
    forall|i: int| 0 <= i < frames.len() ==> (#[trigger] frames[i]).len() <= MAX_QUIC_FRAME_SIZE
}

/// The frames that polls deliver one after the other without another read, the
/// state then, and how the next poll is answered.
pub open spec fn drained(state: Framing) -> (Seq<Seq<u8>>, Framing, Delivery)
    decreases 2 * state.unread.len() + (if state.pending is Some {
        1nat
    } else {
        0
    }),
{
    let (next, delivery) = state.polled();
    match delivery {
        Delivery::Frame(frame) => {
            proof {
                varint::varint_in_range(state.unread);
            }
            let (frames, last, answer) = drained(next);
            (seq![frame] + frames, last, answer)
        },
        _ => (Seq::empty(), next, delivery),
    }
}

/// The frames that polls deliver while the receive stream yields `reads`, the
/// state then, and how the next poll is answered. Polls that are answered with
/// an error or the end of the stream end the run.
pub open spec fn delivered(state: Framing, reads: Seq<Seq<u8>>) -> (
    Seq<Seq<u8>>,
    Framing,
    Delivery,
)
    decreases reads.len(),
{
    let (frames, waiting, answer) = drained(state);
    if answer is Read && reads.len() > 0 {
        let (next, delivery) = waiting.received(reads[0]);
        match delivery {
            Delivery::Frame(frame) => {
                let (more, last, end) = delivered(next, reads.drop_first());
                (frames + seq![frame] + more, last, end)
            },
            Delivery::Read => {
                let (more, last, end) = delivered(next, reads.drop_first());
                (frames + more, last, end)
            },
            _ => (frames, next, delivery),
        }
    } else {
        (frames, waiting, answer)
    }
}

/// A poll that was answered is answered the same whatever arrives later.
proof fn lemma_poll_then_arrive(state: Framing, more: Seq<u8>)
    requires
        !state.finished,
    ensures
        ({
            let (next, delivery) = state.polled();
            let late = state.arrived(more).polled();
            if delivery is Read {
                late == next.arrived(more).polled()
            } else {
                late == (next.arrived(more), delivery)
            }
        }),
{
    let (next, delivery) = state.polled();
    let all = state.arrived(more);
    match state.pending {
        Some(len) => {
            if state.unread.len() >= len {
                assert(all.unread.take(len as int) =~= state.unread.take(len as int));
                assert(all.unread.skip(len as int) =~= state.unread.skip(len as int) + more);
            }
        },
        None => {
            if varint::value_at(state.unread) is Some {
                varint::varint_ignores_what_follows(state.unread, more);
                varint::varint_in_range(state.unread);
                let (value, width) = varint::value_at(state.unread)->0;
                let body = state.unread.skip(width as int);
                assert(all.unread.skip(width as int) =~= body + more);
                if value <= MAX_QUIC_FRAME_SIZE && body.len() >= value {
                    assert((body + more).take(value as int) =~= body.take(value as int));
                    assert((body + more).skip(value as int) =~= body.skip(value as int) + more);
                }
            }
        },
    }
}

/// Draining in two rounds, before and after `more` arrives, is draining once.
proof fn lemma_drain_then_arrive(state: Framing, more: Seq<u8>)
    requires
        !state.finished,
    ensures
        ({
            let (frames, waiting, answer) = drained(state);
            let all = drained(state.arrived(more));
            &&& !waiting.finished
            &&& if answer is Read {
                let (rest, last, end) = drained(waiting.arrived(more));
                all == (frames + rest, last, end)
            } else {
                all == (frames, waiting.arrived(more), answer)
            }
        }),
    decreases 2 * state.unread.len() + (if state.pending is Some {
        1nat
    } else {
        0
    }),
{
    let (next, delivery) = state.polled();
    lemma_poll_then_arrive(state, more);
    match delivery {
        Delivery::Frame(frame) => {
            varint::varint_in_range(state.unread);
            lemma_drain_then_arrive(next, more);
            let (frames, waiting, answer) = drained(next);
            if answer is Read {
                let (rest, last, end) = drained(waiting.arrived(more));
                assert((seq![frame] + frames) + rest =~= seq![frame] + (frames + rest));
            }
        },
        Delivery::Read => {
            let (rest, last, end) = drained(next.arrived(more));
            assert(Seq::<Seq<u8>>::empty() + rest =~= rest);
            assert(drained(state.arrived(more)) == drained(next.arrived(more)));
        },
        _ => {},
    }
}

/// Taking in a read and going on is going on with the read taken in.
proof fn lemma_read_then_deliver(waiting: Framing, reads: Seq<Seq<u8>>)
    requires
        !waiting.finished,
        reads.len() > 0,
        reads[0].len() > 0,
    ensures
        ({
            let (next, delivery) = waiting.received(reads[0]);
            let (frames, last, end) = delivered(waiting.arrived(reads[0]), reads.drop_first());
            match delivery {
                Delivery::Frame(frame) => {
                    let (more, last2, end2) = delivered(next, reads.drop_first());
                    (frames, last, end) == (seq![frame] + more, last2, end2)
                },
                Delivery::Read => (frames, last, end) == delivered(next, reads.drop_first()),
                _ => (frames, last, end) == (Seq::<Seq<u8>>::empty(), next, delivery),
            }
        }),
{
    let state = waiting.arrived(reads[0]);
    let rest = reads.drop_first();
    let (next, delivery) = waiting.received(reads[0]);
    assert((next, delivery) == state.polled());
    match delivery {
        Delivery::Frame(frame) => {
            let (frames, stop, answer) = drained(next);
            let (more, last2, end2) = delivered(next, rest);
            if answer is Read && rest.len() > 0 {
                let (n2, d2) = stop.received(rest[0]);
                match d2 {
                    Delivery::Frame(f2) => {
                        let (m2, _, _) = delivered(n2, rest.drop_first());
                        assert((seq![frame] + frames) + seq![f2] + m2 =~= seq![frame] + (frames
                            + seq![f2] + m2));
                    },
                    Delivery::Read => {
                        let (m2, _, _) = delivered(n2, rest.drop_first());
                        assert((seq![frame] + frames) + m2 =~= seq![frame] + (frames + m2));
                    },
                    _ => {},
                }
            }
        },
        Delivery::Read => {
            assert(drained(state) == drained(next)) by {
                let none = Seq::<u8>::empty();
                assert(state.arrived(none) =~= state);
                assert(next.arrived(none) =~= next);
                lemma_poll_then_arrive(state, none);
            }
        },
        _ => {},
    }
}

/// How the bytes are split into reads makes no difference: the frames, and how
/// the next poll is answered, are those of a single read of all of them. Only
/// an error leaves bytes unread that a single read would have taken in.
pub proof fn reads_may_split_anywhere(state: Framing, reads: Seq<Seq<u8>>)
    requires
        !state.finished,
        forall|i: int| 0 <= i < reads.len() ==> (#[trigger] reads[i]).len() > 0,
    ensures
        ({
            let (frames, last, end) = delivered(state, reads);
            let (all, at_once, answer) = drained(state.arrived(reads.flatten()));
            &&& frames == all
            &&& end == answer
            &&& end is Read ==> last == at_once
        }),
    decreases reads.len(),
{
    let (frames, waiting, answer) = drained(state);
    let bytes = reads.flatten();
    lemma_drain_then_arrive(state, bytes);
    if reads.len() == 0 {
        assert(state.arrived(bytes) =~= state);
    } else if answer is Read {
        let first = reads[0];
        let rest = reads.drop_first();
        assert forall|i: int| 0 <= i < rest.len() implies (#[trigger] rest[i]).len() > 0 by {
            assert(rest[i] == reads[i + 1]);
        }
        reads_may_split_anywhere(waiting.arrived(first), rest);
        lemma_read_then_deliver(waiting, reads);
        assert(waiting.arrived(first).arrived(rest.flatten()) =~= waiting.arrived(bytes));
        let (next, delivery) = waiting.received(first);
        let (tail, last, end) = delivered(waiting.arrived(first), rest);
        match delivery {
            Delivery::Frame(frame) => {
                let (more, _, _) = delivered(next, rest);
                assert(frames + seq![frame] + more =~= frames + (seq![frame] + more));
            },
            Delivery::Read => {},
            _ => {
                assert(frames + Seq::<Seq<u8>>::empty() =~= frames);
            },
        }
    }
}

/// A whole frame at the front of what was read is delivered by the next poll,
/// and what follows it stays for later polls.
pub proof fn whole_frame_is_delivered(state: Framing, frame: Seq<u8>, rest: Seq<u8>)
    requires
        !state.finished,
        state.pending is None,
        state.unread == quic_framed::framed(frame) + rest,
        frame.len() <= MAX_QUIC_FRAME_SIZE,
    ensures
        state.polled() == ((Framing { unread: rest, ..state }), Delivery::Frame(frame)),
{
    let header = varint::wire_form(frame.len() as u64);
    assert(state.unread =~= header + (frame + rest));
    varint::varint_read_back(frame.len() as u64, frame + rest);
    assert(state.unread.skip(header.len() as int) =~= frame + rest);
    assert((frame + rest).take(frame.len() as int) =~= frame);
    assert((frame + rest).skip(frame.len() as int) =~= rest);
}

/// Frames that arrived whole are all delivered, in order, before anything that follows them.
proof fn lemma_drain_frames(state: Framing, frames: Seq<Seq<u8>>, rest: Seq<u8>)
    requires
        !state.finished,
        state.pending is None,
        state.unread == on_the_wire(frames) + rest,
        all_fit(frames),
    ensures
        ({
            let (more, last, end) = drained(Framing { unread: rest, ..state });
            drained(state) == (frames + more, last, end)
        }),
    decreases frames.len(),
{
    let after = Framing { unread: rest, ..state };
    let (more, last, end) = drained(after);
    if frames.len() == 0 {
        assert(state =~= after);
        assert(frames + more =~= more);
    } else {
        let tail = frames.drop_first();
        let left = on_the_wire(tail) + rest;
        assert(state.unread =~= quic_framed::framed(frames[0]) + left);
        whole_frame_is_delivered(state, frames[0], left);
        let next = Framing { unread: left, ..state };
        assert forall|i: int| 0 <= i < tail.len() implies (#[trigger] tail[i]).len()
            <= MAX_QUIC_FRAME_SIZE by {
            assert(tail[i] == frames[i + 1]);
        }
        lemma_drain_frames(next, tail, rest);
        assert(seq![frames[0]] + (tail + more) =~= frames + more);
    }
}

/// What one side frames, the other side reads back: the same frames, in the
/// same order, and then a clean end of the stream, however the bytes are split
/// into reads.
pub proof fn frames_are_read_back(frames: Seq<Seq<u8>>, reads: Seq<Seq<u8>>)
    requires
        all_fit(frames),
        forall|i: int| 0 <= i < reads.len() ==> (#[trigger] reads[i]).len() > 0,
        reads.flatten() == on_the_wire(frames),
    ensures
        delivered(Framing::fresh(), reads) == (frames, Framing::fresh(), Delivery::Read),
        delivered(Framing::fresh(), reads.push(Seq::empty())) == (
            frames,
            (Framing { finished: true, ..Framing::fresh() }),
            Delivery::End,
        ),
{
    let start = Framing::fresh();
    let none = Seq::<u8>::empty();
    let loaded = start.arrived(reads.flatten());
    assert(loaded.unread =~= on_the_wire(frames) + none);
    lemma_drain_frames(loaded, frames, none);
    assert(Framing { unread: none, ..loaded } =~= start);
    assert(drained(start) == (Seq::<Seq<u8>>::empty(), start, Delivery::Read));
    assert(frames + Seq::<Seq<u8>>::empty() =~= frames);
    reads_may_split_anywhere(start, reads);
    lemma_end_of_stream(start, reads);
}

/// A read of nothing after `reads` ends the stream in the state that they led to.
proof fn lemma_end_of_stream(state: Framing, reads: Seq<Seq<u8>>)
    requires
        delivered(state, reads).2 is Read,
    ensures
        ({
            let (frames, last, end) = delivered(state, reads);
            let (ended, delivery) = last.ended();
            delivered(state, reads.push(Seq::empty())) == (frames, ended, delivery)
        }),
    decreases reads.len(),
{
    let all = reads.push(Seq::empty());
    let (frames, waiting, answer) = drained(state);
    if reads.len() > 0 {
        assert(all.drop_first() =~= reads.drop_first().push(Seq::empty()));
        let (next, delivery) = waiting.received(reads[0]);
        if delivery is Frame || delivery is Read {
            lemma_end_of_stream(next, reads.drop_first());
        }
    }
}

/// Once the stream has ended, every further poll is answered with its end.
pub proof fn the_end_is_final(state: Framing)
    requires
        state.finished,
    ensures
        state.polled() == (state, Delivery::End),
{
}

/// A header that announces more than the limit is refused, in whatever width it
/// is written. It is refused again at each poll, whatever arrives behind it: it
/// is not skipped.
pub proof fn oversized_frame_is_refused(state: Framing, more: Seq<u8>)
    requires
        !state.finished,
        state.pending is None,
        varint::value_at(state.unread) matches Some((value, _)) && value > MAX_QUIC_FRAME_SIZE,
    ensures
        ({
            let size = quic_framed::reported_size((varint::value_at(state.unread)->0).0);
            let refusal = Delivery::Error(QuicFramedError::FrameTooLarge(size));
            &&& state.polled() == (state, refusal)
            &&& state.arrived(more).polled() == (state.arrived(more), refusal)
        }),
{
    varint::varint_ignores_what_follows(state.unread, more);
}

/// While a poll asks for another read, less than a frame of the largest size is buffered.
pub proof fn buffer_stays_small(state: Framing)
    requires
        state.wf(),
        state.polled().1 is Read,
    ensures
        state.polled().0.unread.len() < MAX_QUIC_FRAME_SIZE,
{
}

/// Whether the first `at` bytes of a stream of `frames` are just whole frames.
pub open spec fn falls_between_frames(frames: Seq<Seq<u8>>, at: int) -> bool
    decreases frames.len(),
{
    if at == 0 {
        true
    } else if frames.len() == 0 {
        false
    } else {
        let first = quic_framed::framed(frames[0]).len();
        at >= first && falls_between_frames(frames.drop_first(), at - first)
    }
}

/// A frame that is cut is not delivered. Its end is an error unless nothing of
/// it arrived.
proof fn lemma_cut_frame(frame: Seq<u8>, at: int)
    requires
        frame.len() <= MAX_QUIC_FRAME_SIZE,
        0 <= at < quic_framed::framed(frame).len(),
    ensures
        ({
            let (whole, last, end) = drained(
                Framing::fresh().arrived(quic_framed::framed(frame).take(at)),
            );
            &&& end is Read
            &&& whole.len() == 0
            &&& last.ended().1 == (if at == 0 {
                Delivery::End
            } else {
                Delivery::Error(QuicFramedError::StreamFinished)
            })
        }),
{
    let header = varint::wire_form(frame.len() as u64);
    let cut = quic_framed::framed(frame).take(at);
    let state = Framing::fresh().arrived(cut);
    assert(state.unread =~= cut);
    varint::varint_is_shortest(frame.len() as u64);
    if at < header.len() {
        assert(cut =~= header.take(at));
        varint::varint_cut_short(frame.len() as u64, at);
    } else {
        let body = frame.take(at - header.len());
        assert(cut =~= header + body);
        varint::varint_read_back(frame.len() as u64, body);
        assert(cut.skip(header.len() as int) =~= body);
    }
}

/// A stream that is cut anywhere delivers the frames that came through whole,
/// and no other. Its end is an error wherever it comes inside a frame, header
/// included: only a cut between two frames goes unnoticed.
pub proof fn cut_stream(frames: Seq<Seq<u8>>, at: int)
    requires
        all_fit(frames),
        0 <= at <= on_the_wire(frames).len(),
    ensures
        ({
            let (whole, last, end) = drained(
                Framing::fresh().arrived(on_the_wire(frames).take(at)),
            );
            &&& end is Read
            &&& whole.len() <= frames.len()
            &&& whole == frames.take(whole.len() as int)
            &&& on_the_wire(whole).len() <= at
            &&& whole.len() < frames.len() ==> at < on_the_wire(
                frames.take(whole.len() as int + 1),
            ).len()
            &&& last.ended().1 == (if falls_between_frames(frames, at) {
                Delivery::End
            } else {
                Delivery::Error(QuicFramedError::StreamFinished)
            })
        }),
    decreases frames.len(),
{
    let wire = on_the_wire(frames);
    let state = Framing::fresh().arrived(wire.take(at));
    assert(state.unread =~= wire.take(at));
    if frames.len() == 0 {
        assert(frames.take(0) =~= Seq::empty());
    } else {
        let frame = frames[0];
        let tail = frames.drop_first();
        let first = quic_framed::framed(frame);
        assert forall|i: int| 0 <= i < tail.len() implies (#[trigger] tail[i]).len()
            <= MAX_QUIC_FRAME_SIZE by {
            assert(tail[i] == frames[i + 1]);
        }
        varint::varint_is_shortest(frame.len() as u64);
        if at >= first.len() {
            let left = on_the_wire(tail).take(at - first.len());
            assert(state.unread =~= first + left);
            whole_frame_is_delivered(state, frame, left);
            assert(Framing { unread: left, ..state } =~= Framing::fresh().arrived(left));
            cut_stream(tail, at - first.len());
            let (rest, _, _) = drained(Framing::fresh().arrived(left));
            let whole = seq![frame] + rest;
            assert(whole =~= frames.take(whole.len() as int));
            assert(whole.drop_first() =~= rest);
            if whole.len() < frames.len() {
                assert(frames.take(whole.len() as int + 1).drop_first() =~= tail.take(rest.len() as int + 1));
            }
        } else {
            assert(frames.take(0) =~= Seq::empty());
            assert(frames.take(1).drop_first() =~= Seq::empty());
            assert(wire.take(at) =~= first.take(at));
            lemma_cut_frame(frame, at);
        }
    }
}

/// What happens to the sending side.
pub enum SinkOp {
    /// A frame is handed over for sending.
    Send(Seq<u8>),
    /// The send stream takes this many of the unsent bytes.
    Write(nat),
}

/// No write takes more than what is unsent when it comes.
pub open spec fn writes_fit(state: Framing, ops: Seq<SinkOp>) -> bool
    decreases ops.len(),
{
    ops.len() == 0 || match ops[0] {
        SinkOp::Send(frame) => writes_fit(handed_over(state, frame), ops.drop_first()),
        SinkOp::Write(n) => {
            &&& n <= state.unsent.len()
            &&& writes_fit(state.written(n), ops.drop_first())
        },
    }
}

/// The state once `frame` was handed over: it is accepted if it is not too large.
pub open spec fn handed_over(state: Framing, frame: Seq<u8>) -> Framing {
    if frame.len() <= MAX_QUIC_FRAME_SIZE {
        state.accepted(frame)
    } else {
        state
    }
}

/// The frames among `ops` that are accepted: those within the limit, in their order.
pub open spec fn accepted_frames(ops: Seq<SinkOp>) -> Seq<Seq<u8>>
    decreases ops.len(),
{
    if ops.len() == 0 {
        Seq::empty()
    } else {
        let later = accepted_frames(ops.drop_first());
        match ops[0] {
            SinkOp::Send(frame) => if frame.len() <= MAX_QUIC_FRAME_SIZE {
                seq![frame] + later
            } else {
                later
            },
            SinkOp::Write(_) => later,
        }
    }
}

/// The bytes that go out in the course of `ops`, and the state then.
pub open spec fn sent(state: Framing, ops: Seq<SinkOp>) -> (Seq<u8>, Framing)
    decreases ops.len(),
{
    if ops.len() == 0 {
        (Seq::empty(), state)
    } else {
        match ops[0] {
            SinkOp::Send(frame) => sent(handed_over(state, frame), ops.drop_first()),
            SinkOp::Write(n) => {
                let (more, last) = sent(state.written(n), ops.drop_first());
                (state.unsent.take(n as int) + more, last)
            },
        }
    }
}

/// No accepted frame is lost, doubled or moved. In whatever order frames are
/// handed over and writes are made, of whatever sizes, what went out and what is
/// unsent are together what was unsent before and then the accepted frames. A
/// flush is through exactly when all of it is out.
pub proof fn accepted_frames_go_out(state: Framing, ops: Seq<SinkOp>)
    requires
        writes_fit(state, ops),
    ensures
        ({
            let (out, last) = sent(state, ops);
            let due = state.unsent + on_the_wire(accepted_frames(ops));
            &&& out + last.unsent == due
            &&& last.flushing() is Flushed <==> out == due
            &&& last == (Framing { unsent: last.unsent, ..state })
        }),
    decreases ops.len(),
{
    let (out, last) = sent(state, ops);
    let due = state.unsent + on_the_wire(accepted_frames(ops));
    if ops.len() == 0 {
        assert(out + last.unsent =~= due);
    } else {
        let rest = ops.drop_first();
        let later = accepted_frames(rest);
        match ops[0] {
            SinkOp::Send(frame) => {
                accepted_frames_go_out(handed_over(state, frame), rest);
                if frame.len() <= MAX_QUIC_FRAME_SIZE {
                    assert((seq![frame] + later).drop_first() =~= later);
                    assert((state.unsent + quic_framed::framed(frame)) + on_the_wire(later)
                        =~= due);
                }
            },
            SinkOp::Write(n) => {
                accepted_frames_go_out(state.written(n), rest);
                let (more, _) = sent(state.written(n), rest);
                let head = state.unsent.take(n as int);
                let tail = state.unsent.skip(n as int);
                assert((head + more) + last.unsent =~= head + (more + last.unsent));
                assert(head + (tail + on_the_wire(later)) =~= due) by {
                    assert(head + tail =~= state.unsent);
                }
            },
        }
    }
    if last.unsent.len() == 0 {
        assert(out + last.unsent =~= out);
    } else {
        assert(out.len() < due.len());
    }
}

/// Accepted frames are within the limit.
proof fn lemma_accepted_fit(ops: Seq<SinkOp>)
    ensures
        all_fit(accepted_frames(ops)),
    decreases ops.len(),
{
    if ops.len() > 0 {
        lemma_accepted_fit(ops.drop_first());
    }
}

/// From sink to stream: a sender hands frames over and writes, in any order and
/// in writes of any size, until all is flushed; a receiver gets the bytes in
/// reads of any size. It delivers the accepted frames, in the same order, and
/// then a clean end.
pub proof fn frames_survive_the_stream(ops: Seq<SinkOp>, reads: Seq<Seq<u8>>)
    requires
        writes_fit(Framing::fresh(), ops),
        sent(Framing::fresh(), ops).1.flushing() is Flushed,
        forall|i: int| 0 <= i < reads.len() ==> (#[trigger] reads[i]).len() > 0,
        reads.flatten() == sent(Framing::fresh(), ops).0,
    ensures
        delivered(Framing::fresh(), reads.push(Seq::empty())) == (
            accepted_frames(ops),
            (Framing { finished: true, ..Framing::fresh() }),
            Delivery::End,
        ),
{
    let frames = accepted_frames(ops);
    accepted_frames_go_out(Framing::fresh(), ops);
    lemma_accepted_fit(ops);
    assert(Seq::<u8>::empty() + on_the_wire(frames) =~= on_the_wire(frames));
    frames_are_read_back(frames, reads);
}

/// A frame stands on the wire as it is, behind its length.
pub proof fn frame_layout(frame: Seq<u8>)
    requires
        frame.len() <= MAX_QUIC_FRAME_SIZE,
    ensures
        ({
            let wire = quic_framed::framed(frame);
            let header = (wire.len() - frame.len()) as int;
            &&& header == 1 || header == 2 || header == 4
            &&& wire.skip(header) == frame
            &&& wire.take(header) == varint::wire_form(frame.len() as u64)
            &&& varint::value_at(wire) == Some((frame.len(), header as nat))
        }),
{
    let header = varint::wire_form(frame.len() as u64);
    let wire = quic_framed::framed(frame);
    varint::varint_is_shortest(frame.len() as u64);
    varint::varint_read_back(frame.len() as u64, frame);
    assert(wire.skip(header.len() as int) =~= frame);
    assert(wire.take(header.len() as int) =~= header);
}

/// What a poll does with the bytes at hand. It takes at most one header and one
/// frame off their front, hands the bytes of the frame on as they are, and asks
/// for a read only where the frame is not all there. It leaves the sending side
/// alone.
pub proof fn a_poll_takes_one_frame(state: Framing)
    ensures
        ({
            let (next, answer) = state.polled();
            let bytes = state.unread;
            let here = bytes.len() as int;
            &&& next.unsent == state.unsent
            &&& next.finished == state.finished
            &&& state.finished ==> next == state && answer == Delivery::End
            &&& !state.finished ==> match (state.pending, varint::value_at(bytes)) {
                (Some(len), _) => if here < len {
                    next == state && answer == Delivery::Read
                } else {
                    &&& next.unread == bytes.skip(len as int)
                    &&& next.pending is None
                    &&& answer == Delivery::Frame(bytes.take(len as int))
                },
                (None, None) => next == state && answer == Delivery::Read,
                (None, Some((len, header))) => if len > MAX_QUIC_FRAME_SIZE {
                    &&& next == state
                    &&& answer matches Delivery::Error(QuicFramedError::FrameTooLarge(size))
                    &&& len <= usize::MAX ==> size == len
                    &&& len > usize::MAX ==> size == usize::MAX
                } else if here < header + len {
                    &&& next.unread == bytes.skip(header as int)
                    &&& next.pending == Some(len as usize)
                    &&& answer == Delivery::Read
                } else {
                    &&& next.unread == bytes.skip((header + len) as int)
                    &&& next.pending is None
                    &&& answer == Delivery::Frame(
                        bytes.subrange(header as int, (header + len) as int),
                    )
                },
            }
        }),
{
    varint::varint_in_range(state.unread);
    if !state.finished && state.pending is None && varint::value_at(state.unread) is Some {
        let (len, header) = varint::value_at(state.unread)->0;
        if len <= MAX_QUIC_FRAME_SIZE && state.unread.len() >= header + len {
            let body = state.unread.skip(header as int);
            assert(body.take(len as int) =~= state.unread.subrange(
                header as int,
                (header + len) as int,
            ));
            assert(body.skip(len as int) =~= state.unread.skip((header + len) as int));
        }
    }
    if !state.finished && state.pending is Some && state.unread.len() < state.pending->0 {
        assert(state.polled().0 =~= state);
    }
}

/// What a read does. Bytes that arrive go behind those at hand, and the poll goes
/// on with all of them. A read of nothing ends the stream: cleanly if it comes
/// between two frames, else with an error. It loses nothing that was read.
pub proof fn a_read_is_taken_in(state: Framing, data: Seq<u8>)
    requires
        !state.finished,
    ensures
        data.len() > 0 ==> state.received(data) == (Framing {
            unread: state.unread + data,
            ..state
        }).polled(),
        data.len() == 0 ==> {
            let (next, answer) = state.received(data);
            &&& next == (Framing { finished: true, ..state })
            &&& answer == Delivery::End <==> state.unread.len() == 0 && state.pending is None
            &&& answer == Delivery::End || answer == Delivery::Error(
                QuicFramedError::StreamFinished,
            )
        },
{
}

/// Closing loses nothing. In whatever order frames were handed over and writes
/// were made, the send stream is finished exactly when what went out is what was
/// unsent before and then all of the accepted frames. Until then the sink goes
/// on writing.
pub proof fn a_close_loses_nothing(state: Framing, ops: Seq<SinkOp>)
    requires
        writes_fit(state, ops),
    ensures
        ({
            let (out, last) = sent(state, ops);
            let due = state.unsent + on_the_wire(accepted_frames(ops));
            &&& last.closing() is Finish <==> out == due
            &&& last.closing() is Write <==> out.len() < due.len()
            &&& last.flushing() is Flushed <==> out == due
            &&& last.flushing() is Write <==> out.len() < due.len()
        }),
{
    accepted_frames_go_out(state, ops);
    let (out, last) = sent(state, ops);
    let due = state.unsent + on_the_wire(accepted_frames(ops));
    assert((out + last.unsent).len() == due.len());
}

/// A sink that is closed goes on to the end of what it was given: the receiver
/// delivers every accepted frame, in order, and then a clean end.
pub proof fn a_closed_sink_has_sent_all(ops: Seq<SinkOp>, reads: Seq<Seq<u8>>)
    requires
        writes_fit(Framing::fresh(), ops),
        sent(Framing::fresh(), ops).1.closing() is Finish,
        forall|i: int| 0 <= i < reads.len() ==> (#[trigger] reads[i]).len() > 0,
        reads.flatten() == sent(Framing::fresh(), ops).0,
    ensures
        ({
            let (frames, _, end) = delivered(Framing::fresh(), reads.push(Seq::empty()));
            frames == accepted_frames(ops) && end == Delivery::End
        }),
{
    a_close_loses_nothing(Framing::fresh(), ops);
    frames_survive_the_stream(ops, reads);
}

} // verus!

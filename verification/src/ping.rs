//! The ping loop of the relay benchmark.
//!
//! One ping is under way at a time. It is answered by the pong that carries its
//! payload; anything else that arrives meanwhile is skipped. The owner of the
//! connection sends, receives and sleeps as it is told.

use vstd::prelude::*;
use vstd::string::*;

use crate::relay_bench::BenchStats;

verus! {

/// The payload of the ping with the number `seq`: the number, least significant
/// byte first, and zeros.
pub open spec fn payload_of(seq: u32) -> Seq<u8> {
    seq![
        (seq % 0x100) as u8,
        (seq / 0x100 % 0x100) as u8,
        (seq / 0x1_0000 % 0x100) as u8,
        (seq / 0x100_0000) as u8,
        0u8,
        0u8,
        0u8,
        0u8,
    ]
}

/// Makes the payload of the ping with the number `seq`.
pub fn ping_payload(seq: u32) -> (payload: [u8; 8])
    ensures
        payload@ == payload_of(seq),
{
    let payload: [u8; 8] = [
        (seq % 0x100) as u8,
        (seq / 0x100 % 0x100) as u8,
        (seq / 0x1_0000 % 0x100) as u8,
        (seq / 0x100_0000) as u8,
        0,
        0,
        0,
        0,
    ];
    assert(payload@ =~= payload_of(seq));
    payload
}

/// Whether two payloads are the same.
fn same_payload(a: &[u8; 8], b: &[u8; 8]) -> (same: bool)
    ensures
        same == (a@ == b@),
{
    let mut i: usize = 0;
    while i < 8
        invariant
            i <= 8,
            forall|j: int| 0 <= j < i ==> a@[j] == b@[j],
        decreases 8 - i,
    {
        if a[i] != b[i] {
            return false;
        }
        i = i + 1;
    }
    assert(a@ =~= b@);
    true
}

/// Why the benchmark was given up.
#[derive(Debug)]
pub enum PingError {
    /// A ping could not be sent.
    Send(String),
    /// Receiving failed.
    Receive(String),
    /// The relay closed the connection.
    Closed,
}

impl PingError {
    /// What is told to people.
    pub open spec fn text(self) -> Seq<char> {
        match self {
            PingError::Send(e) => "send Ping: "@ + e@,
            PingError::Receive(e) => "recv: "@ + e@,
            PingError::Closed => "connection closed"@,
        }
    }

    /// The error as a line of text.
    pub fn message(&self) -> (message: String)
        ensures
            message@ == self.text(),
            self matches PingError::Send(e) ==> message@ == "send Ping: "@ + e@,
            self matches PingError::Receive(e) ==> message@ == "recv: "@ + e@,
            self is Closed ==> message@ == "connection closed"@,
    {
        match self {
            PingError::Send(e) => {
                let mut message = "send Ping: ".to_owned();
                message.append(e.as_str());
                message
            },
            PingError::Receive(e) => {
                let mut message = "recv: ".to_owned();
                message.append(e.as_str());
                message
            },
            PingError::Closed => "connection closed".to_owned(),
        }
    }
}

/// What the loop waits for.
#[derive(Debug, Clone, Copy, PartialEq, Eq, Structural)]
pub enum PingPhase {
    /// The ping is being sent.
    Sending,
    /// The pong is awaited.
    Receiving,
    /// The interval between two pings is running.
    Pausing,
    /// All pings were answered.
    Done,
    /// The benchmark was given up.
    Failed,
}

/// What the loop hears of.
#[derive(Debug)]
pub enum PingEvent {
    /// The ping was sent.
    Sent,
    /// The ping could not be sent.
    SendFailed(String),
    /// A pong with this payload arrived, so many milliseconds after the ping was sent.
    Pong { payload: [u8; 8], elapsed_ms: u64 },
    /// Another message arrived.
    OtherMessage,
    /// Receiving failed.
    ReceiveFailed(String),
    /// The relay closed the connection.
    Disconnected,
    /// The interval between two pings is over.
    Resumed,
}

/// What the owner of the connection does next.
#[derive(Debug)]
pub enum PingAction {
    /// Start the clock and send the ping with this number.
    Send { seq: u32 },
    /// Wait for the next message.
    Receive,
    /// Show this sample, then wait for the interval to pass if there is a next ping.
    Sample { seq: u32, rtt: u64, last: bool },
    /// Nothing: no pings were asked for.
    Done,
    /// Give the benchmark up with this error.
    Fail { error: PingError },
}

/// The state of the loop.
#[verifier::ext_equal]
pub struct PingRun {
    /// How many pings there will be.
    pub count: u32,
    /// The number of the current ping, from 1.
    pub seq: u32,
    /// What is waited for.
    pub phase: PingPhase,
    /// The samples so far.
    pub rtts: Seq<u64>,
}

impl PingRun {
    /// Every ping before the current one has given a sample.
    pub open spec fn wf(self) -> bool {
        match self.phase {
            PingPhase::Sending | PingPhase::Receiving => {
                &&& 1 <= self.seq <= self.count
                &&& self.rtts.len() == self.seq - 1
            },
            PingPhase::Pausing => 1 <= self.seq < self.count && self.rtts.len() == self.seq,
            PingPhase::Done => self.seq == self.count && self.rtts.len() == self.count,
            PingPhase::Failed => true,
        }
    }

    /// The start of a benchmark of `count` pings.
    pub open spec fn begin(count: u32) -> (PingRun, PingAction) {
        if count == 0 {
            (
                PingRun { count, seq: 0, phase: PingPhase::Done, rtts: Seq::empty() },
                PingAction::Done,
            )
        } else {
            (
                PingRun { count, seq: 1, phase: PingPhase::Sending, rtts: Seq::empty() },
                PingAction::Send { seq: 1 },
            )
        }
    }

    /// The benchmark is given up with `error`.
    pub open spec fn failed(self, error: PingError) -> (PingRun, PingAction) {
        (PingRun { phase: PingPhase::Failed, ..self }, PingAction::Fail { error })
    }

    /// What follows on a pong. Only the payload of the current ping counts.
    pub open spec fn answered(self, payload: Seq<u8>, elapsed_ms: u64) -> (PingRun, PingAction) {
        if payload == payload_of(self.seq) {
            let last = self.seq >= self.count;
            (
                PingRun {
                    phase: if last {
                        PingPhase::Done
                    } else {
                        PingPhase::Pausing
                    },
                    rtts: self.rtts.push(elapsed_ms),
                    ..self
                },
                PingAction::Sample { seq: self.seq, rtt: elapsed_ms, last },
            )
        } else {
            (self, PingAction::Receive)
        }
    }

    /// What follows on `event`, or `None` if it is not waited for.
    pub open spec fn next(self, event: PingEvent) -> Option<(PingRun, PingAction)> {
        match (self.phase, event) {
            (PingPhase::Sending, PingEvent::Sent) => Some(
                (PingRun { phase: PingPhase::Receiving, ..self }, PingAction::Receive),
            ),
            (PingPhase::Sending, PingEvent::SendFailed(e)) => Some(
                self.failed(PingError::Send(e)),
            ),
            (PingPhase::Receiving, PingEvent::Pong { payload, elapsed_ms }) => Some(
                self.answered(payload@, elapsed_ms),
            ),
            (PingPhase::Receiving, PingEvent::OtherMessage) => Some((self, PingAction::Receive)),
            (PingPhase::Receiving, PingEvent::ReceiveFailed(e)) => Some(
                self.failed(PingError::Receive(e)),
            ),
            (PingPhase::Receiving, PingEvent::Disconnected) => Some(
                self.failed(PingError::Closed),
            ),
            (PingPhase::Pausing, PingEvent::Resumed) => Some(
                (
                    PingRun { seq: (self.seq + 1) as u32, phase: PingPhase::Sending, ..self },
                    PingAction::Send { seq: (self.seq + 1) as u32 },
                ),
            ),
            _ => None,
        }
    }
}

/// A benchmark in progress.
#[derive(Debug)]
pub struct PingLoop {
    count: u32,
    seq: u32,
    phase: PingPhase,
    stats: BenchStats,
}

impl View for PingLoop {
    type V = PingRun;

    closed spec fn view(&self) -> PingRun {
        PingRun { count: self.count, seq: self.seq, phase: self.phase, rtts: self.stats.rtts@ }
    }
}

impl PingLoop {
    /// Starts a benchmark of `count` pings.
    pub fn start(count: u32) -> (started: (PingLoop, PingAction))
        ensures
            (started.0@, started.1) == PingRun::begin(count),
            started.0@.wf(),
    {
        let stats = BenchStats::default();
        if count == 0 {
            (PingLoop { count, seq: 0, phase: PingPhase::Done, stats }, PingAction::Done)
        } else {
            (
                PingLoop { count, seq: 1, phase: PingPhase::Sending, stats },
                PingAction::Send { seq: 1 },
            )
        }
    }

    /// Decides what follows on `event`. Returns `None`, and changes nothing, if
    /// it is not waited for.
    pub fn on_event(&mut self, event: PingEvent) -> (action: Option<PingAction>)
        requires
            old(self)@.wf(),
        ensures
            final(self)@.wf(),
            match old(self)@.next(event) {
                Some((run, next)) => final(self)@ == run && action == Some(next),
                None => final(self)@ == old(self)@ && action is None,
            },
    {
        match (self.phase, event) {
            (PingPhase::Sending, PingEvent::Sent) => {
                self.phase = PingPhase::Receiving;
                Some(PingAction::Receive)
            },
            (PingPhase::Sending, PingEvent::SendFailed(e)) => Some(self.fail(PingError::Send(e))),
            // Drain until we receive our Pong back.
            (PingPhase::Receiving, PingEvent::Pong { payload, elapsed_ms }) => {
                if !same_payload(&payload, &ping_payload(self.seq)) {
                    return Some(PingAction::Receive);
                }
                self.stats.rtts.push(elapsed_ms);
                let last = self.seq >= self.count;
                self.phase = if last {
                    PingPhase::Done
                } else {
                    PingPhase::Pausing
                };
                Some(PingAction::Sample { seq: self.seq, rtt: elapsed_ms, last })
            },
            (PingPhase::Receiving, PingEvent::OtherMessage) => Some(PingAction::Receive),
            (PingPhase::Receiving, PingEvent::ReceiveFailed(e)) => Some(
                self.fail(PingError::Receive(e)),
            ),
            (PingPhase::Receiving, PingEvent::Disconnected) => Some(self.fail(PingError::Closed)),
            (PingPhase::Pausing, PingEvent::Resumed) => {
                self.seq = self.seq + 1;
                self.phase = PingPhase::Sending;
                Some(PingAction::Send { seq: self.seq })
            },
            _ => None,
        }
    }

    /// Gives the benchmark up.
    fn fail(&mut self, error: PingError) -> (action: PingAction)
        ensures
            (final(self)@, action) == old(self)@.failed(error),
    {
        self.phase = PingPhase::Failed;
        PingAction::Fail { error }
    }

    /// The samples that were taken.
    pub fn into_stats(self) -> (stats: BenchStats)
        ensures
            stats.rtts@ == self@.rtts,
    {
        self.stats
    }
}

/// No two pings carry the same payload, so that a late pong is never taken for
/// the answer to another ping.
pub proof fn payloads_differ(a: u32, b: u32)
    requires
        a != b,
    ensures
        payload_of(a) != payload_of(b),
{
    lemma_payload_spells(a);
    lemma_payload_spells(b);
}

/// The number of a ping can be read off its payload.
proof fn lemma_payload_spells(seq: u32)
    ensures
        seq == payload_of(seq)[0] + 0x100 * payload_of(seq)[1] + 0x1_0000 * payload_of(seq)[2]
            + 0x100_0000 * payload_of(seq)[3],
{
    assert(seq == (seq % 0x100) + 0x100 * (seq / 0x100 % 0x100) + 0x1_0000 * (seq / 0x1_0000
        % 0x100) + 0x100_0000 * (seq / 0x100_0000)) by (bit_vector);
    assert(seq / 0x100_0000 < 0x100);
}

/// A pong that answers another ping changes nothing.
pub proof fn foreign_pong_is_skipped(run: PingRun, other: u32, payload: [u8; 8], elapsed_ms: u64)
    requires
        run.phase == PingPhase::Receiving,
        other != run.seq,
        payload@ == payload_of(other),
    ensures
        run.next(PingEvent::Pong { payload, elapsed_ms }) == Some((run, PingAction::Receive)),
{
    payloads_differ(other, run.seq);
}

/// The actions that `events` lead to, and the state then. `None` if one of the
/// events is not waited for when it comes.
pub open spec fn ping_run(run: PingRun, events: Seq<PingEvent>) -> Option<
    (PingRun, Seq<PingAction>),
>
    decreases events.len(),
{
    if events.len() == 0 {
        Some((run, Seq::empty()))
    } else {
        match run.next(events[0]) {
            None => None,
            Some((next, action)) => match ping_run(next, events.drop_first()) {
                None => None,
                Some((last, actions)) => Some((last, seq![action] + actions)),
            },
        }
    }
}

/// The round-trip times among the actions.
pub open spec fn shown(actions: Seq<PingAction>) -> Seq<u64>
    decreases actions.len(),
{
    if actions.len() == 0 {
        Seq::empty()
    } else {
        match actions[0] {
            PingAction::Sample { rtt, .. } => seq![rtt] + shown(actions.drop_first()),
            _ => shown(actions.drop_first()),
        }
    }
}

/// The statistics are made of just the samples that were shown, in their order.
pub proof fn every_sample_is_kept(run: PingRun, events: Seq<PingEvent>)
    ensures
        ping_run(run, events) matches Some((last, actions)) ==> last.rtts == run.rtts + shown(
            actions,
        ),
    decreases events.len(),
{
    if events.len() > 0 && run.next(events[0]) is Some {
        let (next, action) = run.next(events[0])->0;
        every_sample_is_kept(next, events.drop_first());
        if let Some((last, actions)) = ping_run(next, events.drop_first()) {
            assert((seq![action] + actions).drop_first() =~= actions);
            assert(last.rtts =~= run.rtts + shown(seq![action] + actions));
        }
    } else if events.len() == 0 {
        assert(run.rtts + Seq::<u64>::empty() =~= run.rtts);
    }
}

/// The numbers of the pings that are sent among the actions.
pub open spec fn pinged(actions: Seq<PingAction>) -> Seq<u32>
    decreases actions.len(),
{
    if actions.len() == 0 {
        Seq::empty()
    } else {
        match actions[0] {
            PingAction::Send { seq } => seq![seq] + pinged(actions.drop_first()),
            _ => pinged(actions.drop_first()),
        }
    }
}

/// The numbers from `first` to `last`, in order.
pub open spec fn numbers(first: int, last: int) -> Seq<u32> {
    Seq::new((last - first + 1) as nat, |i: int| (first + i) as u32)
}

/// In a run, the pings behind the current one go out in order.
proof fn lemma_pings_in_order(run: PingRun, events: Seq<PingEvent>)
    requires
        run.wf(),
        run.seq <= run.count,
    ensures
        ping_run(run, events) matches Some((last, actions)) ==> {
            &&& last.wf()
            &&& last.count == run.count
            &&& run.seq <= last.seq <= run.count
            &&& pinged(actions) == numbers(run.seq + 1, last.seq as int)
        },
    decreases events.len(),
{
    if events.len() == 0 {
        assert(numbers(run.seq + 1, run.seq as int) =~= Seq::empty());
    } else if run.next(events[0]) is Some {
        let (next, action) = run.next(events[0])->0;
        lemma_pings_in_order(next, events.drop_first());
        if let Some((last, actions)) = ping_run(next, events.drop_first()) {
            assert((seq![action] + actions).drop_first() =~= actions);
            if action is Send {
                assert(seq![next.seq] + numbers(next.seq + 1, last.seq as int) =~= numbers(
                    run.seq + 1,
                    last.seq as int,
                ));
            }
        }
    }
}

/// The pings go out in order, each once: whatever arrives in between, those that
/// were sent so far are the numbers from 1 to the current one. A benchmark that
/// is done has sent the numbers from 1 to `count`, and has one sample for each.
pub proof fn pings_go_out_in_order(count: u32, events: Seq<PingEvent>)
    requires
        ping_run(PingRun::begin(count).0, events) is Some,
    ensures
        ({
            let (start, first) = PingRun::begin(count);
            let (last, actions) = ping_run(start, events)->0;
            let sent = pinged(seq![first] + actions);
            &&& sent == numbers(1, last.seq as int)
            &&& last.seq <= count
            &&& last.phase == PingPhase::Done ==> {
                &&& sent == numbers(1, count as int)
                &&& last.rtts.len() == count
                &&& shown(actions) == last.rtts
            }
        }),
{
    let (start, first) = PingRun::begin(count);
    let (last, actions) = ping_run(start, events)->0;
    lemma_pings_in_order(start, events);
    every_sample_is_kept(start, events);
    assert((seq![first] + actions).drop_first() =~= actions);
    assert(start.rtts + shown(actions) =~= shown(actions));
    if count > 0 {
        assert(seq![1u32] + numbers(2, last.seq as int) =~= numbers(1, last.seq as int));
    }
}

/// Whether `event` is a message that does not answer the ping with the number `seq`.
pub open spec fn is_skipped(event: PingEvent, seq: u32) -> bool {
    match event {
        PingEvent::OtherMessage => true,
        PingEvent::Pong { payload, .. } => payload@ != payload_of(seq),
        _ => false,
    }
}

/// Messages that do not answer the current ping change nothing.
pub proof fn other_messages_are_skipped(run: PingRun, skipped: Seq<PingEvent>, rest: Seq<PingEvent>)
    requires
        run.phase == PingPhase::Receiving,
        forall|i: int| 0 <= i < skipped.len() ==> is_skipped(#[trigger] skipped[i], run.seq),
    ensures
        match ping_run(run, rest) {
            None => ping_run(run, skipped + rest) is None,
            Some((last, actions)) => ping_run(run, skipped + rest) matches Some((last2, actions2))
                && last2 == last && pinged(actions2) == pinged(actions) && shown(actions2) == shown(
                actions,
            ),
        },
    decreases skipped.len(),
{
    let events = skipped + rest;
    if skipped.len() == 0 {
        assert(events =~= rest);
    } else {
        let fewer = skipped.drop_first();
        assert forall|i: int| 0 <= i < fewer.len() implies is_skipped(
            #[trigger] fewer[i],
            run.seq,
        ) by {
            assert(fewer[i] == skipped[i + 1]);
        }
        other_messages_are_skipped(run, fewer, rest);
        assert(events.drop_first() =~= fewer + rest);
        assert(is_skipped(skipped[0], run.seq) && events[0] == skipped[0]);
        assert(run.next(events[0]) == Some((run, PingAction::Receive)));
        if let Some((_, actions)) = ping_run(run, fewer + rest) {
            assert((seq![PingAction::Receive] + actions).drop_first() =~= actions);
        }
    }
}

/// The events of a benchmark from the ping with the number `from + 1` on, when
/// each ping is sent and answered. While the first is awaited, `others[0]`
/// arrives; then comes its answer, `payloads[0]`, after `rtts[0]` milliseconds;
/// and so on.
pub open spec fn all_answered(
    others: Seq<Seq<PingEvent>>,
    payloads: Seq<[u8; 8]>,
    rtts: Seq<u64>,
    from: nat,
) -> Seq<PingEvent>
    decreases rtts.len() - from,
{
    if from >= rtts.len() {
        Seq::empty()
    } else {
        let pong = PingEvent::Pong {
            payload: payloads[from as int],
            elapsed_ms: rtts[from as int],
        };
        seq![PingEvent::Sent] + (others[from as int] + (seq![pong] + if from + 1 == rtts.len() {
            Seq::empty()
        } else {
            seq![PingEvent::Resumed] + all_answered(others, payloads, rtts, from + 1)
        }))
    }
}

/// What arrives in a benchmark of `count` pings: the answer to each of them, and
/// before it only messages that do not answer it.
pub open spec fn answers(count: u32, others: Seq<Seq<PingEvent>>, payloads: Seq<[u8; 8]>) -> bool {
    &&& others.len() == count
    &&& payloads.len() == count
    &&& forall|i: int| 0 <= i < count ==> (#[trigger] payloads[i])@ == payload_of((i + 1) as u32)
    &&& forall|i: int, j: int|
        0 <= i < count && 0 <= j < others[i].len() ==> is_skipped(
            #[trigger] others[i][j],
            (i + 1) as u32,
        )
}

/// A benchmark whose pings are all sent and answered, among any other messages,
/// ends with one sample for each ping, in their order.
pub proof fn benchmark_completes(
    count: u32,
    others: Seq<Seq<PingEvent>>,
    payloads: Seq<[u8; 8]>,
    rtts: Seq<u64>,
)
    requires
        rtts.len() == count,
        answers(count, others, payloads),
    ensures
        ping_run(PingRun::begin(count).0, all_answered(others, payloads, rtts, 0)) matches Some(
            (last, _),
        ) && last.phase == PingPhase::Done && last.rtts == rtts,
{
    if count == 0 {
        assert(rtts =~= Seq::empty());
    } else {
        let start = PingRun::begin(count).0;
        assert(start.rtts =~= rtts.take(0));
        lemma_completes(start, others, payloads, rtts, 0);
    }
}

/// The rest of a benchmark whose pings are all answered.
proof fn lemma_completes(
    run: PingRun,
    others: Seq<Seq<PingEvent>>,
    payloads: Seq<[u8; 8]>,
    rtts: Seq<u64>,
    from: nat,
)
    requires
        rtts.len() == run.count,
        answers(run.count, others, payloads),
        from < run.count,
        run.phase == PingPhase::Sending,
        run.seq == from + 1,
        run.rtts == rtts.take(from as int),
    ensures
        ping_run(run, all_answered(others, payloads, rtts, from)) matches Some((last, _))
            && last.phase == PingPhase::Done && last.rtts == rtts,
    decreases run.count - from,
{
    reveal_with_fuel(ping_run, 3);
    let events = all_answered(others, payloads, rtts, from);
    let pong = PingEvent::Pong { payload: payloads[from as int], elapsed_ms: rtts[from as int] };
    let later = if from + 1 == rtts.len() {
        Seq::empty()
    } else {
        seq![PingEvent::Resumed] + all_answered(others, payloads, rtts, from + 1)
    };
    let waiting = PingRun { phase: PingPhase::Receiving, ..run };
    let samples = run.rtts.push(rtts[from as int]);
    assert(samples =~= rtts.take(from as int + 1));
    assert((seq![pong] + later).drop_first() =~= later);
    if from + 1 == rtts.len() {
        assert(samples =~= rtts);
    } else {
        let next = PingRun { seq: (run.seq + 1) as u32, rtts: samples, ..run };
        lemma_completes(next, others, payloads, rtts, from + 1);
        assert(later.drop_first() =~= all_answered(others, payloads, rtts, from + 1));
    }
    assert(ping_run(waiting, seq![pong] + later) matches Some((last, _)) && last.phase
        == PingPhase::Done && last.rtts == rtts);
    other_messages_are_skipped(waiting, others[from as int], seq![pong] + later);
    assert(events.drop_first() =~= others[from as int] + (seq![pong] + later));
}

/// A payload is the number of its ping, least significant byte first, and four zeros.
pub proof fn payload_spells_the_number(seq: u32)
    ensures
        ({
            let p = payload_of(seq);
            &&& p.len() == 8
            &&& p[0] + 0x100 * p[1] + 0x1_0000 * p[2] + 0x100_0000 * p[3] == seq
            &&& p[4] == 0 && p[5] == 0 && p[6] == 0 && p[7] == 0
        }),
{
    lemma_payload_spells(seq);
}

/// A run up to one of its events, and the step that this event leads to.
proof fn lemma_ping_prefix(run: PingRun, events: Seq<PingEvent>, i: int)
    requires
        ping_run(run, events) is Some,
        0 <= i < events.len(),
    ensures
        ({
            let (last, actions) = ping_run(run, events)->0;
            &&& actions.len() == events.len()
            &&& ping_run(run, events.take(i)) matches Some((before, earlier))
            &&& earlier == actions.take(i)
            &&& before.next(events[i]) matches Some((after, action))
            &&& action == actions[i]
            &&& i == events.len() - 1 ==> after == last
            &&& i < events.len() - 1 ==> after.next(events[i + 1]) is Some
        }),
    decreases events.len(),
{
    lemma_as_many_actions(run, events);
    let (next, action) = run.next(events[0])->0;
    let rest = events.drop_first();
    let (_, later) = ping_run(next, rest)->0;
    let actions = (ping_run(run, events)->0).1;
    assert(actions == seq![action] + later);
    if i == 0 {
        assert(events.take(0) =~= Seq::empty());
        assert(actions.take(0) =~= Seq::empty());
        if events.len() > 1 {
            assert(rest[0] == events[1]);
        } else {
            assert(rest =~= Seq::empty());
        }
    } else {
        lemma_ping_prefix(next, rest, i - 1);
        assert(events.take(i).drop_first() =~= rest.take(i - 1));
        assert(actions[i] == later[i - 1] && events[i] == rest[i - 1]);
        assert(actions.take(i) =~= seq![action] + later.take(i - 1));
        if i < events.len() - 1 {
            assert(events[i + 1] == rest[i]);
        }
    }
}

/// Every event leads to one action.
proof fn lemma_as_many_actions(run: PingRun, events: Seq<PingEvent>)
    ensures
        ping_run(run, events) matches Some((_, actions)) ==> actions.len() == events.len(),
    decreases events.len(),
{
    if events.len() > 0 && run.next(events[0]) is Some {
        lemma_as_many_actions((run.next(events[0])->0).0, events.drop_first());
    }
}

/// The samples of a benchmark of `count` pings. Each is taken on the pong that
/// carries the number of the ping that was sent last, with the time that came
/// with that pong. The samples have the numbers from 1 on, in order. A sample is
/// marked as the last exactly when its number is `count`, and exactly then the
/// benchmark is done.
pub proof fn samples_are_numbered(count: u32, events: Seq<PingEvent>, i: int)
    requires
        ping_run(PingRun::begin(count).0, events) is Some,
        0 <= i < events.len(),
    ensures
        ({
            let (start, first) = PingRun::begin(count);
            let (end, actions) = ping_run(start, events)->0;
            let earlier = actions.take(i);
            actions[i] matches PingAction::Sample { seq, rtt, last } ==> {
                &&& events[i] matches PingEvent::Pong { payload, elapsed_ms }
                &&& payload@ == payload_of(seq)
                &&& rtt == elapsed_ms
                &&& pinged(seq![first] + earlier).len() > 0
                &&& seq == pinged(seq![first] + earlier).last()
                &&& seq == shown(earlier).len() + 1
                &&& last <==> seq == count
                &&& last <==> i == events.len() - 1 && end.phase == PingPhase::Done
            }
        }),
{
    let (start, first) = PingRun::begin(count);
    let (end, actions) = ping_run(start, events)->0;
    lemma_ping_prefix(start, events, i);
    lemma_pings_in_order(start, events.take(i));
    pings_go_out_in_order(count, events.take(i));
    every_sample_is_kept(start, events.take(i));
    let (before, earlier) = ping_run(start, events.take(i))->0;
    assert(start.rtts + shown(earlier) =~= shown(earlier));
    if actions[i] is Sample {
        assert(before.phase == PingPhase::Receiving);
        assert(pinged(seq![first] + earlier) == numbers(1, before.seq as int));
    }
}

/// What each event leads to. A ping that was sent is followed by the wait for its
/// pong; the wait goes on over every message that does not answer it, and ends in
/// a sample with the pong that does; the pause is followed by a ping. A failure
/// ends the benchmark with its error.
pub proof fn actions_answer_their_events(count: u32, events: Seq<PingEvent>, i: int)
    requires
        ping_run(PingRun::begin(count).0, events) is Some,
        0 <= i < events.len(),
    ensures
        ({
            let (start, first) = PingRun::begin(count);
            let (end, actions) = ping_run(start, events)->0;
            let current = pinged(seq![first] + actions.take(i)).last();
            match events[i] {
                PingEvent::Sent => actions[i] is Receive,
                PingEvent::OtherMessage => actions[i] is Receive,
                PingEvent::Pong { payload, .. } => if payload@ == payload_of(current) {
                    actions[i] is Sample
                } else {
                    actions[i] is Receive
                },
                PingEvent::Resumed => actions[i] matches PingAction::Send { seq } && seq == current
                    + 1,
                PingEvent::SendFailed(e) => {
                    &&& actions[i] matches PingAction::Fail { error }
                    &&& error matches PingError::Send(cause)
                    &&& cause == e
                    &&& i == events.len() - 1 && end.phase == PingPhase::Failed
                },
                PingEvent::ReceiveFailed(e) => {
                    &&& actions[i] matches PingAction::Fail { error }
                    &&& error matches PingError::Receive(cause)
                    &&& cause == e
                    &&& i == events.len() - 1 && end.phase == PingPhase::Failed
                },
                PingEvent::Disconnected => {
                    &&& actions[i] matches PingAction::Fail { error }
                    &&& error is Closed
                    &&& i == events.len() - 1 && end.phase == PingPhase::Failed
                },
            }
        }),
{
    let (start, first) = PingRun::begin(count);
    lemma_ping_prefix(start, events, i);
    lemma_pings_in_order(start, events.take(i));
    pings_go_out_in_order(count, events.take(i));
    let (before, earlier) = ping_run(start, events.take(i))->0;
    assert(before.seq >= 1 ==> numbers(1, before.seq as int).last() == before.seq);
}

/// What is waited for: at the start, and behind the pause, that a ping is sent;
/// behind that, a message, until the pong came; behind a sample that is not the
/// last, the end of the pause; behind the last sample or a failure, nothing.
/// Whatever is waited for is heard, and nothing else is.
pub proof fn only_what_is_awaited_is_heard(count: u32, events: Seq<PingEvent>, event: PingEvent)
    requires
        ping_run(PingRun::begin(count).0, events) is Some,
    ensures
        ({
            let (start, first) = PingRun::begin(count);
            let actions = seq![first] + (ping_run(start, events)->0).1;
            let heard = ping_run(start, events.push(event)) is Some;
            match actions.last() {
                PingAction::Send { .. } => heard <==> event is Sent || event is SendFailed,
                PingAction::Receive => heard <==> event is Pong || event is OtherMessage
                    || event is ReceiveFailed || event is Disconnected,
                PingAction::Sample { last, .. } => heard <==> !last && event is Resumed,
                PingAction::Done => !heard,
                PingAction::Fail { .. } => !heard,
            }
        }),
        count == 0 <==> PingRun::begin(count).1 is Done,
        count > 0 <==> PingRun::begin(count).1 == (PingAction::Send { seq: 1 }),
{
    let (start, first) = PingRun::begin(count);
    let (end, actions) = ping_run(start, events)->0;
    lemma_as_many_actions(start, events);
    lemma_pings_in_order(start, events);
    lemma_one_more(start, events, event);
    if events.len() > 0 {
        let i = events.len() - 1;
        lemma_ping_prefix(start, events, i);
        lemma_pings_in_order(start, events.take(i));
        assert((seq![first] + actions).last() == actions[i]);
    } else {
        assert((seq![first] + actions).last() == first);
    }
}

/// A run with one more event.
proof fn lemma_one_more(run: PingRun, events: Seq<PingEvent>, event: PingEvent)
    requires
        ping_run(run, events) is Some,
    ensures
        ping_run(run, events.push(event)) is Some <==> (ping_run(run, events)->0).0.next(
            event,
        ) is Some,
    decreases events.len(),
{
    reveal_with_fuel(ping_run, 2);
    let all = events.push(event);
    if events.len() == 0 {
        assert(all.drop_first() =~= Seq::empty());
    } else {
        lemma_one_more((run.next(events[0])->0).0, events.drop_first(), event);
        assert(all.drop_first() =~= events.drop_first().push(event));
    }
}

} // verus!

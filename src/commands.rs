use vstd::prelude::*;

use crate::decimal::{self, Decimal};
use crate::decoder::{self, latin1_text, parse_decimal_or_zero, parse_int_or_zero, trim_bytes};
use crate::encoder::{
    self, encode_current, encode_current_state_query, encode_erase, encode_position_p,
    encode_position_q, encode_read, encode_requested_state, encode_save, encode_trajectory,
    encode_velocity, encode_velocity_query, encode_write,
};
use crate::enumerations::{Axis, AxisState, ControlMode, EncoderMode, IDLE_CODE};
use crate::errors::{ODriveError, ODriveResult};
use crate::stream::{self, DuplexStream, StreamEvent, READ_TIMEOUT_US};
use crate::text::{self, nat_to_text};

verus! {

/// How many times a state change is polled before it counts as not finished.
pub const POLL_ATTEMPTS: u32 = 100;

/// How long to wait before each poll of a state change, in milliseconds.
pub const POLL_INTERVAL_MS: u64 = 100;

/// `s` written `k` times over.
pub open spec fn repeat(s: Seq<u8>, k: nat) -> Seq<u8>
    decreases k,
{
    if k == 0 {
        seq![]
    } else {
        repeat(s, (k - 1) as nat) + s
    }
}

/// The bytes of a command line on the wire.
pub open spec fn wire(line: Seq<char>) -> Seq<u8> {
    vstd::utf8::encode_utf8(line)
}

/// The events of sending `bytes`: a write and a flush that both succeeded when `ok`; else a
/// failed write, or a write and a failed flush.
pub open spec fn send_trace(t: Seq<StreamEvent>, bytes: Seq<u8>, ok: bool) -> bool {
    if ok {
        t == seq![StreamEvent::Wrote(bytes), StreamEvent::Flushed]
    } else {
        t == seq![StreamEvent::Failed] || t == seq![StreamEvent::Wrote(bytes), StreamEvent::Failed]
    }
}

/// Reads that give no newline and never come up empty.
pub open spec fn unfinished_line(log: Seq<Option<u8>>) -> bool {
    forall|j: int| 0 <= j < log.len() ==> !stream::ends_line(#[trigger] log[j])
}

/// The events of one line read: reads through the first newline or the first read that
/// gave nothing, when `ok`; else reads of a line not yet ended, then a failed read.
pub open spec fn read_trace(t: Seq<StreamEvent>, ok: bool) -> bool {
    if ok {
        stream::all_reads(t) && stream::one_line_read(stream::received_bytes(t))
    } else {
        &&& stream::ends_failed(t)
        &&& stream::all_reads(t.drop_last())
        &&& unfinished_line(stream::received_bytes(t.drop_last()))
    }
}

/// The line that a line read whose events are `t` gave.
pub open spec fn line_of(t: Seq<StreamEvent>) -> Option<Seq<u8>> {
    stream::line_read(stream::received_bytes(t)).1
}

/// The events of sending `bytes` and reading the reply: a failed send, or a send and then
/// a line read, which succeeded when `ok`.
pub open spec fn query_trace(t: Seq<StreamEvent>, bytes: Seq<u8>, ok: bool) -> bool {
    (!ok && send_trace(t, bytes, false)) || (t.len() >= 2 && t.subrange(0, 2) == seq![
        StreamEvent::Wrote(bytes),
        StreamEvent::Flushed,
    ] && read_trace(t.subrange(2, t.len() as int), ok))
}

/// The reply that the query whose events are `t` read.
pub open spec fn query_reply(t: Seq<StreamEvent>) -> Option<Seq<u8>> {
    line_of(t.subrange(2, t.len() as int))
}

/// The events of one poll of a state change: a pause, the query written and flushed, and
/// the line read of the reply, all of which succeeded.
pub open spec fn poll_round(t: Seq<StreamEvent>, query: Seq<u8>) -> bool {
    &&& t.len() >= 3
    &&& t.subrange(0, 3) == seq![
        StreamEvent::Paused,
        StreamEvent::Wrote(query),
        StreamEvent::Flushed,
    ]
    &&& read_trace(t.subrange(3, t.len() as int), true)
}

/// The events of a poll that failed: a pause, then a failed send of the query, or the
/// query sent and a failed read.
pub open spec fn failed_round(t: Seq<StreamEvent>, query: Seq<u8>) -> bool {
    ||| (t.len() >= 1 && t[0] is Paused && send_trace(t.subrange(1, t.len() as int), query, false))
    ||| (t.len() >= 3 && t.subrange(0, 3) == seq![
        StreamEvent::Paused,
        StreamEvent::Wrote(query),
        StreamEvent::Flushed,
    ] && read_trace(t.subrange(3, t.len() as int), false))
}

/// The events `t` are `request` sent, then the full polls `rounds`.
pub open spec fn state_change_trace(
    t: Seq<StreamEvent>,
    request: Seq<u8>,
    query: Seq<u8>,
    rounds: Seq<Seq<StreamEvent>>,
) -> bool {
    &&& t == seq![StreamEvent::Wrote(request), StreamEvent::Flushed] + flatten(rounds)
    &&& forall|i: int| 0 <= i < rounds.len() ==> poll_round(#[trigger] rounds[i], query)
}

/// The events `t` are `request` sent, then the full polls `rounds`, none of which read
/// idle, then the poll `last`, which failed.
pub open spec fn failed_state_change(
    t: Seq<StreamEvent>,
    request: Seq<u8>,
    query: Seq<u8>,
    rounds: Seq<Seq<StreamEvent>>,
    last: Seq<StreamEvent>,
) -> bool {
    &&& t == seq![StreamEvent::Wrote(request), StreamEvent::Flushed] + flatten(rounds) + last
    &&& rounds.len() < POLL_ATTEMPTS
    &&& forall|i: int|
        0 <= i < rounds.len() ==> poll_round(#[trigger] rounds[i], query) && state_reading(
            round_reply(rounds[i]),
        ) != IDLE_CODE
    &&& failed_round(last, query)
}

/// The events `t` are those of a state change that succeeded: `request` sent, then, when
/// the change was awaited, the polls up to the first reply that read idle or up to
/// `POLL_ATTEMPTS` polls; `done` tells whether idle came with attempts to spare.
pub open spec fn state_change_done(
    t: Seq<StreamEvent>,
    request: Seq<u8>,
    query: Seq<u8>,
    wait: bool,
    done: bool,
) -> bool {
    exists|rounds: Seq<Seq<StreamEvent>>|
        #[trigger] state_change_trace(t, request, query, rounds) && if wait {
            poll_finished(round_replies(rounds)) && done == (rounds.len() < POLL_ATTEMPTS)
        } else {
            rounds.len() == 0 && done
        }
}

/// The events `t` are those of a state change that failed: the send of `request` failed,
/// or, when the change was awaited, a poll failed after polls that read no idle.
pub open spec fn state_change_failed(
    t: Seq<StreamEvent>,
    request: Seq<u8>,
    query: Seq<u8>,
    wait: bool,
) -> bool {
    send_trace(t, request, false) || (wait && exists|
        rounds: Seq<Seq<StreamEvent>>,
        last: Seq<StreamEvent>,
    | #[trigger] failed_state_change(t, request, query, rounds, last))
}

/// The reply that the poll whose events are `t` read.
pub open spec fn round_reply(t: Seq<StreamEvent>) -> Option<Seq<u8>> {
    line_of(t.subrange(3, t.len() as int))
}

/// The events of the rounds, one after the other.
pub open spec fn flatten(rounds: Seq<Seq<StreamEvent>>) -> Seq<StreamEvent>
    decreases rounds.len(),
{
    if rounds.len() == 0 {
        seq![]
    } else {
        flatten(rounds.drop_last()) + rounds.last()
    }
}

/// The replies of the rounds, in order.
pub open spec fn round_replies(rounds: Seq<Seq<StreamEvent>>) -> Seq<Option<Seq<u8>>> {
    rounds.map_values(|t: Seq<StreamEvent>| round_reply(t))
}

/// The session went from `before` to `after` by sending `line`; `ok` tells whether the
/// write and the flush succeeded.
pub open spec fn sends<T>(before: ODrive<T>, after: ODrive<T>, line: Seq<char>, ok: bool) -> bool {
    &&& stream::extends(before.events(), after.events())
    &&& send_trace(stream::since(before.events(), after.events()), wire(line), ok)
}

/// The session went from `before` to `after` by one line read; `ok` tells whether every
/// read succeeded.
pub open spec fn reads_line<T>(before: ODrive<T>, after: ODrive<T>, ok: bool) -> bool {
    &&& stream::extends(before.events(), after.events())
    &&& read_trace(stream::since(before.events(), after.events()), ok)
}

/// The line that the session read from `before` to `after`.
pub open spec fn line_between<T>(before: ODrive<T>, after: ODrive<T>) -> Option<Seq<u8>> {
    line_of(stream::since(before.events(), after.events()))
}

/// The session went from `before` to `after` by sending `line` and reading the reply; `ok`
/// tells whether every call succeeded.
pub open spec fn queries<T>(before: ODrive<T>, after: ODrive<T>, line: Seq<char>, ok: bool) -> bool {
    &&& stream::extends(before.events(), after.events())
    &&& query_trace(stream::since(before.events(), after.events()), wire(line), ok)
}

/// What a reply reads as text: the line without whitespace at its ends.
pub open spec fn reply_text(line: Option<Seq<u8>>) -> Option<Seq<char>> {
    match line {
        Some(l) => Some(decoder::latin1(decoder::trim(l))),
        None => None,
    }
}

/// What a reply reads as an integer.
pub open spec fn reply_int(line: Option<Seq<u8>>) -> Option<i32> {
    match line {
        Some(l) => Some(decoder::int_or_zero(decoder::trim(l))),
        None => None,
    }
}

/// What a reply reads as a decimal number.
pub open spec fn reply_decimal(line: Option<Seq<u8>>) -> Option<Decimal> {
    match line {
        Some(l) => Some(decoder::decimal_or_zero(decoder::trim(l))),
        None => None,
    }
}

/// The state code that a reply to a state query stands for; no reply stands for zero.
pub open spec fn state_reading(line: Option<Seq<u8>>) -> i32 {
    match reply_int(line) {
        Some(v) => v,
        None => 0,
    }
}

/// Whether `replies` are those of a finished poll: each but the last showed a state
/// other than idle, and the last showed idle or used up the attempts.
pub open spec fn poll_finished(replies: Seq<Option<Seq<u8>>>) -> bool {
    let k = replies.len();
    &&& 1 <= k <= POLL_ATTEMPTS
    &&& forall|i: int| 0 <= i < k - 1 ==> state_reading(#[trigger] replies[i]) != IDLE_CODE
    &&& (k == POLL_ATTEMPTS || state_reading(replies[k - 1]) == IDLE_CODE)
}

/// A poll stops at the same reply whatever the replies after it: of two finished polls
/// where the replies of one begin those of the other, both made the same polls. So the first
/// reply that reads as idle ends the poll, and replies that never do end it after exactly
/// `POLL_ATTEMPTS` polls.
pub proof fn lemma_poll_stops_once(shorter: Seq<Option<Seq<u8>>>, longer: Seq<Option<Seq<u8>>>)
    requires
        poll_finished(shorter),
        poll_finished(longer),
        shorter.len() <= longer.len(),
        shorter == longer.subrange(0, shorter.len() as int),
    ensures
        shorter == longer,
{
    if shorter.len() < longer.len() {
        let last = shorter.len() - 1;
        assert(shorter[last] == longer[last]);
        assert(state_reading(longer[last]) != IDLE_CODE);
    }
    assert(shorter =~= longer);
}

/// A write of a setting that succeeded adds the same events to whatever session made it,
/// however many calls came before: the line depends on the axis, the path and the value
/// alone. The bytes it adds are that line.
pub proof fn lemma_setting_is_stateless<T>(
    before1: ODrive<T>,
    after1: ODrive<T>,
    before2: ODrive<T>,
    after2: ODrive<T>,
    axis: Axis,
    suffix: Seq<char>,
    value: Seq<char>,
)
    requires
        sends(before1, after1, encoder::setting_command(axis, suffix, value), true),
        sends(before2, after2, encoder::setting_command(axis, suffix, value), true),
    ensures
        stream::since(before1.events(), after1.events()) == stream::since(
            before2.events(),
            after2.events(),
        ),
        after1.sent() == before1.sent() + wire(encoder::setting_command(axis, suffix, value)),
        after1.received() == before1.received(),
        after1.flushed(),
{
    let t = stream::since(before1.events(), after1.events());
    assert(after1.events() =~= before1.events() + t);
    stream::lemma_events_concat(before1.events(), t);
    stream::lemma_short_traces(t[0], t[1], t[1]);
    assert(stream::sent_bytes(t) =~= wire(encoder::setting_command(axis, suffix, value)));
    assert(stream::received_bytes(t) =~= Seq::<Option<u8>>::empty());
    assert(before1.received() + Seq::<Option<u8>>::empty() =~= before1.received());
}

/// `k` writes of `s` begin any larger number of them.
proof fn lemma_repeat_prefix(s: Seq<u8>, k: nat, n: nat)
    requires
        k <= n,
    ensures
        stream::extends(repeat(s, k), repeat(s, n)),
    decreases n,
{
    if k < n {
        lemma_repeat_prefix(s, k, (n - 1) as nat);
        let a = repeat(s, k);
        let b = repeat(s, (n - 1) as nat);
        assert((b + s).subrange(0, a.len() as int) =~= b.subrange(0, a.len() as int));
    } else {
        assert(repeat(s, k).subrange(0, repeat(s, k).len() as int) =~= repeat(s, k));
    }
}

/// Full polls write one query each and nothing else.
proof fn lemma_rounds_write_queries(rounds: Seq<Seq<StreamEvent>>, query: Seq<u8>)
    requires
        forall|i: int| 0 <= i < rounds.len() ==> poll_round(#[trigger] rounds[i], query),
    ensures
        stream::sent_bytes(flatten(rounds)) == repeat(query, rounds.len()),
    decreases rounds.len(),
{
    if rounds.len() > 0 {
        let init = rounds.drop_last();
        assert forall|i: int| 0 <= i < init.len() implies poll_round(#[trigger] init[i], query) by {
            assert(init[i] == rounds[i]);
        }
        lemma_rounds_write_queries(init, query);
        let last = rounds.last();
        assert(poll_round(rounds[rounds.len() - 1], query));
        let head = last.subrange(0, 3);
        let reads = last.subrange(3, last.len() as int);
        assert(last =~= head + reads);
        stream::lemma_events_concat(head, reads);
        stream::lemma_reads_write_nothing(reads);
        stream::lemma_short_traces(head[0], head[1], head[2]);
        assert(stream::sent_bytes(head) =~= query);
        stream::lemma_events_concat(flatten(init), last);
        assert(rounds.drop_last() =~= init);
        assert(stream::sent_bytes(flatten(rounds)) =~= repeat(query, rounds.len()));
    }
}

/// A failed poll wrote its query or nothing.
proof fn lemma_failed_round_writes(last: Seq<StreamEvent>, query: Seq<u8>)
    requires
        failed_round(last, query),
    ensures
        stream::sent_bytes(last) == query || stream::sent_bytes(last) == Seq::<u8>::empty(),
{
    if last.len() >= 1 && last[0] is Paused && send_trace(
        last.subrange(1, last.len() as int),
        query,
        false,
    ) {
        let rest = last.subrange(1, last.len() as int);
        if rest.len() == 1 {
            assert(last =~= seq![last[0], rest[0]]);
            stream::lemma_short_traces(last[0], rest[0], rest[0]);
            assert(stream::sent_bytes(last) =~= Seq::<u8>::empty());
        } else {
            assert(last =~= seq![last[0], rest[0], rest[1]]);
            stream::lemma_short_traces(last[0], rest[0], rest[1]);
            assert(stream::sent_bytes(last) =~= query);
        }
    } else {
        let head = last.subrange(0, 3);
        let reads = last.subrange(3, last.len() as int);
        assert(last =~= head + reads);
        stream::lemma_events_concat(head, reads);
        stream::lemma_reads_write_nothing(reads.drop_last());
        assert(stream::sent_bytes(reads) =~= Seq::<u8>::empty());
        stream::lemma_short_traces(head[0], head[1], head[2]);
        assert(stream::sent_bytes(head) =~= query);
        assert(stream::sent_bytes(last) =~= query);
    }
}

/// A state change writes its request and at most `POLL_ATTEMPTS` queries.
proof fn lemma_state_change_writes(
    t: Seq<StreamEvent>,
    request: Seq<u8>,
    query: Seq<u8>,
    rounds: Seq<Seq<StreamEvent>>,
    last: Seq<StreamEvent>,
)
    requires
        t == seq![StreamEvent::Wrote(request), StreamEvent::Flushed] + flatten(rounds) + last,
        forall|i: int| 0 <= i < rounds.len() ==> poll_round(#[trigger] rounds[i], query),
        rounds.len() <= POLL_ATTEMPTS,
        last.len() == 0 || (failed_round(last, query) && rounds.len() < POLL_ATTEMPTS),
    ensures
        stream::extends(stream::sent_bytes(t), request + repeat(query, POLL_ATTEMPTS as nat)),
{
    let head = seq![StreamEvent::Wrote(request), StreamEvent::Flushed];
    lemma_rounds_write_queries(rounds, query);
    stream::lemma_events_concat(head, flatten(rounds));
    stream::lemma_events_concat(head + flatten(rounds), last);
    stream::lemma_short_traces(head[0], head[1], head[1]);
    assert(stream::sent_bytes(head) =~= request);
    let k = rounds.len();
    let whole = request + repeat(query, POLL_ATTEMPTS as nat);
    let written = if last.len() == 0 {
        assert(stream::sent_bytes(last) =~= Seq::<u8>::empty());
        lemma_repeat_prefix(query, k, POLL_ATTEMPTS as nat);
        k
    } else {
        lemma_failed_round_writes(last, query);
        if stream::sent_bytes(last) == query {
            lemma_repeat_prefix(query, k + 1, POLL_ATTEMPTS as nat);
            k + 1
        } else {
            lemma_repeat_prefix(query, k, POLL_ATTEMPTS as nat);
            k
        }
    };
    assert(stream::sent_bytes(t) =~= request + repeat(query, written));
    let part = repeat(query, written);
    let full = repeat(query, POLL_ATTEMPTS as nat);
    assert((request + full).subrange(0, (request + part).len() as int) =~= request
        + full.subrange(0, part.len() as int));
}

/// A longer record keeps what a shorter one held, with anything before both.
proof fn lemma_extends_after<A>(x: Seq<A>, a: Seq<A>, b: Seq<A>)
    requires
        stream::extends(a, b),
    ensures
        stream::extends(x + a, x + b),
{
    assert((x + b).subrange(0, (x + a).len() as int) =~= x + b.subrange(0, a.len() as int));
}

pub open spec fn string_view(o: Option<String>) -> Option<Seq<char>> {
    match o {
        Some(s) => Some(s@),
        None => None,
    }
}

pub open spec fn bytes_view(o: Option<Vec<u8>>) -> Option<Seq<u8>> {
    match o {
        Some(v) => Some(v@),
        None => None,
    }
}

/// Whether the poll goes on after a reply that read as `state`, with `remaining` attempts
/// left.
pub fn poll_again(state: i32, remaining: u32) -> (r: bool)
    ensures
        r == (state != IDLE_CODE && remaining > 0),
{
    state != IDLE_CODE && remaining > 0
}

/// A connection with a controller over the ASCII protocol, through a stream `T`.
pub struct ODrive<T> {
    pub io_stream: T,
    /// Every call that the session made on its stream, in order.
    pub log: Ghost<Seq<StreamEvent>>,
}

impl<T> ODrive<T> {
    /// Every call that the session made on its stream, in order.
    pub open spec fn events(self) -> Seq<StreamEvent> {
        self.log@
    }

    /// Every byte that the session has written to the stream, in order.
    pub open spec fn sent(self) -> Seq<u8> {
        stream::sent_bytes(self.log@)
    }

    /// What each read of the stream by the session gave.
    pub open spec fn received(self) -> Seq<Option<u8>> {
        stream::received_bytes(self.log@)
    }

    /// Whether a flush came after the last write.
    pub open spec fn flushed(self) -> bool {
        stream::flushed_after(self.log@)
    }

    pub fn new(io_stream: T) -> (r: Self)
        ensures
            r.io_stream == io_stream,
            r.events() == Seq::<StreamEvent>::empty(),
    {
        Self { io_stream, log: Ghost(Seq::empty()) }
    }
}

impl<T: DuplexStream> ODrive<T> {
    /// Writes a command line and flushes it, stopping at the first failure.
    fn send_line(&mut self, line: &String) -> (r: Result<(), std::io::Error>)
        ensures
            sends(*old(self), *final(self), line@, r is Ok),
    {
        let ghost start = self.log@;
        let bytes = line.as_str().as_bytes();
        match self.io_stream.write_all(bytes) {
            Ok(()) => {},
            Err(e) => {
                self.log = Ghost(self.log@.push(StreamEvent::Failed));
                assert(stream::since(start, self.log@) =~= seq![StreamEvent::Failed]);
                assert(self.log@.subrange(0, start.len() as int) =~= start);
                return Err(e);
            },
        }
        self.log = Ghost(self.log@.push(StreamEvent::Wrote(bytes@)));
        match self.io_stream.flush() {
            Ok(()) => {
                self.log = Ghost(self.log@.push(StreamEvent::Flushed));
                assert(stream::since(start, self.log@) =~= seq![
                    StreamEvent::Wrote(bytes@),
                    StreamEvent::Flushed,
                ]);
                assert(self.log@.subrange(0, start.len() as int) =~= start);
                Ok(())
            },
            Err(e) => {
                self.log = Ghost(self.log@.push(StreamEvent::Failed));
                assert(stream::since(start, self.log@) =~= seq![
                    StreamEvent::Wrote(bytes@),
                    StreamEvent::Failed,
                ]);
                assert(self.log@.subrange(0, start.len() as int) =~= start);
                Err(e)
            },
        }
    }

    /// Reads bytes through the first newline: `None` when the time for the line runs out
    /// first. Each byte is charged the time the stream says it took, and at least one
    /// microsecond.
    fn read_line(&mut self) -> (r: Result<Option<Vec<u8>>, std::io::Error>)
        ensures
            reads_line(*old(self), *final(self), r is Ok),
            r matches Ok(o) ==> bytes_view(o) == line_between(*old(self), *final(self)),
    {
        let ghost start = self.log@;
        let mut line: Vec<u8> = Vec::new();
        let mut left: u64 = READ_TIMEOUT_US;
        assert(self.log@.subrange(0, start.len() as int) =~= start);
        assert(stream::since(start, self.log@) =~= Seq::<StreamEvent>::empty());
        assert(line@.map_values(|b: u8| Some(b)) =~= Seq::<Option<u8>>::empty());
        while left > 0
            invariant
                start == old(self).log@,
                stream::extends(start, self.log@),
                stream::all_reads(stream::since(start, self.log@)),
                stream::received_bytes(stream::since(start, self.log@)) == line@.map_values(
                    |b: u8| Some(b),
                ),
                forall|j: int| 0 <= j < line@.len() ==> #[trigger] line@[j] != 10u8,
            decreases left,
        {
            let ghost before = self.log@;
            match self.io_stream.read_byte(left) {
                Err(e) => {
                    self.log = Ghost(self.log@.push(StreamEvent::Failed));
                    proof {
                        stream::lemma_record(start, before, StreamEvent::Failed);
                        let t = stream::since(start, self.log@);
                        assert(t.drop_last() =~= stream::since(start, before));
                        let m = line@.map_values(|b: u8| Some(b));
                        assert forall|j: int| 0 <= j < m.len() implies !stream::ends_line(
                            #[trigger] m[j],
                        ) by {
                            assert(m[j] == Some(line@[j]));
                        }
                    }
                    return Err(e);
                },
                Ok(None) => {
                    self.log = Ghost(self.log@.push(StreamEvent::Got(None)));
                    proof {
                        self.lemma_read_ends(start, before, line@, None);
                    }
                    return Ok(None);
                },
                Ok(Some((b, waited))) => {
                    self.log = Ghost(self.log@.push(StreamEvent::Got(Some(b))));
                    if b == 10 {
                        proof {
                            self.lemma_read_ends(start, before, line@, Some(b));
                        }
                        return Ok(Some(line));
                    }
                    proof {
                        stream::lemma_record(start, before, StreamEvent::Got(Some(b)));
                        assert(line@.push(b).map_values(|b: u8| Some(b)) =~= line@.map_values(
                            |b: u8| Some(b),
                        ).push(Some(b)));
                        let t = stream::since(start, self.log@);
                        assert forall|i: int| 0 <= i < t.len() implies #[trigger] t[i] is Got by {
                            if i < t.len() - 1 {
                                assert(t[i] == stream::since(start, before)[i]);
                            }
                        }
                    }
                    line.push(b);
                    let spent: u64 = if waited == 0 {
                        1
                    } else {
                        waited
                    };
                    left = if spent >= left {
                        0
                    } else {
                        left - spent
                    };
                },
            }
        }
        let ghost before = self.log@;
        self.log = Ghost(self.log@.push(StreamEvent::Got(None)));
        proof {
            self.lemma_read_ends(start, before, line@, None);
        }
        Ok(None)
    }

    /// A line read over bytes without a newline that ends in `last` is one line read.
    proof fn lemma_read_ends(
        self,
        start: Seq<StreamEvent>,
        before: Seq<StreamEvent>,
        line: Seq<u8>,
        last: Option<u8>,
    )
        requires
            stream::extends(start, before),
            stream::all_reads(stream::since(start, before)),
            stream::received_bytes(stream::since(start, before)) == line.map_values(
                |b: u8| Some(b),
            ),
            forall|j: int| 0 <= j < line.len() ==> #[trigger] line[j] != 10u8,
            stream::ends_line(last),
            self.log@ == before.push(StreamEvent::Got(last)),
        ensures
            stream::extends(start, self.log@),
            read_trace(stream::since(start, self.log@), true),
            line_of(stream::since(start, self.log@)) == if last == Some(10u8) {
                Some(line)
            } else {
                None
            },
    {
        stream::lemma_record(start, before, StreamEvent::Got(last));
        stream::lemma_one_line_read(line, last);
        let t = stream::since(start, self.log@);
        assert(line.map_values(|b: u8| Some(b)) + seq![last] =~= line.map_values(|b: u8| Some(b)).push(
            last,
        ));
        assert(stream::received_bytes(t) == line.map_values(|b: u8| Some(b)).push(last));
        assert forall|i: int| 0 <= i < t.len() implies #[trigger] t[i] is Got by {
            if i < t.len() - 1 {
                assert(t[i] == stream::since(start, before)[i]);
            }
        }
    }

    /// Reads the next reply as text, without whitespace at its ends; `None` when no reply
    /// came in time.
    pub fn read_string(&mut self) -> (r: Result<Option<String>, std::io::Error>)
        ensures
            reads_line(*old(self), *final(self), r is Ok),
            r matches Ok(o) ==> string_view(o) == reply_text(line_between(*old(self), *final(self))),
    {
        match self.read_line() {
            Err(e) => Err(e),
            Ok(None) => Ok(None),
            Ok(Some(line)) => {
                let trimmed = trim_bytes(line.as_slice());
                Ok(Some(latin1_text(trimmed.as_slice())))
            },
        }
    }

    /// Reads the next reply as an integer: zero when it is not one, `None` when no reply
    /// came in time.
    pub fn read_int(&mut self) -> (r: Result<Option<i32>, std::io::Error>)
        ensures
            reads_line(*old(self), *final(self), r is Ok),
            r matches Ok(o) ==> o == reply_int(line_between(*old(self), *final(self))),
    {
        match self.read_line() {
            Err(e) => Err(e),
            Ok(None) => Ok(None),
            Ok(Some(line)) => {
                let trimmed = trim_bytes(line.as_slice());
                Ok(Some(parse_int_or_zero(trimmed.as_slice())))
            },
        }
    }

    /// Reads the next reply as a decimal number: zero when it is not one, `None` when no
    /// reply came in time.
    pub fn read_float(&mut self) -> (r: Result<Option<Decimal>, std::io::Error>)
        ensures
            reads_line(*old(self), *final(self), r is Ok),
            r matches Ok(o) ==> o == reply_decimal(line_between(*old(self), *final(self))),
    {
        match self.read_line() {
            Err(e) => Err(e),
            Ok(None) => Ok(None),
            Ok(Some(line)) => {
                let trimmed = trim_bytes(line.as_slice());
                Ok(Some(parse_decimal_or_zero(trimmed.as_slice())))
            },
        }
    }

    /// Sends `line` and reads the reply line, stopping at the first failure.
    fn query(&mut self, line: &String) -> (r: Result<Option<Vec<u8>>, std::io::Error>)
        ensures
            queries(*old(self), *final(self), line@, r is Ok),
            r matches Ok(o) ==> bytes_view(o) == query_reply(
                stream::since(old(self).events(), final(self).events()),
            ),
    {
        let ghost start = self.log@;
        match self.send_line(line) {
            Ok(()) => {},
            Err(e) => return Err(e),
        }
        let ghost mid = self.log@;
        let r = self.read_line();
        proof {
            let a = stream::since(start, mid);
            let b = stream::since(mid, self.log@);
            assert(self.log@ =~= start + a + b);
            assert(stream::since(start, self.log@) =~= a + b);
            assert(self.log@.subrange(0, start.len() as int) =~= start);
            assert((a + b).subrange(0, 2) =~= a);
            assert((a + b).subrange(2, (a + b).len() as int) =~= b);
        }
        r
    }

    /// Asks for a named setting, `r <path>`, and reads the reply as text.
    pub fn read_setting(&mut self, path: &str) -> (r: Result<Option<String>, std::io::Error>)
        ensures
            queries(*old(self), *final(self), encoder::read_command(path@), r is Ok),
            r matches Ok(o) ==> string_view(o) == reply_text(
                query_reply(stream::since(old(self).events(), final(self).events())),
            ),
    {
        let line = encode_read(path);
        match self.query(&line) {
            Err(e) => Err(e),
            Ok(None) => Ok(None),
            Ok(Some(reply)) => {
                let trimmed = trim_bytes(reply.as_slice());
                Ok(Some(latin1_text(trimmed.as_slice())))
            },
        }
    }

    /// Queries the velocity estimate of an axis and reads the reply.
    pub fn get_velocity(&mut self, axis: Axis) -> (r: Result<Option<Decimal>, std::io::Error>)
        ensures
            queries(*old(self), *final(self), encoder::velocity_query(axis), r is Ok),
            r matches Ok(o) ==> o == reply_decimal(
                query_reply(stream::since(old(self).events(), final(self).events())),
            ),
    {
        let line = encode_velocity_query(axis);
        match self.query(&line) {
            Err(e) => Err(e),
            Ok(None) => Ok(None),
            Ok(Some(reply)) => {
                let trimmed = trim_bytes(reply.as_slice());
                Ok(Some(parse_decimal_or_zero(trimmed.as_slice())))
            },
        }
    }

    /// Asks the axis to change to `requested_state`. With `wait`, polls the state of the
    /// axis every `POLL_INTERVAL_MS` until it reads as idle or `POLL_ATTEMPTS` polls were
    /// made, and tells whether it became idle with attempts to spare. Stops at the first
    /// failed stream call and returns its error.
    pub fn run_state(&mut self, axis: Axis, requested_state: AxisState, wait: bool) -> (r: Result<
        bool,
        std::io::Error,
    >)
        ensures
            stream::extends(old(self).events(), final(self).events()),
            stream::extends(old(self).received(), final(self).received()),
            stream::extends(old(self).sent(), final(self).sent()),
            stream::extends(
                final(self).sent(),
                old(self).sent() + wire(encoder::requested_state_command(axis, requested_state))
                    + repeat(wire(encoder::current_state_query(axis)), POLL_ATTEMPTS as nat),
            ),
            !wait ==> final(self).received() == old(self).received(),
            r matches Ok(done) ==> state_change_done(
                stream::since(old(self).events(), final(self).events()),
                wire(encoder::requested_state_command(axis, requested_state)),
                wire(encoder::current_state_query(axis)),
                wait,
                done,
            ),
            r is Err ==> state_change_failed(
                stream::since(old(self).events(), final(self).events()),
                wire(encoder::requested_state_command(axis, requested_state)),
                wire(encoder::current_state_query(axis)),
                wait,
            ),
    {
        let ghost start = self.log@;
        let ghost request = wire(encoder::requested_state_command(axis, requested_state));
        let ghost each = wire(encoder::current_state_query(axis));
        let line = encode_requested_state(axis, requested_state);
        match self.send_line(&line) {
            Ok(()) => {},
            Err(e) => {
                proof {
                    let t = stream::since(start, self.log@);
                    assert(self.log@ =~= start + t);
                    stream::lemma_events_concat(start, t);
                    if t.len() == 1 {
                        stream::lemma_short_traces(t[0], t[0], t[0]);
                        assert(stream::sent_bytes(t) =~= Seq::<u8>::empty());
                        assert(request + repeat(each, POLL_ATTEMPTS as nat) =~= Seq::<u8>::empty()
                            + (request + repeat(each, POLL_ATTEMPTS as nat)));
                    } else {
                        stream::lemma_short_traces(t[0], t[1], t[1]);
                        assert(stream::sent_bytes(t) =~= request);
                    }
                    assert(stream::received_bytes(t) =~= Seq::<Option<u8>>::empty());
                    let rest = repeat(each, POLL_ATTEMPTS as nat);
                    assert((request + rest).subrange(0, stream::sent_bytes(t).len() as int)
                        =~= stream::sent_bytes(t));
                    self.lemma_change_projections(start, t, request, rest, wait);
                }
                return Err(e);
            },
        }
        let ghost head = stream::since(start, self.log@);
        let mut remaining: u32 = POLL_ATTEMPTS;
        let ghost mut rounds: Seq<Seq<StreamEvent>> = Seq::empty();
        assert(head + flatten(rounds) =~= head);
        if wait {
            let query = encode_current_state_query(axis);
            let mut polling = true;
            while polling
                invariant
                    wait,
                    start == old(self).log@,
                    stream::extends(start, self.log@),
                    head == seq![StreamEvent::Wrote(request), StreamEvent::Flushed],
                    request == wire(encoder::requested_state_command(axis, requested_state)),
                    each == wire(encoder::current_state_query(axis)),
                    query@ == encoder::current_state_query(axis),
                    stream::since(start, self.log@) == head + flatten(rounds),
                    forall|i: int| 0 <= i < rounds.len() ==> poll_round(#[trigger] rounds[i], each),
                    remaining <= POLL_ATTEMPTS,
                    rounds.len() == POLL_ATTEMPTS - remaining,
                    polling ==> remaining > 0 && forall|i: int|
                        0 <= i < rounds.len() ==> state_reading(round_reply(#[trigger] rounds[i]))
                            != IDLE_CODE,
                    !polling ==> poll_finished(round_replies(rounds)),
                decreases remaining,
            {
                let ghost before = self.log@;
                self.io_stream.pause(POLL_INTERVAL_MS);
                self.log = Ghost(self.log@.push(StreamEvent::Paused));
                let ghost paused = self.log@;
                let got = self.query(&query);
                let ghost round = stream::since(before, self.log@);
                proof {
                    let qt = stream::since(paused, self.log@);
                    assert(self.log@.subrange(0, paused.len() as int) == paused);
                    assert(self.log@.subrange(0, before.len() as int) =~= paused.subrange(
                        0,
                        before.len() as int,
                    ));
                    assert(paused.subrange(0, before.len() as int) =~= before);
                    assert(self.log@ =~= before + round);
                    assert(self.log@ =~= paused + qt);
                    assert(round =~= seq![StreamEvent::Paused] + qt);
                    assert(self.log@.subrange(0, start.len() as int) =~= start);
                    assert(stream::since(start, self.log@) =~= stream::since(start, before)
                        + round);
                }
                match got {
                    Err(e) => {
                        proof {
                            let qt = stream::since(paused, self.log@);
                            assert(round.subrange(1, round.len() as int) =~= qt);
                            assert(round[0] == StreamEvent::Paused);
                            assert(seq![StreamEvent::Paused] + seq![
                                StreamEvent::Wrote(each),
                                StreamEvent::Flushed,
                            ] =~= seq![
                                StreamEvent::Paused,
                                StreamEvent::Wrote(each),
                                StreamEvent::Flushed,
                            ]);
                            if qt.len() >= 2 {
                                assert(round.subrange(0, 3) =~= seq![StreamEvent::Paused] + qt.subrange(0, 2));
                                assert(round.subrange(3, round.len() as int) =~= qt.subrange(2, qt.len() as int));
                            }
                            assert(failed_round(round, each));
                            let t = stream::since(start, self.log@);
                            assert(failed_state_change(t, request, each, rounds, round));
                            assert(state_change_failed(t, request, each, wait));
                            lemma_state_change_writes(t, request, each, rounds, round);
                            self.lemma_change_projections(
                                start,
                                t,
                                request,
                                repeat(each, POLL_ATTEMPTS as nat),
                                wait,
                            );
                        }
                        return Err(e);
                    },
                    Ok(reply) => {
                        let state: i32 = match reply {
                            Some(l) => {
                                let trimmed = trim_bytes(l.as_slice());
                                parse_int_or_zero(trimmed.as_slice())
                            },
                            None => 0,
                        };
                        proof {
                            let qt = stream::since(paused, self.log@);
                            assert(round.subrange(0, 3) =~= seq![StreamEvent::Paused] + qt.subrange(0, 2));
                            assert(round.subrange(3, round.len() as int) =~= qt.subrange(2, qt.len() as int));
                            assert(seq![StreamEvent::Paused] + seq![
                                StreamEvent::Wrote(each),
                                StreamEvent::Flushed,
                            ] =~= seq![
                                StreamEvent::Paused,
                                StreamEvent::Wrote(each),
                                StreamEvent::Flushed,
                            ]);
                            assert(poll_round(round, each));
                            assert(state_reading(round_reply(round)) == state);
                            let old_rounds = rounds;
                            rounds = rounds.push(round);
                            assert(rounds.drop_last() =~= old_rounds);
                            assert(stream::since(start, self.log@) =~= head + flatten(rounds));
                            assert forall|i: int| 0 <= i < old_rounds.len() implies #[trigger] rounds[i]
                                == old_rounds[i] by {}
                            assert(round_replies(rounds)[rounds.len() - 1] == round_reply(round));
                            assert forall|i: int| 0 <= i < rounds.len() - 1 implies round_replies(rounds)[i]
                                == round_reply(#[trigger] old_rounds[i]) by {}
                        }
                        remaining = remaining - 1;
                        polling = poll_again(state, remaining);
                    },
                }
            }
        }
        proof {
            let t = stream::since(start, self.log@);
            assert(t =~= head + flatten(rounds) + Seq::<StreamEvent>::empty());
            assert(state_change_trace(t, request, each, rounds));
            assert(if wait {
                poll_finished(round_replies(rounds)) && (remaining > 0) == (rounds.len()
                    < POLL_ATTEMPTS)
            } else {
                rounds.len() == 0
            });
            assert(state_change_done(t, request, each, wait, remaining > 0));
            lemma_state_change_writes(t, request, each, rounds, Seq::<StreamEvent>::empty());
            if !wait {
                assert(t =~= head);
                stream::lemma_short_traces(t[0], t[1], t[1]);
                assert(stream::received_bytes(t) =~= Seq::<Option<u8>>::empty());
            }
            self.lemma_change_projections(
                start,
                t,
                request,
                repeat(each, POLL_ATTEMPTS as nat),
                wait,
            );
        }
        Ok(remaining > 0)
    }

    /// What the events of a state change mean for the bytes written and the reads.
    proof fn lemma_change_projections(
        self,
        start: Seq<StreamEvent>,
        t: Seq<StreamEvent>,
        request: Seq<u8>,
        rest: Seq<u8>,
        wait: bool,
    )
        requires
            stream::extends(start, self.log@),
            t == stream::since(start, self.log@),
            stream::extends(stream::sent_bytes(t), request + rest),
            !wait ==> stream::received_bytes(t) == Seq::<Option<u8>>::empty(),
        ensures
            stream::extends(stream::received_bytes(start), self.received()),
            stream::extends(stream::sent_bytes(start), self.sent()),
            stream::extends(self.sent(), stream::sent_bytes(start) + request + rest),
            !wait ==> self.received() == stream::received_bytes(start),
    {
        assert(self.log@ =~= start + t);
        stream::lemma_events_concat(start, t);
        let s0 = stream::sent_bytes(start);
        let r0 = stream::received_bytes(start);
        assert((s0 + stream::sent_bytes(t)).subrange(0, s0.len() as int) =~= s0);
        assert((r0 + stream::received_bytes(t)).subrange(0, r0.len() as int) =~= r0);
        lemma_extends_after(s0, stream::sent_bytes(t), request + rest);
        assert(s0 + request + rest =~= s0 + (request + rest));
        if !wait {
            assert(r0 + stream::received_bytes(t) =~= r0);
        }
    }

    /// Writes a named setting: `w <path> <value>`.
    pub fn set_config_variable(&mut self, path: &str, value: &str) -> (r: ODriveResult<()>)
        ensures
            sends(
                *old(self),
                *final(self),
                encoder::write_command(path@, value@),
                r is Ok,
            ),
    {
        let line = encode_write(path, value);
        match self.send_line(&line) {
            Ok(()) => Ok(()),
            Err(e) => Err(ODriveError::Io(e)),
        }
    }

    /// Writes a setting of an axis: `w axis<N>.<suffix> <value>`.
    fn set_axis_config(&mut self, axis: Axis, suffix: &str, value: &str) -> (r: ODriveResult<()>)
        ensures
            sends(
                *old(self),
                *final(self),
                encoder::setting_command(axis, suffix@, value@),
                r is Ok,
            ),
    {
        let path = encoder::encode_axis_path(axis, suffix);
        self.set_config_variable(path.as_str(), value)
    }

    /// Writes a flag of an axis as `1` or `0`.
    fn set_config_bool(&mut self, axis: Axis, suffix: &str, value: bool) -> (r: ODriveResult<()>)
        ensures
            sends(
                *old(self),
                *final(self),
                encoder::setting_command(axis, suffix@, encoder::flag_text(value)),
                r is Ok,
            ),
    {
        let mut flag = String::new();
        text::push_char(&mut flag, if value { '1' } else { '0' });
        assert(flag@ =~= encoder::flag_text(value));
        self.set_axis_config(axis, suffix, flag.as_str())
    }

    /// Writes a whole-number setting of an axis.
    fn set_axis_config_nat(&mut self, axis: Axis, suffix: &str, value: u128) -> (r: ODriveResult<
        (),
    >)
        ensures
            sends(
                *old(self),
                *final(self),
                encoder::setting_command(axis, suffix@, text::nat_text(value as nat)),
                r is Ok,
            ),
    {
        let value_text = nat_to_text(value);
        self.set_axis_config(axis, suffix, value_text.as_str())
    }

    /// Writes a decimal setting of an axis.
    fn set_axis_config_decimal(&mut self, axis: Axis, suffix: &str, value: Decimal) -> (r:
        ODriveResult<()>)
        ensures
            sends(
                *old(self),
                *final(self),
                encoder::setting_command(axis, suffix@, decimal::decimal_text(value)),
                r is Ok,
            ),
    {
        let value_text = value.to_text();
        self.set_axis_config(axis, suffix, value_text.as_str())
    }

    /// Streams a position setpoint: `p <axis> <position> <velocity_ff> <current_ff>`, with
    /// zero for an absent feed forward term.
    pub fn set_position_p(
        &mut self,
        axis: Axis,
        position: Decimal,
        velocity_feed_forward: Option<Decimal>,
        current_feed_forward: Option<Decimal>,
    ) -> (r: Result<(), std::io::Error>)
        ensures
            sends(
                *old(self),
                *final(self),
                encoder::position_p_command(
                    axis,
                    position,
                    velocity_feed_forward,
                    current_feed_forward,
                ),
                r is Ok,
            ),
    {
        let line = encode_position_p(axis, position, velocity_feed_forward, current_feed_forward);
        self.send_line(&line)
    }

    /// Sends one position setpoint with limits: `q <axis> <position> <velocity_limit>
    /// <current_limit>`, with zero for an absent limit.
    pub fn set_position_q(
        &mut self,
        axis: Axis,
        position: Decimal,
        velocity_limit: Option<Decimal>,
        current_limit: Option<Decimal>,
    ) -> (r: Result<(), std::io::Error>)
        ensures
            sends(
                *old(self),
                *final(self),
                encoder::position_q_command(axis, position, velocity_limit, current_limit),
                r is Ok,
            ),
    {
        let line = encode_position_q(axis, position, velocity_limit, current_limit);
        self.send_line(&line)
    }

    /// Sets a velocity setpoint: `v <axis> <velocity> <current_ff>`, with zero for an
    /// absent feed forward term.
    pub fn set_velocity(
        &mut self,
        axis: Axis,
        velocity: Decimal,
        current_feed_forward: Option<Decimal>,
    ) -> (r: Result<(), std::io::Error>)
        ensures
            sends(
                *old(self),
                *final(self),
                encoder::velocity_command(axis, velocity, current_feed_forward),
                r is Ok,
            ),
    {
        let line = encode_velocity(axis, velocity, current_feed_forward);
        self.send_line(&line)
    }

    /// Sets a current setpoint: `c <axis> <current>`.
    pub fn set_current(&mut self, axis: Axis, current: Decimal) -> (r: Result<(), std::io::Error>)
        ensures
            sends(
                *old(self),
                *final(self),
                encoder::current_command(axis, current),
                r is Ok,
            ),
    {
        let line = encode_current(axis, current);
        self.send_line(&line)
    }

    /// Moves to a position along a trajectory: `t <axis> <position>`.
    pub fn set_trajectory(&mut self, axis: Axis, position: Decimal) -> (r: Result<
        (),
        std::io::Error,
    >)
        ensures
            sends(
                *old(self),
                *final(self),
                encoder::trajectory_command(axis, position),
                r is Ok,
            ),
    {
        let line = encode_trajectory(axis, position);
        self.send_line(&line)
    }

    pub fn set_startup_motor_calibration(&mut self, axis: Axis, value: bool) -> (r: ODriveResult<
        (),
    >)
        ensures
            sends(
                *old(self),
                *final(self),
                encoder::setting_command(
                    axis,
                    "config.startup_motor_calibration"@,
                    encoder::flag_text(value),
                ),
                r is Ok,
            ),
    {
        self.set_config_bool(axis, "config.startup_motor_calibration", value)
    }

    pub fn set_startup_encoder_index_search(&mut self, axis: Axis, value: bool) -> (r:
        ODriveResult<()>)
        ensures
            sends(
                *old(self),
                *final(self),
                encoder::setting_command(
                    axis,
                    "config.startup_encoder_index_search"@,
                    encoder::flag_text(value),
                ),
                r is Ok,
            ),
    {
        self.set_config_bool(axis, "config.startup_encoder_index_search", value)
    }

    pub fn set_startup_encoder_offset_calibration(&mut self, axis: Axis, value: bool) -> (r:
        ODriveResult<()>)
        ensures
            sends(
                *old(self),
                *final(self),
                encoder::setting_command(
                    axis,
                    "config.startup_encoder_offset_calibration"@,
                    encoder::flag_text(value),
                ),
                r is Ok,
            ),
    {
        self.set_config_bool(axis, "config.startup_encoder_offset_calibration", value)
    }

    pub fn set_startup_closed_loop_control(&mut self, axis: Axis, value: bool) -> (r:
        ODriveResult<()>)
        ensures
            sends(
                *old(self),
                *final(self),
                encoder::setting_command(
                    axis,
                    "config.startup_closed_loop_control"@,
                    encoder::flag_text(value),
                ),
                r is Ok,
            ),
    {
        self.set_config_bool(axis, "config.startup_closed_loop_control", value)
    }

    pub fn set_startup_sensorless_control(&mut self, axis: Axis, value: bool) -> (r:
        ODriveResult<()>)
        ensures
            sends(
                *old(self),
                *final(self),
                encoder::setting_command(
                    axis,
                    "config.startup_sensorless_control"@,
                    encoder::flag_text(value),
                ),
                r is Ok,
            ),
    {
        self.set_config_bool(axis, "config.startup_sensorless_control", value)
    }

    /// Stores the configuration in the controller's non-volatile memory: `ss`.
    pub fn save_configuration(&mut self) -> (r: ODriveResult<()>)
        ensures
            sends(
                *old(self),
                *final(self),
                encoder::save_command(),
                r is Ok,
            ),
    {
        let line = encode_save();
        match self.send_line(&line) {
            Ok(()) => Ok(()),
            Err(e) => Err(ODriveError::Io(e)),
        }
    }

    /// Erases the stored configuration: `se`.
    pub fn erase_configuration(&mut self) -> (r: ODriveResult<()>)
        ensures
            sends(
                *old(self),
                *final(self),
                encoder::erase_command(),
                r is Ok,
            ),
    {
        let line = encode_erase();
        match self.send_line(&line) {
            Ok(()) => Ok(()),
            Err(e) => Err(ODriveError::Io(e)),
        }
    }

    pub fn set_motor_pole_pairs(&mut self, axis: Axis, value: u16) -> (r: ODriveResult<()>)
        ensures
            sends(
                *old(self),
                *final(self),
                encoder::setting_command(
                    axis,
                    "motor.config.pole_pairs"@,
                    text::nat_text(value as nat),
                ),
                r is Ok,
            ),
    {
        self.set_axis_config_nat(axis, "motor.config.pole_pairs", value as u128)
    }

    pub fn set_motor_resistance_calib_max_voltage(&mut self, axis: Axis, value: Decimal) -> (r:
        ODriveResult<()>)
        ensures
            sends(
                *old(self),
                *final(self),
                encoder::setting_command(
                    axis,
                    "motor.config.resistance_calib_max_voltage"@,
                    decimal::decimal_text(value),
                ),
                r is Ok,
            ),
    {
        self.set_axis_config_decimal(axis, "motor.config.resistance_calib_max_voltage", value)
    }

    pub fn set_motor_requested_current_range(&mut self, axis: Axis, value: Decimal) -> (r:
        ODriveResult<()>)
        ensures
            sends(
                *old(self),
                *final(self),
                encoder::setting_command(
                    axis,
                    "motor.config.requested_current_range"@,
                    decimal::decimal_text(value),
                ),
                r is Ok,
            ),
    {
        self.set_axis_config_decimal(axis, "motor.config.requested_current_range", value)
    }

    pub fn set_motor_current_control_bandwidth(&mut self, axis: Axis, value: Decimal) -> (r:
        ODriveResult<()>)
        ensures
            sends(
                *old(self),
                *final(self),
                encoder::setting_command(
                    axis,
                    "motor.config.current_control_bandwidth"@,
                    decimal::decimal_text(value),
                ),
                r is Ok,
            ),
    {
        self.set_axis_config_decimal(axis, "motor.config.current_control_bandwidth", value)
    }

    pub fn set_encoder_mode(&mut self, axis: Axis, value: EncoderMode) -> (r: ODriveResult<()>)
        ensures
            sends(
                *old(self),
                *final(self),
                encoder::setting_command(
                    axis,
                    "encoder.config.mode"@,
                    text::nat_text(value.spec_code() as nat),
                ),
                r is Ok,
            ),
    {
        self.set_axis_config_nat(axis, "encoder.config.mode", value.code() as u128)
    }

    pub fn set_encoder_cpr(&mut self, axis: Axis, value: u16) -> (r: ODriveResult<()>)
        ensures
            sends(
                *old(self),
                *final(self),
                encoder::setting_command(axis, "encoder.config.cpr"@, text::nat_text(value as nat)),
                r is Ok,
            ),
    {
        self.set_axis_config_nat(axis, "encoder.config.cpr", value as u128)
    }

    pub fn set_encoder_bandwidth(&mut self, axis: Axis, value: Decimal) -> (r: ODriveResult<()>)
        ensures
            sends(
                *old(self),
                *final(self),
                encoder::setting_command(
                    axis,
                    "encoder.config.bandwidth"@,
                    decimal::decimal_text(value),
                ),
                r is Ok,
            ),
    {
        self.set_axis_config_decimal(axis, "encoder.config.bandwidth", value)
    }

    pub fn set_encoder_pre_calibrated(&mut self, axis: Axis, value: bool) -> (r: ODriveResult<()>)
        ensures
            sends(
                *old(self),
                *final(self),
                encoder::setting_command(
                    axis,
                    "encoder.config.pre_calibrated"@,
                    encoder::flag_text(value),
                ),
                r is Ok,
            ),
    {
        self.set_config_bool(axis, "encoder.config.pre_calibrated", value)
    }

    pub fn set_position_gain(&mut self, axis: Axis, value: Decimal) -> (r: ODriveResult<()>)
        ensures
            sends(
                *old(self),
                *final(self),
                encoder::setting_command(
                    axis,
                    "controller.config.pos_gain"@,
                    decimal::decimal_text(value),
                ),
                r is Ok,
            ),
    {
        self.set_axis_config_decimal(axis, "controller.config.pos_gain", value)
    }

    pub fn set_velocity_gain(&mut self, axis: Axis, value: Decimal) -> (r: ODriveResult<()>)
        ensures
            sends(
                *old(self),
                *final(self),
                encoder::setting_command(
                    axis,
                    "controller.config.vel_gain"@,
                    decimal::decimal_text(value),
                ),
                r is Ok,
            ),
    {
        self.set_axis_config_decimal(axis, "controller.config.vel_gain", value)
    }

    pub fn set_velocity_integrator_gain(&mut self, axis: Axis, value: Decimal) -> (r:
        ODriveResult<()>)
        ensures
            sends(
                *old(self),
                *final(self),
                encoder::setting_command(
                    axis,
                    "controller.config.vel_integrator_gain"@,
                    decimal::decimal_text(value),
                ),
                r is Ok,
            ),
    {
        self.set_axis_config_decimal(axis, "controller.config.vel_integrator_gain", value)
    }

    pub fn set_velocity_limit(&mut self, axis: Axis, value: Decimal) -> (r: ODriveResult<()>)
        ensures
            sends(
                *old(self),
                *final(self),
                encoder::setting_command(
                    axis,
                    "controller.config.vel_limit"@,
                    decimal::decimal_text(value),
                ),
                r is Ok,
            ),
    {
        self.set_axis_config_decimal(axis, "controller.config.vel_limit", value)
    }

    pub fn set_control_mode(&mut self, axis: Axis, mode: ControlMode) -> (r: ODriveResult<()>)
        ensures
            sends(
                *old(self),
                *final(self),
                encoder::setting_command(
                    axis,
                    "controller.config.control_mode"@,
                    text::nat_text(mode.spec_code() as nat),
                ),
                r is Ok,
            ),
    {
        self.set_axis_config_nat(axis, "controller.config.control_mode", mode.code() as u128)
    }
}

} // verus!

use vstd::prelude::*;

verus! {

/// The time that one reply line may take to arrive, in microseconds.
pub const READ_TIMEOUT_US: u64 = 1_000_000;

/// A duplex byte stream to a controller: a serial port, a socket, or `MockStream`.
///
/// The session keeps its own record of what each call was given and gave back; a stream
/// only has to do the work.
pub trait DuplexStream {
    /// Writes all the bytes.
    fn write_all(&mut self, bytes: &[u8]) -> Result<(), std::io::Error>;

    /// Pushes what was written out to the controller.
    fn flush(&mut self) -> Result<(), std::io::Error>;

    /// Waits up to `timeout_us` microseconds for one byte: the byte and how long it took to
    /// come, or `Ok(None)` when none came in that time.
    fn read_byte(&mut self, timeout_us: u64) -> Result<Option<(u8, u64)>, std::io::Error>;

    /// Waits `ms` milliseconds.
    fn pause(&mut self, ms: u64);
}

/// A stream in memory: reads take bytes from the end of `read_buffer` at once, writes
/// append to `write_buffer`, and a read of an empty buffer times out at once.
#[derive(Debug, Clone, Default, PartialEq, Eq)]
pub struct MockStream {
    pub read_buffer: Vec<u8>,
    pub write_buffer: Vec<u8>,
    pub flushed: bool,
}

impl MockStream {
    pub fn new() -> (r: MockStream)
        ensures
            r.read_buffer@ == Seq::<u8>::empty(),
            r.write_buffer@ == Seq::<u8>::empty(),
            !r.flushed,
    {
        MockStream { read_buffer: Vec::new(), write_buffer: Vec::new(), flushed: false }
    }
}

impl DuplexStream for MockStream {
    fn write_all(&mut self, bytes: &[u8]) -> Result<(), std::io::Error> {
        let mut i: usize = 0;
        while i < bytes.len()
            invariant
                i <= bytes@.len(),
            decreases bytes@.len() - i,
        {
            self.write_buffer.push(bytes[i]);
            i = i + 1;
        }
        self.flushed = false;
        Ok(())
    }

    fn flush(&mut self) -> Result<(), std::io::Error> {
        self.flushed = true;
        Ok(())
    }

    fn read_byte(&mut self, timeout_us: u64) -> Result<Option<(u8, u64)>, std::io::Error> {
        match self.read_buffer.pop() {
            Some(b) => Ok(Some((b, 0))),
            None => Ok(None),
        }
    }

    fn pause(&mut self, ms: u64) {
    }
}

/// One call that a session made on its stream, as the session saw it.
pub enum StreamEvent {
    /// A write of these bytes that succeeded.
    Wrote(Seq<u8>),
    /// A flush that succeeded.
    Flushed,
    /// A read: the byte that came, or `None` when none came in the time left for the line.
    Got(Option<u8>),
    /// A pause.
    Paused,
    /// A call that the stream reported as failed.
    Failed,
}

/// The bytes that one event wrote.
pub open spec fn written_by(event: StreamEvent) -> Seq<u8> {
    match event {
        StreamEvent::Wrote(b) => b,
        _ => Seq::<u8>::empty(),
    }
}

/// What one event read: one result for a read, none for any other call.
pub open spec fn read_by(event: StreamEvent) -> Seq<Option<u8>> {
    match event {
        StreamEvent::Got(x) => seq![x],
        _ => Seq::<Option<u8>>::empty(),
    }
}

/// The bytes that the events wrote, in order.
pub open spec fn sent_bytes(events: Seq<StreamEvent>) -> Seq<u8>
    decreases events.len(),
{
    if events.len() == 0 {
        seq![]
    } else {
        sent_bytes(events.drop_last()) + written_by(events.last())
    }
}

/// What the reads among the events gave, in order.
pub open spec fn received_bytes(events: Seq<StreamEvent>) -> Seq<Option<u8>>
    decreases events.len(),
{
    if events.len() == 0 {
        seq![]
    } else {
        received_bytes(events.drop_last()) + read_by(events.last())
    }
}

/// What traces of one, two and three events wrote and read.
pub proof fn lemma_short_traces(a: StreamEvent, b: StreamEvent, c: StreamEvent)
    ensures
        sent_bytes(seq![a]) == written_by(a),
        received_bytes(seq![a]) == read_by(a),
        sent_bytes(seq![a, b]) == written_by(a) + written_by(b),
        received_bytes(seq![a, b]) == read_by(a) + read_by(b),
        sent_bytes(seq![a, b, c]) == written_by(a) + written_by(b) + written_by(c),
        received_bytes(seq![a, b, c]) == read_by(a) + read_by(b) + read_by(c),
{
    let e0 = Seq::<StreamEvent>::empty();
    assert(seq![a].drop_last() =~= e0);
    assert(seq![a].last() == a);
    assert(seq![a, b].drop_last() =~= seq![a]);
    assert(seq![a, b].last() == b);
    assert(seq![a, b, c].drop_last() =~= seq![a, b]);
    assert(seq![a, b, c].last() == c);
    assert(sent_bytes(e0) == Seq::<u8>::empty());
    assert(received_bytes(e0) == Seq::<Option<u8>>::empty());
    assert(sent_bytes(seq![a]) =~= written_by(a));
    assert(received_bytes(seq![a]) =~= read_by(a));
    assert(sent_bytes(seq![a, b]) =~= written_by(a) + written_by(b));
    assert(received_bytes(seq![a, b]) =~= read_by(a) + read_by(b));
    assert(sent_bytes(seq![a, b, c]) =~= written_by(a) + written_by(b) + written_by(c));
    assert(received_bytes(seq![a, b, c]) =~= read_by(a) + read_by(b) + read_by(c));
}

/// Whether a flush came after the last write (true when nothing was written).
pub open spec fn flushed_after(events: Seq<StreamEvent>) -> bool
    decreases events.len(),
{
    if events.len() == 0 {
        true
    } else {
        match events.last() {
            StreamEvent::Flushed => true,
            StreamEvent::Wrote(_) => false,
            _ => flushed_after(events.drop_last()),
        }
    }
}

/// Whether all the events are reads.
pub open spec fn all_reads(events: Seq<StreamEvent>) -> bool {
    forall|i: int| 0 <= i < events.len() ==> #[trigger] events[i] is Got
}

/// Whether no event but the last is a failure.
pub open spec fn fails_only_at_end(events: Seq<StreamEvent>) -> bool {
    forall|i: int| 0 <= i < events.len() - 1 ==> !(#[trigger] events[i] is Failed)
}

/// Whether the events end in a failure.
pub open spec fn ends_failed(events: Seq<StreamEvent>) -> bool {
    events.len() > 0 && events.last() is Failed
}

/// Whether `after` is `before` with more behind it.
pub open spec fn extends<A>(before: Seq<A>, after: Seq<A>) -> bool {
    before.len() <= after.len() && after.subrange(0, before.len() as int) == before
}

/// What `after` holds beyond `before`.
pub open spec fn since<A>(before: Seq<A>, after: Seq<A>) -> Seq<A> {
    after.subrange(before.len() as int, after.len() as int)
}

/// The events record the bytes written, the reads and the flushes piece by piece.
pub proof fn lemma_events_concat(a: Seq<StreamEvent>, b: Seq<StreamEvent>)
    ensures
        sent_bytes(a + b) == sent_bytes(a) + sent_bytes(b),
        received_bytes(a + b) == received_bytes(a) + received_bytes(b),
        b.len() > 0 && (b.last() is Flushed || b.last() is Wrote) ==> flushed_after(a + b)
            == flushed_after(b),
    decreases b.len(),
{
    if b.len() == 0 {
        assert(a + b =~= a);
        assert(sent_bytes(a) + sent_bytes(b) =~= sent_bytes(a));
        assert(received_bytes(a) + received_bytes(b) =~= received_bytes(a));
    } else {
        lemma_events_concat(a, b.drop_last());
        assert((a + b).drop_last() =~= a + b.drop_last());
        assert((a + b).last() == b.last());
        assert(sent_bytes(a + b) =~= sent_bytes(a) + sent_bytes(b));
        assert(received_bytes(a + b) =~= received_bytes(a) + received_bytes(b));
    }
}

/// Recording one more event after the events `log`, which began after `start`.
pub proof fn lemma_record(start: Seq<StreamEvent>, log: Seq<StreamEvent>, event: StreamEvent)
    requires
        extends(start, log),
    ensures
        extends(start, log.push(event)),
        since(start, log.push(event)) == since(start, log).push(event),
        received_bytes(since(start, log).push(event)) == received_bytes(since(start, log))
            + read_by(event),
        sent_bytes(since(start, log).push(event)) == sent_bytes(since(start, log)) + written_by(
            event,
        ),
{
    assert(log.push(event).subrange(0, start.len() as int) =~= start);
    assert(since(start, log.push(event)) =~= since(start, log).push(event));
    assert(since(start, log).push(event).drop_last() =~= since(start, log));
}

/// Reads write nothing.
pub proof fn lemma_reads_write_nothing(events: Seq<StreamEvent>)
    requires
        all_reads(events),
    ensures
        sent_bytes(events) == Seq::<u8>::empty(),
    decreases events.len(),
{
    if events.len() > 0 {
        let init = events.drop_last();
        assert forall|i: int| 0 <= i < init.len() implies #[trigger] init[i] is Got by {
            assert(init[i] == events[i]);
        }
        lemma_reads_write_nothing(init);
        assert(events[events.len() - 1] is Got);
        assert(sent_bytes(events) =~= sent_bytes(init));
    }
}

/// A read that ends a line read: a newline, or nothing in the time left.
pub open spec fn ends_line(x: Option<u8>) -> bool {
    x is None || x == Some(10u8)
}

pub open spec fn byte_of(x: Option<u8>) -> u8 {
    match x {
        Some(b) => b,
        None => 0,
    }
}

/// Where a line read that begins at the front of `log` stops, searching from `i`: at the
/// first read that gave a newline or nothing, or at the end of the log.
pub open spec fn line_stop(log: Seq<Option<u8>>, i: nat) -> nat
    decreases log.len() - i,
{
    if i < log.len() && !ends_line(log[i as int]) {
        line_stop(log, i + 1)
    } else {
        i
    }
}

/// What one line read makes of the reads in `log`, from its front: how many of them it
/// takes (one more than the log holds when the log ends first), and the line, newline left
/// out, when one came whole.
pub open spec fn line_read(log: Seq<Option<u8>>) -> (nat, Option<Seq<u8>>) {
    let stop = line_stop(log, 0);
    (
        stop + 1,
        if stop < log.len() && log[stop as int] == Some(10u8) {
            Some(log.subrange(0, stop as int).map_values(|x: Option<u8>| byte_of(x)))
        } else {
            None
        },
    )
}

/// The outcomes of successive line reads over `log`.
pub open spec fn line_reads(log: Seq<Option<u8>>) -> Seq<Option<Seq<u8>>>
    decreases log.len(),
{
    let n = line_read(log).0;
    if log.len() == 0 || n > log.len() || n == 0 {
        seq![]
    } else {
        seq![line_read(log).1] + line_reads(log.subrange(n as int, log.len() as int))
    }
}

/// Whether successive line reads take the whole of `log`.
pub open spec fn whole_reads(log: Seq<Option<u8>>) -> bool
    decreases log.len(),
{
    let n = line_read(log).0;
    log.len() == 0 || (0 < n <= log.len() && whole_reads(log.subrange(n as int, log.len() as int)))
}

/// Whether `log` is exactly what one line read takes: reads up to and including the first
/// newline or the first read that gave nothing.
pub open spec fn one_line_read(log: Seq<Option<u8>>) -> bool {
    log.len() > 0 && line_read(log).0 == log.len()
}

/// Where a line read stops, given the reads up to that point.
pub proof fn lemma_line_stop_at(log: Seq<Option<u8>>, i: nat, stop: nat)
    requires
        i <= stop < log.len(),
        forall|j: int| i <= j < stop ==> !ends_line(#[trigger] log[j]),
        ends_line(log[stop as int]),
    ensures
        line_stop(log, i) == stop,
    decreases stop - i,
{
    if i < stop {
        lemma_line_stop_at(log, i + 1, stop);
    }
}

/// What holds where a line read stops.
pub proof fn lemma_line_stop_facts(log: Seq<Option<u8>>, i: nat)
    requires
        i <= log.len(),
    ensures
        i <= line_stop(log, i) <= log.len(),
        forall|j: int| i <= j < line_stop(log, i) ==> !ends_line(#[trigger] log[j]),
        line_stop(log, i) == log.len() || ends_line(log[line_stop(log, i) as int]),
    decreases log.len() - i,
{
    if i < log.len() && !ends_line(log[i as int]) {
        lemma_line_stop_facts(log, i + 1);
    }
}

/// Bytes without a newline, then one read that ends the line, are one line read: the
/// line when the last read is a newline, nothing when it is not.
pub proof fn lemma_one_line_read(line: Seq<u8>, last: Option<u8>)
    requires
        forall|j: int| 0 <= j < line.len() ==> #[trigger] line[j] != 10u8,
        ends_line(last),
    ensures
        one_line_read(line.map_values(|b: u8| Some(b)).push(last)),
        line_read(line.map_values(|b: u8| Some(b)).push(last)).1 == if last == Some(10u8) {
            Some(line)
        } else {
            None
        },
{
    let log = line.map_values(|b: u8| Some(b)).push(last);
    assert forall|j: int| 0 <= j < line.len() implies !ends_line(#[trigger] log[j]) by {
        assert(log[j] == Some(line[j]));
    }
    lemma_line_stop_at(log, 0, line.len());
    assert(log.subrange(0, line.len() as int).map_values(|x: Option<u8>| byte_of(x)) =~= line);
}

/// A line read that ends within `a` makes the same of `a` followed by anything.
pub proof fn lemma_line_read_prefix(a: Seq<Option<u8>>, b: Seq<Option<u8>>)
    requires
        line_read(a).0 <= a.len(),
    ensures
        line_read(a + b) == line_read(a),
{
    lemma_line_stop_facts(a, 0);
    let stop = line_stop(a, 0);
    let ab = a + b;
    assert forall|j: int| 0 <= j < stop implies !ends_line(#[trigger] ab[j]) by {
        assert(ab[j] == a[j]);
        assert(!ends_line(a[j]));
    }
    assert(ab[stop as int] == a[stop as int]);
    lemma_line_stop_at(ab, 0, stop);
    assert(ab.subrange(0, stop as int) =~= a.subrange(0, stop as int));
}

/// One more line read at the end of a log that line reads take whole adds its outcome.
pub proof fn lemma_line_reads_push(d: Seq<Option<u8>>, a: Seq<Option<u8>>)
    requires
        whole_reads(d),
        one_line_read(a),
    ensures
        whole_reads(d + a),
        line_reads(d + a) == line_reads(d).push(line_read(a).1),
    decreases d.len(),
{
    let n_a = line_read(a).0;
    assert(a.subrange(n_a as int, a.len() as int) =~= Seq::<Option<u8>>::empty());
    if d.len() == 0 {
        assert(d + a =~= a);
        assert(whole_reads(Seq::<Option<u8>>::empty()));
        assert(whole_reads(a));
        assert(line_reads(a) =~= seq![line_read(a).1] + line_reads(Seq::<Option<u8>>::empty()));
        assert(line_reads(d) =~= Seq::<Option<Seq<u8>>>::empty());
        assert(line_reads(d + a) =~= line_reads(d).push(line_read(a).1));
    } else {
        let n = line_read(d).0;
        lemma_line_read_prefix(d, a);
        let rest = d.subrange(n as int, d.len() as int);
        assert((d + a).subrange(n as int, (d + a).len() as int) =~= rest + a);
        lemma_line_reads_push(rest, a);
        assert(line_read(d + a).0 == n);
        assert(0 < n <= (d + a).len());
        assert(whole_reads(d + a));
        assert(line_reads(d + a) =~= seq![line_read(d).1] + line_reads(rest + a));
        assert(line_reads(d) =~= seq![line_read(d).1] + line_reads(rest));
        assert(line_reads(d + a) =~= line_reads(d).push(line_read(a).1));
    }
}

/// The reads that bring the given bytes followed by a newline.
pub open spec fn framed_line(line: Seq<u8>) -> Seq<Option<u8>> {
    line.map_values(|b: u8| Some(b)).push(Some(10u8))
}

/// The reads that bring each of the lines in turn, each followed by a newline.
pub open spec fn framed_lines(lines: Seq<Seq<u8>>) -> Seq<Option<u8>>
    decreases lines.len(),
{
    if lines.len() == 0 {
        seq![]
    } else {
        framed_lines(lines.drop_last()) + framed_line(lines.last())
    }
}

/// A line that a line read takes whole: no newline in it.
pub open spec fn readable_line(line: Seq<u8>) -> bool {
    forall|j: int| 0 <= j < line.len() ==> #[trigger] line[j] != 10u8
}

/// One line read over a readable line and its newline takes exactly them and gives the line.
pub proof fn lemma_line_read_framed(line: Seq<u8>)
    requires
        readable_line(line),
    ensures
        one_line_read(framed_line(line)),
        line_read(framed_line(line)).1 == Some(line),
{
    lemma_one_line_read(line, Some(10u8));
}

/// Successive line reads over newline-terminated replies give the replies one by one, in
/// order, and take all the reads: `25\n78\n` reads as `25`, then `78`.
pub proof fn lemma_successive_replies(lines: Seq<Seq<u8>>)
    requires
        forall|i: int| 0 <= i < lines.len() ==> readable_line(#[trigger] lines[i]),
    ensures
        whole_reads(framed_lines(lines)),
        line_reads(framed_lines(lines)) == lines.map_values(|l: Seq<u8>| Some(l)),
    decreases lines.len(),
{
    if lines.len() == 0 {
        assert(line_reads(Seq::<Option<u8>>::empty()) =~= Seq::<Option<Seq<u8>>>::empty());
        assert(lines.map_values(|l: Seq<u8>| Some(l)) =~= Seq::<Option<Seq<u8>>>::empty());
    } else {
        let init = lines.drop_last();
        assert forall|i: int| 0 <= i < init.len() implies readable_line(#[trigger] init[i]) by {
            assert(init[i] == lines[i]);
        }
        lemma_successive_replies(init);
        assert(readable_line(lines[lines.len() - 1]));
        lemma_line_read_framed(lines.last());
        lemma_line_reads_push(framed_lines(init), framed_line(lines.last()));
        assert(lines.map_values(|l: Seq<u8>| Some(l)) =~= init.map_values(|l: Seq<u8>| Some(l)).push(
            Some(lines.last()),
        ));
    }
}

} // verus!

//! Assembly of NMEA sentences from the bytes read off the GNSS serial port.
//!
//! Bytes are collected (zero bytes dropped) until more than
//! [`PARSE_THRESHOLD`] are pending; then every complete line, ending in `\n`,
//! is handed out for parsing and the unfinished tail is kept for the next read.
use vstd::prelude::*;

verus! {

/// Bytes taken from the serial port in one read.
pub const UART_BUFFER_SIZE: usize = 64;

/// Room for pending bytes.
pub const LINE_BUFFER_CAPACITY: usize = 1024;

/// Pending bytes beyond which complete lines are handed out.
pub const PARSE_THRESHOLD: usize = 768;

/// End of an NMEA line.
pub const LINE_FEED: u8 = 0x0A;

/// The bytes of `s` that are not zero, in order.
pub open spec fn nonzero_bytes(s: Seq<u8>) -> Seq<u8> {
    s.filter(|b: u8| b != 0)
}

/// The lines written one after the other.
pub open spec fn concat_lines(lines: Seq<Seq<u8>>) -> Seq<u8>
    decreases lines.len(),
{
    if lines.len() == 0 {
        Seq::empty()
    } else {
        concat_lines(lines.drop_last()) + lines.last()
    }
}

/// A complete line: it ends with the one line feed it holds.
pub open spec fn is_line(l: Seq<u8>) -> bool {
    &&& l.len() > 0
    &&& l.last() == LINE_FEED
    &&& forall|j: int| 0 <= j < l.len() - 1 ==> #[trigger] l[j] != LINE_FEED
}

/// Position just after the last line feed of `s` (zero when it holds none).
pub open spec fn last_line_end(s: Seq<u8>) -> int
    decreases s.len(),
{
    if s.len() == 0 {
        0
    } else if s.last() == LINE_FEED {
        s.len() as int
    } else {
        last_line_end(s.drop_last())
    }
}

/// What stays pending once `all` bytes are pending: all of them up to the
/// threshold, beyond it only those after the last line feed.
pub open spec fn pending_after(all: Seq<u8>) -> Seq<u8> {
    if all.len() <= PARSE_THRESHOLD {
        all
    } else {
        all.skip(last_line_end(all))
    }
}

/// The non-zero bytes of successive serial reads, one after the other.
pub open spec fn stream_of(reads: Seq<Seq<u8>>) -> Seq<u8>
    decreases reads.len(),
{
    if reads.len() == 0 {
        Seq::empty()
    } else {
        stream_of(reads.drop_last()) + nonzero_bytes(reads.last())
    }
}

/// The bytes pending after successive serial reads into a new buffer.
pub open spec fn pending_after_reads(reads: Seq<Seq<u8>>) -> Seq<u8>
    decreases reads.len(),
{
    if reads.len() == 0 {
        Seq::empty()
    } else {
        pending_after(pending_after_reads(reads.drop_last()) + nonzero_bytes(reads.last()))
    }
}

/// Every run of more than `PARSE_THRESHOLD` consecutive bytes of `s` holds a line
/// feed (true of NMEA output, whose sentences are at most 82 bytes long).
pub open spec fn line_feed_in_every_long_run(s: Seq<u8>) -> bool {
    forall|i: int|
        0 <= i && i + PARSE_THRESHOLD + 1 <= s.len() ==> #[trigger] s.subrange(
            i,
            i + PARSE_THRESHOLD + 1,
        ).contains(LINE_FEED)
}

/// Dropping zero bytes keeps every other byte, in order: nothing is dropped from
/// nothing, a zero byte at the end is dropped, and any other byte at the end is
/// kept at the end.
pub proof fn lemma_nonzero_bytes_keeps_all_others(s: Seq<u8>, b: u8)
    ensures
        nonzero_bytes(Seq::<u8>::empty()) == Seq::<u8>::empty(),
        nonzero_bytes(s.push(0u8)) == nonzero_bytes(s),
        b != 0 ==> nonzero_bytes(s.push(b)) == nonzero_bytes(s).push(b),
        nonzero_bytes(s).len() <= s.len(),
        (forall|j: int| 0 <= j < s.len() ==> #[trigger] s[j] != 0) ==> nonzero_bytes(s) == s,
        forall|j: int| 0 <= j < nonzero_bytes(s).len() ==> #[trigger] nonzero_bytes(s)[j] != 0,
    decreases s.len(),
{
    reveal_with_fuel(Seq::filter, 1);
    assert(s.push(0u8).drop_last() =~= s);
    assert(s.push(b).drop_last() =~= s);
    lemma_nonzero_len(s);
    if s.len() > 0 {
        lemma_nonzero_bytes_keeps_all_others(s.drop_last(), s.last());
        assert(s.drop_last().push(s.last()) =~= s);
        if forall|j: int| 0 <= j < s.len() ==> #[trigger] s[j] != 0 {
            assert(forall|j: int|
                0 <= j < s.drop_last().len() ==> #[trigger] s.drop_last()[j] == s[j]);
            assert(s[s.len() - 1] != 0);
        }
        let t = nonzero_bytes(s);
        let u = nonzero_bytes(s.drop_last());
        assert forall|j: int| 0 <= j < t.len() implies #[trigger] t[j] != 0 by {
            if s.last() != 0 && j == t.len() - 1 {
                assert(t[j] == s.last());
            } else {
                assert(t[j] == u[j]);
            }
        }
    }
}

proof fn lemma_nonzero_len(s: Seq<u8>)
    ensures
        nonzero_bytes(s).len() <= s.len(),
    decreases s.len(),
{
    reveal_with_fuel(Seq::filter, 1);
    if s.len() > 0 {
        lemma_nonzero_len(s.drop_last());
    }
}

proof fn lemma_concat_lines_end(lines: Seq<Seq<u8>>)
    requires
        forall|k: int| 0 <= k < lines.len() ==> is_line(#[trigger] lines[k]),
    ensures
        concat_lines(lines).len() == 0 || concat_lines(lines).last() == LINE_FEED,
    decreases lines.len(),
{
    if lines.len() > 0 {
        assert(is_line(lines[lines.len() - 1]));
    }
}

proof fn lemma_last_line_end(p: Seq<u8>, t: Seq<u8>)
    requires
        p.len() == 0 || p.last() == LINE_FEED,
        !t.contains(LINE_FEED),
    ensures
        last_line_end(p + t) == p.len(),
    decreases t.len(),
{
    if t.len() == 0 {
        assert(p + t =~= p);
        if p.len() > 0 {
            assert(p.last() == LINE_FEED);
        }
    } else {
        assert((p + t).drop_last() =~= p + t.drop_last());
        assert(t.last() == t[t.len() - 1]);
        assert(!t.drop_last().contains(LINE_FEED)) by {
            if t.drop_last().contains(LINE_FEED) {
                let i = choose|i: int| 0 <= i < t.drop_last().len() && t.drop_last()[i] == LINE_FEED;
                assert(t[i] == LINE_FEED);
            }
        }
        lemma_last_line_end(p, t.drop_last());
    }
}

proof fn lemma_tail_has_no_line_feed(s: Seq<u8>)
    ensures
        0 <= last_line_end(s) <= s.len(),
        !s.skip(last_line_end(s)).contains(LINE_FEED),
    decreases s.len(),
{
    if s.len() > 0 && s.last() != LINE_FEED {
        lemma_tail_has_no_line_feed(s.drop_last());
        let e = last_line_end(s);
        assert(s.skip(e) =~= s.drop_last().skip(e).push(s.last()));
        if s.skip(e).contains(LINE_FEED) {
            let i = choose|i: int| 0 <= i < s.skip(e).len() && s.skip(e)[i] == LINE_FEED;
            if i < s.skip(e).len() - 1 {
                assert(s.drop_last().skip(e)[i] == LINE_FEED);
            }
        }
    }
    if s.len() > 0 && s.last() == LINE_FEED {
        assert(s.skip(s.len() as int) =~= Seq::<u8>::empty());
    }
}

/// A line buffer fed from a serial stream in which every run of more than
/// `PARSE_THRESHOLD` bytes holds a line feed, with reads of at most
/// `UART_BUFFER_SIZE` bytes, never overflows: before each read at most
/// `PARSE_THRESHOLD` bytes are pending, so each read fits, with at most
/// `PARSE_THRESHOLD + UART_BUFFER_SIZE` bytes then pending; and the pending bytes
/// are always the last bytes of the stream.
pub proof fn lemma_stream_never_overflows(reads: Seq<Seq<u8>>)
    requires
        forall|i: int| 0 <= i < reads.len() ==> #[trigger] reads[i].len() <= UART_BUFFER_SIZE,
        line_feed_in_every_long_run(stream_of(reads)),
    ensures
        pending_after_reads(reads).len() <= PARSE_THRESHOLD,
        pending_after_reads(reads).len() <= stream_of(reads).len(),
        pending_after_reads(reads) == stream_of(reads).skip(
            stream_of(reads).len() - pending_after_reads(reads).len(),
        ),
        reads.len() > 0 ==> pending_after_reads(reads.drop_last()).len() + nonzero_bytes(
            reads.last(),
        ).len() <= PARSE_THRESHOLD + UART_BUFFER_SIZE,
        PARSE_THRESHOLD + UART_BUFFER_SIZE < LINE_BUFFER_CAPACITY,
    decreases reads.len(),
{
    if reads.len() > 0 {
        let prev_reads = reads.drop_last();
        let s = stream_of(reads);
        let prev_s = stream_of(prev_reads);
        let chunk = nonzero_bytes(reads.last());
        assert(s == prev_s + chunk);
        assert forall|i: int| 0 <= i < prev_reads.len() implies #[trigger] prev_reads[i].len()
            <= UART_BUFFER_SIZE by {
            assert(prev_reads[i] == reads[i]);
        }
        assert forall|i: int| 0 <= i && i + PARSE_THRESHOLD + 1 <= prev_s.len() implies #[trigger] prev_s.subrange(
            i,
            i + PARSE_THRESHOLD + 1,
        ).contains(LINE_FEED) by {
            assert(prev_s.subrange(i, i + PARSE_THRESHOLD + 1) =~= s.subrange(i, i + PARSE_THRESHOLD + 1));
            assert(s.subrange(i, i + PARSE_THRESHOLD + 1).contains(LINE_FEED));
        }
        lemma_stream_never_overflows(prev_reads);
        let prev = pending_after_reads(prev_reads);
        lemma_nonzero_len(reads.last());
        assert(reads[reads.len() - 1].len() <= UART_BUFFER_SIZE);
        let all = prev + chunk;
        assert(all =~= s.skip(s.len() - all.len()));
        if all.len() > PARSE_THRESHOLD {
            lemma_tail_has_no_line_feed(all);
            let e = last_line_end(all);
            let tail = all.skip(e);
            assert(tail =~= s.skip(s.len() - tail.len()));
            if tail.len() > PARSE_THRESHOLD {
                let i = s.len() - tail.len();
                assert(s.subrange(i, i + PARSE_THRESHOLD + 1).contains(LINE_FEED));
                let run = s.subrange(i, i + PARSE_THRESHOLD + 1);
                let j = choose|j: int| 0 <= j < run.len() && #[trigger] run[j] == LINE_FEED;
                assert(tail[j] == LINE_FEED);
                assert(tail.contains(LINE_FEED));
            }
        }
    }
}

/// Bytes received from the serial port that do not yet form complete lines.
pub struct NmeaLineBuffer {
    pending: Vec<u8>,
}

impl View for NmeaLineBuffer {
    type V = Seq<u8>;

    closed spec fn view(&self) -> Seq<u8> {
        self.pending@
    }
}

impl NmeaLineBuffer {
    /// An empty buffer.
    pub fn new() -> (b: NmeaLineBuffer)
        ensures
            b@ == Seq::<u8>::empty(),
    {
        NmeaLineBuffer { pending: Vec::new() }
    }

    /// Whether the non-zero bytes of `chunk` fit beside the pending ones.
    pub fn fits(&self, chunk: &[u8]) -> (r: bool)
        ensures
            r == (self@.len() + nonzero_bytes(chunk@).len() < LINE_BUFFER_CAPACITY),
    {
        let mut count: usize = 0;
        let mut k: usize = 0;
        while k < chunk.len()
            invariant
                k <= chunk@.len(),
                count == nonzero_bytes(chunk@.take(k as int)).len(),
                count <= k,
            decreases chunk@.len() - k,
        {
            proof {
                reveal_with_fuel(Seq::filter, 1);
                assert(chunk@.take(k + 1).drop_last() =~= chunk@.take(k as int));
            }
            if chunk[k] != 0 {
                count += 1;
            }
            k += 1;
        }
        assert(chunk@.take(chunk@.len() as int) =~= chunk@);
        self.pending.len() < LINE_BUFFER_CAPACITY && count < LINE_BUFFER_CAPACITY
            - self.pending.len()
    }

    /// Takes the bytes of one serial read. The non-zero bytes are appended to the
    /// pending ones; when more than `PARSE_THRESHOLD` bytes are then pending, the
    /// complete lines among them are returned, in order, and only the bytes after
    /// the last line feed stay pending. No byte is lost or reordered.
    pub fn push_read(&mut self, chunk: &[u8]) -> (lines: Vec<Vec<u8>>)
        requires
            old(self)@.len() + nonzero_bytes(chunk@).len() < LINE_BUFFER_CAPACITY,
        ensures
            old(self)@ + nonzero_bytes(chunk@) == concat_lines(lines.deep_view()) + final(self)@,
            final(self)@ == pending_after(old(self)@ + nonzero_bytes(chunk@)),
            (old(self)@ + nonzero_bytes(chunk@)).len() <= PARSE_THRESHOLD ==> lines@.len() == 0,
            (old(self)@ + nonzero_bytes(chunk@)).len() > PARSE_THRESHOLD ==> {
                &&& forall|k: int| 0 <= k < lines@.len() ==> is_line(#[trigger] lines@[k]@)
                &&& !final(self)@.contains(LINE_FEED)
            },
    {
        let ghost before = self.pending@;
        let mut k: usize = 0;
        while k < chunk.len()
            invariant
                k <= chunk@.len(),
                self.pending@ == before + nonzero_bytes(chunk@.take(k as int)),
            decreases chunk@.len() - k,
        {
            proof {
                reveal_with_fuel(Seq::filter, 1);
                assert(chunk@.take(k + 1).drop_last() =~= chunk@.take(k as int));
            }
            if chunk[k] != 0 {
                self.pending.push(chunk[k]);
            }
            k += 1;
        }
        assert(chunk@.take(chunk@.len() as int) =~= chunk@);
        let ghost all = self.pending@;
        let mut lines: Vec<Vec<u8>> = Vec::new();
        if self.pending.len() <= PARSE_THRESHOLD {
            assert(concat_lines(lines.deep_view()) + all =~= all);
            return lines;
        }
        let mut current: Vec<u8> = Vec::new();
        let mut i: usize = 0;
        while i < self.pending.len()
            invariant
                self.pending@ == all,
                i <= all.len(),
                concat_lines(lines.deep_view()) + current@ == all.take(i as int),
                forall|k: int| 0 <= k < lines@.len() ==> is_line(#[trigger] lines@[k]@),
                !current@.contains(LINE_FEED),
            decreases all.len() - i,
        {
            let b: u8 = self.pending[i];
            current.push(b);
            if b == LINE_FEED {
                let ghost old_lines = lines.deep_view();
                let ghost line = current@;
                lines.push(current);
                current = Vec::new();
                assert(lines.deep_view().drop_last() =~= old_lines);
                assert(lines.deep_view().last() == line);
                assert(is_line(lines@[lines@.len() - 1]@));
            }
            assert(all.take(i + 1) =~= all.take(i as int).push(b));
            i += 1;
        }
        assert(all.take(all.len() as int) =~= all);
        proof {
            lemma_concat_lines_end(lines.deep_view());
            lemma_last_line_end(concat_lines(lines.deep_view()), current@);
            assert(all.skip(concat_lines(lines.deep_view()).len() as int) =~= current@);
        }
        self.pending = current;
        lines
    }
}

} // verus!

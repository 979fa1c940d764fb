//! The two-stage pipeline: source decisions, decoder-side counters,
//! window slicing, and the model of the bounded queue between the
//! stages.
//!
//! The loops themselves live at the program edge: they perform the
//! reads, the channel operations and the writes, and call the functions
//! here for every decision, so that the per-step logic is verified.

use vstd::prelude::*;

verus! {

/// Timestamp resolution of a framed capture container, taken once from
/// its global header.
#[derive(Debug, PartialEq, Eq, Structural, Clone, Copy)]
pub enum PcapTs {
    Microsecs,
    Nanosecs,
}

/// Magic number of a capture file with microsecond timestamps.
pub const PCAP_MAGIC_US: u32 = 0xA1B2C3D4;

/// Byte-swapped magic of a capture file with microsecond timestamps.
pub const PCAP_MAGIC_US_BE: u32 = 0xD4C3B2A1;

/// Magic number of a capture file with nanosecond timestamps.
pub const PCAP_MAGIC_NS: u32 = 0xA1B23C4D;

/// Byte-swapped magic of a capture file with nanosecond timestamps.
pub const PCAP_MAGIC_NS_BE: u32 = 0x4D3CB2A1;

/// The timestamp resolution a capture file's magic number declares,
/// in either byte order; `None` for any other value.
pub fn pcap_ts_from_magic(magic: u32) -> (r: Option<PcapTs>)
    ensures
        r == (if magic == PCAP_MAGIC_US || magic == PCAP_MAGIC_US_BE {
            Some(PcapTs::Microsecs)
        } else if magic == PCAP_MAGIC_NS || magic == PCAP_MAGIC_NS_BE {
            Some(PcapTs::Nanosecs)
        } else {
            Option::<PcapTs>::None
        }),
{
    if magic == PCAP_MAGIC_US || magic == PCAP_MAGIC_US_BE {
        Some(PcapTs::Microsecs)
    } else if magic == PCAP_MAGIC_NS || magic == PCAP_MAGIC_NS_BE {
        Some(PcapTs::Nanosecs)
    } else {
        None
    }
}

/// What the source does with one read result.
#[derive(Debug, PartialEq, Eq, Structural, Clone, Copy)]
pub enum SourceAction {
    /// Nothing arrived yet on an interactive input: read again.
    Retry,
    /// End of a finite input: stop reading.
    Stop,
    /// Send everything that was read and keep reading.
    SendAll,
    /// A head limit is set: send exactly that slice once, then stop.
    SendHead,
}

/// The source-loop decision for one read: a zero-byte read means "no
/// data yet" on standard input but end of input on a file, and a
/// configured head limit sends one slice and ends the loop.
pub open spec fn spec_source_action(
    reading_stdin: bool,
    num_read: usize,
    read_head: usize,
) -> SourceAction {
    if num_read == 0 {
        if reading_stdin {
            SourceAction::Retry
        } else {
            SourceAction::Stop
        }
    } else if read_head > 0 {
        SourceAction::SendHead
    } else {
        SourceAction::SendAll
    }
}

/// Decide what the source does with one read result.
pub fn source_step(reading_stdin: bool, num_read: usize, read_head: usize) -> (r: SourceAction)
    ensures
        r == spec_source_action(reading_stdin, num_read, read_head),
{
    if num_read == 0 {
        if reading_stdin {
            SourceAction::Retry
        } else {
            SourceAction::Stop
        }
    } else if read_head > 0 {
        SourceAction::SendHead
    } else {
        SourceAction::SendAll
    }
}

/// Process-lifetime counters of the decoder side.  `message_count`
/// grows per message; `chunk_count` and `chunk_start` restart per
/// message and advance per window; `hex_lines` and `bin_lines` hold how
/// many rows a raw dump of the current message's first window occupies.
#[derive(Debug, PartialEq, Eq, Structural, Clone, Copy)]
pub struct Stats {
    pub message_count: u32,
    pub message_len: u32,
    pub chunk_count: u32,
    pub chunk_start: u32,
    pub hex_lines: usize,
    pub bin_lines: usize,
}

impl Default for Stats {
    /// All counters start at zero.
    fn default() -> (r: Self)
        ensures
            r == (Stats {
                message_count: 0,
                message_len: 0,
                chunk_count: 0,
                chunk_start: 0,
                hex_lines: 0,
                bin_lines: 0,
            }),
    {
        Stats {
            message_count: 0,
            message_len: 0,
            chunk_count: 0,
            chunk_start: 0,
            hex_lines: 0,
            bin_lines: 0,
        }
    }
}

/// Rows a dump of `len` bytes occupies at `row` bytes per line.
pub open spec fn dump_rows(len: nat, row: nat) -> nat
    recommends
        row >= 1,
{
    (len + row - 1) as nat / row
}

/// One decision of the decoder loop on a received buffer.  The empty
/// buffer is the end-of-stream sentinel: the loop exits, and the
/// sentinel is not counted as a message and opens no window.  Any other
/// buffer is counted: the message counter grows, the per-message window
/// counters restart, and the raw-dump row counts are taken from the
/// first window (`chunksize` bytes, or the whole buffer if shorter).
pub fn decoder_step(stats: &mut Stats, buffer_len: usize, chunksize: usize) -> (proceed: bool)
    requires
        chunksize >= 1,
        buffer_len <= u32::MAX,
        old(stats).message_count < u32::MAX,
    ensures
        proceed == (buffer_len > 0),
        !proceed ==> *final(stats) == *old(stats),
        proceed ==> *final(stats) == (Stats {
            message_count: (old(stats).message_count + 1) as u32,
            message_len: buffer_len as u32,
            chunk_count: 0,
            chunk_start: old(stats).chunk_start,
            hex_lines: dump_rows(
                (if chunksize <= buffer_len {
                    chunksize
                } else {
                    buffer_len
                }) as nat,
                16,
            ) as usize,
            bin_lines: dump_rows(
                (if chunksize <= buffer_len {
                    chunksize
                } else {
                    buffer_len
                }) as nat,
                8,
            ) as usize,
        }),
{
    if buffer_len == 0 {
        return false;
    }
    let first_chunk: usize = if chunksize <= buffer_len {
        chunksize
    } else {
        buffer_len
    };
    stats.message_count = stats.message_count + 1;
    stats.message_len = buffer_len as u32;
    stats.chunk_count = 0;
    stats.hex_lines = (first_chunk - 1) / 16 + 1;
    stats.bin_lines = (first_chunk - 1) / 8 + 1;
    proof {
        assert(stats.hex_lines == dump_rows(first_chunk as nat, 16) && stats.bin_lines
            == dump_rows(first_chunk as nat, 8)) by (nonlinear_arith)
            requires
                first_chunk >= 1,
                stats.hex_lines == (first_chunk - 1) as int / 16 + 1,
                stats.bin_lines == (first_chunk - 1) as int / 8 + 1,
                dump_rows(first_chunk as nat, 16) == ((first_chunk + 15) as nat) / 16,
                dump_rows(first_chunk as nat, 8) == ((first_chunk + 7) as nat) / 8,
        ;
    }
    true
}

impl Stats {
    /// Counters for the next window of the current message: the window
    /// starts where the previous windows ended.
    pub fn on_chunk(&mut self, chunksize: usize)
        requires
            old(self).chunk_count < u32::MAX,
            old(self).chunk_count * chunksize <= u32::MAX,
        ensures
            *final(self) == (Stats {
                chunk_count: (old(self).chunk_count + 1) as u32,
                chunk_start: (old(self).chunk_count * chunksize) as u32,
                ..*old(self)
            }),
    {
        let start_wide: u64 = (self.chunk_count as u64) * (chunksize as u64);
        self.chunk_start = start_wide as u32;
        self.chunk_count = self.chunk_count + 1;
    }
}

/// Configuration faults that stop the run before the pipeline starts.
#[derive(Debug, PartialEq, Eq, Structural, Clone, Copy)]
pub enum ConfigError {
    /// Neither an explicit window size nor a schema wide enough to
    /// derive one from.
    ZeroChunksize,
}

/// The decode-window size in bytes: the explicit size when one is
/// given, else the schema's declared width in whole bytes.  A size of
/// zero is a configuration fault, not a value to divide by later.
pub fn effective_chunksize(arg_chunksize: usize, config_bits: usize) -> (r: Result<
    usize,
    ConfigError,
>)
    ensures
        arg_chunksize >= 1 ==> r == Ok::<usize, ConfigError>(arg_chunksize),
        arg_chunksize == 0 && config_bits / 8 >= 1 ==> r == Ok::<usize, ConfigError>(
            config_bits / 8,
        ),
        arg_chunksize == 0 && config_bits / 8 == 0 ==> r == Err::<usize, ConfigError>(
            ConfigError::ZeroChunksize,
        ),
        (r matches Ok(v) ==> v >= 1),
{
    if arg_chunksize >= 1 {
        Ok(arg_chunksize)
    } else {
        let derived = config_bits / 8;
        if derived >= 1 {
            Ok(derived)
        } else {
            Err(ConfigError::ZeroChunksize)
        }
    }
}

/// Whether the schema's declared width leaves bits that no window byte
/// covers, which is worth a one-time warning.
pub fn schema_has_trailing_bits(config_bits: usize) -> (r: bool)
    ensures
        r == (config_bits % 8 != 0),
{
    config_bits % 8 != 0
}

/// The lengths of the buffers a source run sends, over the lengths its
/// successive reads return: data messages while the loop runs, then the
/// single empty end-of-stream sentinel.  The read loop at the program
/// edge realizes this run: it performs each read, follows
/// `source_step`, and sends the sentinel once its loop ends - also when
/// the reads end early on an error or a gone receiver, which truncates
/// the run.
pub open spec fn source_sends(
    reads: Seq<usize>,
    reading_stdin: bool,
    read_head: usize,
) -> Seq<usize>
    decreases reads.len(),
{
    if reads.len() == 0 {
        seq![0usize]
    } else {
        match spec_source_action(reading_stdin, reads.first(), read_head) {
            SourceAction::Retry => source_sends(reads.drop_first(), reading_stdin, read_head),
            SourceAction::Stop => seq![0usize],
            SourceAction::SendHead => seq![read_head, 0usize],
            SourceAction::SendAll => seq![reads.first()] + source_sends(
                reads.drop_first(),
                reading_stdin,
                read_head,
            ),
        }
    }
}

/// Shutdown, source half: whatever its reads return, a source run sends
/// the empty sentinel exactly once, as its very last message; every
/// message before it carries data.
pub proof fn lemma_source_sends_single_sentinel(
    reads: Seq<usize>,
    reading_stdin: bool,
    read_head: usize,
)
    ensures
        source_sends(reads, reading_stdin, read_head).len() >= 1,
        source_sends(reads, reading_stdin, read_head).last() == 0,
        forall|i: int|
            0 <= i < source_sends(reads, reading_stdin, read_head).len() - 1
                ==> #[trigger] source_sends(reads, reading_stdin, read_head)[i] > 0,
    decreases reads.len(),
{
    let sends = source_sends(reads, reading_stdin, read_head);
    if reads.len() > 0 {
        match spec_source_action(reading_stdin, reads.first(), read_head) {
            SourceAction::Retry => {
                lemma_source_sends_single_sentinel(reads.drop_first(), reading_stdin, read_head);
            },
            SourceAction::Stop => {},
            SourceAction::SendHead => {},
            SourceAction::SendAll => {
                lemma_source_sends_single_sentinel(reads.drop_first(), reading_stdin, read_head);
                let rest = source_sends(reads.drop_first(), reading_stdin, read_head);
                assert(sends.last() == rest.last());
                assert(forall|i: int|
                    1 <= i < sends.len() - 1 ==> #[trigger] sends[i] == rest[i - 1]);
            },
        }
    }
}

/// Model of the bounded queue between the source and the decoder: the
/// buffers in flight, oldest first, and the fixed capacity.  At run
/// time a bounded channel realizes this discipline; the model makes
/// its flow-control property a theorem.
pub struct QueueModel {
    pub capacity: nat,
    pub contents: Seq<Seq<u8>>,
}

/// One observable step of the queue.
pub enum QueueEvent {
    /// The source offers a buffer.  With the queue full the send
    /// blocks: nothing enters until the decoder drains.
    Send(Seq<u8>),
    /// The decoder takes the oldest buffer, if any.
    Receive,
}

/// The queue before anything was sent.
pub open spec fn queue_init(capacity: nat) -> QueueModel {
    QueueModel { capacity, contents: Seq::empty() }
}

/// How one event changes the queue: a send enters only below capacity
/// (a full queue blocks the sender), a receive drops the oldest buffer.
pub open spec fn queue_step(q: QueueModel, e: QueueEvent) -> QueueModel {
    match e {
        QueueEvent::Send(m) => if q.contents.len() < q.capacity {
            QueueModel { capacity: q.capacity, contents: q.contents.push(m) }
        } else {
            q
        },
        QueueEvent::Receive => if q.contents.len() > 0 {
            QueueModel { capacity: q.capacity, contents: q.contents.drop_first() }
        } else {
            q
        },
    }
}

/// The queue after a whole run of events.
pub open spec fn queue_run(capacity: nat, events: Seq<QueueEvent>) -> QueueModel
    decreases events.len(),
{
    if events.len() == 0 {
        queue_init(capacity)
    } else {
        queue_step(queue_run(capacity, events.drop_last()), events.last())
    }
}

/// No buffer count above capacity.
pub open spec fn queue_bounded(q: QueueModel) -> bool {
    q.contents.len() <= q.capacity
}

/// One step keeps the queue within its capacity.
pub proof fn lemma_queue_step_bounded(q: QueueModel, e: QueueEvent)
    requires
        queue_bounded(q),
    ensures
        queue_bounded(queue_step(q, e)),
{
}

/// Backpressure: however many buffers a sustained source offers, and
/// however rarely the decoder drains, the queue never holds more than
/// its capacity — a blocked send adds nothing.  This is the only flow
/// control between the stages.
pub proof fn lemma_queue_never_exceeds_capacity(capacity: nat, events: Seq<QueueEvent>)
    ensures
        queue_bounded(queue_run(capacity, events)),
        queue_run(capacity, events).capacity == capacity,
    decreases events.len(),
{
    if events.len() > 0 {
        lemma_queue_never_exceeds_capacity(capacity, events.drop_last());
        lemma_queue_step_bounded(queue_run(capacity, events.drop_last()), events.last());
    }
}

/// The bytes of window `i` of a message split into windows of
/// `chunksize` bytes: every window is full except possibly the last.
pub open spec fn window_at(buffer: Seq<u8>, chunksize: nat, i: int) -> Seq<u8>
    recommends
        chunksize >= 1,
{
    buffer.subrange(
        i * chunksize,
        if (i + 1) * chunksize <= buffer.len() {
            (i + 1) * chunksize
        } else {
            buffer.len() as int
        },
    )
}

/// Split a message into consecutive decode windows of `chunksize`
/// bytes; the last window holds whatever is left.
pub fn split_chunks(buffer: &[u8], chunksize: usize) -> (r: Vec<Vec<u8>>)
    requires
        chunksize >= 1,
    ensures
        r@.len() == dump_rows(buffer@.len(), chunksize as nat),
        forall|i: int|
            0 <= i < r@.len() ==> #[trigger] r@[i]@ == window_at(
                buffer@,
                chunksize as nat,
                i,
            ),
{
    let n = buffer.len();
    let total: usize = if n == 0 {
        0
    } else {
        (n - 1) / chunksize + 1
    };
    proof {
        assert(total == dump_rows(n as nat, chunksize as nat)) by (nonlinear_arith)
            requires
                chunksize >= 1,
                total == (if n == 0 {
                    0int
                } else {
                    (n - 1) as int / chunksize as int + 1
                }),
        ;
    }
    let mut out: Vec<Vec<u8>> = Vec::new();
    let mut i: usize = 0;
    while i < total
        invariant
            i <= total,
            n == buffer@.len(),
            chunksize >= 1,
            total == dump_rows(n as nat, chunksize as nat),
            i < total ==> i * chunksize < n,
            out@.len() == i,
            forall|k: int|
                0 <= k < i ==> #[trigger] out@[k]@ == window_at(buffer@, chunksize as nat, k),
        decreases total - i,
    {
        proof {
            assert(i * chunksize < n && (i + 1) * chunksize == i * chunksize + chunksize)
                by (nonlinear_arith)
                requires
                    chunksize >= 1,
                    i < total,
                    total == ((n + chunksize - 1) as int) / (chunksize as int),
                    n >= 1,
            ;
        }
        let start = i * chunksize;
        let end = if chunksize <= n - start {
            start + chunksize
        } else {
            n
        };
        let mut piece: Vec<u8> = Vec::new();
        let mut j: usize = start;
        while j < end
            invariant
                start <= j <= end <= n == buffer@.len(),
                piece@ == buffer@.subrange(start as int, j as int),
            decreases end - j,
        {
            piece.push(buffer[j]);
            proof {
                assert(piece@ =~= buffer@.subrange(start as int, j + 1));
            }
            j = j + 1;
        }
        proof {
            assert(piece@ =~= window_at(buffer@, chunksize as nat, i as int));
        }
        out.push(piece);
        i = i + 1;
        proof {
            assert(i < total ==> i * chunksize < n) by (nonlinear_arith)
                requires
                    chunksize >= 1,
                    i <= total,
                    total == ((n + chunksize - 1) as int) / (chunksize as int),
            ;
        }
    }
    out
}

} // verus!

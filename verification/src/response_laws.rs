//! What holds of a whole response, however it arrives.

use crate::chunked::{
    lemma_starts_with_crlf, lemma_step_moves, scan, scan_rank, scan_step, ChunkState, ScanResult,
};
use crate::chunked_laws::{
    law_scan_resumes, law_scanned_bytes_may_go, law_scanner_takes_all_it_can, moved_back,
};
use crate::connection::{
    chunks_awaited, elapsed_micros, read_step, write_step, Action, ConnState, ConnView, ReadEvent,
    Step, WriteEvent, MAX_HEADERS, RECVBUF,
};
use crate::connection_laws::{
    is_loss_counted, is_over, law_body_counts_down, law_body_lasts_until_close,
    law_chunks_are_looked_through, law_events_keep_counts_balanced,
    law_head_decides_what_follows, law_time_in_whole_microseconds, law_what_counts_a_request,
    law_what_counts_bytes, law_what_loses_a_request,
};
use crate::head::{found_head, response_head, HeadView};
use crate::header_laws::law_what_is_announced_is_told;
use crate::headers::{
    announced_chunked, announced_close, announced_length, classified, lengths_fit, BodyInfo,
    HeaderView,
};
use crate::latency::bucket_floor;
use crate::seek::{crlf, lemma_first_found};
use crate::stats::StatsView;
use crate::stats_laws::law_latency_counts_one_sample;
use vstd::multiset::Multiset;
use vstd::prelude::*;

verus! {

/// What comes of an attempt to read.
pub enum Reading {
    /// The connection is readable.
    Ready,
    /// These bytes came, or the server closed the connection where there are none.
    Received(Seq<u8>),
    /// There is nothing to read for now.
    WouldBlock,
    /// Reading failed.
    Failed,
}

/// A reading and the time at which it was handled.
pub struct TimedReading {
    pub reading: Reading,
    pub now: u64,
}

impl Reading {
    /// The event that is reported.
    pub open spec fn event(self) -> ReadEvent {
        match self {
            Reading::Ready => ReadEvent::Ready,
            Reading::Received(bytes) => ReadEvent::Received(bytes.len() as usize),
            Reading::WouldBlock => ReadEvent::WouldBlock,
            Reading::Failed => ReadEvent::Failed,
        }
    }

    /// The number of bytes that came.
    pub open spec fn len(self) -> int {
        match self {
            Reading::Received(bytes) => bytes.len() as int,
            _ => 0,
        }
    }

    /// Whether the bytes have room in the buffer.
    pub open spec fn fits(self, conn: ConnView) -> bool {
        conn.read_len + self.len() <= conn.buf.len()
    }

    /// The connection with the bytes in its buffer, behind what was received before.
    pub open spec fn filled(self, conn: ConnView) -> ConnView {
        match self {
            Reading::Received(bytes) => ConnView {
                buf: conn.received() + bytes + conn.buf.skip(conn.read_len + bytes.len()),
                ..conn
            },
            _ => conn,
        }
    }

    /// What follows the reading.
    pub open spec fn step(
        self,
        conn: ConnView,
        stats: StatsView,
        recording: bool,
        now: u64,
    ) -> Step {
        read_step(self.filled(conn), stats, self.event(), recording, now)
    }
}

/// What has come of several readings, one after the other.
pub open spec fn after_readings(
    conn: ConnView,
    stats: StatsView,
    readings: Seq<TimedReading>,
    recording: bool,
) -> Step
    decreases readings.len(),
{
    if readings.len() == 0 {
        Step { conn, stats, action: Action::Wait }
    } else {
        let before = after_readings(conn, stats, readings.drop_last(), recording);
        let last = readings.last();
        last.reading.step(before.conn, before.stats, recording, last.now)
    }
}

/// Whether the bytes of each reading have room in the buffer.
pub open spec fn readings_fit(
    conn: ConnView,
    stats: StatsView,
    readings: Seq<TimedReading>,
    recording: bool,
) -> bool
    decreases readings.len(),
{
    readings.len() == 0 || {
        &&& readings_fit(conn, stats, readings.drop_last(), recording)
        &&& readings.last().reading.fits(
            after_readings(conn, stats, readings.drop_last(), recording).conn,
        )
    }
}

/// The number of bytes that came in all.
pub open spec fn received_in_all(readings: Seq<TimedReading>) -> int
    decreases readings.len(),
{
    if readings.len() == 0 {
        0
    } else {
        received_in_all(readings.drop_last()) + readings.last().reading.len()
    }
}

/// Whatever happens to a connection, its buffer keeps its size and the positions stay
/// inside it.
pub proof fn law_events_keep_positions_inside(
    conn: ConnView,
    stats: StatsView,
    read: ReadEvent,
    write: WriteEvent,
    request_len: int,
    recording: bool,
    connected: bool,
    now: u64,
)
    requires
        conn.wf(),
        read matches ReadEvent::Received(n) ==> conn.read_len + n <= RECVBUF,
    ensures
        read_step(conn, stats, read, recording, now).conn.wf(),
        write_step(conn, stats, write, request_len, recording, now).conn.wf(),
        conn.reconnected(connected).wf(),
{
    lemma_read_keeps_wf(conn, stats, read, recording, now);
}

/// A part of a chunked body keeps the positions inside the buffer.
proof fn lemma_chunks_keep_wf(conn: ConnView)
    requires
        conn.wf(),
        conn.state is ReadingChunked,
    ensures
        scan(
            conn.received(),
            conn.state->ReadingChunked_parsed_offset as int,
            conn.state->ReadingChunked_chunk_state,
        ) matches ScanResult::Complete { offset } ==> 0 <= offset <= conn.read_len,
        chunks_awaited(conn).wf(),
{
    let data = conn.received();
    let offset = conn.state->ReadingChunked_parsed_offset as int;
    let state = conn.state->ReadingChunked_chunk_state;
    law_scan_resumes(data, Seq::empty(), offset, state);
    lemma_scan_ends_inside(data, offset, state);
}

/// The end that the scanner finds lies in the data.
proof fn lemma_scan_ends_inside(data: Seq<u8>, offset: int, state: ChunkState)
    requires
        0 <= offset <= data.len(),
    ensures
        scan(data, offset, state) matches ScanResult::Complete { offset: at } ==> offset <= at
            <= data.len(),
    decreases data.len() - offset, scan_rank(state),
{
    lemma_step_moves(data, offset, state);
    if let Some((next, at)) = scan_step(data, offset, state) {
        lemma_scan_ends_inside(data, at, next);
    } else {
        lemma_first_found(data.skip(offset), crlf());
        lemma_starts_with_crlf(data.skip(offset));
    }
}

/// An event on a connection that is readable keeps the positions inside the buffer.
proof fn lemma_read_keeps_wf(
    conn: ConnView,
    stats: StatsView,
    event: ReadEvent,
    recording: bool,
    now: u64,
)
    requires
        conn.wf(),
        event matches ReadEvent::Received(n) ==> conn.read_len + n <= RECVBUF,
    ensures
        read_step(conn, stats, event, recording, now).conn.wf(),
{
    if let ReadEvent::Received(n) = event {
        if n > 0 {
            let longer = ConnView { read_len: conn.read_len + n, ..conn };
            if conn.state is ReadingChunked {
                lemma_chunks_keep_wf(longer);
            } else if conn.state == ConnState::ReadingHeaders {
                if let HeadView::Complete { header_len, code, headers } = found_head(
                    longer.received(),
                    MAX_HEADERS as int,
                ) {
                    let begun = ConnView {
                        state: ConnState::ReadingChunked {
                            chunk_state: ChunkState::Size,
                            parsed_offset: header_len as usize,
                        },
                        close_connection: classified(headers).connection_close,
                        ..longer
                    };
                    lemma_chunks_keep_wf(begun);
                }
            }
        }
    }
}

/// However much is read, and in whatever pieces, the buffer keeps its size and the
/// positions stay inside it.
pub proof fn law_readings_keep_positions_inside(
    conn: ConnView,
    stats: StatsView,
    readings: Seq<TimedReading>,
    recording: bool,
)
    requires
        conn.wf(),
        readings_fit(conn, stats, readings, recording),
    ensures
        after_readings(conn, stats, readings, recording).conn.wf(),
        after_readings(conn, stats, readings, recording).conn.buf.len() == conn.buf.len(),
    decreases readings.len(),
{
    if readings.len() > 0 {
        law_readings_keep_positions_inside(conn, stats, readings.drop_last(), recording);
        let before = after_readings(conn, stats, readings.drop_last(), recording);
        let last = readings.last();
        lemma_read_keeps_wf(
            last.reading.filled(before.conn),
            before.stats,
            last.reading.event(),
            recording,
            last.now,
        );
    }
}

/// Whether a response is awaited.
pub open spec fn awaits_response(conn: ConnView) -> bool {
    ||| conn.state == ConnState::ReadingHeaders
    ||| conn.state is ReadingBody
    ||| conn.state is ReadingChunked
    ||| conn.state == ConnState::ReadingUntilClose
}

/// Whether a reading ends the response: its length is reached, its last chunk has come,
/// or the server closed the connection where that is awaited.
pub open spec fn ends_response(conn: ConnView, reading: Reading) -> bool {
    let filled = reading.filled(conn);
    let longer = ConnView { read_len: conn.read_len + reading.len(), ..filled };
    &&& reading is Received
    &&& match conn.state {
        ConnState::ReadingHeaders => reading.len() > 0 && match found_head(
            longer.received(),
            MAX_HEADERS as int,
        ) {
            HeadView::Complete { header_len, headers, .. } => lengths_fit(headers) && match classified(
                headers,
            ).body_info {
                BodyInfo::ContentLength(length) => longer.read_len - header_len >= length,
                BodyInfo::Chunked => scan(
                    longer.received(),
                    header_len,
                    ChunkState::Size,
                ) is Complete,
                BodyInfo::UntilClose => false,
            },
            _ => false,
        },
        ConnState::ReadingBody { remaining } => reading.len() > 0 && reading.len() >= remaining,
        ConnState::ReadingChunked { chunk_state, parsed_offset } => reading.len() > 0 && scan(
            longer.received(),
            parsed_offset as int,
            chunk_state,
        ) is Complete,
        ConnState::ReadingUntilClose => reading.len() == 0,
        _ => false,
    }
}

/// The next request is due just where a reading ends the response and the server keeps
/// the connection open; where it closes the connection, that is set up again.
pub proof fn law_when_a_response_ends(
    conn: ConnView,
    stats: StatsView,
    reading: Reading,
    recording: bool,
    now: u64,
)
    requires
        conn.wf(),
        reading.fits(conn),
    ensures
        ({
            let step = reading.step(conn, stats, recording, now);
            &&& step.action == Action::AwaitWritable <==> ends_response(conn, reading)
                && !step.conn.close_connection
            &&& ends_response(conn, reading) && step.conn.close_connection ==> step.action
                == Action::Reconnect
        }),
{
}

/// Whether the response goes on after each of the readings.
pub open spec fn goes_on(
    conn: ConnView,
    stats: StatsView,
    readings: Seq<TimedReading>,
    recording: bool,
) -> bool
    decreases readings.len(),
{
    readings.len() == 0 || {
        let action = after_readings(conn, stats, readings, recording).action;
        &&& goes_on(conn, stats, readings.drop_last(), recording)
        &&& action == Action::Read || action == Action::Wait
    }
}

/// While a response goes on, what was received of it is kept and not counted as long as
/// its head is awaited; from then on one request is counted, and every byte once.
pub proof fn law_response_counted_so_far(
    conn: ConnView,
    stats: StatsView,
    readings: Seq<TimedReading>,
)
    requires
        conn.wf(),
        conn.state == ConnState::ReadingHeaders,
        conn.read_len == 0,
        readings_fit(conn, stats, readings, true),
        goes_on(conn, stats, readings, true),
    ensures
        ({
            let step = after_readings(conn, stats, readings, true);
            &&& awaits_response(step.conn)
            &&& if step.conn.state == ConnState::ReadingHeaders {
                &&& step.conn.read_len == received_in_all(readings)
                &&& step.stats.total_requests == stats.total_requests
                &&& step.stats.total_bytes == stats.total_bytes
            } else {
                &&& step.stats.total_requests == stats.total_requests + 1
                &&& step.stats.total_bytes == stats.total_bytes + received_in_all(readings)
            }
        }),
    decreases readings.len(),
{
    if readings.len() > 0 {
        let front = readings.drop_last();
        law_response_counted_so_far(conn, stats, front);
        law_readings_keep_positions_inside(conn, stats, front, true);
        let before = after_readings(conn, stats, front, true);
        let last = readings.last();
        let filled = last.reading.filled(before.conn);
        law_what_counts_bytes(filled, before.stats, last.reading.event(), last.now);
        law_what_counts_a_request(filled, before.stats, last.reading.event(), last.now);
    }
}

/// A response counts as one request, and each of its bytes counts once, in whatever pieces
/// it is read: over the readings from the first to the one that ends it, the requests grow
/// by one and the bytes by what was received.
pub proof fn law_response_counts_once(
    conn: ConnView,
    stats: StatsView,
    readings: Seq<TimedReading>,
)
    requires
        conn.wf(),
        conn.state == ConnState::ReadingHeaders,
        conn.read_len == 0,
        readings_fit(conn, stats, readings, true),
        readings.len() > 0,
        goes_on(conn, stats, readings.drop_last(), true),
        ends_response(
            after_readings(conn, stats, readings.drop_last(), true).conn,
            readings.last().reading,
        ),
    ensures
        ({
            let step = after_readings(conn, stats, readings, true);
            &&& step.stats.total_requests == stats.total_requests + 1
            &&& step.stats.total_bytes == stats.total_bytes + received_in_all(readings)
        }),
{
    let front = readings.drop_last();
    law_response_counted_so_far(conn, stats, front);
    law_readings_keep_positions_inside(conn, stats, front, true);
    let before = after_readings(conn, stats, front, true);
    let last = readings.last();
    let filled = last.reading.filled(before.conn);
    law_what_counts_bytes(filled, before.stats, last.reading.event(), last.now);
    law_what_counts_a_request(filled, before.stats, last.reading.event(), last.now);
    assert(filled.buf.take(before.conn.read_len + last.reading.len()) == ConnView {
        read_len: before.conn.read_len + last.reading.len(),
        ..filled
    }.received());
}

/// Whether one sample of `micros` was added to the samples, in its bucket, and no other.
pub open spec fn is_sampled(before: Multiset<u64>, after: Multiset<u64>, micros: int) -> bool {
    forall|bucket: u64| #[trigger]
        after.count(bucket) == before.count(bucket) + if micros < 1073741824 && bucket
            == bucket_floor(micros) && before.count(bucket) < u64::MAX {
            1int
        } else {
            0int
        }
}

/// While recording, the reading that ends a response adds one sample: the whole
/// microseconds from the beginning of the request to that reading. No other reading adds
/// any, and neither does one while the benchmark warms up.
pub proof fn law_end_of_response_is_timed(
    conn: ConnView,
    stats: StatsView,
    reading: Reading,
    start: u64,
    micros: int,
    recording: bool,
    now: u64,
)
    requires
        conn.wf(),
        reading.fits(conn),
        conn.start_time == Some(start),
        start <= now,
        1000 * micros <= now - start < 1000 * (micros + 1),
    ensures
        ({
            let step = reading.step(conn, stats, recording, now);
            if recording && ends_response(conn, reading) {
                is_sampled(stats.latency, step.stats.latency, micros)
            } else {
                step.stats.latency == stats.latency
            }
        }),
{
    law_time_in_whole_microseconds(start, now);
    let measured = elapsed_micros(start, now);
    assert(measured == micros);
    law_latency_counts_one_sample(stats, measured);
    let step = reading.step(conn, stats, recording, now);
    if recording && ends_response(conn, reading) {
        assert(step.stats.latency == stats.with_latency(measured).latency);
    }
}

/// While a response goes on it is timed from the beginning of its request, and no sample is
/// added.
proof fn lemma_time_goes_on(
    conn: ConnView,
    stats: StatsView,
    readings: Seq<TimedReading>,
    recording: bool,
)
    requires
        conn.wf(),
        awaits_response(conn),
        readings_fit(conn, stats, readings, recording),
        goes_on(conn, stats, readings, recording),
    ensures
        ({
            let step = after_readings(conn, stats, readings, recording);
            &&& awaits_response(step.conn)
            &&& step.conn.start_time == conn.start_time
            &&& step.stats.latency == stats.latency
        }),
    decreases readings.len(),
{
    if readings.len() > 0 {
        let front = readings.drop_last();
        lemma_time_goes_on(conn, stats, front, recording);
        law_readings_keep_positions_inside(conn, stats, front, recording);
    }
}

/// A response is timed from the beginning of its request to the reading that ends it, in
/// whatever pieces it is read: one sample is added over all the readings, of the whole
/// microseconds between the two.
pub proof fn law_response_is_timed_once(
    conn: ConnView,
    stats: StatsView,
    readings: Seq<TimedReading>,
    start: u64,
    micros: int,
)
    requires
        conn.wf(),
        awaits_response(conn),
        conn.start_time == Some(start),
        readings_fit(conn, stats, readings, true),
        readings.len() > 0,
        goes_on(conn, stats, readings.drop_last(), true),
        ends_response(
            after_readings(conn, stats, readings.drop_last(), true).conn,
            readings.last().reading,
        ),
        start <= readings.last().now,
        1000 * micros <= readings.last().now - start < 1000 * (micros + 1),
    ensures
        is_sampled(
            stats.latency,
            after_readings(conn, stats, readings, true).stats.latency,
            micros,
        ),
{
    let front = readings.drop_last();
    lemma_time_goes_on(conn, stats, front, true);
    law_readings_keep_positions_inside(conn, stats, front, true);
    let before = after_readings(conn, stats, front, true);
    let last = readings.last();
    law_end_of_response_is_timed(
        before.conn,
        before.stats,
        last.reading,
        start,
        micros,
        true,
        last.now,
    );
}

/// All the bytes that came, in their order.
pub open spec fn stream(readings: Seq<TimedReading>) -> Seq<u8>
    decreases readings.len(),
{
    if readings.len() == 0 {
        Seq::empty()
    } else {
        match readings.last().reading {
            Reading::Received(bytes) => stream(readings.drop_last()) + bytes,
            _ => stream(readings.drop_last()),
        }
    }
}

/// The bytes of a reading stand behind what was received.
proof fn lemma_filled(conn: ConnView, bytes: Seq<u8>)
    requires
        conn.wf(),
        Reading::Received(bytes).fits(conn),
    ensures
        ({
            let filled = Reading::Received(bytes).filled(conn);
            &&& filled.wf()
            &&& filled.buf.take(conn.read_len + bytes.len()) == conn.received() + bytes
            &&& filled.received() == conn.received()
        }),
{
    let filled = Reading::Received(bytes).filled(conn);
    assert(filled.buf.take(conn.read_len + bytes.len()) =~= conn.received() + bytes);
    assert(filled.received() =~= conn.received());
}

/// As long as the head is awaited all that came is kept.
proof fn lemma_head_kept(
    conn: ConnView,
    stats: StatsView,
    readings: Seq<TimedReading>,
    recording: bool,
)
    requires
        conn.wf(),
        conn.state == ConnState::ReadingHeaders,
        conn.read_len == 0,
        readings_fit(conn, stats, readings, recording),
        goes_on(conn, stats, readings, recording),
    ensures
        ({
            let step = after_readings(conn, stats, readings, recording);
            &&& awaits_response(step.conn)
            &&& step.conn.state == ConnState::ReadingHeaders ==> step.conn.received() == stream(
                readings,
            )
        }),
    decreases readings.len(),
{
    if readings.len() == 0 {
        assert(conn.received() =~= stream(readings));
    } else {
        let front = readings.drop_last();
        lemma_head_kept(conn, stats, front, recording);
        law_readings_keep_positions_inside(conn, stats, front, recording);
        let before = after_readings(conn, stats, front, recording);
        if let Reading::Received(bytes) = readings.last().reading {
            lemma_filled(before.conn, bytes);
        }
    }
}

/// Whether the reading `at` is the one with which the head of the response is whole, and
/// the head ends at `header_len` of all that came and has the headers `headers`.
pub open spec fn is_head_whole(
    conn: ConnView,
    stats: StatsView,
    readings: Seq<TimedReading>,
    recording: bool,
    at: int,
    header_len: int,
    headers: Seq<HeaderView>,
) -> bool {
    let came = stream(readings.take(at + 1));
    &&& 0 <= at < readings.len()
    &&& readings[at].reading.len() > 0
    &&& after_readings(conn, stats, readings.take(at), recording).conn.state
        == ConnState::ReadingHeaders
    &&& response_head(came, 16) matches HeadView::Complete { header_len: end, headers: found, .. }
    &&& end == header_len
    &&& found == headers
    &&& 0 <= header_len <= came.len()
    &&& lengths_fit(headers)
}

/// Whether what is kept of a chunked body is judged like all of it, whatever comes next.
pub open spec fn is_chunked_kept(conn: ConnView, came: Seq<u8>, header_len: int) -> bool {
    let dropped = came.len() - conn.read_len;
    &&& conn.state is ReadingChunked
    &&& 0 <= header_len <= came.len()
    &&& dropped >= 0
    &&& conn.received() == came.skip(dropped)
    &&& forall|more: Seq<u8>|
        #![trigger conn.received() + more]
        scan(
            conn.received() + more,
            conn.state->ReadingChunked_parsed_offset as int,
            conn.state->ReadingChunked_chunk_state,
        ) == moved_back(
            scan(came.skip(header_len) + more, 0, ChunkState::Size),
            dropped - header_len,
        )
}

/// Whether the connection is where the head and all that came put it.
pub open spec fn is_behind_head(
    conn: ConnView,
    came: Seq<u8>,
    header_len: int,
    headers: Seq<HeaderView>,
) -> bool {
    &&& conn.close_connection == announced_close(headers)
    &&& match announced_length(headers) {
        Some(length) => {
            let left = header_len + length - came.len();
            0 < left <= usize::MAX && conn.state == (ConnState::ReadingBody {
                remaining: left as usize,
            })
        },
        None => if announced_chunked(headers) {
            is_chunked_kept(conn, came, header_len)
        } else {
            conn.state == ConnState::ReadingUntilClose
        },
    }
}

/// What is kept behind what was looked through is judged like all of it.
proof fn lemma_kept_is_judged(
    data: Seq<u8>,
    offset: int,
    state: ChunkState,
    kept: Seq<u8>,
    dropped: int,
    more: Seq<u8>,
)
    requires
        0 <= offset <= data.len(),
        scan(data, offset, state) is More,
        0 <= dropped <= scan(data, offset, state)->More_offset,
        kept == data.skip(dropped),
    ensures
        scan(
            kept + more,
            scan(data, offset, state)->More_offset - dropped,
            scan(data, offset, state)->More_state,
        ) == moved_back(scan(data + more, offset, state), dropped),
{
    law_scan_resumes(data, more, offset, state);
    let at = scan(data, offset, state)->More_offset;
    let next = scan(data, offset, state)->More_state;
    law_scanned_bytes_may_go(data + more, dropped, at, next);
    assert((data + more).skip(dropped) =~= kept + more);
}

/// What is kept of a chunked body that begins with its head is judged like all of it.
proof fn lemma_kept_behind_head(conn: ConnView, came: Seq<u8>, header_len: int)
    requires
        0 <= header_len <= came.len() <= RECVBUF,
        ({
            let dropped = came.len() - conn.read_len;
            &&& scan(came, header_len, ChunkState::Size) matches ScanResult::More { state, offset }
            &&& 0 <= dropped <= offset <= came.len()
            &&& conn.received() == came.skip(dropped)
            &&& conn.state == (ConnState::ReadingChunked {
                chunk_state: state,
                parsed_offset: (offset - dropped) as usize,
            })
        }),
    ensures
        is_chunked_kept(conn, came, header_len),
{
    let dropped = came.len() - conn.read_len;
    assert forall|more: Seq<u8>|
        #![trigger conn.received() + more]
        scan(
            conn.received() + more,
            conn.state->ReadingChunked_parsed_offset as int,
            conn.state->ReadingChunked_chunk_state,
        ) == moved_back(
            scan(came.skip(header_len) + more, 0, ChunkState::Size),
            dropped - header_len,
        ) by {
        lemma_kept_is_judged(
            came,
            header_len,
            ChunkState::Size,
            conn.received(),
            dropped,
            more,
        );
        lemma_from_head(came, header_len, more);
    }
}

/// With the head whole the connection is where the head puts it.
#[verifier::rlimit(40)]
proof fn lemma_head_puts(
    before: ConnView,
    stats: StatsView,
    came: Seq<u8>,
    bytes: Seq<u8>,
    header_len: int,
    headers: Seq<HeaderView>,
    recording: bool,
    now: u64,
)
    requires
        before.wf(),
        stats.status_codes.len() == 600,
        before.state == ConnState::ReadingHeaders,
        Reading::Received(bytes).fits(before),
        bytes.len() > 0,
        came == before.received() + bytes,
        response_head(came, 16) matches HeadView::Complete {
            header_len: end,
            headers: found,
            ..
        } && end == header_len && found == headers,
        0 <= header_len <= came.len(),
        lengths_fit(headers),
    ensures
        ({
            let step = Reading::Received(bytes).step(before, stats, recording, now);
            let closes = announced_close(headers);
            &&& step.conn.close_connection == closes
            &&& step.action == Action::Read || step.action == Action::Wait ==> is_behind_head(
                step.conn,
                came,
                header_len,
                headers,
            )
            &&& ends_with(step, came, header_len, headers)
        }),
{
    lemma_filled(before, bytes);
    let filled = Reading::Received(bytes).filled(before);
    law_head_decides_what_follows(filled, stats, bytes.len() as usize, recording, now);
    law_what_is_announced_is_told(headers);
    let step = Reading::Received(bytes).step(before, stats, recording, now);
    lemma_from_head(came, header_len, Seq::empty());
    assert(came + Seq::<u8>::empty() =~= came);
    if announced_length(headers) is None && announced_chunked(headers) {
        if let ScanResult::More { state, offset } = scan(came, header_len, ChunkState::Size) {
            law_scanner_takes_all_it_can(came, header_len, ChunkState::Size);
            let dropped = came.len() - step.conn.read_len;
            assert(filled.buf.subrange(dropped, came.len() as int) =~= came.skip(dropped));
            lemma_kept_behind_head(step.conn, came, header_len);
        }
    }
}

/// A body is judged alike with its head before it and without.
proof fn lemma_from_head(came: Seq<u8>, header_len: int, more: Seq<u8>)
    requires
        0 <= header_len <= came.len(),
    ensures
        scan(came.skip(header_len) + more, 0, ChunkState::Size) == moved_back(
            scan(came + more, header_len, ChunkState::Size),
            header_len,
        ),
{
    law_scanned_bytes_may_go(came + more, header_len, header_len, ChunkState::Size);
    assert((came + more).skip(header_len) =~= came.skip(header_len) + more);
}

/// Whether a step that bytes came with does with the response what the head and all that
/// came ask for.
pub open spec fn ends_with(
    step: Step,
    came: Seq<u8>,
    header_len: int,
    headers: Seq<HeaderView>,
) -> bool {
    let over = if announced_close(headers) {
        Action::Reconnect
    } else {
        Action::AwaitWritable
    };
    match announced_length(headers) {
        Some(length) => step.action == if came.len() >= header_len + length {
            over
        } else {
            Action::Read
        },
        None => if announced_chunked(headers) {
            match scan(came.skip(header_len), 0, ChunkState::Size) {
                ScanResult::Complete { .. } => step.action == over,
                ScanResult::Malformed => step.action == Action::Reconnect,
                ScanResult::More { .. } => step.action == Action::Wait || step.action
                    == if step.conn.read_len < 16384 {
                    Action::Read
                } else {
                    Action::Reconnect
                },
            }
        } else {
            step.action == Action::Read
        },
    }
}

/// What is kept of a chunked body, with more bytes, is judged like all of it.
proof fn lemma_all_is_judged(conn: ConnView, came: Seq<u8>, bytes: Seq<u8>, header_len: int)
    requires
        is_chunked_kept(conn, came, header_len),
    ensures
        scan(
            conn.received() + bytes,
            conn.state->ReadingChunked_parsed_offset as int,
            conn.state->ReadingChunked_chunk_state,
        ) == moved_back(
            scan((came + bytes).skip(header_len), 0, ChunkState::Size),
            came.len() - conn.read_len - header_len,
        ),
{
    assert((came + bytes).skip(header_len) =~= came.skip(header_len) + bytes);
}

/// What is kept of a chunked body goes on to be judged like all of it.
proof fn lemma_kept_goes_on(
    before: ConnView,
    after: ConnView,
    came: Seq<u8>,
    bytes: Seq<u8>,
    header_len: int,
)
    requires
        before.wf(),
        is_chunked_kept(before, came, header_len),
        ({
            let data = before.received() + bytes;
            let dropped = data.len() - after.read_len;
            &&& scan(
                data,
                before.state->ReadingChunked_parsed_offset as int,
                before.state->ReadingChunked_chunk_state,
            ) matches ScanResult::More { state, offset }
            &&& 0 <= dropped <= offset <= data.len() <= RECVBUF
            &&& after.received() == data.skip(dropped)
            &&& after.state == (ConnState::ReadingChunked {
                chunk_state: state,
                parsed_offset: (offset - dropped) as usize,
            })
        }),
    ensures
        is_chunked_kept(after, came + bytes, header_len),
{
    let longer = came + bytes;
    let data = before.received() + bytes;
    let offset = before.state->ReadingChunked_parsed_offset as int;
    let begun = before.state->ReadingChunked_chunk_state;
    let gone = came.len() - before.read_len;
    let dropped = data.len() - after.read_len;
    assert(longer.len() - after.read_len == gone + dropped);
    assert(after.received() =~= longer.skip(gone + dropped));
    assert forall|more: Seq<u8>|
        #![trigger after.received() + more]
        scan(
            after.received() + more,
            after.state->ReadingChunked_parsed_offset as int,
            after.state->ReadingChunked_chunk_state,
        ) == moved_back(
            scan(longer.skip(header_len) + more, 0, ChunkState::Size),
            gone + dropped - header_len,
        ) by {
        lemma_kept_is_judged(data, offset, begun, after.received(), dropped, more);
        assert(data + more =~= before.received() + (bytes + more));
        assert(longer.skip(header_len) + more =~= came.skip(header_len) + (bytes + more));
    }
}

/// Behind its head the response goes on as the head and all that came ask for.
#[verifier::rlimit(40)]
proof fn lemma_behind_head_goes_on(
    before: ConnView,
    stats: StatsView,
    came: Seq<u8>,
    bytes: Seq<u8>,
    header_len: int,
    headers: Seq<HeaderView>,
    recording: bool,
    now: u64,
)
    requires
        before.wf(),
        is_behind_head(before, came, header_len, headers),
        Reading::Received(bytes).fits(before),
        bytes.len() > 0,
    ensures
        ({
            let step = Reading::Received(bytes).step(before, stats, recording, now);
            let longer = came + bytes;
            &&& step.conn.close_connection == announced_close(headers)
            &&& step.action == Action::Read || step.action == Action::Wait ==> is_behind_head(
                step.conn,
                longer,
                header_len,
                headers,
            )
            &&& ends_with(step, longer, header_len, headers)
        }),
{
    lemma_filled(before, bytes);
    let filled = Reading::Received(bytes).filled(before);
    let n = bytes.len() as usize;
    let step = Reading::Received(bytes).step(before, stats, recording, now);
    let longer = came + bytes;
    if announced_length(headers) is Some {
        law_body_counts_down(filled, stats, n, recording, now);
    } else if announced_chunked(headers) {
        law_chunks_are_looked_through(filled, stats, n, recording, now);
        let data = before.received() + bytes;
        lemma_all_is_judged(before, came, bytes, header_len);
        if let ScanResult::More { state, offset } = scan(
            data,
            before.state->ReadingChunked_parsed_offset as int,
            before.state->ReadingChunked_chunk_state,
        ) {
            law_scanner_takes_all_it_can(
                data,
                before.state->ReadingChunked_parsed_offset as int,
                before.state->ReadingChunked_chunk_state,
            );
            let dropped = data.len() - step.conn.read_len;
            assert(filled.buf.subrange(dropped, data.len() as int) =~= data.skip(dropped));
            lemma_kept_goes_on(before, step.conn, came, bytes, header_len);
        }
    } else {
        law_body_lasts_until_close(filled, stats, n, recording, now);
    }
}

/// While a response goes on behind its head, the connection is where the head and all that
/// came put it.
proof fn lemma_behind_head(
    conn: ConnView,
    stats: StatsView,
    readings: Seq<TimedReading>,
    recording: bool,
    at: int,
    header_len: int,
    headers: Seq<HeaderView>,
)
    requires
        conn.wf(),
        stats.balanced(),
        conn.state == ConnState::ReadingHeaders,
        conn.read_len == 0,
        readings_fit(conn, stats, readings, recording),
        goes_on(conn, stats, readings, recording),
        is_head_whole(conn, stats, readings, recording, at, header_len, headers),
    ensures
        is_behind_head(
            after_readings(conn, stats, readings, recording).conn,
            stream(readings),
            header_len,
            headers,
        ),
    decreases readings.len(),
{
    let front = readings.drop_last();
    let before = after_readings(conn, stats, front, recording);
    let last = readings.last();
    law_readings_keep_positions_inside(conn, stats, front, recording);
    if at == readings.len() - 1 {
        assert(readings.take(at) =~= front);
        assert(readings.take(at + 1) =~= readings);
        lemma_head_kept(conn, stats, front, recording);
        lemma_readings_balanced(conn, stats, front, recording);
        if let Reading::Received(bytes) = last.reading {
            lemma_head_puts(
                before.conn,
                before.stats,
                stream(readings),
                bytes,
                header_len,
                headers,
                recording,
                last.now,
            );
        }
    } else {
        assert(front.take(at) =~= readings.take(at));
        assert(front.take(at + 1) =~= readings.take(at + 1));
        lemma_behind_head(conn, stats, front, recording, at, header_len, headers);
        if let Reading::Received(bytes) = last.reading {
            if bytes.len() > 0 {
                lemma_behind_head_goes_on(
                    before.conn,
                    before.stats,
                    stream(front),
                    bytes,
                    header_len,
                    headers,
                    recording,
                    last.now,
                );
            }
        }
    }
}

/// Readings keep the counts in agreement.
proof fn lemma_readings_balanced(
    conn: ConnView,
    stats: StatsView,
    readings: Seq<TimedReading>,
    recording: bool,
)
    requires
        conn.wf(),
        stats.balanced(),
        readings_fit(conn, stats, readings, recording),
    ensures
        after_readings(conn, stats, readings, recording).stats.balanced(),
    decreases readings.len(),
{
    if readings.len() > 0 {
        let front = readings.drop_last();
        lemma_readings_balanced(conn, stats, front, recording);
        law_readings_keep_positions_inside(conn, stats, front, recording);
        let before = after_readings(conn, stats, front, recording);
        let last = readings.last();
        law_events_keep_counts_balanced(
            last.reading.filled(before.conn),
            before.stats,
            last.reading.event(),
            WriteEvent::Ready,
            0,
            recording,
            last.now,
        );
    }
}

/// A response ends where its head says, in whatever pieces it is read. With bytes that come
/// it ends just where a length that is announced has come behind the head; or, without one,
/// just where the chunked body behind the head ends; a chunked body that is none is given
/// up; any other body goes on. Where the response ends, the connection is set up again if
/// the headers announce that it will be closed, and is used again if they do not.
pub proof fn law_response_ends_where_its_head_says(
    conn: ConnView,
    stats: StatsView,
    readings: Seq<TimedReading>,
    recording: bool,
    at: int,
    header_len: int,
    headers: Seq<HeaderView>,
)
    requires
        conn.wf(),
        stats.balanced(),
        conn.state == ConnState::ReadingHeaders,
        conn.read_len == 0,
        readings_fit(conn, stats, readings, recording),
        readings.len() > 0,
        goes_on(conn, stats, readings.drop_last(), recording),
        is_head_whole(conn, stats, readings, recording, at, header_len, headers),
        readings.last().reading.len() > 0,
    ensures
        ({
            let step = after_readings(conn, stats, readings, recording);
            let came = stream(readings);
            let over = if announced_close(headers) {
                Action::Reconnect
            } else {
                Action::AwaitWritable
            };
            &&& step.conn.close_connection == announced_close(headers)
            &&& match announced_length(headers) {
                Some(length) => step.action == if came.len() >= header_len + length {
                    over
                } else {
                    Action::Read
                },
                None => if announced_chunked(headers) {
                    match scan(came.skip(header_len), 0, ChunkState::Size) {
                        ScanResult::Complete { .. } => step.action == over,
                        ScanResult::Malformed => step.action == Action::Reconnect,
                        ScanResult::More { .. } => step.action == Action::Wait || step.action
                            == if step.conn.read_len < 16384 {
                            Action::Read
                        } else {
                            Action::Reconnect
                        },
                    }
                } else {
                    step.action == Action::Read
                },
            }
        }),
{
    let front = readings.drop_last();
    let before = after_readings(conn, stats, front, recording);
    let last = readings.last();
    law_readings_keep_positions_inside(conn, stats, front, recording);
    lemma_readings_balanced(conn, stats, front, recording);
    if let Reading::Received(bytes) = last.reading {
        if at == readings.len() - 1 {
            assert(readings.take(at) =~= front);
            assert(readings.take(at + 1) =~= readings);
            lemma_head_kept(conn, stats, front, recording);
            lemma_head_puts(
                before.conn,
                before.stats,
                stream(readings),
                bytes,
                header_len,
                headers,
                recording,
                last.now,
            );
        } else {
            assert(front.take(at) =~= readings.take(at));
            assert(front.take(at + 1) =~= readings.take(at + 1));
            lemma_behind_head(conn, stats, front, recording, at, header_len, headers);
            lemma_behind_head_goes_on(
                before.conn,
                before.stats,
                stream(front),
                bytes,
                header_len,
                headers,
                recording,
                last.now,
            );
        }
    }
}

/// What the headers announce about closing is kept until the response ends, in whatever
/// pieces it is read; and the reading that ends it is followed by setting the connection up
/// again just where the headers announced that it will be closed, and else by the next
/// request on the same connection.
pub proof fn law_closing_is_as_announced(
    conn: ConnView,
    stats: StatsView,
    readings: Seq<TimedReading>,
    last: TimedReading,
    recording: bool,
    at: int,
    header_len: int,
    headers: Seq<HeaderView>,
)
    requires
        conn.wf(),
        stats.balanced(),
        conn.state == ConnState::ReadingHeaders,
        conn.read_len == 0,
        readings_fit(conn, stats, readings, recording),
        goes_on(conn, stats, readings, recording),
        is_head_whole(conn, stats, readings, recording, at, header_len, headers),
        last.reading.fits(after_readings(conn, stats, readings, recording).conn),
    ensures
        ({
            let before = after_readings(conn, stats, readings, recording);
            let step = last.reading.step(before.conn, before.stats, recording, last.now);
            &&& before.conn.close_connection == announced_close(headers)
            &&& ends_response(before.conn, last.reading) ==> is_over(
                last.reading.filled(before.conn),
                step,
                announced_close(headers),
                last.now,
            )
        }),
{
    lemma_behind_head(conn, stats, readings, recording, at, header_len, headers);
    law_readings_keep_positions_inside(conn, stats, readings, recording);
    let before = after_readings(conn, stats, readings, recording);
    law_when_a_response_ends(before.conn, before.stats, last.reading, recording, last.now);
}

/// A response without a length and without the chunked coding ends when the server closes
/// the connection, and one with either is cut off by that; a response that is cut off
/// counts as a loss.
pub proof fn law_close_ends_or_cuts_off(
    conn: ConnView,
    stats: StatsView,
    readings: Seq<TimedReading>,
    recording: bool,
    at: int,
    header_len: int,
    headers: Seq<HeaderView>,
    now: u64,
)
    requires
        conn.wf(),
        stats.balanced(),
        conn.state == ConnState::ReadingHeaders,
        conn.read_len == 0,
        readings_fit(conn, stats, readings, recording),
        goes_on(conn, stats, readings, recording),
        is_head_whole(conn, stats, readings, recording, at, header_len, headers),
    ensures
        ({
            let before = after_readings(conn, stats, readings, recording);
            let step = read_step(before.conn, before.stats, ReadEvent::Received(0), recording, now);
            if announced_length(headers) is None && !announced_chunked(headers) {
                &&& is_over(before.conn, step, announced_close(headers), now)
                &&& step.stats.total_requests == before.stats.total_requests
            } else {
                &&& step.action == Action::Reconnect
                &&& recording ==> is_loss_counted(before.stats, step.stats)
            }
        }),
{
    lemma_behind_head(conn, stats, readings, recording, at, header_len, headers);
    law_readings_keep_positions_inside(conn, stats, readings, recording);
    let before = after_readings(conn, stats, readings, recording);
    if before.conn.state == ConnState::ReadingUntilClose {
        law_body_lasts_until_close(before.conn, before.stats, 0, recording, now);
    } else {
        law_what_loses_a_request(before.conn, before.stats, 0, recording, now);
    }
}

} // verus!

//! What holds of a connection, whatever the server does.

use crate::chunked::{scan, ChunkState, ScanResult};
use crate::chunked_laws::{
    law_scan_resumes, law_scanned_bytes_may_go, law_scanner_takes_all_it_can, moved_back,
};
use crate::connection::{
    bytes_arrived, chunks_arrived, chunks_awaited, completed, elapsed_micros, head_arrived, lost,
    read_event_fits, read_step, write_event_counts, write_event_fits, write_step, Action,
    ConnState, ConnView, ReadEvent, Step, WriteEvent, MAX_HEADERS,
};
use crate::head::{found_head, response_head, HeadView};
use crate::header_laws::law_what_is_announced_is_told;
use crate::headers::{
    announced_chunked, announced_close, announced_length, classified, lengths_fit, BodyInfo,
    HeaderInfo,
};
use crate::stats::{law_counts_stay_balanced, StatsView};
use vstd::prelude::*;

verus! {

/// While the benchmark warms up nothing is counted.
pub proof fn law_warm_up_counts_nothing(
    conn: ConnView,
    stats: StatsView,
    read: ReadEvent,
    write: WriteEvent,
    request_len: int,
    now: u64,
)
    ensures
        read_step(conn, stats, read, false, now).stats == stats,
        write_step(conn, stats, write, request_len, false, now).stats == stats,
{
}

/// Whether `n` more bytes make a head complete whose lengths the machine can hold.
pub open spec fn completes_head(conn: ConnView, n: int) -> bool {
    &&& conn.state == ConnState::ReadingHeaders
    &&& n > 0
    &&& found_head(conn.buf.take(conn.read_len + n), MAX_HEADERS as int) matches
        HeadView::Complete { headers, .. } && lengths_fit(headers)
}

/// Whether the server closes the connection where no end of a response is awaited.
pub open spec fn is_cut_off(conn: ConnView, n: int) -> bool {
    n == 0 && conn.state != ConnState::ReadingUntilClose
}

/// What is received counts one request where it completes the head of a response or cuts
/// the connection off, and none otherwise. So a response that is cut off behind its head
/// counts twice: as a response and as a loss.
pub proof fn law_what_counts_a_request(
    conn: ConnView,
    stats: StatsView,
    event: ReadEvent,
    now: u64,
)
    ensures
        read_step(conn, stats, event, true, now).stats.total_requests == stats.total_requests + if (
        event matches ReadEvent::Received(n) && (completes_head(conn, n as int) || is_cut_off(
            conn,
            n as int,
        ))) {
            1int
        } else {
            0int
        },
{
    if let ReadEvent::Received(n) = event {
        let longer = ConnView { read_len: conn.read_len + n, ..conn };
        assert(longer.received() == conn.buf.take(conn.read_len + n));
    }
}

/// A loss of the connection counts as one request under the code zero, and as nothing
/// else.
pub proof fn law_loss_is_a_network_error(conn: ConnView, stats: StatsView)
    requires
        stats.balanced(),
    ensures
        ({
            let after = lost(conn, stats, true).stats;
            &&& after.total_requests == stats.total_requests + 1
            &&& after.successful_requests == stats.successful_requests
            &&& after.total_bytes == stats.total_bytes
            &&& after.latency == stats.latency
            &&& after.status_codes[0] == stats.status_codes[0] + 1
            &&& forall|code: int|
                1 <= code < stats.status_codes.len() ==> #[trigger] after.status_codes[code]
                    == stats.status_codes[code]
        }),
{
}

/// The counts of a worker agree with each other after every event.
pub proof fn law_events_keep_counts_balanced(
    conn: ConnView,
    stats: StatsView,
    read: ReadEvent,
    write: WriteEvent,
    request_len: int,
    recording: bool,
    now: u64,
)
    requires
        conn.wf(),
        stats.balanced(),
    ensures
        read_step(conn, stats, read, recording, now).stats.balanced(),
        write_step(conn, stats, write, request_len, recording, now).stats.balanced(),
{
    law_counts_stay_balanced(stats, 0, 0, 0);
    lemma_completed_balanced(conn, stats, recording, now);
    if let ReadEvent::Received(n) = read {
        if n > 0 {
            let counted = stats.with_bytes(n as int);
            law_counts_stay_balanced(stats, 0, n as int, 0);
            let longer = ConnView { read_len: conn.read_len + n, ..conn };
            lemma_completed_balanced(longer, counted, recording, now);
            lemma_chunks_balanced(longer, counted, recording, now);
            lemma_completed_balanced(longer, stats, recording, now);
            lemma_chunks_balanced(longer, stats, recording, now);
            if let HeadView::Complete { header_len, code, headers } = found_head(
                longer.received(),
                MAX_HEADERS as int,
            ) {
                let status = match code {
                    Some(code) => code,
                    None => 0,
                };
                let responded = if recording {
                    stats.with_response(status).with_bytes(longer.read_len)
                } else {
                    stats
                };
                law_counts_stay_balanced(stats, status, 0, 0);
                law_counts_stay_balanced(stats.with_response(status), 0, longer.read_len, 0);
                let info = classified(headers);
                let told = ConnView { close_connection: info.connection_close, ..longer };
                lemma_completed_balanced(told, responded, recording, now);
                let begun = ConnView {
                    state: ConnState::ReadingChunked {
                        chunk_state: ChunkState::Size,
                        parsed_offset: header_len as usize,
                    },
                    ..told
                };
                lemma_chunks_balanced(begun, responded, recording, now);
            }
        }
    }
}

/// The end of a response keeps the counts in agreement.
proof fn lemma_completed_balanced(conn: ConnView, stats: StatsView, recording: bool, now: u64)
    requires
        stats.balanced(),
    ensures
        completed(conn, stats, recording, now).stats.balanced(),
{
    if let Some(start) = conn.start_time {
        law_counts_stay_balanced(stats, 0, 0, elapsed_micros(start, now));
    }
}

/// The end of a chunked body keeps the counts in agreement.
proof fn lemma_chunks_balanced(conn: ConnView, stats: StatsView, recording: bool, now: u64)
    requires
        stats.balanced(),
    ensures
        chunks_arrived(conn, stats, recording, now) matches Some(step) ==> step.stats.balanced(),
{
    if let ConnState::ReadingChunked { chunk_state, parsed_offset } = conn.state {
        if let ScanResult::Complete { offset } = scan(
            conn.received(),
            parsed_offset as int,
            chunk_state,
        ) {
            let ended = ConnView {
                state: ConnState::ReadingChunked {
                    chunk_state: ChunkState::Trailer,
                    parsed_offset: offset as usize,
                },
                ..conn
            };
            lemma_completed_balanced(ended, stats, recording, now);
        }
    }
}

/// A connection that the server keeps open is used for the next request; one that it
/// closes is set up again and is then like new.
pub proof fn law_connection_is_used_again(
    conn: ConnView,
    stats: StatsView,
    recording: bool,
    now: u64,
)
    ensures
        !conn.close_connection ==> completed(conn, stats, recording, now).action
            == Action::AwaitWritable && completed(conn, stats, recording, now).conn
            == conn.restarted(now),
        conn.close_connection ==> completed(conn, stats, recording, now).action
            == Action::Reconnect,
        conn.reconnected(true).fresh(),
        ConnView::blank().fresh(),
{
}

/// Each action suits the state that it leaves the connection in: what is to be read has
/// room in the buffer, so that reading nothing means that the server closed the
/// connection; a connection is checked only while it is being set up, and sent on only
/// while the request is being sent.
pub proof fn law_actions_suit_the_state(
    conn: ConnView,
    stats: StatsView,
    read: ReadEvent,
    write: WriteEvent,
    request_len: int,
    recording: bool,
    now: u64,
)
    requires
        write_event_fits(conn, write, request_len),
    ensures
        ({
            let step = read_step(conn, stats, read, recording, now);
            &&& step.action == Action::Read ==> step.conn.read_len < step.conn.buf.len()
            &&& step.action != Action::Check && step.action != Action::Write
        }),
        ({
            let step = write_step(conn, stats, write, request_len, recording, now);
            &&& step.action == Action::Check ==> step.conn.state == ConnState::Connecting
            &&& step.action == Action::Write ==> step.conn.state == ConnState::Writing
            &&& step.action != Action::Read
        }),
{
}

/// A body of a known length that arrives in two pieces is handled like one that arrives
/// in one piece.
pub proof fn law_body_pieces_like_one(
    conn: ConnView,
    stats: StatsView,
    first: int,
    second: int,
    recording: bool,
    now: u64,
)
    requires
        conn.wf(),
        first > 0,
        second > 0,
        conn.state matches ConnState::ReadingBody { remaining } && first < remaining,
    ensures
        ({
            let one = bytes_arrived(conn, stats, first + second, recording, now);
            let begun = bytes_arrived(conn, stats, first, recording, now);
            let two = bytes_arrived(begun.conn, begun.stats, second, recording, now);
            &&& begun.action == Action::Read
            &&& two.action == one.action
            &&& two.stats == one.stats
            &&& two.conn.state == one.conn.state || two.action == Action::Reconnect
        }),
{
    let one = bytes_arrived(conn, stats, first + second, recording, now);
    let begun = bytes_arrived(conn, stats, first, recording, now);
    let two = bytes_arrived(begun.conn, begun.stats, second, recording, now);
    assert(stats.with_bytes(first).with_bytes(second) =~= stats.with_bytes(first + second));
    assert(two.stats =~= one.stats);
}

/// A body of a known length is handled the same, whether its beginning arrives with the
/// head and the rest later, or all of it with the head.
pub proof fn law_body_with_the_head_or_later(
    conn: ConnView,
    stats: StatsView,
    header_len: int,
    code: Option<u16>,
    info: HeaderInfo,
    later: int,
    recording: bool,
    now: u64,
)
    requires
        conn.wf(),
        0 <= header_len <= conn.read_len,
        later > 0,
        info.body_info matches BodyInfo::ContentLength(length) && conn.read_len - header_len
            < length,
    ensures
        ({
            let longer = ConnView { read_len: conn.read_len + later, ..conn };
            let one = head_arrived(longer, stats, header_len, code, info, recording, now);
            let begun = head_arrived(conn, stats, header_len, code, info, recording, now);
            let two = bytes_arrived(begun.conn, begun.stats, later, recording, now);
            &&& begun.action == Action::Read
            &&& two.action == one.action
            &&& two.stats == one.stats
            &&& two.conn.state == one.conn.state || two.action == Action::Reconnect
        }),
{
    let longer = ConnView { read_len: conn.read_len + later, ..conn };
    let one = head_arrived(longer, stats, header_len, code, info, recording, now);
    let begun = head_arrived(conn, stats, header_len, code, info, recording, now);
    let two = bytes_arrived(begun.conn, begun.stats, later, recording, now);
    let status = match code {
        Some(code) => code,
        None => 0,
    };
    let responded = stats.with_response(status);
    assert(responded.with_bytes(conn.read_len).with_bytes(later) =~= responded.with_bytes(
        conn.read_len + later,
    ));
    assert(two.stats =~= one.stats);
}

/// What an event adds to the bytes that are counted: with a head that is complete
/// everything that was received since the request was sent, and later what is received
/// of the body.
pub open spec fn bytes_counted(conn: ConnView, event: ReadEvent) -> int {
    match event {
        ReadEvent::Received(n) => match conn.state {
            ConnState::ReadingHeaders => if completes_head(conn, n as int) {
                conn.read_len + n
            } else {
                0
            },
            ConnState::ReadingBody { .. } => n as int,
            ConnState::ReadingChunked { .. } => n as int,
            ConnState::ReadingUntilClose => n as int,
            _ => 0,
        },
        _ => 0,
    }
}

/// What is received adds to the bytes that are counted what [`bytes_counted`] says, and
/// nothing else.
pub proof fn law_what_counts_bytes(conn: ConnView, stats: StatsView, event: ReadEvent, now: u64)
    ensures
        read_step(conn, stats, event, true, now).stats.total_bytes == stats.total_bytes
            + bytes_counted(conn, event),
{
    if let ReadEvent::Received(n) = event {
        let longer = ConnView { read_len: conn.read_len + n, ..conn };
        assert(longer.received() == conn.buf.take(conn.read_len + n));
    }
}

/// The position up to which a chunked body was scanned.
pub open spec fn scanned_to(conn: ConnView) -> int {
    conn.state->ReadingChunked_parsed_offset as int
}

/// What is dropped while a chunked body is awaited was scanned: whatever arrives next is
/// judged as if everything that has arrived were still there.
pub proof fn law_dropped_bytes_were_scanned(conn: ConnView, more: Seq<u8>)
    requires
        conn.wf(),
        conn.state is ReadingChunked,
        scan(
            conn.received(),
            scanned_to(conn),
            conn.state->ReadingChunked_chunk_state,
        ) is More,
    ensures
        ({
            let next = chunks_awaited(conn);
            let dropped = conn.read_len - next.read_len;
            &&& next.wf()
            &&& next.state is ReadingChunked
            &&& next.received() == conn.received().skip(dropped)
            &&& scan(
                next.received() + more,
                scanned_to(next),
                next.state->ReadingChunked_chunk_state,
            ) == moved_back(
                scan(
                    conn.received() + more,
                    scanned_to(conn),
                    conn.state->ReadingChunked_chunk_state,
                ),
                dropped,
            )
        }),
{
    let data = conn.received();
    let state = conn.state->ReadingChunked_chunk_state;
    law_scan_resumes(data, more, scanned_to(conn), state);
    law_scan_resumes(data, Seq::empty(), scanned_to(conn), state);
    if let ScanResult::More { state: expected, offset } = scan(data, scanned_to(conn), state) {
        let next = chunks_awaited(conn);
        if conn.is_compacted_at(offset) {
            assert(next.received() =~= data.skip(offset));
            law_scanned_bytes_may_go(data + more, offset, offset, expected);
            assert((data + more).skip(offset) =~= data.skip(offset) + more);
        } else {
            assert(next.received() =~= data.skip(0));
            assert(data.skip(0) =~= data);
        }
    }
}

/// A chunked body that arrives in two pieces is handled like one that arrives in one
/// piece: `conn` has the first piece, `one` has both, and `two` has the second behind
/// what was kept of the first.
pub proof fn law_chunks_in_pieces_like_one(
    conn: ConnView,
    one: ConnView,
    two: ConnView,
    more: Seq<u8>,
    stats: StatsView,
    recording: bool,
    now: u64,
)
    requires
        conn.wf(),
        conn.state is ReadingChunked,
        chunks_arrived(conn, stats, recording, now) is None,
        one.state == conn.state,
        one.received() == conn.received() + more,
        two.state == chunks_awaited(conn).state,
        two.received() == chunks_awaited(conn).received() + more,
        one.start_time == two.start_time,
        one.close_connection == two.close_connection,
    ensures
        match chunks_arrived(one, stats, recording, now) {
            Some(step) => {
                let other = chunks_arrived(two, stats, recording, now);
                &&& other is Some
                &&& other->0.action == step.action
                &&& other->0.stats == step.stats
                &&& other->0.conn.state == step.conn.state || step.action == Action::Reconnect
            },
            None => {
                &&& chunks_arrived(two, stats, recording, now) is None
                &&& chunks_awaited(two).state->ReadingChunked_chunk_state == chunks_awaited(
                    one,
                ).state->ReadingChunked_chunk_state
            },
        },
{
    law_dropped_bytes_were_scanned(conn, more);
}

/// A request that is sent in two pieces is sent like one in one piece.
pub proof fn law_sent_pieces_like_one(
    conn: ConnView,
    stats: StatsView,
    first: usize,
    second: usize,
    both: usize,
    request_len: int,
    recording: bool,
    now: u64,
)
    requires
        both == first + second,
        conn.written_len + first < request_len,
        write_event_fits(conn, WriteEvent::Sent(both), request_len),
    ensures
        ({
            let one = write_step(conn, stats, WriteEvent::Sent(both), request_len, recording, now);
            let begun = write_step(
                conn,
                stats,
                WriteEvent::Sent(first),
                request_len,
                recording,
                now,
            );
            &&& begun.action == Action::Write
            &&& write_event_fits(begun.conn, WriteEvent::Sent(second), request_len)
            &&& write_step(
                begun.conn,
                begun.stats,
                WriteEvent::Sent(second),
                request_len,
                recording,
                now,
            ) == one
        }),
{
    let one = write_step(conn, stats, WriteEvent::Sent(both), request_len, recording, now);
    let begun = write_step(conn, stats, WriteEvent::Sent(first), request_len, recording, now);
    assert(write_step(
        begun.conn,
        begun.stats,
        WriteEvent::Sent(second),
        request_len,
        recording,
        now,
    ) =~= one);
}

/// The time of a request is its whole microseconds: a thousand nanoseconds each, rounded
/// down. A clock that goes back gives none.
pub proof fn law_time_in_whole_microseconds(start: u64, now: u64)
    ensures
        start <= now ==> 1000 * elapsed_micros(start, now) <= now - start < 1000 * (elapsed_micros(
            start,
            now,
        ) + 1),
        start > now ==> elapsed_micros(start, now) == 0,
{
}

/// Whether the response is over: the connection is set up again where the server closes it,
/// and else the next request begins on it, at that moment.
pub open spec fn is_over(before: ConnView, step: Step, closes: bool, now: u64) -> bool {
    if closes {
        step.action == Action::Reconnect
    } else {
        &&& step.action == Action::AwaitWritable
        &&& step.conn.state == ConnState::Writing
        &&& step.conn.start_time == Some(now)
        &&& step.conn.read_len == 0
        &&& step.conn.written_len == 0
        &&& step.conn.buf == before.buf
        &&& !step.conn.close_connection
    }
}

/// Whether what was received is waited on, and nothing else has changed.
pub open spec fn is_waiting(before: ConnView, step: Step, state: ConnState) -> bool {
    &&& step.conn.state == state
    &&& step.conn.start_time == before.start_time
    &&& step.conn.written_len == before.written_len
    &&& step.conn.close_connection == before.close_connection
    &&& step.conn.buf == before.buf
}

/// A new connection, and one that is set up again, has sent and received nothing: it is
/// being set up, or is lost where that failed.
pub proof fn law_connection_starts_over(conn: ConnView, connected: bool)
    ensures
        ({
            let blank = ConnView::blank();
            &&& blank.state == ConnState::Connecting
            &&& blank.start_time is None
            &&& blank.buf.len() == 16384
            &&& forall|i: int| 0 <= i < 16384 ==> #[trigger] blank.buf[i] == 0
            &&& blank.read_len == 0
            &&& blank.written_len == 0
            &&& !blank.close_connection
        }),
        ({
            let again = conn.reconnected(connected);
            &&& again.state == if connected {
                ConnState::Connecting
            } else {
                ConnState::Reconnecting
            }
            &&& again.start_time is None
            &&& again.buf == conn.buf
            &&& again.read_len == 0
            &&& again.written_len == 0
            &&& !again.close_connection
        }),
{
}

/// A request begins when the connection is set up: from then on it is timed, and it is sent
/// from its first byte on.
pub proof fn law_request_begins_when_connected(
    conn: ConnView,
    stats: StatsView,
    request_len: int,
    recording: bool,
    now: u64,
)
    ensures
        ({
            let step = write_step(
                conn,
                stats,
                WriteEvent::Checked(true),
                request_len,
                recording,
                now,
            );
            &&& step.conn.state == ConnState::Writing
            &&& step.conn.start_time == Some(now)
            &&& step.conn.written_len == 0
            &&& step.conn.read_len == conn.read_len
            &&& step.conn.buf == conn.buf
            &&& step.conn.close_connection == conn.close_connection
            &&& step.stats == stats
            &&& step.action == Action::Write
        }),
{
}

/// A request is sent on until its last byte is sent, and then the head of the response is
/// awaited in an empty buffer; it is still timed from its beginning.
pub proof fn law_request_is_sent_to_its_end(
    conn: ConnView,
    stats: StatsView,
    n: usize,
    request_len: int,
    recording: bool,
    now: u64,
)
    requires
        write_event_fits(conn, WriteEvent::Sent(n), request_len),
    ensures
        ({
            let step = write_step(conn, stats, WriteEvent::Sent(n), request_len, recording, now);
            &&& step.conn.written_len == conn.written_len + n
            &&& step.conn.start_time == conn.start_time
            &&& step.conn.buf == conn.buf
            &&& step.conn.close_connection == conn.close_connection
            &&& step.stats == stats
            &&& if conn.written_len + n == request_len {
                &&& step.action == Action::AwaitReadable
                &&& step.conn.state == ConnState::ReadingHeaders
                &&& step.conn.read_len == 0
            } else {
                &&& step.action == Action::Write
                &&& step.conn.state == ConnState::Writing
                &&& step.conn.read_len == conn.read_len
            }
        }),
{
}

/// A connection that becomes writable is checked while it is being set up, is sent on while
/// the request is being sent, and is otherwise read from; where it cannot be written to it
/// is waited on. Neither changes or counts anything.
pub proof fn law_writable_connection_goes_on(
    conn: ConnView,
    stats: StatsView,
    request_len: int,
    recording: bool,
    now: u64,
)
    ensures
        ({
            let step = write_step(conn, stats, WriteEvent::Ready, request_len, recording, now);
            &&& step.conn == conn
            &&& step.stats == stats
            &&& step.action == Action::Check <==> conn.state == ConnState::Connecting
            &&& step.action == Action::Write <==> conn.state == ConnState::Writing
            &&& step.action == Action::AwaitReadable <==> conn.state != ConnState::Connecting
                && conn.state != ConnState::Writing
        }),
        ({
            let step = write_step(conn, stats, WriteEvent::WouldBlock, request_len, recording, now);
            step.conn == conn && step.stats == stats && step.action == Action::Wait
        }),
{
}

/// Whether one request without a response was counted, and nothing else.
pub open spec fn is_loss_counted(before: StatsView, after: StatsView) -> bool {
    &&& after.total_requests == before.total_requests + 1
    &&& after.successful_requests == before.successful_requests
    &&& after.total_bytes == before.total_bytes
    &&& after.latency == before.latency
    &&& after.status_codes == before.status_codes.update(0, before.status_codes[0] + 1)
}

/// A connection that cannot be set up, that fails while the request is sent, or that the
/// server closes before the response has ended, is set up again, and the request counts as
/// one without a response while recording.
pub proof fn law_what_loses_a_request(
    conn: ConnView,
    stats: StatsView,
    request_len: int,
    recording: bool,
    now: u64,
)
    ensures
        ({
            let unchecked = write_step(
                conn,
                stats,
                WriteEvent::Checked(false),
                request_len,
                recording,
                now,
            );
            let failed = write_step(
                conn,
                stats,
                WriteEvent::Failed,
                request_len,
                recording,
                now,
            );
            let closed = read_step(conn, stats, ReadEvent::Received(0), recording, now);
            &&& unchecked.action == Action::Reconnect && failed.action == Action::Reconnect
            &&& recording ==> is_loss_counted(stats, unchecked.stats) && is_loss_counted(
                stats,
                failed.stats,
            )
            &&& !recording ==> unchecked.stats == stats && failed.stats == stats
            &&& conn.state != ConnState::ReadingUntilClose ==> {
                &&& closed.action == Action::Reconnect
                &&& recording ==> is_loss_counted(stats, closed.stats)
                &&& !recording ==> closed.stats == stats
            }
        }),
{
}

/// A connection that becomes readable is read from where its buffer has room, and is given
/// up where it is full; one that has nothing to read is waited on; one that cannot be read
/// from is given up. None of these counts anything.
pub proof fn law_readable_connection_goes_on(
    conn: ConnView,
    stats: StatsView,
    recording: bool,
    now: u64,
)
    requires
        conn.wf(),
    ensures
        ({
            let ready = read_step(conn, stats, ReadEvent::Ready, recording, now);
            let none = read_step(conn, stats, ReadEvent::WouldBlock, recording, now);
            let failed = read_step(conn, stats, ReadEvent::Failed, recording, now);
            &&& ready.conn == conn && ready.stats == stats
            &&& ready.action == if conn.read_len < 16384 {
                Action::Read
            } else {
                Action::Reconnect
            }
            &&& none.conn == conn && none.stats == stats && none.action == Action::Wait
            &&& failed.stats == stats && failed.action == Action::Reconnect
        }),
{
}

/// As long as a head has not arrived whole it is waited for, with all that was received; no
/// head at all is given up. Neither counts anything. At most sixteen headers are taken.
pub proof fn law_head_is_awaited(
    conn: ConnView,
    stats: StatsView,
    n: usize,
    recording: bool,
    now: u64,
)
    requires
        conn.wf(),
        conn.state == ConnState::ReadingHeaders,
        0 < n,
        conn.read_len + n <= 16384,
    ensures
        ({
            let step = read_step(conn, stats, ReadEvent::Received(n), recording, now);
            match response_head(conn.buf.take(conn.read_len + n), 16) {
                HeadView::Partial => {
                    &&& is_waiting(conn, step, ConnState::ReadingHeaders)
                    &&& step.conn.read_len == conn.read_len + n
                    &&& step.stats == stats
                    &&& step.action == Action::Wait
                },
                HeadView::Invalid => step.stats == stats && step.action == Action::Reconnect,
                HeadView::Complete { .. } => true,
            }
        }),
{
    let longer = ConnView { read_len: conn.read_len + n, ..conn };
    assert(longer.received() == conn.buf.take(conn.read_len + n));
}

/// Whether the response to a request was counted when its head was whole.
pub open spec fn is_response_counted(
    before: StatsView,
    after: StatsView,
    code: int,
    bytes: int,
) -> bool {
    &&& after.total_requests == before.total_requests + 1
    &&& after.successful_requests == before.successful_requests + if 200 <= code <= 399 {
        1int
    } else {
        0int
    }
    &&& after.total_bytes == before.total_bytes + bytes
    &&& after.status_codes.len() == before.status_codes.len()
    &&& forall|other: int|
        0 <= other < before.status_codes.len() ==> #[trigger] after.status_codes[other]
            == before.status_codes[other] + if other == code {
            1int
        } else {
            0int
        }
}

/// With a whole head the response is counted, under its code and with all that was
/// received, and the connection is noted to be closed just as the headers announce it,
/// however the body ends. A body of an announced length is over where it has arrived with
/// the head, and else what is left of it is awaited; a chunked body is looked through from
/// the end of the head on; any other body is awaited until the connection is closed.
#[verifier::rlimit(40)]
pub proof fn law_head_decides_what_follows(
    conn: ConnView,
    stats: StatsView,
    n: usize,
    recording: bool,
    now: u64,
)
    requires
        conn.wf(),
        stats.status_codes.len() == 600,
        conn.state == ConnState::ReadingHeaders,
        0 < n,
        conn.read_len + n <= 16384,
    ensures
        ({
            let step = read_step(conn, stats, ReadEvent::Received(n), recording, now);
            let len = conn.read_len + n;
            let data = conn.buf.take(len);
            response_head(data, 16) matches HeadView::Complete { header_len, code, headers } ==> (0
                <= header_len <= len && lengths_fit(headers) ==> {
                let closes = announced_close(headers);
                let told = ConnView { close_connection: closes, ..conn };
                let status = match code {
                    Some(code) => code as int,
                    None => 0,
                };
                &&& step.conn.close_connection == closes
                &&& recording ==> is_response_counted(stats, step.stats, status, len)
                &&& !recording ==> step.stats == stats
                &&& match announced_length(headers) {
                    Some(length) => if header_len + length <= len {
                        is_over(told, step, closes, now)
                    } else {
                        &&& is_waiting(
                            told,
                            step,
                            ConnState::ReadingBody { remaining: (header_len + length - len) as usize },
                        )
                        &&& header_len + length - len <= usize::MAX
                        &&& step.conn.read_len == 0
                        &&& step.action == Action::Read
                    },
                    None => if announced_chunked(headers) {
                        match scan(data, header_len, ChunkState::Size) {
                            ScanResult::Complete { .. } => is_over(told, step, closes, now),
                            ScanResult::Malformed => step.action == Action::Reconnect,
                            ScanResult::More { state, offset } => {
                                &&& is_chunk_awaited(conn, step.conn, len, state, offset)
                                &&& step.conn.start_time == conn.start_time
                                &&& step.action == if step.conn.read_len < 16384 {
                                    Action::Read
                                } else {
                                    Action::Reconnect
                                }
                            },
                        }
                    } else {
                        &&& is_waiting(told, step, ConnState::ReadingUntilClose)
                        &&& step.conn.read_len == 0
                        &&& step.action == Action::Read
                    },
                }
            })
        }),
{
    let len = conn.read_len + n;
    let data = conn.buf.take(len);
    let longer = ConnView { read_len: len, ..conn };
    assert(longer.received() == data);
    if let HeadView::Complete { header_len, code, headers } = response_head(data, 16) {
        if 0 <= header_len <= len && lengths_fit(headers) {
            law_what_is_announced_is_told(headers);
            let begun = ConnView {
                state: ConnState::ReadingChunked {
                    chunk_state: ChunkState::Size,
                    parsed_offset: header_len as usize,
                },
                close_connection: announced_close(headers),
                ..longer
            };
            assert(begun.received() == data);
            law_scanner_takes_all_it_can(data, header_len, ChunkState::Size);
            lemma_awaited(begun);
        }
    }
}

/// Whether the rest of a chunked body is awaited, in `after`: what was looked through is
/// dropped where it is more than 8192 bytes, and nothing is dropped otherwise.
pub open spec fn is_chunk_awaited(
    before: ConnView,
    after: ConnView,
    len: int,
    state: ChunkState,
    offset: int,
) -> bool {
    let dropped = if offset > 8192 {
        offset
    } else {
        0
    };
    &&& after.buf.len() == before.buf.len()
    &&& after.read_len == len - dropped
    &&& after.received() == before.buf.subrange(dropped, len)
    &&& after.state == (ConnState::ReadingChunked {
        chunk_state: state,
        parsed_offset: (offset - dropped) as usize,
    })
    &&& after.written_len == before.written_len
}

/// What is awaited of a chunked body.
proof fn lemma_awaited(conn: ConnView)
    requires
        conn.wf(),
        conn.state is ReadingChunked,
    ensures
        scan(
            conn.received(),
            scanned_to(conn),
            conn.state->ReadingChunked_chunk_state,
        ) matches ScanResult::More { state, offset } ==> is_chunk_awaited(
            conn,
            chunks_awaited(conn),
            conn.read_len,
            state,
            offset,
        ),
{
    let data = conn.received();
    let begun = conn.state->ReadingChunked_chunk_state;
    law_scanner_takes_all_it_can(data, scanned_to(conn), begun);
    if let ScanResult::More { state, offset } = scan(data, scanned_to(conn), begun) {
        let next = chunks_awaited(conn);
        if offset > 8192 {
            assert(next.received() =~= conn.buf.subrange(offset, conn.read_len));
        } else {
            assert(next.received() =~= conn.buf.subrange(0, conn.read_len));
        }
    }
}

/// What arrives of a body of a known length is counted and taken off what is left of it,
/// and the response is over where nothing is left.
pub proof fn law_body_counts_down(
    conn: ConnView,
    stats: StatsView,
    n: usize,
    recording: bool,
    now: u64,
)
    requires
        conn.wf(),
        conn.state is ReadingBody,
        0 < n,
        conn.read_len + n <= 16384,
    ensures
        ({
            let step = read_step(conn, stats, ReadEvent::Received(n), recording, now);
            let remaining = conn.state->remaining;
            &&& step.stats.total_bytes == stats.total_bytes + if recording {
                n as int
            } else {
                0
            }
            &&& step.stats.status_codes == stats.status_codes
            &&& step.stats.total_requests == stats.total_requests
            &&& step.stats.successful_requests == stats.successful_requests
            &&& if n >= remaining {
                is_over(conn, step, conn.close_connection, now)
            } else {
                &&& is_waiting(conn, step, ConnState::ReadingBody { remaining: (remaining - n) as usize })
                &&& step.conn.read_len == 0
                &&& step.action == Action::Read
            }
        }),
{
}

/// What arrives of a chunked body is counted and looked through together with what was
/// kept; the response is over where the body ends, and is given up where it is none.
pub proof fn law_chunks_are_looked_through(
    conn: ConnView,
    stats: StatsView,
    n: usize,
    recording: bool,
    now: u64,
)
    requires
        conn.wf(),
        conn.state is ReadingChunked,
        0 < n,
        conn.read_len + n <= 16384,
    ensures
        ({
            let step = read_step(conn, stats, ReadEvent::Received(n), recording, now);
            let len = conn.read_len + n;
            &&& step.stats.total_bytes == stats.total_bytes + if recording {
                n as int
            } else {
                0
            }
            &&& step.stats.status_codes == stats.status_codes
            &&& step.stats.total_requests == stats.total_requests
            &&& step.stats.successful_requests == stats.successful_requests
            &&& match scan(
                conn.buf.take(len),
                conn.state->ReadingChunked_parsed_offset as int,
                conn.state->ReadingChunked_chunk_state,
            ) {
                ScanResult::Complete { .. } => is_over(conn, step, conn.close_connection, now),
                ScanResult::Malformed => step.action == Action::Reconnect,
                ScanResult::More { state, offset } => {
                    &&& is_chunk_awaited(conn, step.conn, len, state, offset)
                    &&& step.conn.start_time == conn.start_time
                    &&& step.conn.close_connection == conn.close_connection
                    &&& step.action == Action::Wait
                },
            }
        }),
{
    let longer = ConnView { read_len: conn.read_len + n, ..conn };
    assert(longer.received() == conn.buf.take(conn.read_len + n));
    lemma_awaited(longer);
}

/// What arrives of a body that lasts until the connection is closed is counted and dropped;
/// the response is over when the server closes the connection.
pub proof fn law_body_lasts_until_close(
    conn: ConnView,
    stats: StatsView,
    n: usize,
    recording: bool,
    now: u64,
)
    requires
        conn.wf(),
        conn.state == ConnState::ReadingUntilClose,
        conn.read_len + n <= 16384,
    ensures
        ({
            let step = read_step(conn, stats, ReadEvent::Received(n), recording, now);
            &&& step.stats.total_bytes == stats.total_bytes + if recording {
                n as int
            } else {
                0
            }
            &&& step.stats.status_codes == stats.status_codes
            &&& step.stats.total_requests == stats.total_requests
            &&& step.stats.successful_requests == stats.successful_requests
            &&& if n == 0 {
                is_over(conn, step, conn.close_connection, now)
            } else {
                &&& is_waiting(conn, step, ConnState::ReadingUntilClose)
                &&& step.conn.read_len == 0
                &&& step.action == Action::Read
            }
        }),
{
}

/// What arrives before the request was sent is kept and not counted.
pub proof fn law_early_bytes_are_kept(
    conn: ConnView,
    stats: StatsView,
    n: usize,
    recording: bool,
    now: u64,
)
    requires
        conn.wf(),
        conn.state == ConnState::Connecting || conn.state == ConnState::Reconnecting || conn.state
            == ConnState::Writing,
        0 < n,
        conn.read_len + n <= 16384,
    ensures
        ({
            let step = read_step(conn, stats, ReadEvent::Received(n), recording, now);
            &&& is_waiting(conn, step, conn.state)
            &&& step.conn.read_len == conn.read_len + n
            &&& step.stats == stats
            &&& step.action == if conn.read_len + n < 16384 {
                Action::Read
            } else {
                Action::Reconnect
            }
        }),
{
}

/// Whatever can happen to a connection and be counted leaves counts that the machine can
/// hold; and with room for one more request and all that was received everything that the
/// buffer has room for can happen.
pub proof fn law_what_is_accepted_can_be_counted(
    conn: ConnView,
    stats: StatsView,
    read: ReadEvent,
    write: WriteEvent,
    request_len: int,
    recording: bool,
    now: u64,
)
    requires
        conn.wf(),
        stats.total_requests <= u64::MAX,
        stats.total_bytes <= u64::MAX,
    ensures
        read_event_fits(conn, stats, read, recording) ==> {
            let step = read_step(conn, stats, read, recording, now);
            step.stats.total_requests <= u64::MAX && step.stats.total_bytes <= u64::MAX
        },
        write_event_counts(stats, write, recording) ==> {
            let step = write_step(conn, stats, write, request_len, recording, now);
            step.stats.total_requests <= u64::MAX && step.stats.total_bytes <= u64::MAX
        },
        stats.total_requests < u64::MAX && stats.total_bytes + 16384 <= u64::MAX ==> {
            &&& write_event_counts(stats, write, recording)
            &&& read_event_fits(conn, stats, read, recording) <==> (read matches
                ReadEvent::Received(n) ==> conn.read_len + n <= 16384)
        },
        !recording ==> write_event_counts(stats, write, recording),
{
    if recording {
        law_what_counts_bytes(conn, stats, read, now);
        law_what_counts_a_request(conn, stats, read, now);
    } else {
        law_warm_up_counts_nothing(conn, stats, read, write, request_len, now);
    }
}

/// A head that announces a length which the machine cannot hold is given up, with nothing
/// counted.
pub proof fn law_length_beyond_the_machine(
    conn: ConnView,
    stats: StatsView,
    n: usize,
    recording: bool,
    now: u64,
)
    requires
        conn.wf(),
        conn.state == ConnState::ReadingHeaders,
        0 < n,
        conn.read_len + n <= 16384,
    ensures
        ({
            let step = read_step(conn, stats, ReadEvent::Received(n), recording, now);
            let len = conn.read_len + n;
            response_head(conn.buf.take(len), 16) matches HeadView::Complete {
                header_len,
                headers,
                ..
            } ==> (0 <= header_len <= len ==> (step.action == Action::LengthOverflow
                <==> !lengths_fit(headers)) && (!lengths_fit(headers) ==> step.conn == conn
                && step.stats == stats))
        }),
{
    let longer = ConnView { read_len: conn.read_len + n, ..conn };
    assert(longer.received() == conn.buf.take(conn.read_len + n));
}

/// A connection that is lost is being set up again once that succeeds, and stays as it is
/// until then; one that is not lost stays as it is.
pub proof fn law_only_a_lost_connection_resumes(conn: ConnView, connected: bool)
    ensures
        ({
            let after = conn.resumed(connected);
            &&& conn.state == ConnState::Reconnecting && connected ==> after.state
                == ConnState::Connecting
            &&& conn.state != ConnState::Reconnecting || !connected ==> after == conn
            &&& after.start_time == conn.start_time
            &&& after.buf == conn.buf
            &&& after.read_len == conn.read_len
            &&& after.written_len == conn.written_len
            &&& after.close_connection == conn.close_connection
        }),
{
}

/// What can happen to a connection that is readable and be counted: what is read has room
/// in the buffer, and while recording the counts have room for what it makes them count.
pub proof fn law_what_can_be_read(
    conn: ConnView,
    stats: StatsView,
    event: ReadEvent,
    recording: bool,
)
    requires
        stats.total_requests <= u64::MAX,
        stats.total_bytes <= u64::MAX,
    ensures
        read_event_fits(conn, stats, event, recording) <==> (event matches ReadEvent::Received(n)
            ==> {
            &&& conn.read_len + n <= 16384
            &&& recording ==> {
                &&& n == 0 && conn.state != ConnState::ReadingUntilClose ==> stats.total_requests
                    < u64::MAX
                &&& n > 0 && conn.state == ConnState::ReadingHeaders ==> stats.total_requests
                    < u64::MAX && stats.total_bytes + conn.read_len + n <= u64::MAX
                &&& conn.state is ReadingBody || conn.state is ReadingChunked || conn.state
                    == ConnState::ReadingUntilClose ==> stats.total_bytes + n <= u64::MAX
            }
        }),
{
}

/// What can happen to a connection that is writable: it is checked only while it is being
/// set up, and it is sent on, cannot be sent on or fails only while the request is being
/// sent, of which no more is sent than there is.
pub proof fn law_what_can_be_written(conn: ConnView, event: WriteEvent, request_len: int)
    ensures
        write_event_fits(conn, event, request_len) <==> match event {
            WriteEvent::Ready => true,
            WriteEvent::Checked(_) => conn.state == ConnState::Connecting,
            WriteEvent::Sent(n) => conn.state == ConnState::Writing && n <= request_len
                - conn.written_len,
            WriteEvent::WouldBlock | WriteEvent::Failed => conn.state == ConnState::Writing,
        },
{
}

} // verus!

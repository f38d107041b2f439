//! A connection to the server: what has been sent and received on it, and what is to be
//! done next.
//!
//! The functions here decide and count. What they decide is an [`Action`], which the
//! caller performs and then reports as an event.

use crate::chunked::{scan, scan_chunks, ChunkScan, ChunkState, ScanResult};
use crate::head::{found_head, parse_head, HeadView, ParsedHead};
use crate::headers::{
    classified, classify_headers, content_lengths_fit, lengths_fit, BodyInfo, HeaderInfo,
};
use crate::stats::{StatsView, WorkerStats};
use vstd::prelude::*;
use vstd::slice::slice_subrange;

verus! {

/// The size of the buffer of a connection.
pub const RECVBUF: usize = 16384;

/// The number of headers that a response may have.
pub const MAX_HEADERS: usize = 16;

/// Bytes of a chunked body that were scanned are dropped when the scanner is as close as
/// this to the end of the buffer.
pub const COMPACT_SLACK: usize = 1024;

/// Bytes of a chunked body that were scanned are dropped when there are more than these.
pub const COMPACT_ABOVE: usize = 8192;

/// What a connection is doing.
#[derive(Clone, Copy, Debug, PartialEq, Eq, Structural)]
pub enum ConnState {
    /// It is being set up.
    Connecting,
    /// It is lost and has to be set up again.
    Reconnecting,
    /// The request is being sent.
    Writing,
    /// The head of the response is awaited.
    ReadingHeaders,
    /// That many bytes of the body are awaited.
    ReadingBody { remaining: usize },
    /// The rest of a chunked body is awaited.
    ReadingChunked { chunk_state: ChunkState, parsed_offset: usize },
    /// The server is awaited to close the connection.
    ReadingUntilClose,
}

/// A connection.
#[derive(Debug)]
pub struct Connection {
    pub state: ConnState,
    /// When the request was begun, in nanoseconds of the caller's clock.
    pub start_time: Option<u64>,
    pub buf: Vec<u8>,
    /// How much of the buffer holds what was received.
    pub read_len: usize,
    /// How much of the request was sent.
    pub written_len: usize,
    /// Whether the server closes the connection after the response.
    pub close_connection: bool,
}

/// A connection, as sequences and numbers.
#[verifier::ext_equal]
pub struct ConnView {
    pub state: ConnState,
    pub start_time: Option<u64>,
    pub buf: Seq<u8>,
    pub read_len: int,
    pub written_len: int,
    pub close_connection: bool,
}

impl View for Connection {
    type V = ConnView;

    open spec fn view(&self) -> ConnView {
        ConnView {
            state: self.state,
            start_time: self.start_time,
            buf: self.buf@,
            read_len: self.read_len as int,
            written_len: self.written_len as int,
            close_connection: self.close_connection,
        }
    }
}

/// What is to be done next on a connection.
#[derive(Clone, Copy, Debug, PartialEq, Eq, Structural)]
pub enum Action {
    /// Read into the free part of the buffer.
    Read,
    /// See whether the connection was set up.
    Check,
    /// Send the rest of the request.
    Write,
    /// Go on when the connection is readable.
    AwaitReadable,
    /// Go on when the connection is writable.
    AwaitWritable,
    /// Go on when the connection is ready again.
    Wait,
    /// Set the connection up again.
    Reconnect,
    /// Give up: the server announces a length that the machine cannot hold.
    LengthOverflow,
}

/// What happened to a connection that is readable.
#[derive(Clone, Copy, Debug, PartialEq, Eq, Structural)]
pub enum ReadEvent {
    /// It became readable.
    Ready,
    /// That many bytes were read into the free part of the buffer, or the server closed
    /// the connection where there were none.
    Received(usize),
    /// There is nothing to read for now.
    WouldBlock,
    /// Reading failed.
    Failed,
}

/// What happened to a connection that is writable.
#[derive(Clone, Copy, Debug, PartialEq, Eq, Structural)]
pub enum WriteEvent {
    /// It became writable.
    Ready,
    /// It was set up, or that failed.
    Checked(bool),
    /// That many bytes of the request were sent.
    Sent(usize),
    /// Nothing can be sent for now.
    WouldBlock,
    /// Sending failed.
    Failed,
}

/// A connection and the counts of its worker after an event, and what is to be done.
#[verifier::ext_equal]
pub struct Step {
    pub conn: ConnView,
    pub stats: StatsView,
    pub action: Action,
}

/// The time from `start` to `now`, both in nanoseconds, in whole microseconds.
pub open spec fn elapsed_micros(start: u64, now: u64) -> u64 {
    if start <= now {
        ((now - start) / 1000) as u64
    } else {
        0
    }
}

impl ConnView {
    /// What was received and not dropped.
    pub open spec fn received(self) -> Seq<u8> {
        self.buf.take(self.read_len)
    }

    /// What was received lies in the buffer, and what was scanned lies in that.
    pub open spec fn wf(self) -> bool {
        &&& self.buf.len() == RECVBUF
        &&& 0 <= self.read_len <= RECVBUF
        &&& self.written_len >= 0
        &&& self.state matches ConnState::ReadingChunked { parsed_offset, .. } ==> parsed_offset
            <= self.read_len
    }

    /// A new connection: its buffer holds zeros.
    pub open spec fn blank() -> ConnView {
        ConnView {
            state: ConnState::Connecting,
            start_time: None,
            buf: Seq::new(RECVBUF as nat, |i: int| 0u8),
            read_len: 0,
            written_len: 0,
            close_connection: false,
        }
    }

    /// A connection that is being set up and has sent and received nothing.
    pub open spec fn fresh(self) -> bool {
        &&& self.state == ConnState::Connecting
        &&& self.start_time is None
        &&& self.read_len == 0
        &&& self.written_len == 0
        &&& !self.close_connection
    }

    /// The connection after an attempt to set it up again.
    pub open spec fn reconnected(self, connected: bool) -> ConnView {
        ConnView {
            state: if connected {
                ConnState::Connecting
            } else {
                ConnState::Reconnecting
            },
            start_time: None,
            read_len: 0,
            written_len: 0,
            close_connection: false,
            ..self
        }
    }

    /// The connection after an attempt to set it up again where it was lost.
    pub open spec fn resumed(self, connected: bool) -> ConnView {
        if self.state == ConnState::Reconnecting && connected {
            ConnView { state: ConnState::Connecting, ..self }
        } else {
            self
        }
    }

    /// The connection with the next request about to be sent.
    pub open spec fn restarted(self, now: u64) -> ConnView {
        ConnView {
            state: ConnState::Writing,
            start_time: Some(now),
            read_len: 0,
            written_len: 0,
            ..self
        }
    }

    /// What is done to read on: where the buffer is full there is no way to.
    pub open spec fn read_on(self) -> Action {
        if self.read_len >= self.buf.len() {
            Action::Reconnect
        } else {
            Action::Read
        }
    }

    /// Whether the scanned bytes of a chunked body are dropped.
    pub open spec fn is_compacted_at(self, offset: int) -> bool {
        offset > 0 && (offset >= self.buf.len() - COMPACT_SLACK || offset > COMPACT_ABOVE)
    }

    /// The connection with the rest of a chunked body awaited from `offset` on.
    pub open spec fn awaiting_chunks(self, chunk_state: ChunkState, offset: int) -> ConnView {
        if self.is_compacted_at(offset) {
            ConnView {
                state: ConnState::ReadingChunked { chunk_state, parsed_offset: 0 },
                buf: self.buf.subrange(offset, self.read_len) + self.buf.skip(
                    self.read_len - offset,
                ),
                read_len: self.read_len - offset,
                ..self
            }
        } else {
            ConnView {
                state: ConnState::ReadingChunked { chunk_state, parsed_offset: offset as usize },
                ..self
            }
        }
    }
}

/// What follows the end of a response: its time is counted, and the next request is
/// sent on the same connection, unless the server closes it.
pub open spec fn completed(conn: ConnView, stats: StatsView, recording: bool, now: u64) -> Step {
    let counted = match conn.start_time {
        Some(start) if recording => stats.with_latency(elapsed_micros(start, now)),
        _ => stats,
    };
    if conn.close_connection {
        Step { conn, stats: counted, action: Action::Reconnect }
    } else {
        Step { conn: conn.restarted(now), stats: counted, action: Action::AwaitWritable }
    }
}

/// What follows a loss of the connection: the request counts as one without a response.
pub open spec fn lost(conn: ConnView, stats: StatsView, recording: bool) -> Step {
    Step {
        conn,
        stats: if recording {
            stats.with_network_error()
        } else {
            stats
        },
        action: Action::Reconnect,
    }
}

/// What follows the arrival of a part of a chunked body, or nothing where the body goes
/// on: then the connection is [`ConnView::awaiting_chunks`].
pub open spec fn chunks_arrived(
    conn: ConnView,
    stats: StatsView,
    recording: bool,
    now: u64,
) -> Option<Step> {
    match conn.state {
        ConnState::ReadingChunked { chunk_state, parsed_offset } => match scan(
            conn.received(),
            parsed_offset as int,
            chunk_state,
        ) {
            ScanResult::More { .. } => None,
            ScanResult::Complete { offset } => Some(
                completed(
                    ConnView {
                        state: ConnState::ReadingChunked {
                            chunk_state: ChunkState::Trailer,
                            parsed_offset: offset as usize,
                        },
                        ..conn
                    },
                    stats,
                    recording,
                    now,
                ),
            ),
            ScanResult::Malformed => Some(Step { conn, stats, action: Action::Reconnect }),
        },
        _ => None,
    }
}

/// The connection where a chunked body goes on.
pub open spec fn chunks_awaited(conn: ConnView) -> ConnView {
    match conn.state {
        ConnState::ReadingChunked { chunk_state, parsed_offset } => match scan(
            conn.received(),
            parsed_offset as int,
            chunk_state,
        ) {
            ScanResult::More { state, offset } => conn.awaiting_chunks(state, offset),
            _ => conn,
        },
        _ => conn,
    }
}

/// What follows the arrival of the head of a response, which ends at `header_len`.
pub open spec fn head_arrived(
    conn: ConnView,
    stats: StatsView,
    header_len: int,
    code: Option<u16>,
    info: HeaderInfo,
    recording: bool,
    now: u64,
) -> Step {
    let status = match code {
        Some(code) => code,
        None => 0,
    };
    let counted = if recording {
        stats.with_response(status).with_bytes(conn.read_len)
    } else {
        stats
    };
    let told = ConnView { close_connection: info.connection_close, ..conn };
    let in_buffer = conn.read_len - header_len;
    match info.body_info {
        BodyInfo::ContentLength(length) => if in_buffer >= length {
            completed(told, counted, recording, now)
        } else {
            let next = ConnView {
                state: ConnState::ReadingBody { remaining: (length - in_buffer) as usize },
                read_len: 0,
                ..told
            };
            Step { conn: next, stats: counted, action: next.read_on() }
        },
        BodyInfo::Chunked => {
            let begun = ConnView {
                state: ConnState::ReadingChunked {
                    chunk_state: ChunkState::Size,
                    parsed_offset: header_len as usize,
                },
                ..told
            };
            match chunks_arrived(begun, counted, recording, now) {
                Some(step) => step,
                None => {
                    let next = chunks_awaited(begun);
                    Step { conn: next, stats: counted, action: next.read_on() }
                },
            }
        },
        BodyInfo::UntilClose => {
            let next = ConnView { state: ConnState::ReadingUntilClose, read_len: 0, ..told };
            Step { conn: next, stats: counted, action: next.read_on() }
        },
    }
}

/// What follows the arrival of `n` bytes, at least one.
pub open spec fn bytes_arrived(
    conn: ConnView,
    stats: StatsView,
    n: int,
    recording: bool,
    now: u64,
) -> Step {
    let longer = ConnView { read_len: conn.read_len + n, ..conn };
    let counted = if recording {
        stats.with_bytes(n)
    } else {
        stats
    };
    match conn.state {
        ConnState::ReadingHeaders => match found_head(longer.received(), MAX_HEADERS as int) {
            HeadView::Complete { header_len, code, headers } => if lengths_fit(headers) {
                head_arrived(
                    longer,
                    stats,
                    header_len,
                    code,
                    classified(headers),
                    recording,
                    now,
                )
            } else {
                Step { conn, stats, action: Action::LengthOverflow }
            },
            HeadView::Partial => Step { conn: longer, stats, action: Action::Wait },
            HeadView::Invalid => Step { conn: longer, stats, action: Action::Reconnect },
        },
        ConnState::ReadingBody { remaining } => if n >= remaining {
            completed(longer, counted, recording, now)
        } else {
            let next = ConnView {
                state: ConnState::ReadingBody { remaining: (remaining - n) as usize },
                read_len: 0,
                ..conn
            };
            Step { conn: next, stats: counted, action: next.read_on() }
        },
        ConnState::ReadingChunked { .. } => match chunks_arrived(longer, counted, recording, now) {
            Some(step) => step,
            None => Step { conn: chunks_awaited(longer), stats: counted, action: Action::Wait },
        },
        ConnState::ReadingUntilClose => {
            let next = ConnView { read_len: 0, ..conn };
            Step { conn: next, stats: counted, action: next.read_on() }
        },
        _ => Step { conn: longer, stats, action: longer.read_on() },
    }
}

/// What follows an event on a connection that is readable.
pub open spec fn read_step(
    conn: ConnView,
    stats: StatsView,
    event: ReadEvent,
    recording: bool,
    now: u64,
) -> Step {
    match event {
        ReadEvent::Ready => Step { conn, stats, action: conn.read_on() },
        ReadEvent::Received(n) => if n > 0 {
            bytes_arrived(conn, stats, n as int, recording, now)
        } else if conn.state == ConnState::ReadingUntilClose {
            completed(conn, stats, recording, now)
        } else {
            lost(conn, stats, recording)
        },
        ReadEvent::WouldBlock => Step { conn, stats, action: Action::Wait },
        ReadEvent::Failed => Step { conn, stats, action: Action::Reconnect },
    }
}

/// What is done on a connection that is writable.
pub open spec fn write_on(conn: ConnView) -> Action {
    match conn.state {
        ConnState::Connecting => Action::Check,
        ConnState::Writing => Action::Write,
        _ => Action::AwaitReadable,
    }
}

/// What follows an event on a connection that is writable, for a request of
/// `request_len` bytes.
pub open spec fn write_step(
    conn: ConnView,
    stats: StatsView,
    event: WriteEvent,
    request_len: int,
    recording: bool,
    now: u64,
) -> Step {
    match event {
        WriteEvent::Ready => Step { conn, stats, action: write_on(conn) },
        WriteEvent::Checked(connected) => if connected {
            Step {
                conn: ConnView {
                    state: ConnState::Writing,
                    start_time: Some(now),
                    written_len: 0,
                    ..conn
                },
                stats,
                action: Action::Write,
            }
        } else {
            lost(conn, stats, recording)
        },
        WriteEvent::Sent(n) => if conn.written_len + n >= request_len {
            Step {
                conn: ConnView {
                    state: ConnState::ReadingHeaders,
                    read_len: 0,
                    written_len: conn.written_len + n,
                    ..conn
                },
                stats,
                action: Action::AwaitReadable,
            }
        } else {
            Step {
                conn: ConnView { written_len: conn.written_len + n, ..conn },
                stats,
                action: Action::Write,
            }
        },
        WriteEvent::WouldBlock => Step { conn, stats, action: Action::Wait },
        WriteEvent::Failed => lost(conn, stats, recording),
    }
}

impl Connection {
    /// What was received lies in the buffer, and what was scanned lies in that.
    pub open spec fn wf(self) -> bool {
        self@.wf()
    }

    /// A connection that is being set up.
    pub fn new() -> (conn: Connection)
        ensures
            conn.wf(),
            conn@ == ConnView::blank(),
    {
        let conn = Connection {
            state: ConnState::Connecting,
            start_time: None,
            buf: vec![0u8; RECVBUF],
            read_len: 0,
            written_len: 0,
            close_connection: false,
        };
        assert(conn@ =~= ConnView::blank());
        conn
    }
}

/// What is done to read on.
fn read_on(conn: &Connection) -> (action: Action)
    ensures
        action == conn@.read_on(),
{
    if conn.read_len >= conn.buf.len() {
        Action::Reconnect
    } else {
        Action::Read
    }
}

/// Notes that the connection was set up again, or that this failed.
pub fn reconnect_conn(conn: &mut Connection, connected: bool)
    requires
        old(conn).wf(),
    ensures
        final(conn).wf(),
        final(conn)@ == old(conn)@.reconnected(connected),
{
    if connected {
        conn.state = ConnState::Connecting;
    } else {
        conn.state = ConnState::Reconnecting;
    }
    conn.read_len = 0;
    conn.written_len = 0;
    conn.close_connection = false;
    conn.start_time = None;
}

/// Notes that a connection that was lost is set up again.
pub fn resume_conn(conn: &mut Connection, connected: bool)
    requires
        old(conn).wf(),
    ensures
        final(conn).wf(),
        final(conn)@ == if old(conn)@.state == ConnState::Reconnecting && connected {
            (ConnView { state: ConnState::Connecting, ..old(conn)@ })
        } else {
            old(conn)@
        },
        final(conn)@ == old(conn)@.resumed(connected),
{
    if connected {
        if let ConnState::Reconnecting = conn.state {
            conn.state = ConnState::Connecting;
        }
    }
}

/// The time from `start` to `now` in microseconds.
fn micros_between(start: u64, now: u64) -> (micros: u64)
    ensures
        micros == elapsed_micros(start, now),
{
    if start <= now {
        (now - start) / 1000
    } else {
        0
    }
}

/// Counts the time of a response that has ended, and goes on to the next request.
pub fn complete_request(
    conn: &mut Connection,
    stats: &mut WorkerStats,
    recording: bool,
    now: u64,
) -> (action: Action)
    requires
        old(conn).wf(),
        old(stats).wf(),
    ensures
        final(conn).wf(),
        final(stats).wf(),
        (Step { conn: final(conn)@, stats: final(stats)@, action }) == completed(
            old(conn)@,
            old(stats)@,
            recording,
            now,
        ),
        final(stats).total_requests == old(stats).total_requests,
        final(stats).total_bytes == old(stats).total_bytes,
{
    if recording {
        if let Some(start) = conn.start_time {
            stats.record_latency(micros_between(start, now));
        }
    }
    if conn.close_connection {
        Action::Reconnect
    } else {
        conn.read_len = 0;
        conn.written_len = 0;
        conn.start_time = Some(now);
        conn.state = ConnState::Writing;
        Action::AwaitWritable
    }
}

/// Counts a request that got no response.
fn count_lost(stats: &mut WorkerStats, recording: bool)
    requires
        old(stats).wf(),
        recording ==> old(stats)@.has_room(1, 0),
    ensures
        final(stats).wf(),
        final(stats)@ == if recording {
            old(stats)@.with_network_error()
        } else {
            old(stats)@
        },
{
    if recording {
        stats.count_network_error();
    }
}

/// Moves the bytes from `offset` to `end` to the beginning of the buffer.
fn move_to_front(buf: &mut Vec<u8>, offset: usize, end: usize)
    requires
        offset <= end <= old(buf)@.len(),
    ensures
        final(buf)@ == old(buf)@.subrange(offset as int, end as int) + old(buf)@.skip(end - offset),
{
    let count: usize = end - offset;
    let mut i: usize = 0;
    while i < count
        invariant
            i <= count == end - offset,
            offset <= end <= old(buf)@.len(),
            buf@.len() == old(buf)@.len(),
            forall|j: int| 0 <= j < i ==> buf@[j] == old(buf)@[offset + j],
            forall|j: int| i <= j < buf@.len() ==> buf@[j] == old(buf)@[j],
        decreases count - i,
    {
        let b = buf[offset + i];
        buf[i] = b;
        i += 1;
    }
    assert(buf@ =~= old(buf)@.subrange(offset as int, end as int) + old(buf)@.skip(end - offset));
}

/// Scans what has arrived of a chunked body. Gives what is to be done where the body has
/// ended or is none, and nothing where it goes on.
pub fn parse_chunked_body(
    conn: &mut Connection,
    stats: &mut WorkerStats,
    recording: bool,
    now: u64,
) -> (action: Option<Action>)
    requires
        old(conn).wf(),
        old(stats).wf(),
    ensures
        final(conn).wf(),
        final(stats).wf(),
        match action {
            Some(action) => chunks_arrived(old(conn)@, old(stats)@, recording, now) == Some(
                Step { conn: final(conn)@, stats: final(stats)@, action },
            ),
            None => {
                &&& chunks_arrived(old(conn)@, old(stats)@, recording, now) is None
                &&& final(conn)@ == chunks_awaited(old(conn)@)
                &&& final(stats)@ == old(stats)@
            },
        },
{
    if let ConnState::ReadingChunked { chunk_state, parsed_offset } = conn.state {
        let data = slice_subrange(conn.buf.as_slice(), 0, conn.read_len);
        assert(data@ =~= conn@.received());
        match scan_chunks(data, parsed_offset, chunk_state) {
            ChunkScan::Malformed => {
                return Some(Action::Reconnect);
            },
            ChunkScan::Complete { offset } => {
                conn.state =
                ConnState::ReadingChunked {
                    chunk_state: ChunkState::Trailer,
                    parsed_offset: offset,
                };
                return Some(complete_request(conn, stats, recording, now));
            },
            ChunkScan::More { state, offset } => {
                let end: usize = conn.read_len;
                if offset > 0 && (offset >= conn.buf.len() - COMPACT_SLACK || offset
                    > COMPACT_ABOVE) {
                    move_to_front(&mut conn.buf, offset, end);
                    conn.read_len = end - offset;
                    conn.state = ConnState::ReadingChunked { chunk_state: state, parsed_offset: 0 };
                } else {
                    conn.state =
                    ConnState::ReadingChunked { chunk_state: state, parsed_offset: offset };
                }
            },
        }
    }
    None
}

/// Counts a response whose head has arrived and ends at `header_len`, and goes on to its
/// body.
pub fn handle_head(
    conn: &mut Connection,
    stats: &mut WorkerStats,
    header_len: usize,
    code: Option<u16>,
    info: HeaderInfo,
    recording: bool,
    now: u64,
) -> (action: Action)
    requires
        old(conn).wf(),
        old(stats).wf(),
        header_len <= old(conn).read_len,
        recording ==> old(stats)@.has_room(1, old(conn).read_len as int),
    ensures
        final(conn).wf(),
        final(stats).wf(),
        (Step { conn: final(conn)@, stats: final(stats)@, action }) == head_arrived(
            old(conn)@,
            old(stats)@,
            header_len as int,
            code,
            info,
            recording,
            now,
        ),
{
    let status: u16 = match code {
        Some(code) => code,
        None => 0,
    };
    if recording {
        stats.count_response(status);
        stats.count_bytes(conn.read_len);
    }
    conn.close_connection = info.connection_close;
    let in_buffer: usize = conn.read_len - header_len;
    match info.body_info {
        BodyInfo::ContentLength(length) => {
            if in_buffer >= length {
                return complete_request(conn, stats, recording, now);
            }
            conn.state = ConnState::ReadingBody { remaining: length - in_buffer };
            conn.read_len = 0;
        },
        BodyInfo::Chunked => {
            conn.state =
            ConnState::ReadingChunked { chunk_state: ChunkState::Size, parsed_offset: header_len };
            if let Some(action) = parse_chunked_body(conn, stats, recording, now) {
                return action;
            }
        },
        BodyInfo::UntilClose => {
            conn.state = ConnState::ReadingUntilClose;
            conn.read_len = 0;
        },
    }
    read_on(conn)
}

/// The requests and the bytes that `n` bytes can make a worker count, where none means
/// that the server closed the connection.
pub open spec fn countable(conn: ConnView, n: int) -> (int, int) {
    match conn.state {
        ConnState::ReadingHeaders => if n > 0 {
            (1, conn.read_len + n)
        } else {
            (1, 0)
        },
        ConnState::ReadingUntilClose => (0, n),
        ConnState::ReadingBody { .. } | ConnState::ReadingChunked { .. } => if n > 0 {
            (0, n)
        } else {
            (1, 0)
        },
        _ => if n > 0 {
            (0, 0)
        } else {
            (1, 0)
        },
    }
}

/// Whether `event` can happen to a connection and be counted: what is read has room in
/// the buffer, and the counts have room for it.
pub open spec fn read_event_fits(
    conn: ConnView,
    stats: StatsView,
    event: ReadEvent,
    recording: bool,
) -> bool {
    match event {
        ReadEvent::Received(n) => {
            let (requests, bytes) = countable(conn, n as int);
            &&& conn.read_len + n <= RECVBUF
            &&& recording ==> stats.has_room(requests, bytes)
        },
        _ => true,
    }
}

/// Whether `event` can happen to a connection that is readable, and be counted.
pub fn accepts_read(conn: &Connection, stats: &WorkerStats, event: ReadEvent, recording: bool) -> (accepts:
    bool)
    requires
        conn.wf(),
    ensures
        accepts == read_event_fits(conn@, stats@, event, recording),
{
    match event {
        ReadEvent::Received(n) => {
            if n > RECVBUF - conn.read_len {
                return false;
            }
            let (requests, bytes): (u64, usize) = match conn.state {
                ConnState::ReadingHeaders => if n > 0 {
                    (1, conn.read_len + n)
                } else {
                    (1, 0)
                },
                ConnState::ReadingUntilClose => (0, n),
                ConnState::ReadingBody { .. } | ConnState::ReadingChunked { .. } => if n > 0 {
                    (0, n)
                } else {
                    (1, 0)
                },
                _ => if n > 0 {
                    (0, 0)
                } else {
                    (1, 0)
                },
            };
            !recording || (stats.total_requests <= u64::MAX - requests && stats.total_bytes
                <= u64::MAX - bytes as u64)
        },
        _ => true,
    }
}

/// Handles `n` bytes, at least one, that were read into the free part of the buffer.
fn handle_bytes(
    conn: &mut Connection,
    stats: &mut WorkerStats,
    n: usize,
    recording: bool,
    now: u64,
) -> (action: Action)
    requires
        old(conn).wf(),
        old(stats).wf(),
        n > 0,
        read_event_fits(old(conn)@, old(stats)@, ReadEvent::Received(n), recording),
    ensures
        final(conn).wf(),
        final(stats).wf(),
        (Step { conn: final(conn)@, stats: final(stats)@, action }) == bytes_arrived(
            old(conn)@,
            old(stats)@,
            n as int,
            recording,
            now,
        ),
{
    let len: usize = conn.read_len + n;
    match conn.state {
        ConnState::ReadingHeaders => {
            let data = slice_subrange(conn.buf.as_slice(), 0, len);
            let ghost longer = ConnView { read_len: len as int, ..conn@ };
            assert(data@ =~= longer.received());
            let (header_len, code, info) = match parse_head(data, MAX_HEADERS) {
                ParsedHead::Complete { header_len, code, headers } => {
                    if !content_lengths_fit(headers.as_slice()) {
                        return Action::LengthOverflow;
                    }
                    (header_len, code, classify_headers(headers.as_slice()))
                },
                ParsedHead::Partial => {
                    conn.read_len = len;
                    return Action::Wait;
                },
                ParsedHead::Invalid => {
                    conn.read_len = len;
                    return Action::Reconnect;
                },
            };
            conn.read_len = len;
            assert(conn@ =~= longer);
            handle_head(conn, stats, header_len, code, info, recording, now)
        },
        ConnState::ReadingBody { remaining } => {
            if recording {
                stats.count_bytes(n);
            }
            if n >= remaining {
                conn.read_len = len;
                complete_request(conn, stats, recording, now)
            } else {
                conn.state = ConnState::ReadingBody { remaining: remaining - n };
                conn.read_len = 0;
                read_on(conn)
            }
        },
        ConnState::ReadingChunked { .. } => {
            if recording {
                stats.count_bytes(n);
            }
            conn.read_len = len;
            match parse_chunked_body(conn, stats, recording, now) {
                Some(action) => action,
                None => Action::Wait,
            }
        },
        ConnState::ReadingUntilClose => {
            if recording {
                stats.count_bytes(n);
            }
            conn.read_len = 0;
            read_on(conn)
        },
        _ => {
            conn.read_len = len;
            read_on(conn)
        },
    }
}

/// Handles an event on a connection that is readable.
pub fn handle_read(
    conn: &mut Connection,
    stats: &mut WorkerStats,
    event: ReadEvent,
    recording: bool,
    now: u64,
) -> (action: Action)
    requires
        old(conn).wf(),
        old(stats).wf(),
        read_event_fits(old(conn)@, old(stats)@, event, recording),
    ensures
        final(conn).wf(),
        final(stats).wf(),
        (Step { conn: final(conn)@, stats: final(stats)@, action }) == read_step(
            old(conn)@,
            old(stats)@,
            event,
            recording,
            now,
        ),
{
    match event {
        ReadEvent::Ready => read_on(conn),
        ReadEvent::Received(n) => {
            if n > 0 {
                handle_bytes(conn, stats, n, recording, now)
            } else {
                match conn.state {
                    ConnState::ReadingUntilClose => complete_request(conn, stats, recording, now),
                    _ => {
                        count_lost(stats, recording);
                        Action::Reconnect
                    },
                }
            }
        },
        ReadEvent::WouldBlock => Action::Wait,
        ReadEvent::Failed => Action::Reconnect,
    }
}

/// Whether `event` can happen to a connection in its state: it is checked while it is
/// being set up, and sent on while the request is being sent.
pub open spec fn write_event_fits(conn: ConnView, event: WriteEvent, request_len: int) -> bool {
    match event {
        WriteEvent::Ready => true,
        WriteEvent::Checked(_) => conn.state == ConnState::Connecting,
        WriteEvent::Sent(n) => conn.state == ConnState::Writing && conn.written_len + n
            <= request_len,
        WriteEvent::WouldBlock => conn.state == ConnState::Writing,
        WriteEvent::Failed => conn.state == ConnState::Writing,
    }
}

/// Whether the counts have room for `event`: one that loses the connection counts.
pub open spec fn write_event_counts(stats: StatsView, event: WriteEvent, recording: bool) -> bool {
    recording && (event == WriteEvent::Checked(false) || event == WriteEvent::Failed)
        ==> stats.has_room(1, 0)
}

/// Whether `event` can happen to a connection that is writable, and be counted.
pub fn accepts_write(
    conn: &Connection,
    stats: &WorkerStats,
    event: WriteEvent,
    request_len: usize,
    recording: bool,
) -> (accepts: bool)
    ensures
        accepts == (write_event_fits(conn@, event, request_len as int) && write_event_counts(
            stats@,
            event,
            recording,
        )),
{
    let room = !recording || stats.total_requests < u64::MAX;
    let writing = matches!(conn.state, ConnState::Writing);
    match event {
        WriteEvent::Ready => true,
        WriteEvent::Checked(connected) => matches!(conn.state, ConnState::Connecting) && (connected
            || room),
        WriteEvent::Sent(n) => writing && conn.written_len <= request_len && n <= request_len
            - conn.written_len,
        WriteEvent::WouldBlock => writing,
        WriteEvent::Failed => writing && room,
    }
}

/// Handles an event on a connection that is writable, for a request of `request_len`
/// bytes.
pub fn handle_write(
    conn: &mut Connection,
    stats: &mut WorkerStats,
    event: WriteEvent,
    request_len: usize,
    recording: bool,
    now: u64,
) -> (action: Action)
    requires
        old(conn).wf(),
        old(stats).wf(),
        write_event_fits(old(conn)@, event, request_len as int),
        write_event_counts(old(stats)@, event, recording),
    ensures
        final(conn).wf(),
        final(stats).wf(),
        (Step { conn: final(conn)@, stats: final(stats)@, action }) == write_step(
            old(conn)@,
            old(stats)@,
            event,
            request_len as int,
            recording,
            now,
        ),
{
    match event {
        WriteEvent::Ready => match conn.state {
            ConnState::Connecting => Action::Check,
            ConnState::Writing => Action::Write,
            _ => Action::AwaitReadable,
        },
        WriteEvent::Checked(connected) => {
            if connected {
                conn.state = ConnState::Writing;
                conn.start_time = Some(now);
                conn.written_len = 0;
                Action::Write
            } else {
                count_lost(stats, recording);
                Action::Reconnect
            }
        },
        WriteEvent::Sent(n) => {
            conn.written_len = conn.written_len + n;
            if conn.written_len >= request_len {
                conn.state = ConnState::ReadingHeaders;
                conn.read_len = 0;
                Action::AwaitReadable
            } else {
                Action::Write
            }
        },
        WriteEvent::WouldBlock => Action::Wait,
        WriteEvent::Failed => {
            count_lost(stats, recording);
            Action::Reconnect
        },
    }
}

} // verus!

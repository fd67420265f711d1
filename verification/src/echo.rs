use std::collections::HashMap;
use vstd::prelude::*;

verus! {

/// The byte that ends a line.
pub const NEWLINE: u8 = 0x0a;

/// The token under which the listening socket is registered; connections get
/// the tokens after it.
pub const LISTENER_TOKEN: usize = 0;

/// How many bytes one read from a connection asks for.
pub const READ_CHUNK: usize = 1024;

/// The readiness that a socket is registered for.
#[derive(PartialEq, Eq, Structural, Debug, Clone, Copy)]
pub struct Interest {
    pub readable: bool,
    pub writable: bool,
}

impl Interest {
    /// Readable only.
    pub fn readable() -> (i: Interest)
        ensures
            i == (Interest { readable: true, writable: false }),
    {
        Interest { readable: true, writable: false }
    }

    /// Readable and writable.
    pub fn readable_writable() -> (i: Interest)
        ensures
            i == (Interest { readable: true, writable: true }),
    {
        Interest { readable: true, writable: true }
    }
}

/// A failed read or write (other than one that would block).
#[derive(PartialEq, Eq, Structural, Debug, Clone, Copy)]
pub struct IoFailure;

/// What one read from a connection's socket gave.
pub enum ReadOutcome {
    /// These bytes arrived; none at all means that the peer closed.
    Received(Vec<u8>),
    /// Nothing to read now.
    WouldBlock,
    /// The read failed.
    Failed,
}

/// What one write to a connection's socket gave.
pub enum WriteOutcome {
    /// This many bytes, from the front of the pending output, went out.
    Written(usize),
    /// The socket cannot take bytes now.
    WouldBlock,
    /// The write failed.
    Failed,
}

/// What the caller has to do with a connection's socket after an event.
#[derive(PartialEq, Eq, Structural, Debug, Clone, Copy)]
pub enum Reaction {
    /// Nothing.
    Keep,
    /// Register the socket again, for this readiness.
    Reregister(Interest),
    /// The connection is gone: deregister and drop the socket.
    Closed,
}

/// The abstract state of a connection: bytes received and not yet echoed
/// back, and bytes waiting to be written.
pub struct ConnectionView {
    pub read_buffer: Seq<u8>,
    pub write_buffer: Seq<u8>,
}

/// One client connection of the echo server: its input and output buffers.
pub struct Connection {
    read_buffer: Vec<u8>,
    write_buffer: Vec<u8>,
}

impl View for Connection {
    type V = ConnectionView;

    closed spec fn view(&self) -> ConnectionView {
        ConnectionView { read_buffer: self.read_buffer@, write_buffer: self.write_buffer@ }
    }
}

/// `s` holds a line break.
pub open spec fn has_newline(s: Seq<u8>) -> bool {
    exists|i: int| 0 <= i < s.len() && s[i] == NEWLINE
}

/// The first `n` bytes of `s` are its first line, line break included.
pub open spec fn is_first_line(s: Seq<u8>, n: int) -> bool {
    &&& 1 <= n <= s.len()
    &&& s[n - 1] == NEWLINE
    &&& forall|i: int| 0 <= i < n - 1 ==> s[i] != NEWLINE
}

/// The length of the first line of `s`, line break included.
pub open spec fn first_line_len(s: Seq<u8>) -> int {
    choose|n: int| is_first_line(s, n)
}

/// Moving the first complete line, if there is one, from the input to the
/// end of the output.
pub open spec fn moved_line(c: ConnectionView) -> ConnectionView {
    if has_newline(c.read_buffer) {
        let n = first_line_len(c.read_buffer);
        ConnectionView {
            read_buffer: c.read_buffer.skip(n),
            write_buffer: c.write_buffer + c.read_buffer.take(n),
        }
    } else {
        c
    }
}

/// Receiving `bytes`: they join the input, and the first complete line moves
/// to the output.
pub open spec fn after_received(c: ConnectionView, bytes: Seq<u8>) -> ConnectionView {
    moved_line(ConnectionView { read_buffer: c.read_buffer + bytes, write_buffer: c.write_buffer })
}

/// Writing `n` bytes: they leave the front of the output.
pub open spec fn after_written(c: ConnectionView, n: int) -> ConnectionView {
    ConnectionView { read_buffer: c.read_buffer, write_buffer: c.write_buffer.skip(n) }
}

/// The connection after a read, and whether it is still open (`Ok(false)`
/// when the peer closed, `Err` when the read failed).
pub open spec fn read_data_result(c: ConnectionView, outcome: ReadOutcome) -> (
    ConnectionView,
    Result<bool, IoFailure>,
) {
    match outcome {
        ReadOutcome::Received(bytes) => if bytes@.len() == 0 {
            (c, Ok(false))
        } else {
            (after_received(c, bytes@), Ok(true))
        },
        ReadOutcome::WouldBlock => (c, Ok(true)),
        ReadOutcome::Failed => (c, Err(IoFailure)),
    }
}

/// The connection after a write, and whether it is still open.
pub open spec fn write_data_result(c: ConnectionView, outcome: WriteOutcome) -> (
    ConnectionView,
    Result<bool, IoFailure>,
) {
    match outcome {
        WriteOutcome::Written(n) => (after_written(c, n as int), Ok(true)),
        WriteOutcome::WouldBlock => (c, Ok(true)),
        WriteOutcome::Failed => (c, Err(IoFailure)),
    }
}

/// A first line ends at the first line break, so it is unique.
pub proof fn lemma_first_line_unique(s: Seq<u8>, n: int, m: int)
    requires
        is_first_line(s, n),
        is_first_line(s, m),
    ensures
        n == m,
{
    if n < m {
        assert(s[n - 1] != NEWLINE);
    } else if m < n {
        assert(s[m - 1] != NEWLINE);
    }
}

/// The position of the first line break in `buf`, if any.
pub fn find_newline(buf: &Vec<u8>) -> (pos: Option<usize>)
    ensures
        match pos {
            Some(p) => p < buf.len() && is_first_line(buf@, p + 1) && has_newline(buf@) && first_line_len(buf@) == p
                + 1,
            None => !has_newline(buf@),
        },
{
    let mut i: usize = 0;
    while i < buf.len()
        invariant
            i <= buf@.len(),
            forall|j: int| 0 <= j < i ==> buf@[j] != NEWLINE,
        decreases buf@.len() - i,
    {
        if buf[i] == NEWLINE {
            proof {
                assert(is_first_line(buf@, i + 1));
                let n = first_line_len(buf@);
                lemma_first_line_unique(buf@, n, i + 1);
            }
            return Some(i);
        }
        i = i + 1;
    }
    None
}

impl Connection {
    /// A connection with nothing received and nothing to write.
    pub fn new() -> (c: Connection)
        ensures
            c@.read_buffer == Seq::<u8>::empty(),
            c@.write_buffer == Seq::<u8>::empty(),
    {
        Connection { read_buffer: Vec::with_capacity(READ_CHUNK), write_buffer: Vec::with_capacity(READ_CHUNK) }
    }

    /// Moves the first complete line, if the input holds one, to the end of
    /// the output.
    pub fn move_line_to_write_buffer(&mut self)
        ensures
            final(self)@ == moved_line(old(self)@),
    {
        match find_newline(&self.read_buffer) {
            Some(p) => {
                let mut line = self.read_buffer.split_off(p + 1);
                std::mem::swap(&mut line, &mut self.read_buffer);
                self.write_buffer.append(&mut line);
            },
            None => {},
        }
    }

    /// Takes in what a read from the socket gave: received bytes join the
    /// input and the first complete line moves to the output. `Ok(false)` when
    /// the peer closed, `Err` when the read failed, `Ok(true)` otherwise.
    pub fn read_data(&mut self, outcome: ReadOutcome) -> (open: Result<bool, IoFailure>)
        ensures
            (final(self)@, open) == read_data_result(old(self)@, outcome),
    {
        match outcome {
            ReadOutcome::Received(bytes) => {
                let mut bytes = bytes;
                if bytes.len() == 0 {
                    Ok(false)
                } else {
                    self.read_buffer.append(&mut bytes);
                    self.move_line_to_write_buffer();
                    Ok(true)
                }
            },
            ReadOutcome::WouldBlock => Ok(true),
            ReadOutcome::Failed => Err(IoFailure),
        }
    }

    /// Takes in what a write of the output to the socket gave: the bytes
    /// written leave the front of the output. `Err` when the write failed.
    pub fn write_data(&mut self, outcome: WriteOutcome) -> (open: Result<bool, IoFailure>)
        requires
            outcome matches WriteOutcome::Written(n) ==> n <= old(self)@.write_buffer.len(),
        ensures
            (final(self)@, open) == write_data_result(old(self)@, outcome),
    {
        match outcome {
            WriteOutcome::Written(n) => {
                let rest = self.write_buffer.split_off(n);
                self.write_buffer = rest;
                Ok(true)
            },
            WriteOutcome::WouldBlock => Ok(true),
            WriteOutcome::Failed => Err(IoFailure),
        }
    }

    /// There is output waiting to be written.
    pub fn is_writable(&self) -> (w: bool)
        ensures
            w == (self@.write_buffer.len() > 0),
    {
        self.write_buffer.len() != 0
    }

    /// The output waiting to be written.
    pub fn pending_output(&self) -> (out: &[u8])
        ensures
            out@ == self@.write_buffer,
    {
        self.write_buffer.as_slice()
    }

    /// The input received and not yet moved to the output.
    pub fn pending_input(&self) -> (input: &[u8])
        ensures
            input@ == self@.read_buffer,
    {
        self.read_buffer.as_slice()
    }
}

/// The abstract state of the echo server: its connections by token, and the
/// last token handed out.
pub struct EchoServerView {
    pub connections: Map<usize, ConnectionView>,
    pub last_token_id: int,
}

/// The connection bookkeeping and event decisions of a line-echo server. Each
/// read that brings bytes moves at most one complete line, the first, from
/// the connection's input to its output; the rest of the input waits for the
/// next read. What is written back is always a prefix of what was received.
pub struct EchoServer {
    connections: HashMap<usize, Connection>,
    last_token_id: usize,
}

impl View for EchoServer {
    type V = EchoServerView;

    closed spec fn view(&self) -> EchoServerView {
        EchoServerView {
            connections: self.connections@.map_values(|c: Connection| c@),
            last_token_id: self.last_token_id as int,
        }
    }
}

/// A consistent server: the last token handed out is a `usize`, and every
/// connection is filed under a token that was handed out, never the
/// listener's.
pub open spec fn server_ok(s: EchoServerView) -> bool {
    &&& LISTENER_TOKEN <= s.last_token_id <= usize::MAX
    &&& forall|k: usize| #[trigger]
        s.connections.contains_key(k) ==> LISTENER_TOKEN < k <= s.last_token_id
}

/// `token` was handed out and no connection is filed under it yet.
pub open spec fn token_free(s: EchoServerView, token: usize) -> bool {
    &&& LISTENER_TOKEN < token <= s.last_token_id
    &&& !s.connections.contains_key(token)
}

/// Handing out the next token.
pub open spec fn after_make_token(s: EchoServerView) -> (EchoServerView, int) {
    (EchoServerView { last_token_id: s.last_token_id + 1, ..s }, s.last_token_id + 1)
}

/// A readable event on connection `token` and what the read gave: the
/// connection takes the input in; while it stays open it is registered for
/// writing too exactly when it has output waiting, and once the peer closed or
/// the read failed it is removed.
pub open spec fn after_readable(s: EchoServerView, token: usize, outcome: ReadOutcome) -> (
    EchoServerView,
    Reaction,
) {
    let (c, open) = read_data_result(s.connections[token], outcome);
    if open == Ok::<bool, IoFailure>(true) {
        (
            EchoServerView { connections: s.connections.insert(token, c), ..s },
            if c.write_buffer.len() > 0 {
                Reaction::Reregister(Interest { readable: true, writable: true })
            } else {
                Reaction::Keep
            },
        )
    } else {
        (EchoServerView { connections: s.connections.remove(token), ..s }, Reaction::Closed)
    }
}

/// A writable event on connection `token` and what the write gave: the bytes
/// written leave the output; once the output is empty the connection is
/// registered for reading only; a failed write removes it.
pub open spec fn after_writable(s: EchoServerView, token: usize, outcome: WriteOutcome) -> (
    EchoServerView,
    Reaction,
) {
    let (c, open) = write_data_result(s.connections[token], outcome);
    if open == Ok::<bool, IoFailure>(true) {
        (
            EchoServerView { connections: s.connections.insert(token, c), ..s },
            if c.write_buffer.len() == 0 {
                Reaction::Reregister(Interest { readable: true, writable: false })
            } else {
                Reaction::Keep
            },
        )
    } else {
        (EchoServerView { connections: s.connections.remove(token), ..s }, Reaction::Closed)
    }
}

impl EchoServer {
    /// A server with no connections; tokens start after the listener's.
    pub fn new() -> (server: EchoServer)
        ensures
            server@.connections == Map::<usize, ConnectionView>::empty(),
            server@.last_token_id == LISTENER_TOKEN,
            server_ok(server@),
    {
        let server = EchoServer { connections: HashMap::new(), last_token_id: LISTENER_TOKEN };
        assert(server@.connections =~= Map::<usize, ConnectionView>::empty());
        server
    }

    /// The last token handed out.
    pub fn last_token_id(&self) -> (id: usize)
        ensures
            id == self@.last_token_id,
    {
        self.last_token_id
    }

    /// There is a connection under `token`.
    pub fn has_connection(&self, token: usize) -> (b: bool)
        ensures
            b == self@.connections.contains_key(token),
    {
        self.connections.contains_key(&token)
    }

    /// The output waiting on connection `token`.
    pub fn pending_output(&self, token: usize) -> (out: &[u8])
        requires
            self@.connections.contains_key(token),
        ensures
            out@ == self@.connections[token].write_buffer,
    {
        match self.connections.get(&token) {
            Some(conn) => conn.pending_output(),
            None => &[],
        }
    }

    /// Hands out the next token: one more than the last.
    pub fn make_token(&mut self) -> (token: usize)
        requires
            server_ok(old(self)@),
            old(self)@.last_token_id < usize::MAX,
        ensures
            (final(self)@, token as int) == after_make_token(old(self)@),
            server_ok(final(self)@),
            token_free(final(self)@, token),
    {
        self.last_token_id = self.last_token_id + 1;
        proof {
            assert(self@.connections =~= old(self)@.connections);
        }
        self.last_token_id
    }

    /// Takes on a newly accepted client, registered under `token`, a token
    /// handed out by `make_token` that no connection uses yet.
    pub fn accept_connection(&mut self, token: usize)
        requires
            server_ok(old(self)@),
            token_free(old(self)@, token),
        ensures
            server_ok(final(self)@),
            final(self)@.connections == old(self)@.connections.insert(
                token,
                ConnectionView { read_buffer: Seq::empty(), write_buffer: Seq::empty() },
            ),
            final(self)@.last_token_id == old(self)@.last_token_id,
    {
        let conn = Connection::new();
        self.connections.insert(token, conn);
        proof {
            assert(self@.connections =~= old(self)@.connections.insert(token, conn@));
        }
    }

    /// Drops connection `token`; `true` when there was one, whose socket the
    /// caller then deregisters.
    pub fn remove_connection(&mut self, token: usize) -> (removed: bool)
        requires
            server_ok(old(self)@),
        ensures
            server_ok(final(self)@),
            removed == old(self)@.connections.contains_key(token),
            final(self)@.connections == old(self)@.connections.remove(token),
            final(self)@.last_token_id == old(self)@.last_token_id,
    {
        let r = self.connections.remove(&token);
        proof {
            assert(self@.connections =~= old(self)@.connections.remove(token));
        }
        r.is_some()
    }

    /// Handles a readable event on connection `token`, given what the read
    /// from its socket gave.
    pub fn handle_readable(&mut self, token: usize, outcome: ReadOutcome) -> (reaction: Reaction)
        requires
            server_ok(old(self)@),
            old(self)@.connections.contains_key(token),
        ensures
            (final(self)@, reaction) == after_readable(old(self)@, token, outcome),
            server_ok(final(self)@),
    {
        let ghost before = self@;
        match self.connections.remove(&token) {
            Some(conn) => {
                let mut conn = conn;
                match conn.read_data(outcome) {
                    Ok(true) => {
                        let writable = conn.is_writable();
                        self.connections.insert(token, conn);
                        proof {
                            assert(self@.connections =~= before.connections.insert(token, conn@));
                        }
                        if writable {
                            Reaction::Reregister(Interest::readable_writable())
                        } else {
                            Reaction::Keep
                        }
                    },
                    _ => {
                        proof {
                            assert(self@.connections =~= before.connections.remove(token));
                        }
                        Reaction::Closed
                    },
                }
            },
            None => Reaction::Closed,
        }
    }

    /// Handles a writable event on connection `token`, given what the write of
    /// its pending output gave.
    pub fn handle_writable(&mut self, token: usize, outcome: WriteOutcome) -> (reaction: Reaction)
        requires
            server_ok(old(self)@),
            old(self)@.connections.contains_key(token),
            outcome matches WriteOutcome::Written(n) ==> n <= old(
                self,
            )@.connections[token].write_buffer.len(),
        ensures
            (final(self)@, reaction) == after_writable(old(self)@, token, outcome),
            server_ok(final(self)@),
    {
        let ghost before = self@;
        match self.connections.remove(&token) {
            Some(conn) => {
                let mut conn = conn;
                match conn.write_data(outcome) {
                    Ok(true) => {
                        let writable = conn.is_writable();
                        self.connections.insert(token, conn);
                        proof {
                            assert(self@.connections =~= before.connections.insert(token, conn@));
                        }
                        if writable {
                            Reaction::Keep
                        } else {
                            Reaction::Reregister(Interest::readable())
                        }
                    },
                    _ => {
                        proof {
                            assert(self@.connections =~= before.connections.remove(token));
                        }
                        Reaction::Closed
                    },
                }
            },
            None => Reaction::Closed,
        }
    }
}

/// Something that happens on one connection's byte stream.
pub enum StreamEvent {
    /// These bytes arrived (none: the peer closed, nothing changes).
    Received(Seq<u8>),
    /// This many bytes of the output went out.
    Written(nat),
}

/// The connection after `events`, with every byte received and every byte
/// written out along the way.
pub open spec fn replay(c: ConnectionView, events: Seq<StreamEvent>) -> (
    ConnectionView,
    Seq<u8>,
    Seq<u8>,
)
    decreases events.len(),
{
    if events.len() == 0 {
        (c, Seq::empty(), Seq::empty())
    } else {
        let (c1, received, written) = replay(c, events.drop_last());
        match events.last() {
            StreamEvent::Received(bytes) => if bytes.len() == 0 {
                (c1, received, written)
            } else {
                (after_received(c1, bytes), received + bytes, written)
            },
            StreamEvent::Written(n) => (
                after_written(c1, n as int),
                received,
                written + c1.write_buffer.take(n as int),
            ),
        }
    }
}

/// Every write in `events` writes no more than the output then waiting.
pub open spec fn writes_fit(c: ConnectionView, events: Seq<StreamEvent>) -> bool
    decreases events.len(),
{
    if events.len() == 0 {
        true
    } else {
        &&& writes_fit(c, events.drop_last())
        &&& match events.last() {
            StreamEvent::Written(n) => n <= replay(c, events.drop_last()).0.write_buffer.len(),
            StreamEvent::Received(_) => true,
        }
    }
}

/// The output holds whole lines only: it is empty or ends with a line break.
pub open spec fn whole_lines(s: Seq<u8>) -> bool {
    s.len() == 0 || s.last() == NEWLINE
}

/// A line break in `s` means that `s` has a first line.
pub proof fn lemma_first_line_exists(s: Seq<u8>, i: int)
    requires
        0 <= i < s.len(),
        s[i] == NEWLINE,
    ensures
        is_first_line(s, first_line_len(s)),
    decreases i,
{
    if exists|j: int| 0 <= j < i && s[j] == NEWLINE {
        let j = choose|j: int| 0 <= j < i && s[j] == NEWLINE;
        lemma_first_line_exists(s, j);
    } else {
        assert(is_first_line(s, i + 1));
    }
}

/// Moving a line keeps the bytes, in order: output followed by input is the
/// same before and after.
pub proof fn lemma_moved_line_keeps_bytes(c: ConnectionView)
    ensures
        moved_line(c).write_buffer + moved_line(c).read_buffer == c.write_buffer
            + c.read_buffer,
        whole_lines(c.write_buffer) ==> whole_lines(moved_line(c).write_buffer),
{
    if has_newline(c.read_buffer) {
        let i = choose|i: int| 0 <= i < c.read_buffer.len() && c.read_buffer[i] == NEWLINE;
        lemma_first_line_exists(c.read_buffer, i);
        let n = first_line_len(c.read_buffer);
        assert(c.write_buffer + c.read_buffer.take(n) + c.read_buffer.skip(n) =~= c.write_buffer
            + c.read_buffer);
    }
}

/// The echo law: on every connection, the bytes written out, followed by the
/// output still waiting and the input not yet echoed, are exactly the bytes
/// that were waiting at the start followed by every byte received. From a
/// fresh connection, what goes out is therefore always a prefix of what came
/// in, in the same order.
pub proof fn lemma_echo_stream(c: ConnectionView, events: Seq<StreamEvent>)
    requires
        writes_fit(c, events),
    ensures
        replay(c, events).2 + replay(c, events).0.write_buffer + replay(c, events).0.read_buffer
            == c.write_buffer + c.read_buffer + replay(c, events).1,
    decreases events.len(),
{
    if events.len() == 0 {
        assert(c.write_buffer + c.read_buffer + Seq::<u8>::empty() =~= c.write_buffer
            + c.read_buffer);
        assert(Seq::<u8>::empty() + c.write_buffer + c.read_buffer =~= c.write_buffer
            + c.read_buffer);
    } else {
        let prefix = events.drop_last();
        lemma_echo_stream(c, prefix);
        let (c1, received, written) = replay(c, prefix);
        match events.last() {
            StreamEvent::Received(bytes) => {
                if bytes.len() > 0 {
                    let grown = ConnectionView {
                        read_buffer: c1.read_buffer + bytes,
                        write_buffer: c1.write_buffer,
                    };
                    lemma_moved_line_keeps_bytes(grown);
                    assert(written + (grown.write_buffer + grown.read_buffer) =~= written
                        + c1.write_buffer + c1.read_buffer + bytes);
                    assert(c.write_buffer + c.read_buffer + (received + bytes) =~= c.write_buffer
                        + c.read_buffer + received + bytes);
                    assert(written + moved_line(grown).write_buffer + moved_line(grown).read_buffer
                        =~= written + (moved_line(grown).write_buffer
                        + moved_line(grown).read_buffer));
                }
            },
            StreamEvent::Written(n) => {
                assert(written + c1.write_buffer.take(n as int) + c1.write_buffer.skip(n as int)
                    + c1.read_buffer =~= written + c1.write_buffer + c1.read_buffer);
            },
        }
    }
}

/// From a fresh connection, the bytes written out are a prefix of the bytes
/// received, and the rest of what was received is still waiting, output first.
pub proof fn lemma_echo_from_fresh(events: Seq<StreamEvent>)
    requires
        writes_fit(ConnectionView { read_buffer: Seq::empty(), write_buffer: Seq::empty() }, events),
    ensures
        ({
            let (c, received, written) = replay(
                ConnectionView { read_buffer: Seq::empty(), write_buffer: Seq::empty() },
                events,
            );
            &&& written.len() <= received.len()
            &&& received.take(written.len() as int) == written
            &&& received.skip(written.len() as int) == c.write_buffer + c.read_buffer
        }),
{
    let fresh = ConnectionView { read_buffer: Seq::empty(), write_buffer: Seq::empty() };
    lemma_echo_stream(fresh, events);
    let (c, received, written) = replay(fresh, events);
    assert(fresh.write_buffer + fresh.read_buffer + received =~= received);
    assert(written + c.write_buffer + c.read_buffer =~= written + (c.write_buffer + c.read_buffer));
    assert(received.take(written.len() as int) =~= written);
    assert(received.skip(written.len() as int) =~= c.write_buffer + c.read_buffer);
}

/// Lines are echoed whole: when the output starts out as whole lines, after
/// any events the output waiting is still whole lines, so the server never
/// holds back part of a line that it has started to echo.
pub proof fn lemma_output_whole_lines(c: ConnectionView, events: Seq<StreamEvent>)
    requires
        whole_lines(c.write_buffer),
        writes_fit(c, events),
    ensures
        whole_lines(replay(c, events).0.write_buffer),
    decreases events.len(),
{
    if events.len() > 0 {
        lemma_output_whole_lines(c, events.drop_last());
        let c1 = replay(c, events.drop_last()).0;
        match events.last() {
            StreamEvent::Received(bytes) => {
                if bytes.len() > 0 {
                    lemma_moved_line_keeps_bytes(
                        ConnectionView { read_buffer: c1.read_buffer + bytes, write_buffer: c1.write_buffer },
                    );
                }
            },
            StreamEvent::Written(n) => {
                if (n as int) < c1.write_buffer.len() {
                    assert(c1.write_buffer.skip(n as int).last() == c1.write_buffer.last());
                } else {
                    assert(c1.write_buffer.skip(n as int).len() == 0);
                }
            },
        }
    }
}

/// Every token handed out is fresh: larger than every earlier one, and never
/// the listener's.
pub proof fn lemma_tokens_fresh(s: EchoServerView)
    requires
        server_ok(s),
        s.last_token_id < usize::MAX,
    ensures
        after_make_token(s).1 > s.last_token_id,
        after_make_token(s).1 != LISTENER_TOKEN,
        after_make_token(after_make_token(s).0).1 > after_make_token(s).1,
        after_make_token(s).0.connections == s.connections,
        server_ok(after_make_token(s).0),
        token_free(after_make_token(s).0, after_make_token(s).1 as usize),
{
}

/// Consistency is kept by every operation, so a connection is never filed
/// under a token that was not handed out, and a token handed out is never in
/// use: accepting a client never replaces a live connection.
pub proof fn lemma_server_stays_ok(
    s: EchoServerView,
    token: usize,
    read: ReadOutcome,
    write: WriteOutcome,
)
    requires
        server_ok(s),
    ensures
        s.connections.contains_key(token) ==> server_ok(after_readable(s, token, read).0),
        s.connections.contains_key(token) ==> server_ok(after_writable(s, token, write).0),
        server_ok((EchoServerView { connections: s.connections.remove(token), ..s })),
        token_free(s, token) ==> server_ok(
            (EchoServerView {
                connections: s.connections.insert(
                    token,
                    ConnectionView { read_buffer: Seq::empty(), write_buffer: Seq::empty() },
                ),
                ..s
            }),
        ),
{
}

/// A connection that stays open is registered for reading, and for writing
/// exactly when it has output waiting.
pub proof fn lemma_interest_follows_output(
    s: EchoServerView,
    token: usize,
    read: ReadOutcome,
    write: WriteOutcome,
)
    ensures
        after_readable(s, token, read).1 matches Reaction::Reregister(i) ==> i.readable && i.writable
            && after_readable(s, token, read).0.connections[token].write_buffer.len() > 0,
        after_writable(s, token, write).1 matches Reaction::Reregister(i) ==> i.readable
            && !i.writable && after_writable(s, token, write).0.connections[token].write_buffer.len()
            == 0,
        after_readable(s, token, read).1 == Reaction::Closed <==> !after_readable(
            s,
            token,
            read,
        ).0.connections.contains_key(token),
        after_writable(s, token, write).1 == Reaction::Closed <==> !after_writable(
            s,
            token,
            write,
        ).0.connections.contains_key(token),
{
}


/// The move takes exactly the first line: when the first line break of the
/// input is at `p`, the input's first `p + 1` bytes, line break included, are
/// appended to the output and leave the input; with no line break nothing
/// moves.
pub proof fn lemma_move_takes_first_line(c: ConnectionView, p: int)
    ensures
        0 <= p < c.read_buffer.len() && c.read_buffer[p] == NEWLINE && (forall|i: int|
            0 <= i < p ==> c.read_buffer[i] != NEWLINE) ==> {
            &&& moved_line(c).write_buffer == c.write_buffer + c.read_buffer.subrange(0, p + 1)
            &&& moved_line(c).read_buffer == c.read_buffer.subrange(p + 1, c.read_buffer.len() as int)
        },
        (forall|i: int| 0 <= i < c.read_buffer.len() ==> c.read_buffer[i] != NEWLINE) ==> moved_line(c)
            == c,
{
    if 0 <= p < c.read_buffer.len() && c.read_buffer[p] == NEWLINE && (forall|i: int|
        0 <= i < p ==> c.read_buffer[i] != NEWLINE) {
        assert(is_first_line(c.read_buffer, p + 1));
        lemma_first_line_exists(c.read_buffer, p);
        lemma_first_line_unique(c.read_buffer, first_line_len(c.read_buffer), p + 1);
        assert(c.read_buffer.take(p + 1) =~= c.read_buffer.subrange(0, p + 1));
        assert(c.read_buffer.skip(p + 1) =~= c.read_buffer.subrange(
            p + 1,
            c.read_buffer.len() as int,
        ));
    }
}

/// A read that brings bytes appends them to the input and then moves the
/// first line of the whole input, if it holds one, to the output: with the
/// first line break of `old input + bytes` at `p`, the output grows by that
/// input's first `p + 1` bytes and the input keeps the rest. The connection
/// stays open.
pub proof fn lemma_read_moves_first_line(c: ConnectionView, outcome: ReadOutcome, p: int)
    requires
        outcome matches ReadOutcome::Received(bytes) && bytes@.len() > 0,
    ensures
        read_data_result(c, outcome).1 == Ok::<bool, IoFailure>(true),
        ({
            let input = c.read_buffer + outcome->Received_0@;
            let after = read_data_result(c, outcome).0;
            &&& (0 <= p < input.len() && input[p] == NEWLINE && (forall|i: int|
                0 <= i < p ==> input[i] != NEWLINE)) ==> {
                &&& after.write_buffer == c.write_buffer + input.subrange(0, p + 1)
                &&& after.read_buffer == input.subrange(p + 1, input.len() as int)
            }
            &&& (forall|i: int| 0 <= i < input.len() ==> input[i] != NEWLINE) ==> {
                &&& after.write_buffer == c.write_buffer
                &&& after.read_buffer == input
            }
        }),
{
    let input = c.read_buffer + outcome->Received_0@;
    lemma_move_takes_first_line(ConnectionView { read_buffer: input, write_buffer: c.write_buffer }, p);
}

/// What a readable event does, in terms of what the read gave: the
/// connection is closed exactly when the peer closed (no bytes) or the read
/// failed; a read that would block changes nothing; otherwise the connection
/// stays, and the socket is registered for reading and writing exactly when
/// output waits, and left as it is when none does.
pub proof fn lemma_readable_reaction(s: EchoServerView, token: usize, outcome: ReadOutcome)
    requires
        s.connections.contains_key(token),
    ensures
        ({
            let (after, reaction) = after_readable(s, token, outcome);
            let closes = match outcome {
                ReadOutcome::Received(bytes) => bytes@.len() == 0,
                ReadOutcome::WouldBlock => false,
                ReadOutcome::Failed => true,
            };
            &&& reaction == Reaction::Closed <==> closes
            &&& closes ==> after.connections == s.connections.remove(token)
            &&& !closes ==> {
                &&& after.connections.contains_key(token)
                &&& after.connections.remove(token) == s.connections.remove(token)
                &&& reaction == Reaction::Reregister(Interest { readable: true, writable: true })
                    <==> after.connections[token].write_buffer.len() > 0
                &&& reaction == Reaction::Keep <==> after.connections[token].write_buffer.len() == 0
            }
            &&& outcome is WouldBlock ==> after.connections == s.connections
            &&& after.last_token_id == s.last_token_id
        }),
{
    let (after, reaction) = after_readable(s, token, outcome);
    match outcome {
        ReadOutcome::WouldBlock => {
            assert(s.connections.insert(token, s.connections[token]) =~= s.connections);
        },
        _ => {},
    }
    if after.connections.contains_key(token) {
        assert(after.connections.remove(token) =~= s.connections.remove(token));
    }
}

/// What a writable event does, in terms of what the write gave: the
/// connection is closed exactly when the write failed; a write that would
/// block leaves the connection as it was; a write of `n` bytes drops exactly
/// the first `n` bytes of the output and keeps the input; while the
/// connection stays, the socket is registered for reading only exactly when
/// the output is drained, and left as it is while output waits.
pub proof fn lemma_writable_reaction(s: EchoServerView, token: usize, outcome: WriteOutcome)
    requires
        s.connections.contains_key(token),
    ensures
        ({
            let (after, reaction) = after_writable(s, token, outcome);
            let c = s.connections[token];
            &&& reaction == Reaction::Closed <==> outcome is Failed
            &&& outcome is Failed ==> after.connections == s.connections.remove(token)
            &&& !(outcome is Failed) ==> {
                &&& after.connections.contains_key(token)
                &&& after.connections.remove(token) == s.connections.remove(token)
                &&& reaction == Reaction::Reregister(Interest { readable: true, writable: false })
                    <==> after.connections[token].write_buffer.len() == 0
                &&& reaction == Reaction::Keep <==> after.connections[token].write_buffer.len() > 0
                &&& after.connections[token].read_buffer == c.read_buffer
            }
            &&& outcome is WouldBlock ==> after.connections == s.connections
            &&& outcome matches WriteOutcome::Written(n) ==> after.connections[token].write_buffer
                == c.write_buffer.subrange(n as int, c.write_buffer.len() as int)
            &&& after.last_token_id == s.last_token_id
        }),
{
    let (after, reaction) = after_writable(s, token, outcome);
    let c = s.connections[token];
    match outcome {
        WriteOutcome::WouldBlock => {
            assert(s.connections.insert(token, c) =~= s.connections);
        },
        WriteOutcome::Written(n) => {
            assert(c.write_buffer.skip(n as int) =~= c.write_buffer.subrange(
                n as int,
                c.write_buffer.len() as int,
            ));
        },
        _ => {},
    }
    if after.connections.contains_key(token) {
        assert(after.connections.remove(token) =~= s.connections.remove(token));
    }
}

} // verus!

//! One accepted connection: its parser, lifecycle state and interest set.
//!
//! The connection is driven by two kinds of events: a chunk of bytes read
//! from its socket, and a writability signal. Both are pure decisions here;
//! the socket reads and writes themselves happen outside the library, which
//! only receives the bytes and hands back the response to write.

use vstd::prelude::*;
use vstd::string::StrSliceExecFns;
use vstd::string::StringSliceAdditionalSpecFns;
use crate::bytes::subvec;
use crate::http::{feed, init_parser, HttpParser, ParserView, Phase};
use crate::keys::{accept_key_bytes, gen_key};

verus! {

/// Lifecycle state of a connection.
#[derive(Clone, Copy, PartialEq, Eq, Structural)]
pub enum ClientState {
    /// Reading and parsing the upgrade request.
    AwaitingHandshake,
    /// The upgrade was detected; the 101 response is owed.
    HandshakeResponse,
    /// The response was handed out; ready for framed traffic.
    Connected,
}

/// The readiness conditions a connection wants to be woken for.
#[derive(Clone, Copy, PartialEq, Eq, Structural)]
pub struct InterestSet {
    /// Wake on readable.
    pub readable: bool,
    /// Wake on writable.
    pub writable: bool,
}

/// Interest in readability alone.
pub open spec fn readable_only() -> InterestSet {
    InterestSet { readable: true, writable: false }
}

/// Interest in writability alone.
pub open spec fn writable_only() -> InterestSet {
    InterestSet { readable: false, writable: true }
}

/// The abstract state of a connection.
#[verifier::ext_equal]
pub struct ClientView {
    /// Lifecycle state.
    pub state: ClientState,
    /// Current interest set.
    pub interest: InterestSet,
    /// The parser with the headers it has collected.
    pub parser: ParserView,
    /// How many handshake responses have been handed out.
    pub responses: nat,
}

/// An event a connection is driven by.
pub enum ClientEvent {
    /// A chunk of bytes read from the socket.
    Data(Seq<u8>),
    /// The socket became writable.
    Writable,
}

/// The header that carries the client's handshake key.
pub open spec fn sec_key_name() -> Seq<u8> {
    "Sec-WebSocket-Key".spec_bytes()
}

/// Everything of the 101 response before the accept key.
pub open spec fn response_prefix() -> Seq<u8> {
    "HTTP/1.1 101 Switching Protocols\r\nConnection: Upgrade\r\nSec-WebSocket-Accept:".spec_bytes()
}

/// Everything of the 101 response after the accept key.
pub open spec fn response_suffix() -> Seq<u8> {
    "\r\nUpgrade:websocket\r\n\r\n".spec_bytes()
}

/// The full 101 response owed for a given client key.
pub open spec fn handshake_response(key: Seq<u8>) -> Seq<u8> {
    response_prefix() + accept_key_bytes(key) + response_suffix()
}

/// What a chunk of socket bytes does to a connection.
pub open spec fn step_data(c: ClientView, bytes: Seq<u8>) -> ClientView {
    if c.state == ClientState::AwaitingHandshake {
        let p = feed(c.parser, bytes);
        if p.phase == Phase::Complete && p.upgrade {
            ClientView {
                state: ClientState::HandshakeResponse,
                interest: writable_only(),
                parser: p,
                ..c
            }
        } else {
            ClientView { parser: p, ..c }
        }
    } else {
        c
    }
}

/// What a writability signal does to a connection.
pub open spec fn step_writable(c: ClientView) -> ClientView {
    if c.state == ClientState::HandshakeResponse && c.parser.headers.contains_key(sec_key_name()) {
        ClientView {
            state: ClientState::Connected,
            interest: readable_only(),
            responses: c.responses + 1,
            ..c
        }
    } else {
        c
    }
}

/// What one event does to a connection.
pub open spec fn client_step(c: ClientView, ev: ClientEvent) -> ClientView {
    match ev {
        ClientEvent::Data(bytes) => step_data(c, bytes),
        ClientEvent::Writable => step_writable(c),
    }
}

/// A connection as it stands right after the accept.
pub open spec fn initial_client() -> ClientView {
    ClientView {
        state: ClientState::AwaitingHandshake,
        interest: readable_only(),
        parser: init_parser(),
        responses: 0,
    }
}

/// What handling a chunk reports to the dispatcher.
#[derive(Clone, Copy, PartialEq, Eq, Debug)]
pub enum ReadOutcome {
    /// More data may be pending; keep reading.
    Continue,
    /// The upgrade was detected; stop reading and await writability.
    Upgraded,
    /// The request completed without asking for an upgrade: fatal.
    NotUpgrade,
    /// The request was malformed: fatal.
    ParseError,
    /// The connection no longer consumes data; the chunk was discarded.
    Ignored,
}

/// What [`WebSocketClient::read`] returns for a given pre-state and chunk.
pub open spec fn read_outcome_spec(c: ClientView, bytes: Seq<u8>) -> ReadOutcome {
    if c.state != ClientState::AwaitingHandshake {
        ReadOutcome::Ignored
    } else {
        let p = feed(c.parser, bytes);
        if p.phase == Phase::Failed {
            ReadOutcome::ParseError
        } else if p.phase == Phase::Complete && p.upgrade {
            ReadOutcome::Upgraded
        } else if p.phase == Phase::Complete {
            ReadOutcome::NotUpgrade
        } else {
            ReadOutcome::Continue
        }
    }
}

/// What [`WebSocketClient::write`] returns.
pub enum WriteOutcome {
    /// The 101 response to write to the socket.
    Response(Vec<u8>),
    /// No `Sec-WebSocket-Key` header was received: fatal.
    MissingKey,
    /// No response is owed in the current state; nothing to do.
    NotPending,
}

/// One connection's verified core.
pub struct WebSocketClient {
    /// The request parser with the collected headers.
    pub parser: HttpParser,
    /// Current interest set.
    pub interest: InterestSet,
    /// Lifecycle state.
    pub state: ClientState,
    /// How many handshake responses have been handed out.
    pub responses: Ghost<nat>,
}

impl View for WebSocketClient {
    type V = ClientView;

    open spec fn view(&self) -> ClientView {
        ClientView {
            state: self.state,
            interest: self.interest,
            parser: self.parser@,
            responses: self.responses@,
        }
    }
}

impl WebSocketClient {
    /// A fresh connection, awaiting the handshake, interested in reading.
    pub fn new() -> (c: WebSocketClient)
        ensures
            c@ == initial_client(),
    {
        let c = WebSocketClient {
            parser: HttpParser::new(),
            interest: InterestSet { readable: true, writable: false },
            state: ClientState::AwaitingHandshake,
            responses: Ghost(0),
        };
        proof {
            assert(c@ =~= initial_client());
        }
        c
    }

    /// Consumes one chunk read from the socket and reports what to do next.
    pub fn read(&mut self, chunk: &Vec<u8>) -> (o: ReadOutcome)
        ensures
            final(self)@ == client_step(old(self)@, ClientEvent::Data(chunk@)),
            o == read_outcome_spec(old(self)@, chunk@),
    {
        if !(self.state == ClientState::AwaitingHandshake) {
            proof {
                assert(self@ =~= client_step(old(self)@, ClientEvent::Data(chunk@)));
            }
            return ReadOutcome::Ignored;
        }
        self.parser.parse(chunk);
        if self.parser.has_failed() {
            proof {
                assert(self@ =~= client_step(old(self)@, ClientEvent::Data(chunk@)));
            }
            ReadOutcome::ParseError
        } else if self.parser.is_upgrade() {
            self.state = ClientState::HandshakeResponse;
            self.interest = InterestSet { readable: false, writable: true };
            proof {
                assert(self@ =~= client_step(old(self)@, ClientEvent::Data(chunk@)));
            }
            ReadOutcome::Upgraded
        } else if self.parser.is_complete() {
            proof {
                assert(self@ =~= client_step(old(self)@, ClientEvent::Data(chunk@)));
            }
            ReadOutcome::NotUpgrade
        } else {
            proof {
                assert(self@ =~= client_step(old(self)@, ClientEvent::Data(chunk@)));
            }
            ReadOutcome::Continue
        }
    }

    /// Answers a writability signal: hands out the 101 response exactly when
    /// the handshake is pending and the client key was received.
    pub fn write(&mut self) -> (o: WriteOutcome)
        ensures
            final(self)@ == client_step(old(self)@, ClientEvent::Writable),
            o matches WriteOutcome::Response(r) ==> {
                &&& old(self)@.state == ClientState::HandshakeResponse
                &&& old(self)@.parser.headers.contains_key(sec_key_name())
                &&& r@ == handshake_response(old(self)@.parser.headers[sec_key_name()])
            },
            (o is Response) == (old(self)@.state == ClientState::HandshakeResponse
                && old(self)@.parser.headers.contains_key(sec_key_name())),
            (o is MissingKey) == (old(self)@.state == ClientState::HandshakeResponse
                && !old(self)@.parser.headers.contains_key(sec_key_name())),
            (o is NotPending) == (old(self)@.state != ClientState::HandshakeResponse),
    {
        if !(self.state == ClientState::HandshakeResponse) {
            proof {
                assert(self@ =~= client_step(old(self)@, ClientEvent::Writable));
            }
            return WriteOutcome::NotPending;
        }
        let name: Vec<u8> = "Sec-WebSocket-Key".as_bytes_vec();
        let key: Vec<u8> = match self.parser.headers.get(&name) {
            Some(v) => subvec(v, 0, v.len()),
            None => {
                proof {
                    assert(self@ =~= client_step(old(self)@, ClientEvent::Writable));
                }
                return WriteOutcome::MissingKey;
            },
        };
        proof {
            assert(key@ =~= old(self)@.parser.headers[sec_key_name()]);
        }
        let mut accept = gen_key(&key);
        let mut response: Vec<u8> =
            "HTTP/1.1 101 Switching Protocols\r\nConnection: Upgrade\r\nSec-WebSocket-Accept:".as_bytes_vec();
        response.append(&mut accept);
        let mut suffix: Vec<u8> = "\r\nUpgrade:websocket\r\n\r\n".as_bytes_vec();
        response.append(&mut suffix);
        self.state = ClientState::Connected;
        self.interest = InterestSet { readable: true, writable: false };
        proof {
            self.responses@ = old(self).responses@ + 1;
        }
        proof {
            assert(self@ =~= client_step(old(self)@, ClientEvent::Writable));
            assert(response@ == handshake_response(old(self)@.parser.headers[sec_key_name()]));
        }
        WriteOutcome::Response(response)
    }
}

/// Runs a connection through a sequence of events.
pub open spec fn run_events(c: ClientView, evs: Seq<ClientEvent>) -> ClientView
    decreases evs.len(),
{
    if evs.len() == 0 {
        c
    } else {
        run_events(client_step(c, evs[0]), evs.drop_first())
    }
}

/// The forward order of the lifecycle states.
pub open spec fn state_rank(s: ClientState) -> int {
    match s {
        ClientState::AwaitingHandshake => 0,
        ClientState::HandshakeResponse => 1,
        ClientState::Connected => 2,
    }
}

/// No single event moves a connection backward in its lifecycle.
pub proof fn lemma_step_monotonic(c: ClientView, ev: ClientEvent)
    ensures
        state_rank(client_step(c, ev).state) >= state_rank(c.state),
{
}

/// A connection never regresses over any sequence of reads and writes.
pub proof fn lemma_state_monotonic(c: ClientView, evs: Seq<ClientEvent>)
    ensures
        state_rank(run_events(c, evs).state) >= state_rank(c.state),
    decreases evs.len(),
{
    if evs.len() > 0 {
        lemma_step_monotonic(c, evs[0]);
        lemma_state_monotonic(client_step(c, evs[0]), evs.drop_first());
    }
}

/// The interest set a connection owes in each lifecycle state: non-empty,
/// exactly writable while the response is pending, exactly readable otherwise.
pub open spec fn interest_consistent(c: ClientView) -> bool {
    &&& (c.interest.readable || c.interest.writable)
    &&& (c.state == ClientState::HandshakeResponse ==> c.interest == writable_only())
    &&& (c.state != ClientState::HandshakeResponse ==> c.interest == readable_only())
}

/// A fresh connection's interest set is consistent.
pub proof fn lemma_initial_interest_consistent()
    ensures
        interest_consistent(initial_client()),
{
}

/// Every event keeps the interest set consistent with the state.
pub proof fn lemma_step_interest_consistent(c: ClientView, ev: ClientEvent)
    requires
        interest_consistent(c),
    ensures
        interest_consistent(client_step(c, ev)),
{
}

/// Any sequence of events keeps the interest set consistent with the state.
pub proof fn lemma_run_interest_consistent(c: ClientView, evs: Seq<ClientEvent>)
    requires
        interest_consistent(c),
    ensures
        interest_consistent(run_events(c, evs)),
    decreases evs.len(),
{
    if evs.len() > 0 {
        lemma_step_interest_consistent(c, evs[0]);
        lemma_run_interest_consistent(client_step(c, evs[0]), evs.drop_first());
    }
}

/// Responses handed out so far, tied to the lifecycle state.
pub open spec fn response_inv(c: ClientView) -> bool {
    &&& c.responses <= 1
    &&& (c.state != ClientState::Connected ==> c.responses == 0)
}

/// Every event preserves the response bound.
pub proof fn lemma_step_response_inv(c: ClientView, ev: ClientEvent)
    requires
        response_inv(c),
    ensures
        response_inv(client_step(c, ev)),
{
}

proof fn lemma_run_response_inv(c: ClientView, evs: Seq<ClientEvent>)
    requires
        response_inv(c),
    ensures
        response_inv(run_events(c, evs)),
    decreases evs.len(),
{
    if evs.len() > 0 {
        lemma_step_response_inv(c, evs[0]);
        lemma_run_response_inv(client_step(c, evs[0]), evs.drop_first());
    }
}

/// Over any sequence of events, a fresh connection hands out the 101
/// response at most once.
pub proof fn lemma_at_most_one_response(evs: Seq<ClientEvent>)
    ensures
        run_events(initial_client(), evs).responses <= 1,
{
    lemma_run_response_inv(initial_client(), evs);
}

/// Once connected, a writability signal changes nothing: no second response.
pub proof fn lemma_connected_never_writes(c: ClientView)
    requires
        c.state == ClientState::Connected,
    ensures
        client_step(c, ClientEvent::Writable) == c,
{
}

/// Once the connection has left the awaiting state, no event mutates the
/// header mapping again: it is read-only from the upgrade on.
pub proof fn lemma_headers_frozen(c: ClientView, evs: Seq<ClientEvent>)
    requires
        c.state != ClientState::AwaitingHandshake,
    ensures
        run_events(c, evs).parser.headers == c.parser.headers,
    decreases evs.len(),
{
    if evs.len() > 0 {
        lemma_step_monotonic(c, evs[0]);
        lemma_headers_frozen(client_step(c, evs[0]), evs.drop_first());
    }
}

/// Once connected, a readable event is a harmless no-op.
pub proof fn lemma_connected_read_noop(c: ClientView, bytes: Seq<u8>)
    requires
        c.state == ClientState::Connected,
    ensures
        client_step(c, ClientEvent::Data(bytes)) == c,
{
}

} // verus!

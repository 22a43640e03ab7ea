//! The dispatcher's decision core: the connection table and event routing.
//!
//! The listening socket, the poller and the sockets themselves live outside
//! the library. The loop outside reports events — an accept outcome, a chunk
//! read for a token, a writability signal for a token, a fatal socket error —
//! and this module decides: which connection the event belongs to, what it
//! does to that connection, whether the connection is dropped from the table,
//! and which interest set must be re-armed. Unknown tokens are a harmless
//! no-op, never a crash.

use vstd::prelude::*;
use crate::client::{
    client_step, initial_client, interest_consistent, read_outcome_spec, response_inv,
    sec_key_name, step_data, step_writable, handshake_response, ClientEvent, ClientState,
    ClientView, InterestSet, ReadOutcome, WebSocketClient, WriteOutcome,
};

verus! {

/// The token under which the listening socket is registered.
pub const SERVER_TOKEN: u64 = 1;

/// Whether all tokens of the entries differ.
pub open spec fn unique_tokens(entries: Seq<(u64, WebSocketClient)>) -> bool {
    forall|i: int, j: int|
        0 <= i < j < entries.len() ==> (#[trigger] entries[i]).0 != (#[trigger] entries[j]).0
}

/// The map a sequence of (token, connection) entries denotes.
pub open spec fn table_map(entries: Seq<(u64, WebSocketClient)>) -> Map<u64, ClientView> {
    Map::new(
        |k: u64| exists|i: int| 0 <= i < entries.len() && (#[trigger] entries[i]).0 == k,
        |k: u64|
            entries[choose|i: int|
                0 <= i < entries.len() && (#[trigger] entries[i]).0 == k].1@,
    )
}

proof fn lemma_table_at(entries: Seq<(u64, WebSocketClient)>, i: int)
    requires
        unique_tokens(entries),
        0 <= i < entries.len(),
    ensures
        table_map(entries).contains_key(entries[i].0),
        table_map(entries)[entries[i].0] == entries[i].1@,
{
    let k = entries[i].0;
    assert(table_map(entries).contains_key(k));
    let j = choose|j: int| 0 <= j < entries.len() && (#[trigger] entries[j]).0 == k;
    assert(j == i);
}

proof fn lemma_table_swap_remove(entries: Seq<(u64, WebSocketClient)>, i: int)
    requires
        unique_tokens(entries),
        0 <= i < entries.len(),
    ensures
        table_map(entries.update(i, entries.last()).drop_last()) == table_map(entries).remove(
            entries[i].0,
        ),
        unique_tokens(entries.update(i, entries.last()).drop_last()),
        forall|j: int|
            0 <= j < entries.len() - 1 ==> exists|l: int|
                0 <= l < entries.len() && #[trigger] entries.update(
                    i,
                    entries.last(),
                ).drop_last()[j] == entries[l],
{
    let t = entries[i].0;
    let e2 = entries.update(i, entries.last()).drop_last();
    let n = entries.len() as int;
    assert(e2.len() == n - 1);
    assert forall|j: int| 0 <= j < n - 1 implies #[trigger] e2[j] == (if j == i {
        entries[n - 1]
    } else {
        entries[j]
    }) by {}
    assert forall|j: int| 0 <= j < n - 1 implies exists|l: int|
        0 <= l < entries.len() && #[trigger] e2[j] == entries[l] by {
        if j == i {
            assert(e2[j] == entries[n - 1]);
        } else {
            assert(e2[j] == entries[j]);
        }
    }
    assert forall|a: int, b: int| 0 <= a < b < e2.len() implies (#[trigger] e2[a]).0 != (
    #[trigger] e2[b]).0 by {
        if a == i {
            assert(e2[a] == entries[n - 1]);
            assert(e2[b] == entries[b]);
        } else if b == i {
            assert(e2[b] == entries[n - 1]);
            assert(e2[a] == entries[a]);
        } else {
            assert(e2[a] == entries[a]);
            assert(e2[b] == entries[b]);
        }
    }
    assert forall|k: u64| table_map(e2).contains_key(k) implies table_map(entries).remove(
        t,
    ).contains_key(k) by {
        let j = choose|j: int| 0 <= j < e2.len() && (#[trigger] e2[j]).0 == k;
        if j == i {
            assert(entries[n - 1].0 == k);
            assert(i < n - 1);
            assert(k != t);
        } else {
            assert(entries[j].0 == k);
            assert(k != t) by {
                if j < i {
                    assert(entries[j].0 != entries[i].0);
                } else {
                    assert(entries[i].0 != entries[j].0);
                }
            }
        }
    }
    assert forall|k: u64| table_map(entries).remove(t).contains_key(k) implies table_map(
        e2,
    ).contains_key(k) by {
        let j = choose|j: int| 0 <= j < entries.len() && (#[trigger] entries[j]).0 == k;
        assert(j != i);
        if j == n - 1 {
            assert(i < n - 1);
            assert(e2[i].0 == k);
        } else {
            assert(e2[j].0 == k);
        }
    }
    assert forall|k: u64| table_map(e2).contains_key(k) implies table_map(e2)[k] == table_map(
        entries,
    ).remove(t)[k] by {
        let j = choose|j: int| 0 <= j < e2.len() && (#[trigger] e2[j]).0 == k;
        lemma_table_at(e2, j);
        if j == i {
            lemma_table_at(entries, n - 1);
            assert(e2[j] == entries[n - 1]);
        } else {
            lemma_table_at(entries, j);
            assert(e2[j] == entries[j]);
        }
    }
    assert(table_map(e2) =~= table_map(entries).remove(t));
}

proof fn lemma_table_push(entries: Seq<(u64, WebSocketClient)>, pair: (u64, WebSocketClient))
    requires
        unique_tokens(entries),
        !table_map(entries).contains_key(pair.0),
    ensures
        table_map(entries.push(pair)) == table_map(entries).insert(pair.0, pair.1@),
        unique_tokens(entries.push(pair)),
{
    let e2 = entries.push(pair);
    let n = entries.len() as int;
    assert forall|a: int, b: int| 0 <= a < b < e2.len() implies (#[trigger] e2[a]).0 != (
    #[trigger] e2[b]).0 by {
        if b == n {
            assert(e2[a] == entries[a]);
            if entries[a].0 == pair.0 {
                assert(table_map(entries).contains_key(pair.0));
            }
        } else {
            assert(e2[a] == entries[a]);
            assert(e2[b] == entries[b]);
        }
    }
    assert forall|k: u64| table_map(e2).contains_key(k) implies table_map(entries).insert(
        pair.0,
        pair.1@,
    ).contains_key(k) by {
        let j = choose|j: int| 0 <= j < e2.len() && (#[trigger] e2[j]).0 == k;
        if j < n {
            assert(entries[j].0 == k);
        }
    }
    assert forall|k: u64| table_map(entries).insert(pair.0, pair.1@).contains_key(k)
        implies table_map(e2).contains_key(k) by {
        if k == pair.0 {
            assert(e2[n].0 == k);
        } else {
            let j = choose|j: int| 0 <= j < entries.len() && (#[trigger] entries[j]).0 == k;
            assert(e2[j].0 == k);
        }
    }
    assert forall|k: u64| table_map(e2).contains_key(k) implies table_map(e2)[k] == table_map(
        entries,
    ).insert(pair.0, pair.1@)[k] by {
        let j = choose|j: int| 0 <= j < e2.len() && (#[trigger] e2[j]).0 == k;
        lemma_table_at(e2, j);
        if k == pair.0 {
            lemma_table_at(e2, n);
            assert(e2[n].0 == pair.0);
        } else {
            assert(j < n);
            assert(e2[j] == entries[j]);
            lemma_table_at(entries, j);
        }
    }
    assert(table_map(e2) =~= table_map(entries).insert(pair.0, pair.1@));
}

/// What the accept branch of the loop outside observed.
#[derive(Clone, Copy, PartialEq, Eq, Debug)]
pub enum AcceptOutcome {
    /// A connection was accepted.
    Accepted,
    /// The listener was readable but no connection was pending: benign.
    NonePending,
    /// The accept itself failed: logged outside, the server goes on.
    Failed,
}

/// What the dispatcher asks the loop outside to do after a chunk was read.
#[derive(Clone, Copy, PartialEq, Eq, Debug)]
pub enum ReadDirective {
    /// Keep reading this socket.
    Continue,
    /// Stop reading and re-arm the connection's current interest set.
    Stop,
    /// The connection was dropped from the table; close its socket.
    Dropped,
    /// The token is not in the table; ignore the event.
    Unknown,
}

/// What the dispatcher asks the loop outside to do on a writability signal.
#[derive(Debug)]
pub enum WriteDirective {
    /// Write these bytes, then re-arm the connection's interest set.
    Respond(Vec<u8>),
    /// The connection was dropped from the table; close its socket.
    Dropped,
    /// No response is owed; re-arm the connection's interest set.
    Nothing,
    /// The token is not in the table; ignore the event.
    Unknown,
}

/// The server's verified core: the connection table and the token counter.
pub struct WebSocketServer {
    /// Live connections by token.
    pub clients: Vec<(u64, WebSocketClient)>,
    /// The last token handed out; never reused while the table lives.
    pub counter: u64,
}

impl WebSocketServer {
    /// The table this server denotes.
    pub open spec fn table(&self) -> Map<u64, ClientView> {
        table_map(self.clients@)
    }

    /// The server's invariant: tokens are unique, above the listener's token
    /// and no newer than the counter; every connection's interest set is
    /// consistent with its state and has handed out at most one response.
    pub open spec fn wf(&self) -> bool {
        &&& self.counter >= SERVER_TOKEN
        &&& unique_tokens(self.clients@)
        &&& forall|i: int|
            0 <= i < self.clients@.len() ==> SERVER_TOKEN < (#[trigger] self.clients@[i]).0
                <= self.counter
        &&& forall|i: int|
            0 <= i < self.clients@.len() ==> interest_consistent(
                (#[trigger] self.clients@[i]).1@,
            ) && response_inv(self.clients@[i].1@)
    }

    /// A server with no connections yet.
    pub fn new() -> (s: WebSocketServer)
        ensures
            s.wf(),
            s.table() == Map::<u64, ClientView>::empty(),
            s.counter == SERVER_TOKEN,
    {
        let s = WebSocketServer { clients: Vec::new(), counter: SERVER_TOKEN };
        proof {
            assert(s.table() =~= Map::<u64, ClientView>::empty());
        }
        s
    }

    fn find_client(&self, token: u64) -> (r: Option<usize>)
        requires
            self.wf(),
        ensures
            match r {
                Some(i) => i < self.clients@.len() && self.clients@[i as int].0 == token
                    && self.table().contains_key(token) && self.table()[token]
                    == self.clients@[i as int].1@,
                None => !self.table().contains_key(token),
            },
    {
        let mut i: usize = 0;
        while i < self.clients.len()
            invariant
                self.wf(),
                i <= self.clients@.len(),
                forall|j: int| 0 <= j < i ==> (#[trigger] self.clients@[j]).0 != token,
            decreases self.clients@.len() - i,
        {
            if self.clients[i].0 == token {
                proof {
                    lemma_table_at(self.clients@, i as int);
                }
                return Some(i);
            }
            i = i + 1;
        }
        proof {
            if self.table().contains_key(token) {
                let j = choose|j: int|
                    0 <= j < self.clients@.len() && (#[trigger] self.clients@[j]).0 == token;
                assert(false);
            }
        }
        None
    }

    /// Books the outcome of one accept attempt. A fresh connection enters the
    /// table under a fresh token only on success; a failed accept and a
    /// spurious wake of the listener leave the server exactly as it was.
    pub fn on_accept(&mut self, outcome: AcceptOutcome) -> (t: Option<u64>)
        requires
            old(self).wf(),
            old(self).counter < u64::MAX,
        ensures
            final(self).wf(),
            outcome is Accepted ==> ({
                &&& final(self).counter == old(self).counter + 1
                &&& t == Some(final(self).counter)
                &&& !old(self).table().contains_key(final(self).counter)
                &&& final(self).table() == old(self).table().insert(
                    final(self).counter,
                    initial_client(),
                )
            }),
            !(outcome is Accepted) ==> t is None && *final(self) == *old(self),
    {
        match outcome {
            AcceptOutcome::Accepted => {
                self.counter = self.counter + 1;
                let token = self.counter;
                proof {
                    if self.table().contains_key(token) {
                        let j = choose|j: int|
                            0 <= j < self.clients@.len() && (#[trigger] self.clients@[j]).0
                                == token;
                        assert(false);
                    }
                }
                let fresh = WebSocketClient::new();
                let ghost pre = self.clients@;
                self.clients.push((token, fresh));
                proof {
                    lemma_table_push(pre, (token, fresh));
                    crate::client::lemma_initial_interest_consistent();
                }
                Some(token)
            },
            AcceptOutcome::NonePending => None,
            AcceptOutcome::Failed => None,
        }
    }

    /// Routes one chunk read from a socket to the connection the token names.
    /// A malformed or non-upgrade request drops the connection from the
    /// table; an unknown token is a no-op.
    pub fn ready_read(&mut self, token: u64, chunk: &Vec<u8>) -> (d: ReadDirective)
        requires
            old(self).wf(),
        ensures
            final(self).wf(),
            final(self).counter == old(self).counter,
            !old(self).table().contains_key(token) ==> (d is Unknown
                && final(self).table() == old(self).table()),
            old(self).table().contains_key(token) ==> ({
                let c = old(self).table()[token];
                let c2 = step_data(c, chunk@);
                let o = read_outcome_spec(c, chunk@);
                &&& (o is ParseError || o is NotUpgrade) ==> (d is Dropped
                    && final(self).table() == old(self).table().remove(token))
                &&& o is Continue ==> (d is Continue
                    && final(self).table() == old(self).table().insert(token, c2))
                &&& (o is Upgraded || o is Ignored) ==> (d is Stop
                    && final(self).table() == old(self).table().insert(token, c2))
            }),
    {
        let idx = match self.find_client(token) {
            None => {
                return ReadDirective::Unknown;
            },
            Some(i) => i,
        };
        let ghost pre = self.clients@;
        let mut pair = self.clients.swap_remove(idx);
        proof {
            lemma_table_swap_remove(pre, idx as int);
        }
        let o = pair.1.read(chunk);
        let dropped = match o {
            ReadOutcome::ParseError | ReadOutcome::NotUpgrade => true,
            _ => false,
        };
        if dropped {
            proof {
                self.lemma_wf_after_removal(pre, idx as int, old(self).counter);
            }
            ReadDirective::Dropped
        } else {
            proof {
                lemma_table_push(self.clients@, (token, pair.1));
                crate::client::lemma_step_interest_consistent(
                    pre[idx as int].1@,
                    ClientEvent::Data(chunk@),
                );
                crate::client::lemma_step_response_inv(
                    pre[idx as int].1@,
                    ClientEvent::Data(chunk@),
                );
            }
            let ghost mid = self.clients@;
            self.clients.push(pair);
            proof {
                self.lemma_wf_after_reinsert(pre, mid, idx as int, token, old(self).counter);
                assert(old(self).table().remove(token).insert(token, pair.1@) =~= old(
                    self,
                ).table().insert(token, pair.1@));
            }
            match o {
                ReadOutcome::Continue => ReadDirective::Continue,
                _ => ReadDirective::Stop,
            }
        }
    }

    proof fn lemma_wf_after_removal(
        &self,
        pre: Seq<(u64, WebSocketClient)>,
        idx: int,
        counter: u64,
    )
        requires
            0 <= idx < pre.len(),
            unique_tokens(pre),
            counter >= SERVER_TOKEN,
            forall|i: int| 0 <= i < pre.len() ==> SERVER_TOKEN < (#[trigger] pre[i]).0 <= counter,
            forall|i: int|
                0 <= i < pre.len() ==> interest_consistent((#[trigger] pre[i]).1@) && response_inv(
                    pre[i].1@,
                ),
            self.clients@ == pre.update(idx, pre.last()).drop_last(),
            self.counter == counter,
        ensures
            self.wf(),
    {
        lemma_table_swap_remove(pre, idx);
        assert forall|i: int| 0 <= i < self.clients@.len() implies SERVER_TOKEN < (
        #[trigger] self.clients@[i]).0 <= counter && interest_consistent(self.clients@[i].1@)
            && response_inv(self.clients@[i].1@) by {
            let l = choose|l: int|
                0 <= l < pre.len() && #[trigger] pre.update(idx, pre.last()).drop_last()[i]
                    == pre[l];
            assert(self.clients@[i] == pre[l]);
        }
    }

    proof fn lemma_wf_after_reinsert(
        &self,
        pre: Seq<(u64, WebSocketClient)>,
        mid: Seq<(u64, WebSocketClient)>,
        idx: int,
        token: u64,
        counter: u64,
    )
        requires
            0 <= idx < pre.len(),
            unique_tokens(pre),
            counter >= SERVER_TOKEN,
            forall|i: int| 0 <= i < pre.len() ==> SERVER_TOKEN < (#[trigger] pre[i]).0 <= counter,
            forall|i: int|
                0 <= i < pre.len() ==> interest_consistent((#[trigger] pre[i]).1@) && response_inv(
                    pre[i].1@,
                ),
            mid == pre.update(idx, pre.last()).drop_last(),
            !table_map(mid).contains_key(token),
            pre[idx].0 == token,
            self.clients@ == mid.push((token, self.clients@.last().1)),
            self.clients@.len() == mid.len() + 1,
            self.clients@.last().0 == token,
            interest_consistent(self.clients@.last().1@),
            response_inv(self.clients@.last().1@),
            self.counter == counter,
        ensures
            self.wf(),
    {
        lemma_table_swap_remove(pre, idx);
        lemma_table_push(mid, self.clients@.last());
        assert forall|i: int| 0 <= i < self.clients@.len() implies SERVER_TOKEN < (
        #[trigger] self.clients@[i]).0 <= counter && interest_consistent(self.clients@[i].1@)
            && response_inv(self.clients@[i].1@) by {
            if i < mid.len() {
                assert(self.clients@[i] == mid[i]);
                let l = choose|l: int|
                    0 <= l < pre.len() && #[trigger] pre.update(idx, pre.last()).drop_last()[i]
                        == pre[l];
                assert(mid[i] == pre[l]);
            } else {
                assert(self.clients@[i] == self.clients@.last());
            }
        }
    }

    /// Routes a writability signal. The 101 response is handed out exactly
    /// when the handshake is pending and the key header arrived; a pending
    /// handshake without the key drops the connection; anything else is a
    /// no-op, and so is an unknown token.
    pub fn ready_write(&mut self, token: u64) -> (d: WriteDirective)
        requires
            old(self).wf(),
        ensures
            final(self).wf(),
            final(self).counter == old(self).counter,
            !old(self).table().contains_key(token) ==> (d is Unknown
                && final(self).table() == old(self).table()),
            old(self).table().contains_key(token) ==> ({
                let c = old(self).table()[token];
                let responding = c.state == ClientState::HandshakeResponse
                    && c.parser.headers.contains_key(sec_key_name());
                let keyless = c.state == ClientState::HandshakeResponse
                    && !c.parser.headers.contains_key(sec_key_name());
                &&& responding ==> (d matches WriteDirective::Respond(r)
                    && r@ == handshake_response(c.parser.headers[sec_key_name()])
                    && final(self).table() == old(self).table().insert(token, step_writable(c)))
                &&& keyless ==> (d is Dropped
                    && final(self).table() == old(self).table().remove(token))
                &&& c.state != ClientState::HandshakeResponse ==> (d is Nothing
                    && final(self).table() == old(self).table())
            }),
    {
        let idx = match self.find_client(token) {
            None => {
                return WriteDirective::Unknown;
            },
            Some(i) => i,
        };
        let ghost pre = self.clients@;
        let mut pair = self.clients.swap_remove(idx);
        proof {
            lemma_table_swap_remove(pre, idx as int);
        }
        let o = pair.1.write();
        match o {
            WriteOutcome::MissingKey => {
                proof {
                    self.lemma_wf_after_removal(pre, idx as int, old(self).counter);
                }
                WriteDirective::Dropped
            },
            WriteOutcome::Response(bytes) => {
                proof {
                    crate::client::lemma_step_interest_consistent(
                        pre[idx as int].1@,
                        ClientEvent::Writable,
                    );
                    crate::client::lemma_step_response_inv(
                        pre[idx as int].1@,
                        ClientEvent::Writable,
                    );
                }
                let ghost mid = self.clients@;
                self.clients.push(pair);
                proof {
                    self.lemma_wf_after_reinsert(pre, mid, idx as int, token, old(self).counter);
                    lemma_table_push(mid, (token, self.clients@.last().1));
                    assert(old(self).table().remove(token).insert(token, pair.1@) =~= old(
                        self,
                    ).table().insert(token, pair.1@));
                }
                WriteDirective::Respond(bytes)
            },
            WriteOutcome::NotPending => {
                proof {
                    crate::client::lemma_step_interest_consistent(
                        pre[idx as int].1@,
                        ClientEvent::Writable,
                    );
                    crate::client::lemma_step_response_inv(
                        pre[idx as int].1@,
                        ClientEvent::Writable,
                    );
                }
                let ghost mid = self.clients@;
                self.clients.push(pair);
                proof {
                    self.lemma_wf_after_reinsert(pre, mid, idx as int, token, old(self).counter);
                    lemma_table_push(mid, (token, self.clients@.last().1));
                    assert(old(self).table().remove(token).insert(token, pair.1@) =~= old(
                        self,
                    ).table());
                }
                WriteDirective::Nothing
            },
        }
    }

    /// Drops a connection after a fatal socket error reported from outside.
    /// An unknown token is a no-op.
    pub fn drop_connection(&mut self, token: u64) -> (r: bool)
        requires
            old(self).wf(),
        ensures
            final(self).wf(),
            final(self).counter == old(self).counter,
            r == old(self).table().contains_key(token),
            final(self).table() == old(self).table().remove(token),
    {
        let idx = match self.find_client(token) {
            None => {
                proof {
                    assert(self.table().remove(token) =~= self.table());
                }
                return false;
            },
            Some(i) => i,
        };
        let ghost pre = self.clients@;
        let _pair = self.clients.swap_remove(idx);
        proof {
            lemma_table_swap_remove(pre, idx as int);
            self.lemma_wf_after_removal(pre, idx as int, old(self).counter);
        }
        true
    }

    /// At every point at which the server is well formed, every registered
    /// connection's interest set is non-empty and matches its state exactly:
    /// writable alone while the response is owed, readable alone otherwise.
    pub proof fn lemma_registered_interest_consistent(&self)
        requires
            self.wf(),
        ensures
            forall|t: u64| #[trigger]
                self.table().contains_key(t) ==> interest_consistent(self.table()[t]),
    {
        assert forall|t: u64| #[trigger] self.table().contains_key(t) implies interest_consistent(
            self.table()[t],
        ) by {
            let i = choose|i: int|
                0 <= i < self.clients@.len() && (#[trigger] self.clients@[i]).0 == t;
            lemma_table_at(self.clients@, i);
        }
    }

    /// At every point at which the server is well formed, every registered
    /// connection has handed out at most one handshake response, and none
    /// before reaching the connected state.
    pub proof fn lemma_registered_response_bound(&self)
        requires
            self.wf(),
        ensures
            forall|t: u64| #[trigger]
                self.table().contains_key(t) ==> response_inv(self.table()[t]),
    {
        assert forall|t: u64| #[trigger] self.table().contains_key(t) implies response_inv(
            self.table()[t],
        ) by {
            let i = choose|i: int|
                0 <= i < self.clients@.len() && (#[trigger] self.clients@[i]).0 == t;
            lemma_table_at(self.clients@, i);
        }
    }

    /// The interest set to re-arm for a token, if it is still in the table.
    pub fn interest_of(&self, token: u64) -> (r: Option<InterestSet>)
        requires
            self.wf(),
        ensures
            match r {
                Some(it) => self.table().contains_key(token) && it
                    == self.table()[token].interest,
                None => !self.table().contains_key(token),
            },
    {
        match self.find_client(token) {
            None => None,
            Some(i) => Some(self.clients[i].1.interest),
        }
    }
}

} // verus!

//! Incremental parser for the HTTP upgrade request.
//!
//! The parser consumes socket bytes chunk by chunk. It skips the request
//! line, collects `Name: value` header lines into a [`HeaderMap`] (the value
//! stripped of surrounding spaces and tabs), marks the request as an upgrade
//! request when a header named `Upgrade` (compared case-insensitively)
//! arrives, and completes on the empty line that ends the header block. A
//! header line without a colon is malformed and fails the parse.

use vstd::prelude::*;
use vstd::string::StringSliceAdditionalSpecFns;
use vstd::string::StrSliceExecFns;
use crate::bytes::{to_lower_seq, lower_eq, subvec};
use crate::headers::HeaderMap;
use crate::headers::map_of;

verus! {

/// Carriage return.
pub const CR: u8 = 13;

/// Line feed: terminates every line the parser consumes.
pub const LF: u8 = 10;

/// The colon that separates a header name from its value.
pub const COLON: u8 = 58;

/// Where the parser stands in the request.
#[derive(Clone, Copy, PartialEq, Eq, Structural)]
pub enum Phase {
    /// Consuming the request line, whose content is not interpreted.
    RequestLine,
    /// Consuming header lines.
    InHeaders,
    /// The empty line ended the header block.
    Complete,
    /// A malformed header line was seen; the parse is abandoned.
    Failed,
}

/// The abstract state of the parser.
#[verifier::ext_equal]
pub struct ParserView {
    /// Current phase.
    pub phase: Phase,
    /// Bytes of the current, still unterminated line.
    pub line: Seq<u8>,
    /// Headers collected so far.
    pub headers: Map<Seq<u8>, Seq<u8>>,
    /// Whether an `Upgrade` header has arrived.
    pub upgrade: bool,
}

/// A space or a horizontal tab.
pub open spec fn is_ows(b: u8) -> bool {
    b == 32 || b == 9
}

/// Drops leading spaces and tabs.
pub open spec fn trim_front(s: Seq<u8>) -> Seq<u8>
    decreases s.len(),
{
    if s.len() > 0 && is_ows(s[0]) {
        trim_front(s.drop_first())
    } else {
        s
    }
}

/// Drops trailing spaces and tabs.
pub open spec fn trim_back(s: Seq<u8>) -> Seq<u8>
    decreases s.len(),
{
    if s.len() > 0 && is_ows(s.last()) {
        trim_back(s.drop_last())
    } else {
        s
    }
}

/// Drops surrounding spaces and tabs.
pub open spec fn trim_ows(s: Seq<u8>) -> Seq<u8> {
    trim_back(trim_front(s))
}

/// Index of the first colon of `s`, or -1 when there is none.
pub open spec fn first_colon(s: Seq<u8>) -> int
    decreases s.len(),
{
    if s.len() == 0 {
        -1
    } else if s[0] == COLON {
        0
    } else if first_colon(s.drop_first()) < 0 {
        -1
    } else {
        first_colon(s.drop_first()) + 1
    }
}

/// Whether a header name, case-folded, is `upgrade`.
pub open spec fn is_upgrade_name(name: Seq<u8>) -> bool {
    to_lower_seq(name) == "upgrade".spec_bytes()
}

/// A line without its trailing carriage return, if it carries one.
pub open spec fn strip_cr(line: Seq<u8>) -> Seq<u8> {
    if line.len() > 0 && line.last() == CR {
        line.drop_last()
    } else {
        line
    }
}

/// What a terminated line does to the parser state.
pub open spec fn finish_line(p: ParserView, line: Seq<u8>) -> ParserView {
    if p.phase == Phase::RequestLine {
        ParserView { phase: Phase::InHeaders, line: Seq::empty(), ..p }
    } else if line.len() == 0 {
        ParserView { phase: Phase::Complete, line: Seq::empty(), ..p }
    } else if first_colon(line) < 0 {
        ParserView { phase: Phase::Failed, line: Seq::empty(), ..p }
    } else {
        let ci = first_colon(line);
        let name = line.subrange(0, ci);
        let value = trim_ows(line.subrange(ci + 1, line.len() as int));
        ParserView {
            line: Seq::empty(),
            headers: p.headers.insert(name, value),
            upgrade: p.upgrade || is_upgrade_name(name),
            ..p
        }
    }
}

/// What one input byte does to the parser state.
pub open spec fn step_byte(p: ParserView, b: u8) -> ParserView {
    if p.phase == Phase::Complete || p.phase == Phase::Failed {
        p
    } else if b == LF {
        finish_line(p, strip_cr(p.line))
    } else {
        ParserView { line: p.line.push(b), ..p }
    }
}

/// What a whole chunk of input does to the parser state.
pub open spec fn feed(p: ParserView, data: Seq<u8>) -> ParserView
    decreases data.len(),
{
    if data.len() == 0 {
        p
    } else {
        feed(step_byte(p, data[0]), data.drop_first())
    }
}

/// The state of a freshly created parser.
pub open spec fn init_parser() -> ParserView {
    ParserView {
        phase: Phase::RequestLine,
        line: Seq::empty(),
        headers: Map::empty(),
        upgrade: false,
    }
}

/// Feeding distributes over splitting the input anywhere.
pub proof fn lemma_feed_append(p: ParserView, a: Seq<u8>, b: Seq<u8>)
    ensures
        feed(p, a + b) == feed(feed(p, a), b),
    decreases a.len(),
{
    if a.len() == 0 {
        assert(a + b =~= b);
    } else {
        assert((a + b).drop_first() =~= a.drop_first() + b);
        lemma_feed_append(step_byte(p, a[0]), a.drop_first(), b);
    }
}

proof fn lemma_feed_snoc(p: ParserView, s: Seq<u8>, b: u8)
    ensures
        feed(p, s.push(b)) == step_byte(feed(p, s), b),
{
    lemma_feed_append(p, s, seq![b]);
    assert(s + seq![b] =~= s.push(b));
    let q = feed(p, s);
    assert(seq![b].drop_first() =~= Seq::<u8>::empty());
    assert(feed(step_byte(q, b), Seq::<u8>::empty()) == step_byte(q, b));
    assert(feed(q, seq![b]) == step_byte(q, b));
}

proof fn lemma_first_colon_at(s: Seq<u8>, i: int)
    requires
        0 <= i < s.len(),
        s[i] == COLON,
        forall|j: int| 0 <= j < i ==> s[j] != COLON,
    ensures
        first_colon(s) == i,
    decreases i,
{
    if i > 0 {
        lemma_first_colon_at(s.drop_first(), i - 1);
    }
}

proof fn lemma_first_colon_none(s: Seq<u8>)
    requires
        forall|j: int| 0 <= j < s.len() ==> s[j] != COLON,
    ensures
        first_colon(s) == -1,
    decreases s.len(),
{
    if s.len() > 0 {
        lemma_first_colon_none(s.drop_first());
    }
}

proof fn lemma_trim_front(s: Seq<u8>, a: int)
    requires
        0 <= a <= s.len(),
        forall|j: int| 0 <= j < a ==> is_ows(s[j]),
        a < s.len() ==> !is_ows(s[a]),
    ensures
        trim_front(s) == s.subrange(a, s.len() as int),
    decreases a,
{
    if a == 0 {
        assert(s.subrange(0, s.len() as int) =~= s);
    } else {
        lemma_trim_front(s.drop_first(), a - 1);
        assert(s.drop_first().subrange(a - 1, s.drop_first().len() as int) =~= s.subrange(
            a,
            s.len() as int,
        ));
    }
}

proof fn lemma_trim_back(s: Seq<u8>, b: int)
    requires
        0 <= b <= s.len(),
        forall|j: int| b <= j < s.len() ==> is_ows(s[j]),
        b > 0 ==> !is_ows(s[b - 1]),
    ensures
        trim_back(s) == s.subrange(0, b),
    decreases s.len() - b,
{
    if b == s.len() {
        if s.len() > 0 {
            assert(!is_ows(s.last()));
        }
        assert(s.subrange(0, s.len() as int) =~= s);
    } else {
        assert(is_ows(s.last()));
        lemma_trim_back(s.drop_last(), b);
        assert(s.drop_last().subrange(0, b) =~= s.subrange(0, b));
    }
}

/// Strips surrounding spaces and tabs from a byte vector.
fn trim_ows_exec(v: &Vec<u8>) -> (r: Vec<u8>)
    ensures
        r@ == trim_ows(v@),
{
    let mut a: usize = 0;
    while a < v.len() && (v[a] == 32 || v[a] == 9)
        invariant
            a <= v.len(),
            forall|j: int| 0 <= j < a ==> is_ows(v@[j]),
        decreases v.len() - a,
    {
        a = a + 1;
    }
    proof {
        lemma_trim_front(v@, a as int);
    }
    let mut b: usize = v.len();
    while b > a && (v[b - 1] == 32 || v[b - 1] == 9)
        invariant
            a <= b <= v.len(),
            forall|j: int| b <= j < v.len() ==> is_ows(v@[j]),
        decreases b,
    {
        b = b - 1;
    }
    proof {
        let s = v@.subrange(a as int, v@.len() as int);
        assert forall|j: int| b - a <= j < s.len() implies is_ows(s[j]) by {
            assert(s[j] == v@[j + a]);
        }
        if b > a {
            assert(!is_ows(s[b - a - 1]));
        }
        lemma_trim_back(s, b - a);
        assert(s.subrange(0, b - a) =~= v@.subrange(a as int, b as int));
    }
    subvec(v, a, b)
}

/// Finds the first colon of a byte vector.
fn find_colon(v: &Vec<u8>) -> (r: Option<usize>)
    ensures
        match r {
            Some(i) => first_colon(v@) == i && i < v@.len(),
            None => first_colon(v@) == -1,
        },
{
    let mut i: usize = 0;
    while i < v.len()
        invariant
            i <= v.len(),
            forall|j: int| 0 <= j < i ==> v@[j] != COLON,
        decreases v.len() - i,
    {
        if v[i] == 58 {
            proof {
                lemma_first_colon_at(v@, i as int);
            }
            return Some(i);
        }
        i = i + 1;
    }
    proof {
        lemma_first_colon_none(v@);
    }
    None
}

/// The incremental parser with its collected headers.
pub struct HttpParser {
    /// Where the parser stands.
    pub phase: Phase,
    /// The current, still unterminated line.
    pub line: Vec<u8>,
    /// Headers collected so far.
    pub headers: HeaderMap,
    /// Whether an `Upgrade` header has arrived.
    pub upgrade: bool,
}

impl View for HttpParser {
    type V = ParserView;

    open spec fn view(&self) -> ParserView {
        ParserView {
            phase: self.phase,
            line: self.line@,
            headers: self.headers@,
            upgrade: self.upgrade,
        }
    }
}

impl HttpParser {
    /// A parser at the start of a request.
    pub fn new() -> (r: HttpParser)
        ensures
            r@ == init_parser(),
    {
        let r = HttpParser {
            phase: Phase::RequestLine,
            line: Vec::new(),
            headers: HeaderMap::new(),
            upgrade: false,
        };
        proof {
            assert(r@ =~= init_parser());
        }
        r
    }

    /// Consumes one input byte.
    fn step(&mut self, b: u8)
        ensures
            final(self)@ == step_byte(old(self)@, b),
    {
        if self.phase == Phase::Complete || self.phase == Phase::Failed {
            return ;
        }
        if b == LF {
            let mut line: Vec<u8> = Vec::new();
            core::mem::swap(&mut line, &mut self.line);
            if line.len() > 0 && line[line.len() - 1] == CR {
                line.pop();
                proof {
                    assert(line@ =~= strip_cr(old(self)@.line));
                }
            }
            proof {
                assert(line@ == strip_cr(old(self)@.line));
            }
            if self.phase == Phase::RequestLine {
                self.phase = Phase::InHeaders;
                proof {
                    assert(self@ =~= step_byte(old(self)@, b));
                }
            } else if line.len() == 0 {
                self.phase = Phase::Complete;
                proof {
                    assert(self@ =~= step_byte(old(self)@, b));
                }
            } else {
                match find_colon(&line) {
                    Some(ci) => {
                        let name = subvec(&line, 0, ci);
                        let raw = subvec(&line, ci + 1, line.len());
                        let value = trim_ows_exec(&raw);
                        let upgrade_name: Vec<u8> = "upgrade".as_bytes_vec();
                        if lower_eq(&name, &upgrade_name) {
                            self.upgrade = true;
                        }
                        self.headers.insert(name, value);
                        proof {
                            assert(self@ =~= step_byte(old(self)@, b));
                        }
                    },
                    None => {
                        self.phase = Phase::Failed;
                        proof {
                            assert(self@ =~= step_byte(old(self)@, b));
                        }
                    },
                }
            }
        } else {
            self.line.push(b);
            proof {
                assert(self@ =~= step_byte(old(self)@, b));
            }
        }
    }

    /// Consumes a chunk of socket bytes.
    pub fn parse(&mut self, data: &Vec<u8>)
        ensures
            final(self)@ == feed(old(self)@, data@),
    {
        let mut i: usize = 0;
        while i < data.len()
            invariant
                i <= data.len(),
                self@ == feed(old(self)@, data@.take(i as int)),
            decreases data.len() - i,
        {
            let ghost pre = self@;
            self.step(data[i]);
            proof {
                lemma_feed_snoc(old(self)@, data@.take(i as int), data@[i as int]);
                assert(data@.take(i as int).push(data@[i as int]) =~= data@.take(i + 1));
            }
            i = i + 1;
        }
        proof {
            assert(data@.take(data@.len() as int) =~= data@);
        }
    }

    /// Whether the request has completed as an upgrade request.
    pub fn is_upgrade(&self) -> (r: bool)
        ensures
            r == (self@.phase == Phase::Complete && self@.upgrade),
    {
        self.phase == Phase::Complete && self.upgrade
    }

    /// Whether the request completed without asking for an upgrade.
    pub fn is_complete(&self) -> (r: bool)
        ensures
            r == (self@.phase == Phase::Complete),
    {
        self.phase == Phase::Complete
    }

    /// Whether the input was malformed.
    pub fn has_failed(&self) -> (r: bool)
        ensures
            r == (self@.phase == Phase::Failed),
    {
        self.phase == Phase::Failed
    }
}

} // verus!

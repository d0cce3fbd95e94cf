//! The per-connection session: a state machine that the connection's driver
//! feeds with bytes and asks what to do next, and the same session run over a
//! finite input.
use vstd::prelude::*;
use crate::body::{BodyReader, READ_CHUNK};
use crate::head::{head_spec, parse_request_head, HeadError, RequestHead};
use crate::scanner::{
    ends_with_terminator, header_block_end, lacks_terminator, lemma_block_found, lemma_block_missing,
    lemma_first_is_found, lemma_push_keeps_lacking, lemma_terminator_from, terminator_at, HeaderScanner,
};

verus! {

/// How a session ended.
#[derive(Debug, Clone, Copy, PartialEq, Eq, Structural)]
pub enum SessionEnd {
    /// The input ended while a new header block was awaited.
    Clean,
    /// The request head was refused.
    BadHead(HeadError),
    /// The peer closed the connection before the declared body was complete.
    PeerClosedMidBody,
}

/// What the connection's driver does next.
#[derive(Debug, Clone, Copy, PartialEq, Eq, Structural)]
pub enum Action {
    /// Read one byte and hand it to `on_header_byte`.
    ReadHeaderByte,
    /// Read at most this many bytes and hand them to `on_body_bytes`.
    ReadBody(usize),
    /// Write the fixed response and flush it, then read header bytes again.
    Respond,
    /// Close the connection.
    Close(SessionEnd),
}

#[derive(Debug, Clone, Copy, PartialEq, Eq, Structural)]
pub enum Phase {
    AwaitingHeaders,
    ReadingBody,
    Closed,
}

/// The response sent for every request:
/// `HTTP/1.1 200 OK`, `Content-Type: text/plain`, `Content-Length: 12`, a
/// blank line and `Hello world!`.
pub open spec fn response_bytes() -> Seq<u8> {
    seq![
        72u8, 84, 84, 80, 47, 49, 46, 49, 32, 50, 48, 48, 32, 79, 75, 13, 10,
        67, 111, 110, 116, 101, 110, 116, 45, 84, 121, 112, 101, 58, 32, 116, 101, 120, 116, 47, 112, 108, 97, 105, 110, 13, 10,
        67, 111, 110, 116, 101, 110, 116, 45, 76, 101, 110, 103, 116, 104, 58, 32, 49, 50, 13, 10,
        13, 10,
        72, 101, 108, 108, 111, 32, 119, 111, 114, 108, 100, 33
    ]
}

/// The fixed response bytes.
pub fn fixed_response() -> (r: Vec<u8>)
    ensures
        r@ == response_bytes(),
{
    let r: Vec<u8> = vec![
        72u8, 84, 84, 80, 47, 49, 46, 49, 32, 50, 48, 48, 32, 79, 75, 13, 10,
        67, 111, 110, 116, 101, 110, 116, 45, 84, 121, 112, 101, 58, 32, 116, 101, 120, 116, 47, 112, 108, 97, 105, 110, 13, 10,
        67, 111, 110, 116, 101, 110, 116, 45, 76, 101, 110, 103, 116, 104, 58, 32, 49, 50, 13, 10,
        13, 10,
        72, 101, 108, 108, 111, 32, 119, 111, 114, 108, 100, 33
    ];
    assert(r@ =~= response_bytes());
    r
}

/// `k` copies of `r`, one after the other.
pub open spec fn repeat(r: Seq<u8>, k: nat) -> Seq<u8>
    decreases k,
{
    if k == 0 {
        Seq::empty()
    } else {
        r + repeat(r, (k - 1) as nat)
    }
}

/// The body length that a parsed head asks for: none means no body.
pub open spec fn body_len(h: RequestHead) -> nat {
    match h.declared_body_length {
        Some(l) => l as nat,
        None => 0,
    }
}

/// A session over the finite input `s`: how many requests are answered, and
/// how the session ends. Each round takes a header block, parses it, takes its
/// body, and answers; the rest of the input goes to the next round.
pub open spec fn session_spec(s: Seq<u8>) -> (nat, SessionEnd)
    decreases s.len(),
    via session_spec_decreases
{
    match header_block_end(s) {
        None => (0, SessionEnd::Clean),
        Some(n) => match head_spec(s.take(n as int)) {
            Err(e) => (0, SessionEnd::BadHead(e)),
            Ok(h) => if s.len() < n + body_len(h) {
                (0, SessionEnd::PeerClosedMidBody)
            } else {
                let rest = session_spec(s.skip((n + body_len(h)) as int));
                (rest.0 + 1, rest.1)
            },
        },
    }
}

#[via_fn]
proof fn session_spec_decreases(s: Seq<u8>) {
    lemma_terminator_from(s, 0);
}

/// `r` is one whole request: a header block that parses, followed by exactly
/// the body that it declares.
pub open spec fn is_complete_request(r: Seq<u8>) -> bool {
    match header_block_end(r) {
        None => false,
        Some(n) => match head_spec(r.take(n as int)) {
            Err(_) => false,
            Ok(h) => r.len() == n + body_len(h),
        },
    }
}

/// Bytes after the first terminator do not move it.
pub proof fn lemma_block_end_extends(a: Seq<u8>, b: Seq<u8>)
    requires
        header_block_end(a) is Some,
    ensures
        header_block_end(a + b) == header_block_end(a),
{
    let n = header_block_end(a)->0 as int;
    lemma_terminator_from(a, 0);
    let ab = a + b;
    assert(terminator_at(ab, n));
    assert forall|k: int| 0 <= k < n implies !terminator_at(ab, k) by {
        if terminator_at(ab, k) {
            assert(terminator_at(a, k));
        }
    }
    lemma_first_is_found(ab, n);
}

/// A whole request at the front of the input is answered once, and the rest
/// of the session goes exactly as if that request had never been sent: no
/// state passes from one request to the next.
pub proof fn lemma_request_then_rest(a: Seq<u8>, b: Seq<u8>)
    requires
        is_complete_request(a),
    ensures
        session_spec(a + b) == (session_spec(b).0 + 1, session_spec(b).1),
{
    lemma_block_end_extends(a, b);
    let n = header_block_end(a)->0 as int;
    lemma_terminator_from(a, 0);
    assert((a + b).take(n) =~= a.take(n));
    let h = head_spec(a.take(n))->Ok_0;
    assert((a + b).skip(n + body_len(h)) =~= b);
}

/// `k` whole requests, one after the other, are answered `k` times, and the
/// session then ends cleanly.
pub proof fn lemma_repeated_requests(r: Seq<u8>, k: nat)
    requires
        is_complete_request(r),
    ensures
        session_spec(repeat(r, k)) == (k, SessionEnd::Clean),
    decreases k,
{
    if k == 0 {
        assert(header_block_end(Seq::<u8>::empty()) is None);
    } else {
        lemma_repeated_requests(r, (k - 1) as nat);
        lemma_request_then_rest(r, repeat(r, (k - 1) as nat));
    }
}

/// Two whole requests on one connection are answered twice, each in turn,
/// and the session then ends cleanly.
pub proof fn lemma_two_requests(a: Seq<u8>, b: Seq<u8>)
    requires
        is_complete_request(a),
        is_complete_request(b),
    ensures
        session_spec(a + b) == (2nat, SessionEnd::Clean),
{
    lemma_request_then_rest(a, b);
    lemma_request_then_rest(b, Seq::<u8>::empty());
    assert(b + Seq::<u8>::empty() =~= b);
    assert(header_block_end(Seq::<u8>::empty()) is None);
}

/// One more copy at the end makes the next repetition.
pub proof fn lemma_repeat_push(r: Seq<u8>, k: nat)
    ensures
        repeat(r, k) + r == repeat(r, k + 1),
    decreases k,
{
    if k == 0 {
        assert(repeat(r, 0) + r =~= r + repeat(r, 0));
    } else {
        lemma_repeat_push(r, (k - 1) as nat);
        assert(repeat(r, k) + r =~= r + (repeat(r, (k - 1) as nat) + r));
    }
}

/// What a session over a finite input produced.
pub struct Served {
    /// Every byte written back, in order.
    pub output: Vec<u8>,
    /// How many requests were answered.
    pub responses: usize,
    pub end: SessionEnd,
}

/// How far an action is from closing the session when no input is taken.
pub open spec fn action_rank(a: Action) -> nat {
    match a {
        Action::Close(_) => 0,
        Action::ReadHeaderByte => 1,
        Action::ReadBody(_) => 1,
        Action::Respond => 2,
    }
}

/// Where a session over `s` stands while `serve` runs it: `start` is where
/// the current request began, `hend` where its header block ended, `head` what
/// that block parsed to, and `count` how many requests were answered.
spec fn serve_inv(
    s: Seq<u8>,
    total: (nat, SessionEnd),
    session: Session,
    action: Action,
    pos: int,
    count: int,
    start: int,
    hend: int,
    head: RequestHead,
) -> bool {
    match action {
        Action::ReadHeaderByte => {
            &&& session.phase() == Phase::AwaitingHeaders
            &&& 0 <= start <= pos
            &&& count <= start
            &&& session.header() == s.subrange(start, pos)
            &&& total == ((count + session_spec(s.skip(start)).0) as nat, session_spec(s.skip(start)).1)
        },
        Action::ReadBody(n) => {
            &&& session.phase() == Phase::ReadingBody
            &&& session.owed() == n
            &&& n > 0
            &&& session.header() == Seq::<u8>::empty()
            &&& 0 <= start < hend <= pos
            &&& count <= start
            &&& header_block_end(s.skip(start)) == Some((hend - start) as nat)
            &&& head_spec(s.skip(start).take(hend - start)) == Ok::<RequestHead, HeadError>(head)
            &&& hend + body_len(head) == pos + n
            &&& total == ((count + session_spec(s.skip(start)).0) as nat, session_spec(s.skip(start)).1)
        },
        Action::Respond => {
            &&& session.phase() == Phase::AwaitingHeaders
            &&& session.header() == Seq::<u8>::empty()
            &&& start == pos
            &&& count < pos
            &&& total == ((count + 1 + session_spec(s.skip(start)).0) as nat, session_spec(
                s.skip(start),
            ).1)
        },
        Action::Close(e) => total == (count as nat, e),
    }
}

/// Runs a session over the finite input `input`, as one connection would see
/// it: the session's actions are carried out against the input, read by read,
/// until the session closes.
pub fn serve(input: &[u8]) -> (r: Served)
    ensures
        (r.responses as nat, r.end) == session_spec(input@),
        r.output@ == repeat(response_bytes(), r.responses as nat),
{
    let ghost s = input@;
    let ghost total = session_spec(s);
    let ghost mut start: int = 0;
    let ghost mut hend: int = 0;
    let ghost mut head = RequestHead {
        method: crate::head::Method::Get,
        version: crate::head::Version::Http11,
        declared_body_length: None,
    };
    let mut session = Session::new();
    let mut action = Action::ReadHeaderByte;
    let mut pos: usize = 0;
    let mut count: usize = 0;
    let mut output: Vec<u8> = Vec::new();
    assert(s.subrange(0, 0) =~= Seq::<u8>::empty());
    assert(s.skip(0) =~= s);
    loop
        invariant
            session.wf(),
            pos <= s.len(),
            s == input@,
            total == session_spec(s),
            output@ == repeat(response_bytes(), count as nat),
            serve_inv(s, total, session, action, pos as int, count as int, start, hend, head),
        decreases s.len() - pos, action_rank(action),
    {
        match action {
            Action::ReadHeaderByte => {
                let ghost t = s.skip(start);
                if pos == input.len() {
                    proof {
                        assert(t =~= s.subrange(start, pos as int));
                        lemma_block_missing(t);
                    }
                    action = session.on_end_of_input();
                } else {
                    let b = input[pos];
                    let ghost before = session.header();
                    action = session.on_header_byte(b);
                    proof {
                        let m = pos + 1 - start;
                        assert(before.push(b) =~= s.subrange(start, pos + 1));
                        assert(t.take(m) =~= s.subrange(start, pos + 1));
                        assert(t.take(m - 1) =~= s.subrange(start, pos as int));
                        if ends_with_terminator(before.push(b)) {
                            lemma_block_found(t, m);
                            assert(terminator_at(t, m));
                            match head_spec(t.take(m)) {
                                Err(_) => {},
                                Ok(h) => {
                                    if body_len(h) > 0 {
                                        hend = pos + 1;
                                        head = h;
                                    } else {
                                        assert(t.skip(m) =~= s.skip(pos + 1));
                                        start = pos + 1;
                                    }
                                },
                            }
                        }
                    }
                    pos = pos + 1;
                }
            },
            Action::ReadBody(n) => {
                let ghost t = s.skip(start);
                let available = input.len() - pos;
                let mut want = if n < READ_CHUNK {
                    n
                } else {
                    READ_CHUNK
                };
                if available < want {
                    want = available;
                }
                let chunk = vstd::slice::slice_subrange(input, pos, pos + want);
                action = session.on_body_bytes(chunk);
                proof {
                    let bl = body_len(head);
                    if want == 0 {
                        assert(t.len() < (hend - start) + bl);
                        assert(session_spec(t) == (0nat, SessionEnd::PeerClosedMidBody));
                    } else if want == n {
                        assert(t.len() >= (hend - start) + bl);
                        assert(t.skip(hend - start + bl) =~= s.skip(pos + n));
                        assert(session_spec(t) == ((session_spec(t.skip(hend - start + bl)).0 + 1) as nat, session_spec(
                            t.skip(hend - start + bl),
                        ).1));
                        start = pos + n;
                    }
                }
                pos = pos + want;
            },
            Action::Respond => {
                let mut response = fixed_response();
                output.append(&mut response);
                proof {
                    lemma_repeat_push(response_bytes(), count as nat);
                    assert(s.subrange(start, pos as int) =~= Seq::<u8>::empty());
                }
                count = count + 1;
                action = Action::ReadHeaderByte;
            },
            Action::Close(end) => {
                return Served { output, responses: count, end };
            },
        }
    }
}

/// One connection's session, fed by its driver event by event.
pub struct Session {
    phase: Phase,
    scanner: HeaderScanner,
    body: BodyReader,
}

impl Session {
    pub closed spec fn phase(&self) -> Phase {
        self.phase
    }

    /// The header bytes gathered for the request under way.
    pub closed spec fn header(&self) -> Seq<u8> {
        self.scanner@
    }

    /// The body bytes still owed while a body is read.
    pub closed spec fn owed(&self) -> nat {
        self.body.owed()
    }

    pub closed spec fn wf(&self) -> bool {
        &&& lacks_terminator(self.scanner@)
        &&& self.body.wf()
        &&& self.phase == Phase::ReadingBody ==> self.body.owed() > 0
    }

    /// The phase the session is in.
    pub fn current_phase(&self) -> (r: Phase)
        ensures
            r == self.phase(),
    {
        self.phase
    }

    /// The body bytes still owed; zero unless a body is being read.
    pub fn body_owed(&self) -> (r: usize)
        requires
            self.wf(),
        ensures
            self.phase() == Phase::ReadingBody ==> r == self.owed(),
    {
        match self.phase {
            Phase::ReadingBody => self.body.remaining(),
            _ => 0,
        }
    }

    /// A session on a fresh connection, waiting for the first header byte.
    pub fn new() -> (r: Session)
        ensures
            r.wf(),
            r.phase() == Phase::AwaitingHeaders,
            r.header() == Seq::<u8>::empty(),
    {
        let r = Session { phase: Phase::AwaitingHeaders, scanner: HeaderScanner::new(), body: BodyReader::new(0) };
        assert(lacks_terminator(Seq::<u8>::empty())) by {
            assert forall|k: int| 0 <= k <= 0 implies !#[trigger] terminator_at(Seq::<u8>::empty(), k) by {}
        }
        r
    }

    /// Takes one header byte. Once the bytes end with CR LF CR LF the head is
    /// parsed: a refused head closes the session; a declared body of one byte
    /// or more is read next; otherwise the request is answered.
    pub fn on_header_byte(&mut self, b: u8) -> (a: Action)
        requires
            old(self).wf(),
            old(self).phase() == Phase::AwaitingHeaders,
        ensures
            final(self).wf(),
            ({
                let h = old(self).header().push(b);
                if !ends_with_terminator(h) {
                    a == Action::ReadHeaderByte && final(self).phase() == Phase::AwaitingHeaders && final(self).header()
                        == h
                } else {
                    match head_spec(h) {
                        Err(e) => a == Action::Close(SessionEnd::BadHead(e)) && final(self).phase() == Phase::Closed,
                        Ok(head) => if body_len(head) > 0 {
                            a == Action::ReadBody(body_len(head) as usize) && final(self).phase()
                                == Phase::ReadingBody && final(self).owed() == body_len(head) && final(self).header()
                                == Seq::<u8>::empty()
                        } else {
                            a == Action::Respond && final(self).phase() == Phase::AwaitingHeaders
                                && final(self).header() == Seq::<u8>::empty()
                        },
                    }
                }
            }),
    {
        let ghost before = self.scanner@;
        let done = self.scanner.push(b);
        if !done {
            proof {
                lemma_push_keeps_lacking(before, b);
            }
            return Action::ReadHeaderByte;
        }
        let block = self.scanner.take_block();
        assert(lacks_terminator(Seq::<u8>::empty())) by {
            assert forall|k: int| 0 <= k <= 0 implies !#[trigger] terminator_at(Seq::<u8>::empty(), k) by {}
        }
        match parse_request_head(block.as_slice()) {
            Err(e) => {
                self.phase = Phase::Closed;
                Action::Close(SessionEnd::BadHead(e))
            },
            Ok(head) => {
                let len: usize = match head.declared_body_length {
                    Some(l) => l,
                    None => 0,
                };
                if len > 0 {
                    self.body = BodyReader::new(len);
                    self.phase = Phase::ReadingBody;
                    Action::ReadBody(len)
                } else {
                    Action::Respond
                }
            },
        }
    }

    /// Takes the bytes of one body read, never more than are owed. A read of no
    /// bytes means that the peer closed mid-body; once the body is complete the
    /// request is answered.
    pub fn on_body_bytes(&mut self, chunk: &[u8]) -> (a: Action)
        requires
            old(self).wf(),
            old(self).phase() == Phase::ReadingBody,
            chunk@.len() <= old(self).owed(),
        ensures
            final(self).wf(),
            final(self).header() == old(self).header(),
            chunk@.len() == 0 ==> a == Action::Close(SessionEnd::PeerClosedMidBody) && final(self).phase()
                == Phase::Closed,
            chunk@.len() == old(self).owed() && chunk@.len() > 0 ==> a == Action::Respond && final(self).phase()
                == Phase::AwaitingHeaders && final(self).header() == old(self).header(),
            0 < chunk@.len() < old(self).owed() ==> a == Action::ReadBody(
                (old(self).owed() - chunk@.len()) as usize,
            ) && final(self).phase() == Phase::ReadingBody && final(self).owed() == old(self).owed()
                - chunk@.len(),
    {
        match self.body.accept(chunk) {
            Err(_) => {
                self.phase = Phase::Closed;
                Action::Close(SessionEnd::PeerClosedMidBody)
            },
            Ok(true) => {
                self.phase = Phase::AwaitingHeaders;
                Action::Respond
            },
            Ok(false) => Action::ReadBody(self.body.remaining()),
        }
    }

    /// The connection's input ended. While a new header block is awaited that
    /// is the clean end of the session; while a body is read, the peer closed
    /// mid-body.
    pub fn on_end_of_input(&mut self) -> (a: Action)
        requires
            old(self).wf(),
            old(self).phase() != Phase::Closed,
        ensures
            final(self).wf(),
            final(self).phase() == Phase::Closed,
            old(self).phase() == Phase::AwaitingHeaders ==> a == Action::Close(SessionEnd::Clean),
            old(self).phase() == Phase::ReadingBody ==> a == Action::Close(SessionEnd::PeerClosedMidBody),
    {
        let a = match self.phase {
            Phase::ReadingBody => Action::Close(SessionEnd::PeerClosedMidBody),
            _ => Action::Close(SessionEnd::Clean),
        };
        self.phase = Phase::Closed;
        a
    }
}

} // verus!

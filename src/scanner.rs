//! Header terminator scanner: bytes are taken one at a time until the
//! sequence CR LF CR LF closes the request head.
use vstd::prelude::*;

verus! {

pub const CR: u8 = 13;

pub const LF: u8 = 10;

/// The first `n` bytes of `s` end with CR LF CR LF.
pub open spec fn terminator_at(s: Seq<u8>, n: int) -> bool {
    4 <= n <= s.len() && s[n - 4] == CR && s[n - 3] == LF && s[n - 2] == CR && s[n - 1] == LF
}

/// `s` as a whole ends with CR LF CR LF.
pub open spec fn ends_with_terminator(s: Seq<u8>) -> bool {
    terminator_at(s, s.len() as int)
}

/// No prefix of `s` ends with CR LF CR LF.
pub open spec fn lacks_terminator(s: Seq<u8>) -> bool {
    forall|k: int| #![trigger terminator_at(s, k)] 0 <= k <= s.len() ==> !terminator_at(s, k)
}

/// The length of the shortest prefix of `s`, of length `i` or more, that ends
/// with CR LF CR LF.
pub open spec fn terminator_from(s: Seq<u8>, i: int) -> Option<nat>
    decreases s.len() - i,
{
    if i < 0 || i > s.len() {
        None
    } else if terminator_at(s, i) {
        Some(i as nat)
    } else if i == s.len() {
        None
    } else {
        terminator_from(s, i + 1)
    }
}

/// The length of the header block at the front of `s`: the shortest prefix that
/// ends with CR LF CR LF, if there is one.
pub open spec fn header_block_end(s: Seq<u8>) -> Option<nat> {
    terminator_from(s, 0)
}

/// What `terminator_from` finds: the first terminator at or after `i`.
pub proof fn lemma_terminator_from(s: Seq<u8>, i: int)
    requires
        0 <= i <= s.len(),
    ensures
        match terminator_from(s, i) {
            Some(n) => i <= n <= s.len() && terminator_at(s, n as int) && forall|k: int|
                #![trigger terminator_at(s, k)]
                i <= k < n ==> !terminator_at(s, k),
            None => forall|k: int| #![trigger terminator_at(s, k)] i <= k <= s.len() ==> !terminator_at(s, k),
        },
    decreases s.len() - i,
{
    if !terminator_at(s, i) && i < s.len() {
        lemma_terminator_from(s, i + 1);
    }
}

/// The block end is the first place where CR LF CR LF closes a prefix; when
/// there is none, no prefix ends with it.
pub proof fn lemma_header_block_end(s: Seq<u8>)
    ensures
        match header_block_end(s) {
            Some(n) => n <= s.len() && terminator_at(s, n as int) && lacks_terminator(s.take(n - 1)),
            None => lacks_terminator(s),
        },
{
    lemma_terminator_from(s, 0);
    if let Some(n) = header_block_end(s) {
        let t = s.take(n - 1);
        assert forall|k: int| #![trigger terminator_at(t, k)] 0 <= k <= t.len() implies !terminator_at(t, k) by {
            if terminator_at(t, k) {
                assert(terminator_at(s, k));
            }
        }
    }
}

/// A prefix that holds no terminator and does not end with one stays free of
/// terminators.
pub proof fn lemma_push_keeps_lacking(s: Seq<u8>, b: u8)
    requires
        lacks_terminator(s),
        !ends_with_terminator(s.push(b)),
    ensures
        lacks_terminator(s.push(b)),
{
    let t = s.push(b);
    assert forall|k: int| #![trigger terminator_at(t, k)] 0 <= k <= t.len() implies !terminator_at(t, k) by {
        if k < t.len() && terminator_at(t, k) {
            assert(terminator_at(s, k));
        }
    }
}

/// The bytes of a request head gathered so far.
pub struct HeaderScanner {
    block: Vec<u8>,
}

impl View for HeaderScanner {
    type V = Seq<u8>;

    closed spec fn view(&self) -> Seq<u8> {
        self.block@
    }
}

impl HeaderScanner {
    pub fn new() -> (r: HeaderScanner)
        ensures
            r@ == Seq::<u8>::empty(),
    {
        HeaderScanner { block: Vec::new() }
    }

    /// Appends one byte and tells whether the gathered bytes now end with
    /// CR LF CR LF. Only the last four bytes are looked at.
    pub fn push(&mut self, b: u8) -> (done: bool)
        ensures
            final(self)@ == old(self)@.push(b),
            done == ends_with_terminator(final(self)@),
    {
        self.block.push(b);
        let len = self.block.len();
        len >= 4 && self.block[len - 4] == CR && self.block[len - 3] == LF && self.block[len - 2] == CR
            && self.block[len - 1] == LF
    }

    pub fn len(&self) -> (r: usize)
        ensures
            r == self@.len(),
    {
        self.block.len()
    }

    /// Hands out the bytes gathered so far and starts over empty.
    pub fn take_block(&mut self) -> (r: Vec<u8>)
        ensures
            r@ == old(self)@,
            final(self)@ == Seq::<u8>::empty(),
    {
        let mut r: Vec<u8> = Vec::new();
        r.append(&mut self.block);
        r
    }

    /// The bytes gathered so far.
    pub fn into_bytes(self) -> (r: Vec<u8>)
        ensures
            r@ == self@,
    {
        self.block
    }
}

/// The header block was not closed before the input ended; `partial` holds
/// every byte seen.
pub struct IncompleteHeader {
    pub partial: Vec<u8>,
}

/// Takes the bytes of `input` one at a time until they end with CR LF CR LF,
/// and returns that block: the input up to and including the first
/// terminator, and nothing after it. Without a terminator, the whole input
/// comes back as an incomplete header.
pub fn read_headers(input: &[u8]) -> (r: Result<Vec<u8>, IncompleteHeader>)
    ensures
        match r {
            Ok(block) => header_block_end(input@) == Some(block@.len()) && block@ == input@.take(
                block@.len() as int,
            ),
            Err(e) => header_block_end(input@) is None && e.partial@ == input@,
        },
{
    let mut scanner = HeaderScanner::new();
    let mut i: usize = 0;
    while i < input.len()
        invariant
            i <= input@.len(),
            scanner@ == input@.take(i as int),
            lacks_terminator(scanner@),
        decreases input@.len() - i,
    {
        let b = input[i];
        let done = scanner.push(b);
        assert(scanner@ =~= input@.take(i + 1));
        i = i + 1;
        if done {
            proof {
                lemma_terminator_from(input@, 0);
                assert forall|k: int| 0 <= k < i implies !terminator_at(input@, k) by {
                    if terminator_at(input@, k) {
                        assert(terminator_at(input@.take(i - 1), k));
                    }
                }
                assert(terminator_at(input@, i as int));
                lemma_first_is_found(input@, i as int);
            }
            return Ok(scanner.into_bytes());
        }
        proof {
            lemma_push_keeps_lacking(input@.take(i - 1), b);
            assert(input@.take(i - 1).push(b) =~= input@.take(i as int));
        }
    }
    proof {
        lemma_terminator_from(input@, 0);
        assert(input@.take(i as int) =~= input@);
        assert forall|k: int| 0 <= k <= input@.len() implies !terminator_at(input@, k) by {
            assert(terminator_at(input@, k) == terminator_at(scanner@, k));
        }
    }
    Err(IncompleteHeader { partial: scanner.into_bytes() })
}

/// A terminator that closes the bytes up to `m`, with none before it, ends
/// the header block at `m`.
pub proof fn lemma_block_found(s: Seq<u8>, m: int)
    requires
        1 <= m <= s.len(),
        lacks_terminator(s.take(m - 1)),
        ends_with_terminator(s.take(m)),
    ensures
        header_block_end(s) == Some(m as nat),
{
    assert(terminator_at(s, m)) by {
        assert(terminator_at(s.take(m), m));
    }
    assert forall|k: int| 0 <= k < m implies !terminator_at(s, k) by {
        if terminator_at(s, k) {
            assert(terminator_at(s.take(m - 1), k));
        }
    }
    lemma_first_is_found(s, m);
}

/// Input that holds no terminator has no header block.
pub proof fn lemma_block_missing(s: Seq<u8>)
    requires
        lacks_terminator(s),
    ensures
        header_block_end(s) is None,
{
    lemma_terminator_from(s, 0);
    if let Some(n) = header_block_end(s) {
        assert(terminator_at(s, n as int));
    }
}

/// When `n` closes the first terminator of `s`, the search finds `n`.
pub proof fn lemma_first_is_found(s: Seq<u8>, n: int)
    requires
        terminator_at(s, n),
        forall|k: int| 0 <= k < n ==> !terminator_at(s, k),
    ensures
        header_block_end(s) == Some(n as nat),
{
    lemma_terminator_from(s, 0);
    match header_block_end(s) {
        Some(m) => {
            if m < n {
                assert(terminator_at(s, m as int));
            }
            if n < m {
                assert(terminator_at(s, n));
            }
        },
        None => {
            assert(terminator_at(s, n));
        },
    }
}

} // verus!

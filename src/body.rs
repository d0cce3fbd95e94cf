//! Body reader: gathers exactly the declared number of body bytes, chunk by
//! chunk.
use vstd::prelude::*;

verus! {

/// The most bytes asked of the connection in one read.
pub const READ_CHUNK: usize = 512;

/// The peer closed the connection before the declared body was complete.
#[derive(Debug, Clone, Copy, PartialEq, Eq, Structural)]
pub enum BodyError {
    PeerClosedMidBody,
}

/// A body being gathered: `target` bytes are owed in all.
pub struct BodyReader {
    target: usize,
    body: Vec<u8>,
}

impl BodyReader {
    /// The number of bytes the body must have.
    pub closed spec fn target(&self) -> nat {
        self.target as nat
    }

    /// The bytes gathered so far.
    pub closed spec fn body(&self) -> Seq<u8> {
        self.body@
    }

    pub open spec fn wf(&self) -> bool {
        self.body().len() <= self.target()
    }

    pub open spec fn owed(&self) -> nat {
        (self.target() - self.body().len()) as nat
    }

    pub fn new(len: usize) -> (r: BodyReader)
        ensures
            r.wf(),
            r.target() == len,
            r.body() == Seq::<u8>::empty(),
    {
        BodyReader { target: len, body: Vec::new() }
    }

    /// How many bytes are still owed.
    pub fn remaining(&self) -> (r: usize)
        requires
            self.wf(),
        ensures
            r == self.owed(),
    {
        self.target - self.body.len()
    }

    /// Takes the bytes of one read. A read of no bytes while some are owed
    /// means that the peer is gone. Otherwise the bytes are appended, and the
    /// result tells whether the body is now complete.
    pub fn accept(&mut self, chunk: &[u8]) -> (r: Result<bool, BodyError>)
        requires
            old(self).wf(),
            old(self).owed() > 0,
            chunk@.len() <= old(self).owed(),
        ensures
            final(self).wf(),
            final(self).target() == old(self).target(),
            chunk@.len() == 0 ==> r == Err::<bool, BodyError>(BodyError::PeerClosedMidBody) && final(self).body()
                == old(self).body(),
            chunk@.len() > 0 ==> r == Ok::<bool, BodyError>(chunk@.len() == old(self).owed()) && final(self).body()
                == old(self).body() + chunk@,
    {
        if chunk.len() == 0 {
            return Err(BodyError::PeerClosedMidBody);
        }
        let mut i: usize = 0;
        let ghost start = self.body@;
        while i < chunk.len()
            invariant
                i <= chunk@.len(),
                self.target == old(self).target,
                self.body@ == start + chunk@.take(i as int),
                start.len() + chunk@.len() <= self.target,
            decreases chunk@.len() - i,
        {
            self.body.push(chunk[i]);
            assert(chunk@.take(i + 1) =~= chunk@.take(i as int).push(chunk@[i as int]));
            i = i + 1;
        }
        assert(chunk@.take(i as int) =~= chunk@);
        Ok(self.body.len() == self.target)
    }

    /// The bytes gathered.
    pub fn into_body(self) -> (r: Vec<u8>)
        ensures
            r@ == self.body(),
    {
        self.body
    }
}

/// Reads a body of `len` bytes from `input`, in reads of at most `READ_CHUNK`
/// bytes that never go past the body. The body is the first `len` bytes of the
/// input; when the input is shorter, the peer closed mid-body.
pub fn read_body(len: usize, input: &[u8]) -> (r: Result<Vec<u8>, BodyError>)
    ensures
        match r {
            Ok(b) => len <= input@.len() && b@ == input@.take(len as int),
            Err(e) => input@.len() < len && e == BodyError::PeerClosedMidBody,
        },
{
    let mut reader = BodyReader::new(len);
    let mut pos: usize = 0;
    if len == 0 {
        assert(input@.take(0) =~= Seq::<u8>::empty());
        return Ok(reader.into_body());
    }
    loop
        invariant
            reader.wf(),
            reader.target() == len,
            pos == reader.body().len(),
            pos <= input@.len(),
            reader.body() == input@.take(pos as int),
            reader.owed() > 0,
        decreases len - pos,
    {
        let owed = reader.remaining();
        let available = input.len() - pos;
        let mut want = if owed < READ_CHUNK {
            owed
        } else {
            READ_CHUNK
        };
        if available < want {
            want = available;
        }
        let chunk = vstd::slice::slice_subrange(input, pos, pos + want);
        let done = reader.accept(chunk);
        match done {
            Err(e) => {
                return Err(e);
            },
            Ok(complete) => {
                assert(input@.take(pos as int) + chunk@ =~= input@.take(pos + want));
                pos = pos + want;
                if complete {
                    return Ok(reader.into_body());
                }
            },
        }
    }
}

} // verus!

//! The read side of a connection: bytes arrive in a buffer, and whole frames
//! are taken from its front.
use vstd::prelude::*;

use crate::frame::laws::lemma_decode_within;
use crate::frame::{check_frame, copy_range, decode, decode_frame, Frame, Progress};

verus! {

/// Why no frame could be read.
#[derive(Debug, Clone, PartialEq, Eq)]
pub enum FrameError {
    /// The buffered bytes are not a frame.
    Invalid,
    /// The peer closed the connection in the middle of a frame.
    ConnectionReset,
}

/// Bytes received and not yet decoded.
#[derive(Debug)]
pub struct ReadBuffer {
    buffer: Vec<u8>,
}

impl View for ReadBuffer {
    type V = Seq<u8>;

    closed spec fn view(&self) -> Seq<u8> {
        self.buffer@
    }
}

impl ReadBuffer {
    /// An empty buffer.
    pub fn new() -> (r: ReadBuffer)
        ensures
            r@ == Seq::<u8>::empty(),
    {
        ReadBuffer { buffer: Vec::with_capacity(4 * 1024) }
    }

    /// Appends bytes read from the peer.
    pub fn extend(&mut self, data: &[u8])
        ensures
            final(self)@ == old(self)@ + data@,
    {
        let mut k: usize = 0;
        let ghost start = self.buffer@;
        while k < data.len()
            invariant
                k <= data@.len(),
                self.buffer@ == start + data@.subrange(0, k as int),
            decreases data.len() - k,
        {
            self.buffer.push(data[k]);
            k += 1;
            assert(self.buffer@ =~= start + data@.subrange(0, k as int));
        }
        assert(data@.subrange(0, data@.len() as int) =~= data@);
    }

    /// Whether nothing is buffered.
    pub fn is_empty(&self) -> (r: bool)
        ensures
            r == (self@.len() == 0),
    {
        self.buffer.len() == 0
    }

    /// Takes a whole frame from the front of the buffer, if one is there:
    /// `None` while more bytes are needed, and an error if the bytes are not a
    /// frame. The bytes are checked first, so that nothing is built from a
    /// frame that is not all there yet.
    pub fn parse_frame(&mut self) -> (r: Result<Option<Frame>, FrameError>)
        ensures
            match decode(old(self)@) {
                Progress::Complete((m, n)) => r matches Ok(Some(f)) && f@ == m && final(self)@
                    == old(self)@.subrange(n, old(self)@.len() as int),
                Progress::Incomplete => r matches Ok(None) && final(self)@ == old(self)@,
                Progress::Invalid => r matches Err(FrameError::Invalid) && final(self)@ == old(self)@,
            },
    {
        match check_frame(self.buffer.as_slice()) {
            Progress::Complete(_) => {},
            Progress::Incomplete => {
                return Ok(None);
            },
            Progress::Invalid => {
                return Err(FrameError::Invalid);
            },
        }
        match decode_frame(self.buffer.as_slice()) {
            Progress::Complete((frame, n)) => {
                proof {
                    lemma_decode_within(self.buffer@);
                }
                self.buffer = copy_range(self.buffer.as_slice(), n, self.buffer.len());
                Ok(Some(frame))
            },
            Progress::Incomplete => Ok(None),
            Progress::Invalid => Err(FrameError::Invalid),
        }
    }

    /// What the end of the peer's stream means: a clean close when nothing is
    /// buffered, a reset in the middle of a frame otherwise.
    pub fn end_of_stream(&self) -> (r: Result<(), FrameError>)
        ensures
            r is Ok <==> self@.len() == 0,
            r matches Err(e) ==> e is ConnectionReset,
    {
        if self.buffer.len() == 0 {
            Ok(())
        } else {
            Err(FrameError::ConnectionReset)
        }
    }
}

} // verus!

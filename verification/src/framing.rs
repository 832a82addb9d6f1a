use vstd::prelude::*;

verus! {

/// The byte that closes one frame: payloads are newline-delimited units
/// of text on the wire.
pub const FRAME_DELIMITER: u8 = 10;

/// The most bytes one frame may carry. A peer that exceeds it is treated
/// as malformed and its session is terminated as a disconnect, never as a
/// server-wide failure.
pub const MAX_FRAME_BYTES: usize = 65536;

/// What one incoming byte did to the frame under assembly.
pub enum FrameStep {
    /// The byte closed the frame: here is its payload, delimiter
    /// excluded; the buffer is empty again.
    Frame(Vec<u8>),
    /// The byte was buffered; the frame is still incomplete.
    Buffered,
    /// The frame outgrew the limit: the buffer is reset and the session
    /// must treat the peer as malformed and disconnect it.
    Oversized,
}

/// Assembles discrete frames out of a continuous byte stream, one byte at
/// a time: partial frames are buffered until their delimiter arrives, and
/// a frame that outgrows the limit terminates the session instead of the
/// server.
pub struct FrameBuffer {
    buf: Vec<u8>,
    max_frame: usize,
}

impl FrameBuffer {
    /// The bytes of the incomplete frame received so far.
    pub closed spec fn buffered(&self) -> Seq<u8> {
        self.buf@
    }

    /// The most bytes one frame may carry.
    pub closed spec fn limit(&self) -> nat {
        self.max_frame as nat
    }

    /// The buffer never exceeds the frame limit and never holds a
    /// delimiter: delimiters always close a frame at once.
    pub open spec fn wf(&self) -> bool {
        &&& self.limit() >= 1
        &&& self.buffered().len() <= self.limit()
        &&& forall|i: int|
            0 <= i < self.buffered().len() ==> (#[trigger] self.buffered()[i]) != FRAME_DELIMITER
    }

    /// An empty buffer accepting frames of up to `max_frame` bytes.
    pub fn new(max_frame: usize) -> (r: FrameBuffer)
        requires
            max_frame >= 1,
        ensures
            r.wf(),
            r.limit() == max_frame,
            r.buffered() == Seq::<u8>::empty(),
    {
        let r = FrameBuffer { buf: Vec::new(), max_frame };
        proof {
            assert(r.buffered() =~= Seq::<u8>::empty());
        }
        r
    }

    /// Take in one byte from the stream. A delimiter hands back exactly
    /// the bytes buffered since the last frame; any other byte is
    /// buffered, unless the frame just outgrew the limit.
    pub fn push_byte(&mut self, byte: u8) -> (r: FrameStep)
        requires
            old(self).wf(),
        ensures
            final(self).wf(),
            final(self).limit() == old(self).limit(),
            match r {
                FrameStep::Frame(frame) => {
                    &&& byte == FRAME_DELIMITER
                    &&& frame@ == old(self).buffered()
                    &&& final(self).buffered().len() == 0
                },
                FrameStep::Buffered => {
                    &&& byte != FRAME_DELIMITER
                    &&& old(self).buffered().len() < old(self).limit()
                    &&& final(self).buffered() == old(self).buffered().push(byte)
                },
                FrameStep::Oversized => {
                    &&& byte != FRAME_DELIMITER
                    &&& old(self).buffered().len() == old(self).limit()
                    &&& final(self).buffered().len() == 0
                },
            },
    {
        if byte == FRAME_DELIMITER {
            let frame = self.buf.split_off(0);
            proof {
                assert(frame@ =~= old(self).buffered());
                assert(self.buffered() =~= Seq::<u8>::empty());
            }
            FrameStep::Frame(frame)
        } else if self.buf.len() == self.max_frame {
            self.buf.clear();
            FrameStep::Oversized
        } else {
            self.buf.push(byte);
            FrameStep::Buffered
        }
    }
}

} // verus!

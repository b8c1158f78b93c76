//! Turning the bytes that arrive on a stream into frames.
use vstd::prelude::*;
use vstd::slice::{slice_subrange, slice_to_vec};

use crate::frame::{self, Frame};

verus! {

/// How a stream ended.
#[derive(Debug, Clone, Copy, PartialEq, Eq)]
pub enum Error {
    /// The stream ended between two frames.
    ConnectionClosed,
    /// The stream ended in the middle of a frame.
    ConnectionInterrupted,
}

/// The bytes received on a stream that no frame has taken yet.
pub struct FrameBuffer {
    buffer: Vec<u8>,
}

impl View for FrameBuffer {
    type V = Seq<u8>;

    closed spec fn view(&self) -> Seq<u8> {
        self.buffer@
    }
}

impl FrameBuffer {
    /// An empty buffer.
    pub fn new() -> (r: FrameBuffer)
        ensures
            r@ == Seq::<u8>::empty(),
    {
        FrameBuffer { buffer: Vec::new() }
    }

    /// The number of bytes waiting.
    pub fn len(&self) -> (r: usize)
        ensures
            r == self@.len(),
    {
        self.buffer.len()
    }

    /// Takes in what one read from the stream gave. A read of no bytes is the
    /// end of the stream: it is an error, which says whether a frame was cut off.
    pub fn receive(&mut self, data: &[u8]) -> (r: Result<(), Error>)
        ensures
            data@.len() == 0 ==> final(self)@ == old(self)@ && r == Err::<(), Error>(
                if old(self)@.len() == 0 {
                    Error::ConnectionClosed
                } else {
                    Error::ConnectionInterrupted
                },
            ),
            data@.len() != 0 ==> r is Ok && final(self)@ == old(self)@ + data@,
    {
        if data.len() == 0 {
            // 0 bytes read == end of stream
            if self.buffer.len() == 0 {
                // Closed stream at end of a frame
                return Err(Error::ConnectionClosed);
            } else {
                // Closed connection mid-way through a frame
                return Err(Error::ConnectionInterrupted);
            }
        }
        let mut i: usize = 0;
        while i < data.len()
            invariant
                i <= data@.len(),
                self.buffer@ == old(self)@ + data@.take(i as int),
            decreases data@.len() - i,
        {
            self.buffer.push(data[i]);
            i = i + 1;
            assert(data@.take(i as int) =~= data@.take(i - 1) + seq![data@[i - 1]]);
        }
        assert(data@.take(data@.len() as int) =~= data@);
        Ok(())
    }

    /// Takes the frame at the front of the buffer, if the buffer holds a whole
    /// one. `Ok(None)` means that more bytes are needed; an invalid frame is an
    /// error. Only a frame that is returned leaves the buffer.
    pub fn next_frame<F: Frame>(&mut self) -> (r: Result<Option<F>, frame::Error>)
        ensures
            match F::spec_parse(old(self)@) {
                Ok((v, n)) => r matches Ok(Some(f)) && f@ == v && final(self)@ == old(self)@.skip(
                    n as int,
                ),
                Err(frame::Error::Incomplete) => r matches Ok(None) && final(self)@ == old(self)@,
                Err(frame::Error::Invalid) => r == Err::<Option<F>, frame::Error>(
                    frame::Error::Invalid,
                ) && final(self)@ == old(self)@,
            },
    {
        proof {
            F::lemma_parse_encode(self.buffer@);
        }
        match F::parse(self.buffer.as_slice()) {
            Ok((frame, n)) => {
                // Successfully read a frame, so advance the buffer
                let len = self.buffer.len();
                let rest = slice_to_vec(slice_subrange(self.buffer.as_slice(), n, len));
                self.buffer = rest;
                assert(self.buffer@ =~= old(self)@.skip(n as int));
                Ok(Some(frame))
            },
            Err(frame::Error::Incomplete) => Ok(None),
            Err(frame::Error::Invalid) => Err(frame::Error::Invalid),
        }
    }
}

/// The bytes of frames written one after the other.
pub open spec fn encode_all<F: Frame>(vs: Seq<F::V>) -> Seq<u8>
    decreases vs.len(),
{
    if vs.len() == 0 {
        Seq::empty()
    } else {
        F::spec_encode(vs[0]) + encode_all::<F>(vs.drop_first())
    }
}

/// Frames written one after the other are read back one after the other,
/// however the stream splits their bytes. Whatever part of the stream a
/// reader holds (the first `k` of its bytes), parsing it gives the first
/// frame and leaves exactly the part of the stream after it, once the frame
/// is whole; before that it is incomplete, never invalid and never another
/// frame. Once every frame is read nothing is left, which parses as
/// incomplete, so the end of the stream comes next and is a clean close
/// (`FrameBuffer::receive` of no bytes on an empty buffer).
pub proof fn lemma_frames_read_in_order<F: Frame>(vs: Seq<F::V>, k: nat)
    requires
        forall|i: int| 0 <= i < vs.len() ==> (#[trigger] F::spec_encode(vs[i])).len() <= isize::MAX,
        k <= encode_all::<F>(vs).len(),
    ensures
        ({
            let held = encode_all::<F>(vs).take(k as int);
            &&& vs.len() == 0 ==> held.len() == 0 && F::spec_parse(held) == Err::<(F::V, nat), frame::Error>(
                frame::Error::Incomplete,
            )
            &&& vs.len() > 0 && k >= F::spec_encode(vs[0]).len() ==> {
                let n = F::spec_encode(vs[0]).len();
                &&& F::spec_parse(held) == Ok::<_, frame::Error>((vs[0], n))
                &&& held.skip(n as int) == encode_all::<F>(vs.drop_first()).take(k - n)
            }
            &&& vs.len() > 0 && k < F::spec_encode(vs[0]).len() ==> F::spec_parse(held) == Err::<
                (F::V, nat),
                frame::Error,
            >(frame::Error::Incomplete)
        }),
{
    let all = encode_all::<F>(vs);
    let held = all.take(k as int);
    if vs.len() == 0 {
        assert(held =~= Seq::<u8>::empty());
        F::lemma_empty_incomplete();
    } else {
        let first = F::spec_encode(vs[0]);
        let rest = encode_all::<F>(vs.drop_first());
        assert(first.len() <= isize::MAX);
        let n = first.len();
        if k >= n {
            let tail = rest.take(k - n);
            assert(held =~= first + tail);
            F::lemma_encode_parse(vs[0], tail);
            assert(held.skip(n as int) =~= tail);
        } else {
            assert(held =~= first.take(k as int));
            F::lemma_prefix_incomplete(vs[0], k);
        }
    }
}

} // verus!

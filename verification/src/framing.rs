use crate::network::MAX_INCOMING_SIZE;
use vstd::prelude::*;

verus! {

/// The byte that ends a frame.
pub const DELIM: u8 = 0;

/// The byte that pads an unused buffer.
pub const FILL: u8 = 1;

/// A frame as it goes over the wire: its bytes, then the delimiter.
pub open spec fn framed(payload: Seq<u8>) -> Seq<u8> {
    payload.push(DELIM)
}

/// The bytes of some frames, one after the other.
pub open spec fn stream_of(frames: Seq<Seq<u8>>) -> Seq<u8>
    decreases frames.len(),
{
    if frames.len() == 0 {
        Seq::empty()
    } else {
        stream_of(frames.drop_last()) + framed(frames.last())
    }
}

/// No byte is the delimiter.
pub open spec fn delimiter_free(bytes: Seq<u8>) -> bool {
    forall|i: int| 0 <= i < bytes.len() ==> #[trigger] bytes[i] != DELIM
}

/// The byte sequences of a list of frames.
pub open spec fn frames_view(frames: Seq<Vec<u8>>) -> Seq<Seq<u8>> {
    Seq::new(frames.len(), |i: int| frames[i]@)
}

/// The bytes are the given frames, each with its delimiter, followed by
/// `rest`, the beginning of a frame that has not ended yet.
pub open spec fn splits_into(bytes: Seq<u8>, frames: Seq<Seq<u8>>, rest: Seq<u8>) -> bool {
    &&& bytes == stream_of(frames) + rest
    &&& forall|i: int| 0 <= i < frames.len() ==> delimiter_free(#[trigger] frames[i])
    &&& delimiter_free(rest)
}

/// One more frame at the end of a stream.
pub proof fn lemma_stream_push(frames: Seq<Seq<u8>>, frame: Seq<u8>)
    ensures
        stream_of(frames.push(frame)) == stream_of(frames) + framed(frame),
{
    assert(frames.push(frame).drop_last() =~= frames);
}

/// Bytes can be cut into frames and a rest in one way only: what was framed
/// and sent is what the receiver cuts out.
pub proof fn law_split_unique(
    bytes: Seq<u8>,
    frames: Seq<Seq<u8>>,
    rest: Seq<u8>,
    other_frames: Seq<Seq<u8>>,
    other_rest: Seq<u8>,
)
    requires
        splits_into(bytes, frames, rest),
        splits_into(bytes, other_frames, other_rest),
    ensures
        frames == other_frames,
        rest == other_rest,
    decreases frames.len(),
{
    let whole = stream_of(frames);
    let other_whole = stream_of(other_frames);
    if frames.len() == 0 {
        if other_frames.len() > 0 {
            let at = other_whole.len() - 1;
            assert(other_whole[at] == DELIM);
            assert(bytes[at] == other_whole[at]);
            assert(bytes[at] == rest[at]);
        }
        assert(frames =~= other_frames);
        assert(rest =~= other_rest);
    } else if other_frames.len() == 0 {
        let at = whole.len() - 1;
        assert(whole[at] == DELIM);
        assert(bytes[at] == whole[at]);
        assert(bytes[at] == other_rest[at]);
    } else {
        let head = stream_of(frames.drop_last());
        let other_head = stream_of(other_frames.drop_last());
        let tail = frames.last();
        let other_tail = other_frames.last();
        if whole.len() < other_whole.len() {
            let at = other_whole.len() - 1;
            assert(other_whole[at] == DELIM);
            assert((other_whole + other_rest)[at] == other_whole[at]);
            assert(bytes.len() == whole.len() + rest.len());
            assert((whole + rest)[at] == rest[at - whole.len()]);
        }
        if other_whole.len() < whole.len() {
            let at = whole.len() - 1;
            assert(whole[at] == DELIM);
            assert((whole + rest)[at] == whole[at]);
            assert(bytes.len() == other_whole.len() + other_rest.len());
            assert((other_whole + other_rest)[at] == other_rest[at - other_whole.len()]);
        }
        assert(whole.len() == other_whole.len());
        assert(bytes.len() == whole.len() + rest.len());
        assert(bytes.len() == other_whole.len() + other_rest.len());
        assert(rest =~= other_rest) by {
            assert forall|i: int| 0 <= i < rest.len() implies rest[i] == other_rest[i] by {
                assert((whole + rest)[whole.len() + i] == rest[i]);
                assert((other_whole + other_rest)[other_whole.len() + i] == other_rest[i]);
            }
        }
        let inner = head + tail;
        assert(inner =~= other_head + other_tail) by {
            assert forall|i: int| 0 <= i < inner.len() implies inner[i] == (other_head + other_tail)[i] by {
                assert(whole == inner.push(DELIM)) by {
                    assert(whole =~= inner.push(DELIM));
                }
                assert(other_whole == (other_head + other_tail).push(DELIM)) by {
                    assert(other_whole =~= (other_head + other_tail).push(DELIM));
                }
                assert(whole[i] == inner[i]);
                assert(other_whole[i] == (other_head + other_tail)[i]);
                assert((whole + rest)[i] == whole[i]);
                assert((other_whole + other_rest)[i] == other_whole[i]);
            }
        }
        assert(splits_into(inner, frames.drop_last(), tail)) by {
            assert forall|i: int| 0 <= i < frames.drop_last().len() implies delimiter_free(
                #[trigger] frames.drop_last()[i],
            ) by {
                assert(frames.drop_last()[i] == frames[i]);
            }
        }
        assert(splits_into(inner, other_frames.drop_last(), other_tail)) by {
            assert forall|i: int| 0 <= i < other_frames.drop_last().len() implies delimiter_free(
                #[trigger] other_frames.drop_last()[i],
            ) by {
                assert(other_frames.drop_last()[i] == other_frames[i]);
            }
        }
        law_split_unique(inner, frames.drop_last(), tail, other_frames.drop_last(), other_tail);
        assert(frames =~= frames.drop_last().push(tail));
        assert(other_frames =~= other_frames.drop_last().push(other_tail));
    }
}

/// Ends a message with the delimiter, as it goes over the wire.
pub fn encode_frame(payload: &Vec<u8>) -> (bytes: Vec<u8>)
    ensures
        bytes@ == framed(payload@),
{
    let mut bytes: Vec<u8> = Vec::new();
    let mut i: usize = 0;
    while i < payload.len()
        invariant
            i <= payload.len(),
            bytes@ == payload@.take(i as int),
        decreases payload.len() - i,
    {
        bytes.push(payload[i]);
        assert(bytes@ =~= payload@.take(i + 1));
        i = i + 1;
    }
    assert(payload@.take(payload@.len() as int) =~= payload@);
    bytes.push(DELIM);
    bytes
}

/// Cuts the bytes at every delimiter: returns the frames that have ended,
/// without their delimiters, and what follows the last delimiter.
pub fn split_frames(bytes: &Vec<u8>) -> (cut: (Vec<Vec<u8>>, Vec<u8>))
    ensures
        splits_into(bytes@, frames_view(cut.0@), cut.1@),
{
    let mut frames: Vec<Vec<u8>> = Vec::new();
    let mut current: Vec<u8> = Vec::new();
    let mut i: usize = 0;
    assert(stream_of(frames_view(frames@)) + current@ =~= bytes@.take(0));
    while i < bytes.len()
        invariant
            i <= bytes.len(),
            splits_into(bytes@.take(i as int), frames_view(frames@), current@),
        decreases bytes.len() - i,
    {
        let ghost before = frames_view(frames@);
        let ghost open = current@;
        let byte = bytes[i];
        assert(bytes@.take(i + 1) =~= bytes@.take(i as int).push(byte));
        if byte == DELIM {
            frames.push(current);
            current = Vec::new();
            proof {
                let after = frames_view(frames@);
                assert(after =~= before.push(open));
                lemma_stream_push(before, open);
                assert(stream_of(after) + current@ =~= (stream_of(before) + open).push(byte));
                assert forall|k: int| 0 <= k < after.len() implies delimiter_free(
                    #[trigger] after[k],
                ) by {
                    if k < before.len() {
                        assert(after[k] == before[k]);
                    }
                }
            }
        } else {
            current.push(byte);
            proof {
                assert(stream_of(before) + current@ =~= (stream_of(before) + open).push(byte));
            }
        }
        i = i + 1;
    }
    assert(bytes@.take(bytes@.len() as int) =~= bytes@);
    (frames, current)
}

/// The bytes of a connection that have come in since the last delimiter.
pub struct FrameBuffer {
    pending: Vec<u8>,
}

impl View for FrameBuffer {
    type V = Seq<u8>;

    closed spec fn view(&self) -> Seq<u8> {
        self.pending@
    }
}

/// Whether some frame is longer than a buffer holds, or the bytes of the
/// frame that has not ended fill a buffer.
pub open spec fn over_limit(frames: Seq<Seq<u8>>, rest: Seq<u8>) -> bool {
    ||| rest.len() >= MAX_INCOMING_SIZE
    ||| exists|i: int| 0 <= i < frames.len() && (#[trigger] frames[i]).len() > MAX_INCOMING_SIZE
}

impl FrameBuffer {
    /// The bytes that wait for their delimiter hold none, and leave room in a buffer.
    pub open spec fn wf(&self) -> bool {
        delimiter_free(self@) && self@.len() < MAX_INCOMING_SIZE
    }

    /// A buffer in which nothing waits.
    pub fn new() -> (buffer: FrameBuffer)
        ensures
            buffer.wf(),
            buffer@ == Seq::<u8>::empty(),
    {
        FrameBuffer { pending: Vec::new() }
    }

    /// Takes in the bytes that were read and returns the frames that have
    /// ended with them; what follows the last delimiter waits for the next
    /// bytes. Returns `None`, and forgets what waited, where a frame has
    /// grown beyond the limit: the connection is to be closed.
    pub fn feed(&mut self, bytes: &Vec<u8>) -> (frames: Option<Vec<Vec<u8>>>)
        requires
            old(self).wf(),
        ensures
            final(self).wf(),
            match frames {
                Some(ended) => splits_into(old(self)@ + bytes@, frames_view(ended@), final(self)@)
                    && !over_limit(frames_view(ended@), final(self)@),
                None => final(self)@ == Seq::<u8>::empty() && exists|
                    ended: Seq<Seq<u8>>,
                    rest: Seq<u8>,
                | #[trigger]
                    splits_into(old(self)@ + bytes@, ended, rest) && over_limit(ended, rest),
            },
    {
        let ghost waiting = self@;
        let mut all: Vec<u8> = Vec::new();
        let mut i: usize = 0;
        while i < self.pending.len()
            invariant
                i <= self.pending.len(),
                waiting == self.pending@,
                all@ == waiting.take(i as int),
            decreases self.pending.len() - i,
        {
            all.push(self.pending[i]);
            assert(all@ =~= waiting.take(i + 1));
            i = i + 1;
        }
        assert(waiting.take(waiting.len() as int) =~= waiting);
        let mut j: usize = 0;
        while j < bytes.len()
            invariant
                j <= bytes.len(),
                all@ == waiting + bytes@.take(j as int),
            decreases bytes.len() - j,
        {
            all.push(bytes[j]);
            assert(all@ =~= waiting + bytes@.take(j + 1));
            j = j + 1;
        }
        assert(bytes@.take(bytes@.len() as int) =~= bytes@);
        let (ended, rest) = split_frames(&all);
        let mut k: usize = 0;
        let mut fits = rest.len() < MAX_INCOMING_SIZE;
        while k < ended.len()
            invariant
                k <= ended.len(),
                fits == (rest@.len() < MAX_INCOMING_SIZE && forall|i: int|
                    0 <= i < k ==> (#[trigger] frames_view(ended@)[i]).len() <= MAX_INCOMING_SIZE),
            decreases ended.len() - k,
        {
            assert(frames_view(ended@)[k as int] == ended@[k as int]@);
            if ended[k].len() > MAX_INCOMING_SIZE {
                fits = false;
            }
            k = k + 1;
        }
        if fits {
            self.pending = rest;
            Some(ended)
        } else {
            self.pending = Vec::new();
            assert(splits_into(waiting + bytes@, frames_view(ended@), rest@) && over_limit(
                frames_view(ended@),
                rest@,
            ));
            None
        }
    }
}

} // verus!

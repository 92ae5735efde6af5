//! Frames: one packet's bytes on the wire, a first byte (type and flags), a
//! remaining-length field and as many body bytes as that field announces.

use vstd::prelude::*;
use vstd::slice::slice_subrange;
use crate::error::DecodeError;
use crate::varint::{
    decode_variable_int, lemma_decode_bounds, lemma_decode_encode, lemma_decode_ignores_rest,
    lemma_decode_one_more, spec_decode_variable_int, spec_decode_within,
    spec_encode_variable_int, MAX_VARIABLE_INT,
};

verus! {

/// The frame with first byte `first` and body `tail`.
pub open spec fn spec_frame(first: u8, tail: Seq<u8>) -> Seq<u8> {
    seq![first] + spec_encode_variable_int(tail.len()) + tail
}

/// Reads the fixed header at the front of `bytes`: its own length and the
/// length of the body that it announces.
pub open spec fn spec_header(bytes: Seq<u8>) -> Result<(nat, nat), DecodeError> {
    if bytes.len() == 0 {
        Err(DecodeError::Truncated)
    } else {
        match spec_decode_variable_int(bytes.drop_first()) {
            Ok((value, consumed)) => Ok((1 + consumed, value)),
            Err(e) => Err(e),
        }
    }
}

/// The length of the frame that starts at the front of `bytes`, header and
/// body together, as far as the header is there to tell.
pub open spec fn spec_frame_len(bytes: Seq<u8>) -> Result<nat, DecodeError> {
    match spec_header(bytes) {
        Ok((header, body)) => Ok(header + body),
        Err(e) => Err(e),
    }
}

/// Takes `bytes` apart as exactly one frame: its first byte and its body.
pub open spec fn spec_split_frame(bytes: Seq<u8>) -> Result<(u8, Seq<u8>), DecodeError> {
    match spec_header(bytes) {
        Ok((header, body)) => if bytes.len() < header + body {
            Err(DecodeError::Truncated)
        } else if bytes.len() > header + body {
            Err(DecodeError::TrailingBytes)
        } else {
            Ok((bytes[0], bytes.skip(header as int)))
        },
        Err(e) => Err(e),
    }
}

/// Whether `bytes` is exactly one frame.
pub open spec fn spec_is_frame(bytes: Seq<u8>) -> bool {
    spec_split_frame(bytes) is Ok
}

/// Takes `bytes` apart as exactly one frame: its first byte and its body.
/// The bytes are refused when they end before the frame does, when their
/// remaining-length field is malformed, and when they go on after the frame.
pub fn split_frame(bytes: &[u8]) -> (result: Result<(u8, &[u8]), DecodeError>)
    ensures
        match result {
            Ok((first, body)) => spec_split_frame(bytes@) == Ok::<(u8, Seq<u8>), DecodeError>(
                (first, body@),
            ),
            Err(e) => spec_split_frame(bytes@) == Err::<(u8, Seq<u8>), DecodeError>(e),
        },
{
    let len: usize = bytes.len();
    if len == 0 {
        return Err(DecodeError::Truncated);
    }
    let field: &[u8] = slice_subrange(bytes, 1, len);
    match decode_variable_int(field) {
        Ok((value, consumed)) => {
            let total: usize = 1 + consumed + value;
            if len < total {
                Err(DecodeError::Truncated)
            } else if len > total {
                Err(DecodeError::TrailingBytes)
            } else {
                let body: &[u8] = slice_subrange(bytes, 1 + consumed, len);
                Ok((bytes[0], body))
            }
        },
        Err(e) => Err(e),
    }
}

/// A frame built from a first byte and a body whose length fits the
/// remaining-length field comes apart into that byte and that body: the field
/// states the body's exact length. Bytes that follow the frame do not change
/// the header that is read.
pub proof fn lemma_split_built_frame(first: u8, tail: Seq<u8>, rest: Seq<u8>)
    requires
        tail.len() <= MAX_VARIABLE_INT,
    ensures
        spec_header(spec_frame(first, tail) + rest) == Ok::<(nat, nat), DecodeError>(
            (1 + spec_encode_variable_int(tail.len()).len(), tail.len()),
        ),
        spec_frame_len(spec_frame(first, tail) + rest) == Ok::<nat, DecodeError>(
            spec_frame(first, tail).len(),
        ),
        spec_split_frame(spec_frame(first, tail)) == Ok::<(u8, Seq<u8>), DecodeError>(
            (first, tail),
        ),
{
    let field = spec_encode_variable_int(tail.len());
    let frame = spec_frame(first, tail);
    lemma_decode_encode(tail.len(), tail + rest);
    lemma_decode_encode(tail.len(), tail);
    assert((frame + rest).drop_first() == field + (tail + rest));
    assert(frame.drop_first() == field + tail);
    assert(frame.skip(1 + field.len() as int) == tail);
}

/// A header that was read in full stays as it is when bytes are added.
pub proof fn lemma_header_ignores_rest(bytes: Seq<u8>, rest: Seq<u8>)
    requires
        spec_header(bytes) != Err::<(nat, nat), DecodeError>(DecodeError::Truncated),
    ensures
        spec_header(bytes + rest) == spec_header(bytes),
{
    assert((bytes + rest).drop_first() == bytes.drop_first() + rest);
    lemma_decode_ignores_rest(bytes.drop_first(), rest, 4);
}

/// Whether `bytes` is the beginning of a frame that has not ended yet: its
/// header is not complete, or announces more bytes than are there.
pub open spec fn spec_is_partial(bytes: Seq<u8>) -> bool {
    match spec_frame_len(bytes) {
        Ok(total) => bytes.len() < total,
        Err(e) => e == DecodeError::Truncated,
    }
}

/// Whether the frame that `bytes` begins has a malformed remaining-length
/// field.
pub open spec fn spec_is_malformed(bytes: Seq<u8>) -> bool {
    spec_frame_len(bytes) == Err::<nat, DecodeError>(DecodeError::MalformedLength)
}

/// How many bytes may be read next without reading past the end of the frame
/// that `pending` begins: the bytes that are still missing when the header
/// has told the frame's length, one byte until then.
pub open spec fn spec_wanted(pending: Seq<u8>) -> nat {
    match spec_frame_len(pending) {
        Ok(total) => if pending.len() < total {
            (total - pending.len()) as nat
        } else {
            1
        },
        Err(_) => 1,
    }
}

/// Cuts a stream into the frames that are complete in it, in order, and what
/// is left behind the last of them: the beginning of a further frame, or
/// everything from a malformed header on.
pub open spec fn spec_split_stream(stream: Seq<u8>) -> (Seq<Seq<u8>>, Seq<u8>)
    decreases stream.len(),
{
    match spec_frame_len(stream) {
        Ok(total) => if total <= stream.len() {
            let (frames, rest) = spec_split_stream(stream.skip(total as int));
            (seq![stream.take(total as int)] + frames, rest)
        } else {
            (Seq::empty(), stream)
        },
        Err(_) => (Seq::empty(), stream),
    }
}

/// The contents of each frame of `frames`.
pub open spec fn spec_frame_views(frames: Seq<Vec<u8>>) -> Seq<Seq<u8>> {
    frames.map_values(|frame: Vec<u8>| frame@)
}

/// One more byte behind the beginning of a frame gives the beginning of that
/// frame still, or exactly that frame, or shows its header to be malformed.
/// A length that the header had told stays as it was.
pub proof fn lemma_partial_push(pending: Seq<u8>, byte: u8)
    requires
        spec_is_partial(pending),
    ensures
        spec_is_partial(pending.push(byte)) || spec_is_frame(pending.push(byte))
            || spec_is_malformed(pending.push(byte)),
        spec_frame_len(pending) is Ok ==> spec_frame_len(pending.push(byte)) == spec_frame_len(
            pending,
        ),
        spec_frame_len(pending) is Err ==> (spec_frame_len(pending.push(byte)) matches Ok(total)
            ==> total >= pending.len() + 1),
{
    let grown = pending.push(byte);
    assert(grown == pending + seq![byte]);
    if spec_frame_len(pending) is Ok {
        lemma_header_ignores_rest(pending, seq![byte]);
    } else if pending.len() > 0 {
        assert(grown.drop_first() == pending.drop_first().push(byte));
        lemma_decode_one_more(pending.drop_first(), byte, 4);
        lemma_decode_bounds(grown.drop_first(), 4);
    }
}

/// The stream cut after `first` and then fed `second` gives what the whole
/// stream gives at once: the frames found in `first`, then those found in
/// what `first` left with `second` behind it. How a stream arrives in pieces
/// does not change the frames that are read from it.
pub proof fn lemma_split_stream_concat(first: Seq<u8>, second: Seq<u8>)
    ensures
        spec_split_stream(first + second) == (
            spec_split_stream(first).0 + spec_split_stream(spec_split_stream(first).1 + second).0,
            spec_split_stream(spec_split_stream(first).1 + second).1,
        ),
    decreases first.len(),
{
    let whole = first + second;
    if let Ok(total) = spec_frame_len(first) {
        if total <= first.len() {
            lemma_header_ignores_rest(first, second);
            assert(whole.take(total as int) == first.take(total as int));
            assert(whole.skip(total as int) == first.skip(total as int) + second);
            lemma_split_stream_concat(first.skip(total as int), second);
        }
    }
}

/// What is left of a stream behind its complete frames is the beginning of a
/// frame or starts with a malformed header; each of the frames found is
/// exactly one frame; and the frames and what is left, put together in
/// order, are the stream.
pub proof fn lemma_split_stream_parts(stream: Seq<u8>)
    ensures
        spec_is_partial(spec_split_stream(stream).1) || spec_is_malformed(
            spec_split_stream(stream).1,
        ),
        forall|i: int|
            0 <= i < spec_split_stream(stream).0.len() ==> spec_is_frame(
                #[trigger] spec_split_stream(stream).0[i],
            ),
        spec_split_stream(stream).0.flatten() + spec_split_stream(stream).1 == stream,
    decreases stream.len(),
{
    lemma_decode_bounds(stream.drop_first(), 4);
    if let Ok(total) = spec_frame_len(stream) {
        if total <= stream.len() {
            let head = stream.take(total as int);
            let (frames, rest) = spec_split_stream(stream.skip(total as int));
            lemma_split_stream_parts(stream.skip(total as int));
            lemma_header_of_prefix(stream, total);
            let found = seq![head] + frames;
            assert(found.drop_first() == frames);
            assert(head + frames.flatten() + rest == head + (frames.flatten() + rest));
        }
    }
}

/// The first `total` bytes of a stream whose header announces a frame of
/// `total` bytes are exactly one frame.
proof fn lemma_header_of_prefix(stream: Seq<u8>, total: nat)
    requires
        spec_frame_len(stream) == Ok::<nat, DecodeError>(total),
        total <= stream.len(),
    ensures
        spec_is_frame(stream.take(total as int)),
        spec_frame_len(stream.take(total as int)) == Ok::<nat, DecodeError>(total),
{
    let head = stream.take(total as int);
    let field = stream.drop_first();
    let consumed = spec_decode_variable_int(field)->Ok_0.1;
    let exact = field.take(consumed as int);
    lemma_decode_of_prefix(field, consumed, 4);
    assert(head.drop_first() == exact + field.subrange(consumed as int, total - 1));
    lemma_decode_ignores_rest(exact, field.subrange(consumed as int, total - 1), 4);
}

/// A field that was read in `consumed` bytes is read the same from those
/// bytes alone.
proof fn lemma_decode_of_prefix(bytes: Seq<u8>, consumed: nat, limit: nat)
    requires
        spec_decode_within(bytes, limit) matches Ok((_, n)) && n == consumed,
    ensures
        consumed <= bytes.len(),
        spec_decode_within(bytes.take(consumed as int), limit) == spec_decode_within(bytes, limit),
    decreases limit,
{
    if bytes[0] >= 128 {
        let inner = bytes.drop_first();
        lemma_decode_of_prefix(inner, (consumed - 1) as nat, (limit - 1) as nat);
        assert(bytes.take(consumed as int).drop_first() == inner.take(consumed - 1));
    }
}

/// Exactly one frame is cut into itself, with nothing left.
pub proof fn lemma_split_one_frame(frame: Seq<u8>)
    requires
        spec_is_frame(frame),
    ensures
        spec_split_stream(frame) == (seq![frame], Seq::<u8>::empty()),
{
    let total = frame.len();
    assert(frame.take(total as int) == frame);
    assert(frame.skip(total as int) == Seq::<u8>::empty());
    assert(spec_split_stream(Seq::<u8>::empty()) == (Seq::<Seq<u8>>::empty(), Seq::<u8>::empty()));
}

/// Two frames sent back to back are cut into exactly those two frames, with
/// nothing left, and so they are when the stream arrives in two pieces cut
/// at any place: the frames found in the first piece, then those found in
/// what it left with the second piece behind it, are the two frames.
pub proof fn lemma_split_two_frames(first: Seq<u8>, second: Seq<u8>, cut: int)
    requires
        spec_is_frame(first),
        spec_is_frame(second),
        0 <= cut <= first.len() + second.len(),
    ensures
        spec_split_stream(first + second) == (seq![first, second], Seq::<u8>::empty()),
        ({
            let stream = first + second;
            let (early, rest) = spec_split_stream(stream.take(cut));
            let (late, left) = spec_split_stream(rest + stream.skip(cut));
            early + late == seq![first, second] && left == Seq::<u8>::empty()
        }),
{
    let stream = first + second;
    lemma_split_one_frame(first);
    lemma_split_one_frame(second);
    lemma_split_stream_concat(first, second);
    lemma_split_stream_concat(stream.take(cut), stream.skip(cut));
    assert(stream.take(cut) + stream.skip(cut) == stream);
}

/// Any number of frames sent back to back are cut into exactly those frames,
/// in the order sent, with nothing left.
pub proof fn lemma_split_frames(frames: Seq<Seq<u8>>)
    requires
        forall|k: int| 0 <= k < frames.len() ==> spec_is_frame(#[trigger] frames[k]),
    ensures
        spec_split_stream(frames.flatten()) == (frames, Seq::<u8>::empty()),
    decreases frames.len(),
{
    if frames.len() > 0 {
        let before = frames.drop_last();
        lemma_split_frames(before);
        lemma_split_one_frame(frames.last());
        lemma_split_stream_concat(before.flatten(), frames.last());
        assert(frames == before.push(frames.last()));
        before.lemma_flatten_push(frames.last());
    }
}

/// The frames read from a stream that arrives in `pieces`, one after the
/// other, by a reader that holds `pending` before the first of them: after
/// each piece the frames that are complete are cut off, and what is left
/// waits for the next piece.
pub open spec fn spec_split_pieces(pending: Seq<u8>, pieces: Seq<Seq<u8>>) -> (
    Seq<Seq<u8>>,
    Seq<u8>,
)
    decreases pieces.len(),
{
    if pieces.len() == 0 {
        (Seq::empty(), pending)
    } else {
        let (early, rest) = spec_split_pieces(pending, pieces.drop_last());
        let (late, left) = spec_split_stream(rest + pieces.last());
        (early + late, left)
    }
}

/// However a stream is cut into pieces, reading it piece by piece gives the
/// frames, and leaves the rest, that reading it at once gives.
pub proof fn lemma_pieces_do_not_matter(pieces: Seq<Seq<u8>>)
    ensures
        spec_split_pieces(Seq::empty(), pieces) == spec_split_stream(pieces.flatten()),
    decreases pieces.len(),
{
    if pieces.len() > 0 {
        let before = pieces.drop_last();
        lemma_pieces_do_not_matter(before);
        lemma_split_stream_concat(before.flatten(), pieces.last());
        assert(pieces == before.push(pieces.last()));
        before.lemma_flatten_push(pieces.last());
    }
}

/// Reading at most as many bytes as `spec_wanted` gives never reaches into
/// the frame after this one: with them the frame that had begun is still
/// not complete, or is exactly complete, or shows a malformed header. Once
/// the header has told the length, reading exactly that many bytes completes
/// the frame.
pub proof fn lemma_wanted_stays_in_frame(pending: Seq<u8>, data: Seq<u8>)
    requires
        spec_is_partial(pending),
        data.len() <= spec_wanted(pending),
    ensures
        spec_is_partial(pending + data) || spec_is_frame(pending + data) || spec_is_malformed(
            pending + data,
        ),
        spec_frame_len(pending) is Ok && data.len() == spec_wanted(pending) ==> spec_is_frame(
            pending + data,
        ),
{
    if spec_frame_len(pending) is Ok {
        lemma_header_ignores_rest(pending, data);
    } else if data.len() > 0 {
        assert(pending + data == pending.push(data[0]));
        lemma_partial_push(pending, data[0]);
    }
}

/// Cuts a byte stream into frames. It is fed bytes as they arrive, in pieces
/// of any size, and hands out each frame once its last byte is there. It
/// holds the bytes of the frame that has begun and not ended.
pub struct FrameReader {
    buffer: Vec<u8>,
    total: Option<usize>,
}

impl View for FrameReader {
    type V = Seq<u8>;

    /// The bytes of the frame that has begun and not ended.
    closed spec fn view(&self) -> Seq<u8> {
        self.buffer@
    }
}

impl FrameReader {
    #[verifier::type_invariant]
    spec fn well_formed(&self) -> bool {
        &&& spec_is_partial(self.buffer@)
        &&& match self.total {
            Some(total) => spec_frame_len(self.buffer@) == Ok::<nat, DecodeError>(total as nat),
            None => spec_frame_len(self.buffer@) is Err,
        }
    }

    /// A reader at the start of a stream.
    pub fn new() -> (reader: Self)
        ensures
            reader@ == Seq::<u8>::empty(),
    {
        FrameReader { buffer: Vec::new(), total: None }
    }

    /// How many bytes to read next at most, so that no byte of the frame
    /// after this one is read: at least one.
    pub fn wanted(&self) -> (count: usize)
        ensures
            spec_is_partial(self@),
            count == spec_wanted(self@),
            count >= 1,
    {
        proof {
            use_type_invariant(self);
        }
        match self.total {
            Some(total) => total - self.buffer.len(),
            None => 1,
        }
    }

    /// Takes the next byte of the stream. With it the frame that had begun
    /// goes on (`Ok(None)`), or ends and is handed out (`Ok(Some(..))`), or
    /// shows a malformed remaining-length field (`Err`); after the last two
    /// the reader holds nothing.
    pub fn push(&mut self, byte: u8) -> (result: Result<Option<Vec<u8>>, DecodeError>)
        ensures
            spec_is_partial(old(self)@),
            match result {
                Ok(None) => spec_is_partial(old(self)@.push(byte)) && final(self)@ == old(
                    self,
                )@.push(byte),
                Ok(Some(frame)) => spec_is_frame(old(self)@.push(byte)) && frame@ == old(
                    self,
                )@.push(byte) && final(self)@ == Seq::<u8>::empty(),
                Err(e) => spec_is_malformed(old(self)@.push(byte)) && e
                    == DecodeError::MalformedLength && final(self)@ == Seq::<u8>::empty(),
            },
    {
        proof {
            use_type_invariant(&*self);
            lemma_partial_push(self@, byte);
        }
        let mut taken: FrameReader = FrameReader::new();
        core::mem::swap(self, &mut taken);
        let FrameReader { mut buffer, mut total } = taken;
        buffer.push(byte);
        if total.is_none() && buffer.len() >= 2 {
            let field: &[u8] = slice_subrange(buffer.as_slice(), 1, buffer.len());
            match decode_variable_int(field) {
                Ok((value, consumed)) => {
                    total = Some(1 + consumed + value);
                },
                Err(DecodeError::Truncated) => {},
                Err(_) => {
                    return Err(DecodeError::MalformedLength);
                },
            }
        }
        match total {
            Some(length) => {
                if buffer.len() == length {
                    return Ok(Some(buffer));
                }
            },
            None => {},
        }
        *self = FrameReader { buffer, total };
        Ok(None)
    }

    /// Takes the next piece of the stream, of any size, and adds the frames
    /// that end in it to `frames`, in order. At a malformed remaining-length
    /// field it stops with an error, having added the frames before it, and
    /// holds nothing; else it holds what the piece left of a frame that has
    /// begun.
    pub fn feed(&mut self, chunk: &[u8], frames: &mut Vec<Vec<u8>>) -> (result: Result<
        (),
        DecodeError,
    >)
        ensures
            spec_is_partial(old(self)@),
            spec_frame_views(final(frames)@) == spec_frame_views(old(frames)@) + spec_split_stream(
                old(self)@ + chunk@,
            ).0,
            match result {
                Ok(_) => spec_is_partial(spec_split_stream(old(self)@ + chunk@).1) && final(self)@
                    == spec_split_stream(old(self)@ + chunk@).1,
                Err(e) => spec_is_malformed(spec_split_stream(old(self)@ + chunk@).1) && e
                    == DecodeError::MalformedLength && final(self)@ == Seq::<u8>::empty(),
            },
    {
        let ghost start = self@;
        let ghost before = spec_frame_views(frames@);
        let ghost mut found: Seq<Seq<u8>> = Seq::empty();
        proof {
            use_type_invariant(&*self);
        }
        let len: usize = chunk.len();
        let mut index: usize = 0;
        while index < len
            invariant
                index <= len,
                len == chunk@.len(),
                start == old(self)@,
                before == spec_frame_views(old(frames)@),
                spec_is_partial(start),
                spec_is_partial(self@),
                spec_split_stream(start + chunk@.take(index as int)) == (found, self@),
                spec_frame_views(frames@) == before + found,
            decreases len - index,
        {
            let ghost pending = self@;
            let ghost fed = start + chunk@.take(index as int);
            let byte: u8 = chunk[index];
            proof {
                assert(start + chunk@.take(index as int + 1) == fed + seq![byte]);
                assert(pending + seq![byte] == pending.push(byte));
                lemma_split_stream_concat(fed, seq![byte]);
            }
            match self.push(byte) {
                Ok(None) => {},
                Ok(Some(frame)) => {
                    proof {
                        lemma_split_one_frame(frame@);
                        assert(spec_frame_views(frames@.push(frame)) == spec_frame_views(
                            frames@,
                        ).push(frame@));
                        found = found + seq![frame@];
                    }
                    frames.push(frame);
                },
                Err(e) => {
                    proof {
                        let grown = pending.push(byte);
                        let later = chunk@.skip(index as int + 1);
                        assert(fed + seq![byte] + later == start + chunk@);
                        lemma_split_stream_concat(fed + seq![byte], later);
                        lemma_header_ignores_rest(grown, later);
                    }
                    return Err(e);
                },
            }
            index = index + 1;
        }
        proof {
            assert(chunk@.take(len as int) == chunk@);
        }
        Ok(())
    }

    /// Closes the stream: in order where a frame has just ended or none has
    /// begun, `Truncated` inside a frame.
    pub fn finish(&self) -> (result: Result<(), DecodeError>)
        ensures
            self@.len() == 0 ==> result is Ok,
            self@.len() > 0 ==> result == Err::<(), DecodeError>(DecodeError::Truncated),
    {
        if self.buffer.len() == 0 {
            Ok(())
        } else {
            Err(DecodeError::Truncated)
        }
    }
}

} // verus!

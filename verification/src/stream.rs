//! The rules of the stream driver: how a stream is cut into chunks, what is
//! done to each chunk, when reading stops, and which failures end a run
//! cleanly. The driver's loop over a source and a sink is written around
//! these functions; `read_process_write` is that loop over a source and a
//! sink held in memory.

use vstd::prelude::*;
use crate::codec::{Base64, DecodingError, DecodingErrorKind};
use crate::alphabet::{is_symbol, PAD};
use crate::model::{
    aligned, decode_spec, encode_spec, encoded_len, lemma_decode_encode, lemma_encode_concat,
    lemma_encoded_pads, symbols_allowed,
};

verus! {

/// What the driver does to its input.
#[derive(Debug, Clone, Copy, PartialEq, Eq, Structural)]
pub enum OperationMode {
    Encode,
    Decode,
}

/// The size of the chunk buffer, in bytes. It is a multiple of three, so
/// that encoded chunks join without padding between them, and of four, so
/// that a chunk of encoded input is a whole number of groups.
pub const BUFFER_SIZE: usize = 1023 * 1024;

/// The chunk buffer is a whole number of 3-byte groups and of 4-symbol
/// groups.
pub proof fn lemma_buffer_size_in_whole_groups()
    ensures
        BUFFER_SIZE > 0,
        BUFFER_SIZE % 3 == 0,
        BUFFER_SIZE % 4 == 0,
{
}

/// Whether `c` is ASCII whitespace: space, tab, line feed, form feed or
/// carriage return.
pub open spec fn is_whitespace(c: u8) -> bool {
    c == 32 || c == 9 || c == 10 || c == 12 || c == 13
}

/// Whether `c` is ASCII whitespace.
pub fn is_ascii_whitespace(c: u8) -> (w: bool)
    ensures
        w == is_whitespace(c),
{
    c == 32 || c == 9 || c == 10 || c == 12 || c == 13
}

/// `s` without the whitespace that ends it. Whitespace elsewhere stays.
pub open spec fn trim_spec(s: Seq<u8>) -> Seq<u8>
    decreases s.len(),
{
    if s.len() > 0 && is_whitespace(s.last()) {
        trim_spec(s.drop_last())
    } else {
        s
    }
}

/// What is left of a sequence when its trailing whitespace goes is a prefix
/// of it that ends in no whitespace, and all that went is whitespace.
pub proof fn lemma_trim_spec(s: Seq<u8>)
    ensures
        trim_spec(s).len() <= s.len(),
        trim_spec(s) == s.take(trim_spec(s).len() as int),
        trim_spec(s).len() > 0 ==> !is_whitespace(trim_spec(s).last()),
        forall|i: int| trim_spec(s).len() <= i < s.len() ==> is_whitespace(#[trigger] s[i]),
    decreases s.len(),
{
    if s.len() > 0 && is_whitespace(s.last()) {
        let t = s.drop_last();
        lemma_trim_spec(t);
        assert(t.take(trim_spec(t).len() as int) =~= s.take(trim_spec(t).len() as int));
        assert forall|i: int| trim_spec(s).len() <= i < s.len() implies is_whitespace(
            #[trigger] s[i],
        ) by {
            if i < t.len() {
                assert(s[i] == t[i]);
            }
        }
    } else {
        assert(s.take(s.len() as int) =~= s);
    }
}

/// The part of `buffer` before its trailing whitespace.
pub fn trim_trailing_whitespace(buffer: &[u8]) -> (trimmed: &[u8])
    ensures
        trimmed@ == trim_spec(buffer@),
{
    let mut end: usize = buffer.len();
    proof {
        assert(buffer@.take(buffer@.len() as int) =~= buffer@);
    }
    while end > 0 && is_ascii_whitespace(buffer[end - 1])
        invariant
            end <= buffer@.len(),
            trim_spec(buffer@) == trim_spec(buffer@.take(end as int)),
        decreases end,
    {
        proof {
            assert(buffer@.take(end as int).drop_last() =~= buffer@.take(end - 1));
        }
        end -= 1;
    }
    proof {
        assert(buffer@.subrange(0, end as int) =~= buffer@.take(end as int));
    }
    &buffer[0..end]
}

/// What a call of `decode` on `s` gives: the decoded bytes, or the kind of
/// the error.
pub open spec fn decode_outcome(s: Seq<u8>) -> Result<Seq<u8>, DecodingErrorKind> {
    if !aligned(s) {
        Err(DecodingErrorKind::InvalidLength)
    } else if !symbols_allowed(s) {
        Err(DecodingErrorKind::InvalidCharacter)
    } else {
        Ok(decode_spec(s))
    }
}

/// What the driver makes of one chunk: its encoding, or the decoding of
/// the chunk without its trailing whitespace.
pub open spec fn chunk_outcome(mode: OperationMode, chunk: Seq<u8>) -> Result<
    Seq<u8>,
    DecodingErrorKind,
> {
    match mode {
        OperationMode::Encode => Ok(encode_spec(chunk)),
        OperationMode::Decode => decode_outcome(trim_spec(chunk)),
    }
}

/// Whether `result` is `outcome`, bytes for bytes or kind for kind.
pub open spec fn is_outcome(
    result: Result<Vec<u8>, DecodingError>,
    outcome: Result<Seq<u8>, DecodingErrorKind>,
) -> bool {
    match result {
        Ok(v) => outcome matches Ok(bytes) && bytes == v@,
        Err(e) => outcome matches Err(kind) && kind == e@,
    }
}

/// Transforms one chunk: encodes it, or strips its trailing whitespace and
/// decodes the rest.
pub fn transform(codec: &Base64, mode: OperationMode, chunk: &[u8]) -> (result: Result<
    Vec<u8>,
    DecodingError,
>)
    ensures
        is_outcome(result, chunk_outcome(mode, chunk@)),
{
    match mode {
        OperationMode::Encode => Ok(codec.encode(chunk)),
        OperationMode::Decode => codec.decode(trim_trailing_whitespace(chunk)),
    }
}

/// What the driver does with one read: the bytes to write, and whether the
/// read was the last.
pub struct ChunkOutput {
    /// The transformed chunk.
    pub output: Vec<u8>,
    /// Whether the read was short, which ends the stream.
    pub last: bool,
}

/// Handles one read of `read` bytes into `buffer`: transforms the bytes
/// read, and tells a short read, which is the last, from a full one.
pub fn process_chunk(codec: &Base64, mode: OperationMode, buffer: &[u8], read: usize) -> (result:
    Result<ChunkOutput, DecodingError>)
    requires
        read <= buffer@.len(),
    ensures
        match result {
            Ok(step) => {
                &&& chunk_outcome(mode, buffer@.take(read as int)) matches Ok(bytes)
                &&& bytes == step.output@
                &&& step.last == (read < buffer@.len())
            },
            Err(e) => {
                &&& chunk_outcome(mode, buffer@.take(read as int)) matches Err(kind)
                &&& kind == e@
            },
        },
{
    proof {
        assert(buffer@.subrange(0, read as int) =~= buffer@.take(read as int));
    }
    match transform(codec, mode, &buffer[0..read]) {
        Ok(output) => Ok(ChunkOutput { output, last: read < buffer.len() }),
        Err(e) => Err(e),
    }
}

/// `outcome` with `head` written before its bytes; an error stays as it is.
pub open spec fn after(head: Seq<u8>, outcome: Result<Seq<u8>, DecodingErrorKind>) -> Result<
    Seq<u8>,
    DecodingErrorKind,
> {
    match outcome {
        Ok(tail) => Ok(head + tail),
        Err(kind) => Err(kind),
    }
}

/// What the driver makes of a whole stream that it reads in chunks of
/// `chunk_size` bytes: the outputs of its chunks joined in order, up to
/// and with the first short chunk, or the first error.
pub open spec fn stream_outcome(mode: OperationMode, input: Seq<u8>, chunk_size: nat) -> Result<
    Seq<u8>,
    DecodingErrorKind,
>
    decreases input.len(),
{
    if chunk_size == 0 || input.len() < chunk_size {
        chunk_outcome(mode, input)
    } else {
        match chunk_outcome(mode, input.take(chunk_size as int)) {
            Err(kind) => Err(kind),
            Ok(head) => after(
                head,
                stream_outcome(mode, input.skip(chunk_size as int), chunk_size),
            ),
        }
    }
}

/// Streaming equivalence: encoding a stream chunk by chunk gives the
/// encoding of the whole stream, where the chunk size is a multiple of
/// three.
pub proof fn lemma_stream_encode(input: Seq<u8>, chunk_size: nat)
    requires
        chunk_size > 0,
        chunk_size % 3 == 0,
    ensures
        stream_outcome(OperationMode::Encode, input, chunk_size) matches Ok(output)
            && output == encode_spec(input),
    decreases input.len(),
{
    if input.len() >= chunk_size {
        let head = input.take(chunk_size as int);
        let tail = input.skip(chunk_size as int);
        lemma_stream_encode(tail, chunk_size);
        lemma_encode_concat(head, tail);
        assert(head + tail =~= input);
    }
}

/// A chunk that is an encoding decodes to what was encoded: an encoding
/// ends in no whitespace, so nothing of it is stripped.
pub proof fn lemma_chunk_decode_of_encoding(b: Seq<u8>)
    ensures
        trim_spec(encode_spec(b)) == encode_spec(b),
        chunk_outcome(OperationMode::Decode, encode_spec(b)) matches Ok(output) && output == b,
{
    lemma_encoded_pads(b);
    lemma_decode_encode(b);
    let e = encode_spec(b);
    if e.len() > 0 {
        assert(is_symbol(e[e.len() - 1]) || e[e.len() - 1] == PAD);
    }
}

/// The encoding of `b` falls into the encoding of its first `bytes` bytes
/// and that of the rest, where `bytes` is a multiple of three.
proof fn lemma_split_encoding(b: Seq<u8>, bytes: int)
    requires
        0 <= bytes <= b.len(),
        bytes % 3 == 0,
    ensures
        encode_spec(b.take(bytes)).len() == 4 * (bytes / 3),
        encode_spec(b).len() >= 4 * (bytes / 3),
        encode_spec(b).take(4 * (bytes / 3)) == encode_spec(b.take(bytes)),
        encode_spec(b).skip(4 * (bytes / 3)) == encode_spec(b.skip(bytes)),
{
    let head = b.take(bytes);
    let tail = b.skip(bytes);
    assert(head + tail =~= b);
    lemma_encode_concat(head, tail);
    let eh = encode_spec(head);
    let et = encode_spec(tail);
    assert(eh.len() == 4 * (bytes / 3));
    assert((eh + et).take(eh.len() as int) =~= eh);
    assert((eh + et).skip(eh.len() as int) =~= et);
}

/// Where the encoding of `n` bytes fills a chunk of `chunk_size` symbols,
/// either the bytes are more than the chunk holds, or the encoding is
/// exactly one chunk.
proof fn lemma_full_chunk(n: nat, chunk_size: nat)
    requires
        chunk_size > 0,
        chunk_size % 4 == 0,
        encoded_len(n) >= chunk_size,
    ensures
        n > 0,
        3 * (chunk_size / 4) % 3 == 0,
        4 * (3 * (chunk_size / 4) / 3) == chunk_size,
        n <= 3 * (chunk_size / 4) ==> encoded_len(n) == chunk_size,
{
}

/// Decoding an encoding chunk by chunk gives what was encoded, where the
/// chunk size is a multiple of four.
pub proof fn lemma_stream_decode_of_encoding(b: Seq<u8>, chunk_size: nat)
    requires
        chunk_size > 0,
        chunk_size % 4 == 0,
    ensures
        stream_outcome(OperationMode::Decode, encode_spec(b), chunk_size) matches Ok(output)
            && output == b,
    decreases b.len(),
{
    let e = encode_spec(b);
    let size = chunk_size as int;
    let bytes = 3 * (size / 4);
    if e.len() < chunk_size {
        lemma_chunk_decode_of_encoding(b);
    } else {
        lemma_full_chunk(b.len(), chunk_size);
        let head = if b.len() <= bytes {
            b
        } else {
            b.take(bytes)
        };
        let tail = if b.len() <= bytes {
            Seq::<u8>::empty()
        } else {
            b.skip(bytes)
        };
        assert(e.take(size) == encode_spec(head) && e.skip(size) == encode_spec(tail)) by {
            if b.len() <= bytes {
                assert(e.take(size) =~= e);
                assert(e.skip(size) =~= encode_spec(tail));
            } else {
                lemma_split_encoding(b, bytes);
            }
        }
        assert(head + tail =~= b);
        lemma_chunk_decode_of_encoding(head);
        lemma_stream_decode_of_encoding(tail, chunk_size);
    }
}

/// Writing `a` and then `b` before an outcome is writing `a + b` before it.
proof fn lemma_after_after(a: Seq<u8>, b: Seq<u8>, outcome: Result<Seq<u8>, DecodingErrorKind>)
    ensures
        after(a, after(b, outcome)) == after(a + b, outcome),
{
    if let Ok(tail) = outcome {
        assert(a + (b + tail) =~= (a + b) + tail);
    }
}

/// Runs the driver over a stream held in memory: reads `input` in chunks
/// of `chunk_size` bytes until a short read, transforms each chunk, and
/// joins the outputs in order. The first error ends the run.
pub fn read_process_write(
    input: &[u8],
    chunk_size: usize,
    codec: &Base64,
    mode: OperationMode,
) -> (result: Result<Vec<u8>, DecodingError>)
    requires
        chunk_size > 0,
    ensures
        is_outcome(result, stream_outcome(mode, input@, chunk_size as nat)),
{
    let mut written: Vec<u8> = Vec::new();
    let mut position: usize = 0;
    proof {
        assert(input@.skip(0) =~= input@);
        let whole = stream_outcome(mode, input@, chunk_size as nat);
        if let Ok(tail) = whole {
            assert(written@ + tail =~= tail);
        }
    }
    loop
        invariant
            chunk_size > 0,
            position <= input@.len(),
            stream_outcome(mode, input@, chunk_size as nat) == after(
                written@,
                stream_outcome(mode, input@.skip(position as int), chunk_size as nat),
            ),
        decreases input@.len() - position,
    {
        let left: usize = input.len() - position;
        let read: usize = if left < chunk_size {
            left
        } else {
            chunk_size
        };
        let ghost rest = input@.skip(position as int);
        proof {
            assert(input@.subrange(position as int, position + read) =~= rest.take(read as int));
            assert(rest.take(rest.len() as int) =~= rest);
            assert(rest.skip(read as int) =~= input@.skip(position + read));
        }
        let mut output: Vec<u8> = match transform(codec, mode, &input[position..position + read]) {
            Ok(output) => output,
            Err(e) => {
                return Err(e);
            },
        };
        let ghost before = written@;
        let ghost produced = output@;
        written.append(&mut output);
        position += read;
        if read < chunk_size {
            return Ok(written);
        }
        proof {
            lemma_after_after(
                before,
                produced,
                stream_outcome(mode, input@.skip(position as int), chunk_size as nat),
            );
        }
    }
}

/// What one call of a reader gave.
#[derive(Debug, Clone, Copy, PartialEq, Eq, Structural)]
pub enum ReadEvent {
    /// This many bytes were read; zero at the end of the input or where
    /// the buffer has no room left.
    Read(usize),
    /// The call was interrupted before it read anything.
    Interrupted,
    /// The call failed.
    Failed,
}

/// What to do after one call of a reader, while a chunk is being filled.
#[derive(Debug, Clone, Copy, PartialEq, Eq, Structural)]
pub enum ReadAction {
    /// Call the reader again, on the part of the buffer from this offset.
    ReadFrom(usize),
    /// The chunk is complete: it holds this many bytes.
    Finish(usize),
    /// Give up, with the reader's error.
    Fail,
}

/// The next action of the loop that fills a chunk of `capacity` bytes,
/// which holds `total_read` bytes so far. Bytes read are counted and the
/// reader is called again; a read of nothing completes the chunk; an
/// interrupted call is made again; a failed one ends the loop.
pub fn read_step(total_read: usize, capacity: usize, event: ReadEvent) -> (action: ReadAction)
    requires
        total_read <= capacity,
        event matches ReadEvent::Read(n) ==> total_read + n <= capacity,
    ensures
        action == match event {
            ReadEvent::Read(n) => if n == 0 {
                ReadAction::Finish(total_read)
            } else {
                ReadAction::ReadFrom((total_read + n) as usize)
            },
            ReadEvent::Interrupted => ReadAction::ReadFrom(total_read),
            ReadEvent::Failed => ReadAction::Fail,
        },
{
    match event {
        ReadEvent::Read(n) => {
            if n == 0 {
                ReadAction::Finish(total_read)
            } else {
                ReadAction::ReadFrom(total_read + n)
            }
        },
        ReadEvent::Interrupted => ReadAction::ReadFrom(total_read),
        ReadEvent::Failed => ReadAction::Fail,
    }
}

/// Why a run of the driver stopped early.
#[derive(Debug, Clone, Copy, PartialEq, Eq, Structural)]
pub enum Failure {
    /// A chunk did not decode.
    Decoding(DecodingErrorKind),
    /// The sink was closed by its reader.
    BrokenPipe,
    /// Any other failure of the source or the sink.
    Io,
}

/// The result of a run, given how its loop ended: a closed sink ends the
/// run cleanly; every other failure stands.
pub fn conclude(outcome: Result<(), Failure>) -> (result: Result<(), Failure>)
    ensures
        result == match outcome {
            Err(Failure::BrokenPipe) => Ok::<(), Failure>(()),
            _ => outcome,
        },
{
    match outcome {
        Err(Failure::BrokenPipe) => Ok(()),
        other => other,
    }
}

} // verus!

//! Reassembling blocks of a stream into chunks that end on a line break.
//!
//! A [`ChunkDispatcher`] is fed the blocks of a stream in order. It keeps the
//! bytes that follow the last line break seen so far and hands out a chunk
//! whenever a block completes at least one line. No byte is lost, repeated or
//! moved: the chunks handed out, followed by what is still pending, are always
//! exactly the bytes fed in.

use vstd::prelude::*;
use crate::lines::{find_new_line_pos, has_no_newline, is_last_newline, NEWLINE};

verus! {

/// The bytes of `chunks`, one chunk after the other.
pub open spec fn concat(chunks: Seq<Seq<u8>>) -> Seq<u8>
    decreases chunks.len(),
{
    if chunks.len() == 0 {
        Seq::<u8>::empty()
    } else {
        concat(chunks.drop_last()) + chunks.last()
    }
}

/// The contents of each chunk of `chunks`.
pub open spec fn contents(chunks: Seq<Vec<u8>>) -> Seq<Seq<u8>> {
    Seq::new(chunks.len(), |i: int| chunks[i]@)
}

/// The chunk that a block releases when it arrives on top of `pending`:
/// none if the block holds no line break, else `pending` followed by the
/// block up to and including its last line break.
pub open spec fn released(pending: Seq<u8>, block: Seq<u8>) -> Option<Seq<u8>> {
    if has_no_newline(block) {
        None
    } else {
        let k = choose|k: int| is_last_newline(block, k);
        Some(pending + block.subrange(0, k + 1))
    }
}

/// The bytes left pending after a block arrives on top of `pending`: what
/// follows the block's last line break, or everything if it has none.
pub open spec fn carried(pending: Seq<u8>, block: Seq<u8>) -> Seq<u8> {
    if has_no_newline(block) {
        pending + block
    } else {
        let k = choose|k: int| is_last_newline(block, k);
        block.subrange(k + 1, block.len() as int)
    }
}

/// The chunk released when the stream ends with `pending` left over.
pub open spec fn flushed(pending: Seq<u8>) -> Option<Seq<u8>> {
    if pending.len() == 0 {
        None
    } else {
        Some(pending)
    }
}

/// `acc` with the chunk `c` appended, if there is one.
pub open spec fn with_chunk(acc: Seq<Seq<u8>>, c: Option<Seq<u8>>) -> Seq<Seq<u8>> {
    match c {
        Some(s) => acc.push(s),
        None => acc,
    }
}

/// The end of the block that starts at `pos` when `input` is read in blocks
/// of `block_size` bytes.
pub open spec fn block_end(input: Seq<u8>, block_size: int, pos: int) -> int {
    if pos + block_size < input.len() {
        pos + block_size
    } else {
        input.len() as int
    }
}

/// The chunks released while reading `input` from `pos` on in blocks of
/// `block_size` bytes, appended to `acc`, with `pending` carried in.
pub open spec fn chunks_from(
    input: Seq<u8>,
    block_size: int,
    pos: int,
    pending: Seq<u8>,
    acc: Seq<Seq<u8>>,
) -> Seq<Seq<u8>>
    decreases input.len() - pos,
{
    if block_size <= 0 || pos < 0 || pos >= input.len() {
        with_chunk(acc, flushed(pending))
    } else {
        let end = block_end(input, block_size, pos);
        let block = input.subrange(pos, end);
        chunks_from(
            input,
            block_size,
            end,
            carried(pending, block),
            with_chunk(acc, released(pending, block)),
        )
    }
}

/// The chunks released for the whole of `input`, read in blocks of
/// `block_size` bytes.
pub open spec fn stream_chunks(input: Seq<u8>, block_size: int) -> Seq<Seq<u8>> {
    chunks_from(input, block_size, 0, Seq::<u8>::empty(), Seq::<Seq<u8>>::empty())
}

/// Appending a chunk appends its bytes.
pub proof fn lemma_concat_push(acc: Seq<Seq<u8>>, c: Seq<u8>)
    ensures
        concat(acc.push(c)) == concat(acc) + c,
{
    assert(acc.push(c).drop_last() =~= acc);
}

/// A block's released chunk and carried bytes together are the pending bytes
/// followed by the block.
pub proof fn lemma_step_keeps_bytes(pending: Seq<u8>, block: Seq<u8>)
    ensures
        match released(pending, block) {
            Some(c) => c + carried(pending, block) == pending + block,
            None => carried(pending, block) == pending + block,
        },
{
    if !has_no_newline(block) {
        lemma_some_last_newline(block, block.len() as int);
        let k = choose|k: int| is_last_newline(block, k);
        assert((pending + block.subrange(0, k + 1)) + block.subrange(k + 1, block.len() as int)
            =~= pending + block);
    }
}

/// A released chunk ends on a line break, and what a block with a line break
/// leaves pending holds none.
pub proof fn lemma_released_ends_line(pending: Seq<u8>, block: Seq<u8>)
    ensures
        match released(pending, block) {
            Some(c) => c.len() > 0 && c.last() == NEWLINE && has_no_newline(
                carried(pending, block),
            ),
            None => true,
        },
{
    if !has_no_newline(block) {
        lemma_some_last_newline(block, block.len() as int);
        let k = choose|k: int| is_last_newline(block, k);
        let c = pending + block.subrange(0, k + 1);
        assert(c.last() == block[k]);
    }
}

/// If `bytes` holds a line break before `upto`, one of them is the last one
/// before `upto`.
pub proof fn lemma_some_last_newline(bytes: Seq<u8>, upto: int)
    requires
        0 <= upto <= bytes.len(),
        exists|j: int| 0 <= j < upto && bytes[j] == NEWLINE,
        forall|j: int| upto <= j < bytes.len() ==> bytes[j] != NEWLINE,
    ensures
        exists|k: int| is_last_newline(bytes, k),
    decreases upto,
{
    if bytes[upto - 1] == NEWLINE {
        assert(is_last_newline(bytes, upto - 1));
    } else {
        lemma_some_last_newline(bytes, upto - 1);
    }
}

/// Whatever the block size, the chunks released for a stream, taken in
/// order, are the stream itself, byte for byte.
pub proof fn lemma_chunks_reproduce_stream(input: Seq<u8>, block_size: int)
    requires
        block_size > 0,
    ensures
        concat(stream_chunks(input, block_size)) == input,
{
    let e = Seq::<Seq<u8>>::empty();
    assert(concat(e) + Seq::<u8>::empty() =~= input.subrange(0, 0));
    lemma_chunks_from_keeps_bytes(input, block_size, 0, Seq::<u8>::empty(), e);
}

/// Reading on from `pos` keeps every byte: if the chunks so far and the
/// pending bytes make up the stream before `pos`, the final chunks make up
/// the whole stream.
pub proof fn lemma_chunks_from_keeps_bytes(
    input: Seq<u8>,
    block_size: int,
    pos: int,
    pending: Seq<u8>,
    acc: Seq<Seq<u8>>,
)
    requires
        block_size > 0,
        0 <= pos <= input.len(),
        concat(acc) + pending == input.subrange(0, pos),
    ensures
        concat(chunks_from(input, block_size, pos, pending, acc)) == input,
    decreases input.len() - pos,
{
    if pos >= input.len() {
        assert(input.subrange(0, pos) =~= input);
        if pending.len() > 0 {
            lemma_concat_push(acc, pending);
        } else {
            assert(concat(acc) + pending =~= concat(acc));
        }
    } else {
        let end = block_end(input, block_size, pos);
        let block = input.subrange(pos, end);
        let next = with_chunk(acc, released(pending, block));
        lemma_step_keeps_bytes(pending, block);
        match released(pending, block) {
            Some(c) => {
                lemma_concat_push(acc, c);
                assert(concat(next) + carried(pending, block) =~= concat(acc) + (c + carried(
                    pending,
                    block,
                )));
                assert(concat(acc) + (pending + block) =~= (concat(acc) + pending) + block);
            },
            None => {
                assert(concat(acc) + (pending + block) =~= (concat(acc) + pending) + block);
            },
        }
        assert(input.subrange(0, pos) + block =~= input.subrange(0, end));
        lemma_chunks_from_keeps_bytes(input, block_size, end, carried(pending, block), next);
    }
}

/// The bytes pending after the blocks `blocks` have arrived, one after the
/// other, at a dispatcher that began with nothing.
pub open spec fn pending_after(blocks: Seq<Seq<u8>>) -> Seq<u8>
    decreases blocks.len(),
{
    if blocks.len() == 0 {
        Seq::<u8>::empty()
    } else {
        carried(pending_after(blocks.drop_last()), blocks.last())
    }
}

/// The chunks released, in order, while the blocks `blocks` arrived.
pub open spec fn released_by(blocks: Seq<Seq<u8>>) -> Seq<Seq<u8>>
    decreases blocks.len(),
{
    if blocks.len() == 0 {
        Seq::<Seq<u8>>::empty()
    } else {
        with_chunk(
            released_by(blocks.drop_last()),
            released(pending_after(blocks.drop_last()), blocks.last()),
        )
    }
}

/// However a stream is cut into blocks, the chunks released so far followed
/// by the pending bytes are the blocks read so far, byte for byte.
pub proof fn lemma_blocks_reproduce_stream(blocks: Seq<Seq<u8>>)
    ensures
        concat(released_by(blocks)) + pending_after(blocks) == concat(blocks),
    decreases blocks.len(),
{
    if blocks.len() == 0 {
        assert(concat(released_by(blocks)) + pending_after(blocks) =~= concat(blocks));
    } else {
        let before = blocks.drop_last();
        let pending = pending_after(before);
        let block = blocks.last();
        lemma_blocks_reproduce_stream(before);
        lemma_step_keeps_bytes(pending, block);
        match released(pending, block) {
            Some(c) => {
                lemma_concat_push(released_by(before), c);
                assert(concat(released_by(blocks)) + carried(pending, block) =~= concat(
                    released_by(before),
                ) + (c + carried(pending, block)));
                assert(concat(released_by(before)) + (pending + block) =~= (concat(
                    released_by(before),
                ) + pending) + block);
            },
            None => {
                assert(concat(released_by(before)) + (pending + block) =~= (concat(
                    released_by(before),
                ) + pending) + block);
            },
        }
    }
}

/// Why a dispatcher refused a block.
#[derive(Clone, Copy, Debug, PartialEq, Eq, Structural)]
pub enum DispatchError {
    /// The record that the block leaves unfinished is longer than allowed.
    RecordTooLong,
}

/// The bytes of a stream that have been read but not yet handed out.
pub struct ChunkDispatcher {
    carry: Vec<u8>,
}

impl ChunkDispatcher {
    /// The bytes read since the last line break that was handed out.
    pub closed spec fn pending(&self) -> Seq<u8> {
        self.carry@
    }

    /// A dispatcher at the start of a stream, with nothing pending.
    pub fn new() -> (d: Self)
        ensures
            d.pending() == Seq::<u8>::empty(),
    {
        ChunkDispatcher { carry: Vec::new() }
    }

    /// The number of pending bytes.
    pub fn pending_len(&self) -> (n: usize)
        ensures
            n == self.pending().len(),
    {
        self.carry.len()
    }

    /// Takes the next block of the stream. If the block holds a line break,
    /// the pending bytes and the block up to its last line break leave as one
    /// chunk, and the rest of the block becomes pending; if not, the whole
    /// block is added to the pending bytes.
    pub fn push_block(&mut self, block: &[u8]) -> (chunk: Option<Vec<u8>>)
        ensures
            match chunk {
                Some(c) => released(old(self).pending(), block@) == Some(c@),
                None => released(old(self).pending(), block@).is_none(),
            },
            final(self).pending() == carried(old(self).pending(), block@),
    {
        match find_new_line_pos(block) {
            None => {
                self.carry.extend_from_slice(block);
                None
            },
            Some(k) => {
                proof {
                    let w = choose|w: int| is_last_newline(block@, w);
                    assert(is_last_newline(block@, k as int));
                    assert(w == k);
                    assert(k < block.len());
                }
                let mut chunk: Vec<u8> = Vec::new();
                chunk.append(&mut self.carry);
                chunk.extend_from_slice(vstd::slice::slice_subrange(block, 0, k + 1));
                self.carry.extend_from_slice(vstd::slice::slice_subrange(block, k + 1, block.len()));
                proof {
                    assert(chunk@ =~= old(self).pending() + block@.subrange(0, k + 1));
                    assert(self.carry@ =~= block@.subrange(k + 1, block@.len() as int));
                }
                Some(chunk)
            },
        }
    }

    /// Takes the next block as `push_block` does, unless more than `limit`
    /// bytes would then be pending: a record longer than `limit` is refused,
    /// and the dispatcher stays as it was.
    pub fn push_block_bounded(&mut self, block: &[u8], limit: usize) -> (r: Result<
        Option<Vec<u8>>,
        DispatchError,
    >)
        ensures
            match r {
                Ok(chunk) => {
                    &&& carried(old(self).pending(), block@).len() <= limit
                    &&& match chunk {
                        Some(c) => released(old(self).pending(), block@) == Some(c@),
                        None => released(old(self).pending(), block@).is_none(),
                    }
                    &&& final(self).pending() == carried(old(self).pending(), block@)
                },
                Err(e) => {
                    &&& e == DispatchError::RecordTooLong
                    &&& carried(old(self).pending(), block@).len() > limit
                    &&& final(self).pending() == old(self).pending()
                },
            },
    {
        let too_long = match find_new_line_pos(block) {
            None => block.len() > limit || self.carry.len() > limit - block.len(),
            Some(k) => {
                proof {
                    let w = choose|w: int| is_last_newline(block@, w);
                    assert(is_last_newline(block@, k as int));
                    assert(w == k);
                    assert(k < block.len());
                }
                block.len() - (k + 1) > limit
            },
        };
        if too_long {
            Err(DispatchError::RecordTooLong)
        } else {
            Ok(self.push_block(block))
        }
    }

    /// Ends the stream: the pending bytes, if any, leave as a last chunk,
    /// which then holds one record without its line break.
    pub fn flush(&mut self) -> (chunk: Option<Vec<u8>>)
        ensures
            match chunk {
                Some(c) => flushed(old(self).pending()) == Some(c@),
                None => flushed(old(self).pending()).is_none(),
            },
            final(self).pending() == Seq::<u8>::empty(),
    {
        if self.carry.len() == 0 {
            None
        } else {
            let mut chunk: Vec<u8> = Vec::new();
            chunk.append(&mut self.carry);
            proof {
                assert(chunk@ =~= old(self).pending());
            }
            Some(chunk)
        }
    }
}

/// Cuts `input` into chunks as a dispatcher does that reads it in blocks of
/// `block_size` bytes. The chunks are exactly those of [`stream_chunks`], and
/// put end to end they are `input`.
pub fn split_stream(input: &[u8], block_size: usize) -> (chunks: Vec<Vec<u8>>)
    requires
        block_size > 0,
    ensures
        contents(chunks@) == stream_chunks(input@, block_size as int),
        concat(contents(chunks@)) == input@,
{
    let mut chunks: Vec<Vec<u8>> = Vec::new();
    let mut dispatcher = ChunkDispatcher::new();
    let mut pos: usize = 0;
    proof {
        assert(contents(chunks@) =~= Seq::<Seq<u8>>::empty());
    }
    while pos < input.len()
        invariant
            block_size > 0,
            pos <= input.len(),
            chunks_from(
                input@,
                block_size as int,
                pos as int,
                dispatcher.pending(),
                contents(chunks@),
            ) == stream_chunks(input@, block_size as int),
        decreases input.len() - pos,
    {
        let end: usize = if block_size < input.len() - pos {
            pos + block_size
        } else {
            input.len()
        };
        let ghost before = contents(chunks@);
        let ghost pending = dispatcher.pending();
        let block = vstd::slice::slice_subrange(input, pos, end);
        match dispatcher.push_block(block) {
            Some(c) => {
                chunks.push(c);
                proof {
                    assert(contents(chunks@) =~= before.push(c@));
                }
            },
            None => {},
        }
        proof {
            assert(end as int == block_end(input@, block_size as int, pos as int));
            assert(contents(chunks@) == with_chunk(before, released(pending, block@)));
        }
        pos = end;
    }
    let ghost before = contents(chunks@);
    match dispatcher.flush() {
        Some(c) => {
            chunks.push(c);
            proof {
                assert(contents(chunks@) =~= before.push(c@));
            }
        },
        None => {},
    }
    proof {
        lemma_chunks_reproduce_stream(input@, block_size as int);
    }
    chunks
}

} // verus!

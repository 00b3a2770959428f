//! Pieces, their blocks, and which of them are still to be downloaded.
use crate::clock::Clock;
use crate::digest::{sha1, sha1_of};
use crate::wire::{as_slice, contents, same_bytes};
use bytes::Bytes;
use std::collections::{HashSet, VecDeque};
use vstd::prelude::*;

verus! {

/// A block of data within a piece
#[derive(Debug)]
pub struct Block {
    pub piece_index: usize,
    pub offset: usize,
    pub length: usize,
    pub data: Option<Bytes>,
    pub requested: bool,
    pub received: bool,
    pub request_time: Option<u128>,
}

impl Block {
    /// A block that nothing is known of but its place.
    pub open spec fn fresh(piece_index: usize, offset: usize, length: usize) -> Block {
        Block {
            piece_index,
            offset,
            length,
            data: None,
            requested: false,
            received: false,
            request_time: None,
        }
    }

    /// Create a block that is not requested yet
    pub fn new(piece_index: usize, offset: usize, length: usize) -> (b: Self)
        ensures
            b == Block::fresh(piece_index, offset, length),
    {
        Block {
            piece_index,
            offset,
            length,
            data: None,
            requested: false,
            received: false,
            request_time: None,
        }
    }

    /// The block can be requested.
    pub open spec fn is_open(self) -> bool {
        !self.requested && !self.received
    }

    /// The block was requested more than `timeout` before `now` and has not
    /// come.
    pub open spec fn timed_out(self, now: u128, timeout: u128) -> bool {
        self.requested && !self.received && match self.request_time {
            Some(time) => now - time > timeout,
            None => false,
        }
    }

    /// The block with its request forgotten.
    pub open spec fn unrequested(self) -> Block {
        Block { requested: false, request_time: None, ..self }
    }

    /// The block with its request and its data forgotten.
    pub open spec fn emptied(self) -> Block {
        Block { requested: false, received: false, data: None, request_time: None, ..self }
    }

    /// The block with data.
    pub open spec fn filled(self, data: Bytes) -> Block {
        Block { data: Some(data), received: true, ..self }
    }

    fn is_timed_out(&self, now: u128, timeout: u128) -> (r: bool)
        ensures
            r == self.timed_out(now, timeout),
    {
        if self.requested && !self.received {
            match self.request_time {
                Some(time) => now > time && now - time > timeout,
                None => false,
            }
        } else {
            false
        }
    }
}

impl Clone for Block {
    fn clone(&self) -> (b: Self)
        ensures
            b.piece_index == self.piece_index,
            b.offset == self.offset,
            b.length == self.length,
            b.requested == self.requested,
            b.received == self.received,
            b.request_time == self.request_time,
            match (b.data, self.data) {
                (Some(copy), Some(data)) => contents(copy) == contents(data),
                (None, None) => true,
                _ => false,
            },
    {
        Block {
            piece_index: self.piece_index,
            offset: self.offset,
            length: self.length,
            data: match &self.data {
                Some(data) => Some(data.clone()),
                None => None,
            },
            requested: self.requested,
            received: self.received,
            request_time: self.request_time,
        }
    }
}

/// The index of the first block that meets the condition, or the number of
/// blocks.
pub open spec fn first_block(blocks: Seq<Block>, meets: spec_fn(Block) -> bool) -> int
    decreases blocks.len(),
{
    if blocks.len() == 0 {
        0
    } else if meets(blocks[0]) {
        0
    } else {
        1 + first_block(blocks.drop_first(), meets)
    }
}

/// The block starts at the offset.
pub open spec fn starts_at(offset: usize) -> spec_fn(Block) -> bool {
    |b: Block| b.offset == offset
}

/// The block can be requested.
pub open spec fn can_be_requested() -> spec_fn(Block) -> bool {
    |b: Block| b.is_open()
}

/// What `first_block` is.
pub proof fn lemma_first_block(blocks: Seq<Block>, meets: spec_fn(Block) -> bool)
    ensures
        0 <= first_block(blocks, meets) <= blocks.len(),
        first_block(blocks, meets) < blocks.len() ==> meets(blocks[first_block(blocks, meets)]),
        forall|j: int| 0 <= j < first_block(blocks, meets) ==> !meets(#[trigger] blocks[j]),
    decreases blocks.len(),
{
    if blocks.len() > 0 && !meets(blocks[0]) {
        let rest = blocks.drop_first();
        lemma_first_block(rest, meets);
        assert forall|j: int| 0 <= j < first_block(blocks, meets) implies !meets(
            #[trigger] blocks[j],
        ) by {
            if j > 0 {
                assert(blocks[j] == rest[j - 1]);
            }
        }
    }
}

/// There is one index that `first_block` can be.
proof fn lemma_is_first_block(blocks: Seq<Block>, meets: spec_fn(Block) -> bool, i: int)
    requires
        0 <= i <= blocks.len(),
        i < blocks.len() ==> meets(blocks[i]),
        forall|j: int| 0 <= j < i ==> !meets(#[trigger] blocks[j]),
    ensures
        first_block(blocks, meets) == i,
{
    lemma_first_block(blocks, meets);
    let f = first_block(blocks, meets);
    if f < i {
        assert(!meets(blocks[f]));
    }
}

/// The data of the blocks in order, up to the first block that has none.
pub open spec fn joined(blocks: Seq<Block>) -> Seq<u8>
    decreases blocks.len(),
{
    if blocks.len() == 0 {
        Seq::empty()
    } else {
        match blocks[0].data {
            Some(data) => contents(data) + joined(blocks.drop_first()),
            None => Seq::empty(),
        }
    }
}

/// The data depends on nothing but the blocks' data.
proof fn lemma_joined_by_data(a: Seq<Block>, b: Seq<Block>)
    requires
        a.len() == b.len(),
        forall|i: int| 0 <= i < a.len() ==> (#[trigger] a[i]).data == b[i].data,
    ensures
        joined(a) == joined(b),
    decreases a.len(),
{
    if a.len() > 0 {
        assert(a[0].data == b[0].data);
        assert forall|i: int| 0 <= i < a.drop_first().len() implies (
        #[trigger] a.drop_first()[i]).data == b.drop_first()[i].data by {
            assert(a[i + 1].data == b[i + 1].data);
        }
        lemma_joined_by_data(a.drop_first(), b.drop_first());
    }
}

/// The offsets of the blocks that have timed out, each with the piece index.
pub open spec fn timed_out_blocks(
    index: usize,
    blocks: Seq<Block>,
    now: u128,
    timeout: u128,
) -> Seq<(usize, usize)>
    decreases blocks.len(),
{
    if blocks.len() == 0 {
        Seq::empty()
    } else {
        let before = timed_out_blocks(index, blocks.drop_last(), now, timeout);
        if blocks.last().timed_out(now, timeout) {
            before.push((index, blocks.last().offset))
        } else {
            before
        }
    }
}

/// Data for this offset is news: there is such a block and it has not come.
pub open spec fn takes_data(blocks: Seq<Block>, offset: usize) -> bool {
    let i = first_block(blocks, starts_at(offset));
    i < blocks.len() && !blocks[i].received
}

/// The blocks after data has come for this offset.
pub open spec fn with_data(blocks: Seq<Block>, offset: usize, data: Bytes) -> Seq<Block> {
    let i = first_block(blocks, starts_at(offset));
    if takes_data(blocks, offset) {
        blocks.update(i, blocks[i].filled(data))
    } else {
        blocks
    }
}

/// The blocks with all requests and all data forgotten.
pub open spec fn emptied_blocks(blocks: Seq<Block>) -> Seq<Block> {
    blocks.map_values(|b: Block| b.emptied())
}

/// Every block has data.
pub open spec fn all_have_data(blocks: Seq<Block>) -> bool {
    forall|i: int| 0 <= i < blocks.len() ==> (#[trigger] blocks[i]).data is Some
}

/// Every block has come.
pub open spec fn all_received(blocks: Seq<Block>) -> bool {
    forall|i: int| 0 <= i < blocks.len() ==> (#[trigger] blocks[i]).received
}

/// Why a piece is not written to a file.
#[derive(Debug, Clone, Copy, PartialEq, Eq, Structural)]
pub enum PieceError {
    /// The hash of the piece was not checked.
    Unverified,
    /// A block of the piece has no data.
    MissingBlock,
}

impl PieceError {
    /// What the error says.
    pub open spec fn text(self) -> Seq<char> {
        match self {
            PieceError::Unverified => "Cannot write unverified piece to file"@,
            PieceError::MissingBlock => "Missing block data in verified piece"@,
        }
    }

    /// What the error says
    pub fn message(&self) -> (s: String)
        ensures
            s@ == self.text(),
    {
        match self {
            PieceError::Unverified => "Cannot write unverified piece to file".to_string(),
            PieceError::MissingBlock => "Missing block data in verified piece".to_string(),
        }
    }
}

/// What is to be written of a piece
#[derive(Debug)]
pub struct PieceWrite {
    /// Where in the file
    pub offset: u64,
    /// What
    pub data: Vec<u8>,
    /// Whether that is all of the piece
    pub complete: bool,
}

impl PieceWrite {
    /// The data of the piece's blocks, at the offset.
    pub open spec fn describes(self, piece: Piece, offset: u64) -> bool {
        &&& self.offset == offset
        &&& self.data@ == joined(piece.blocks@)
        &&& self.complete == all_have_data(piece.blocks@)
    }
}

/// A piece of the torrent
#[derive(Debug)]
pub struct Piece {
    pub index: usize,
    pub hash: [u8; 20],
    pub length: usize,
    pub blocks: Vec<Block>,
    pub downloaded: bool,
    pub verified: bool,
    pub priority: usize,
}

/// How many blocks of at most `block_size` bytes make `length` bytes.
pub open spec fn block_count(length: nat, block_size: nat) -> nat {
    if length == 0 {
        0
    } else {
        ((length + block_size - 1) / (block_size as int)) as nat
    }
}

impl Piece {
    /// The `i`-th block of a new piece.
    pub open spec fn layout(index: usize, length: usize, block_size: usize, i: int) -> Block {
        let offset = i * block_size;
        let rest = length - offset;
        Block::fresh(
            index,
            offset as usize,
            if rest < block_size {
                rest as usize
            } else {
                block_size
            },
        )
    }

    /// The piece is as it was created.
    pub open spec fn is_new(
        self,
        index: usize,
        hash: [u8; 20],
        length: usize,
        block_size: usize,
    ) -> bool {
        &&& self.index == index
        &&& self.hash == hash
        &&& self.length == length
        &&& self.blocks@.len() == block_count(length as nat, block_size as nat)
        &&& forall|i: int|
            0 <= i < self.blocks@.len() ==> #[trigger] self.blocks@[i] == Piece::layout(
                index,
                length,
                block_size,
                i,
            )
        &&& !self.downloaded
        &&& !self.verified
        &&& self.priority == 1
    }

    /// No two blocks start at the same offset; a block has come where there
    /// is data; a verified piece has data with the piece's hash.
    pub open spec fn wf(self) -> bool {
        &&& forall|i: int, j: int|
            0 <= i < j < self.blocks@.len() ==> (#[trigger] self.blocks@[i]).offset != (
            #[trigger] self.blocks@[j]).offset
        &&& forall|i: int|
            0 <= i < self.blocks@.len() ==> ((#[trigger] self.blocks@[i]).received
                <==> self.blocks@[i].data is Some)
        &&& self.verified ==> self.holds_its_data()
        &&& self.verified == self.downloaded
    }

    /// Nothing but the blocks may differ.
    pub open spec fn same_but_blocks(self, other: Piece) -> bool {
        &&& self.index == other.index
        &&& self.hash == other.hash
        &&& self.length == other.length
        &&& self.downloaded == other.downloaded
        &&& self.verified == other.verified
        &&& self.priority == other.priority
    }

    /// All blocks have come, all have data, and the data has the hash that
    /// the piece is to have.
    pub open spec fn has_hash(self) -> bool {
        all_received(self.blocks@) && all_have_data(self.blocks@) && sha1_of(joined(self.blocks@))
            == self.hash@
    }

    /// All data has come and has the hash that the piece is to have.
    pub open spec fn holds_its_data(self) -> bool {
        all_received(self.blocks@) && sha1_of(joined(self.blocks@)) == self.hash@
    }

    /// Create a new piece with blocks
    pub fn new(index: usize, hash: [u8; 20], length: usize, block_size: usize) -> (p: Self)
        requires
            length > 0 ==> block_size > 0,
        ensures
            p.is_new(index, hash, length, block_size),
            p.wf(),
    {
        let mut blocks: Vec<Block> = Vec::new();
        let mut offset: usize = 0;
        proof {
            assert(blocks@.len() * block_size == 0) by (nonlinear_arith)
                requires
                    blocks@.len() == 0,
            ;
        }
        while offset < length
            invariant
                offset <= length,
                length > 0 ==> block_size > 0,
                offset < length ==> offset == blocks@.len() * block_size,
                offset == length ==> blocks@.len() == block_count(
                    length as nat,
                    block_size as nat,
                ),
                forall|i: int|
                    0 <= i < blocks@.len() ==> #[trigger] blocks@[i] == Piece::layout(
                        index,
                        length,
                        block_size,
                        i,
                    ) && i * block_size < length,
            decreases length - offset,
        {
            let rest: usize = length - offset;
            let block_length: usize = if rest < block_size {
                rest
            } else {
                block_size
            };
            let ghost n = blocks@.len() as int;
            blocks.push(Block::new(index, offset, block_length));
            offset = offset + block_length;
            proof {
                let b = block_size as int;
                assert((n + 1) * b == n * b + b) by (nonlinear_arith);
                if offset == length {
                    vstd::arithmetic::div_mod::lemma_fundamental_div_mod_converse(
                        length + b - 1,
                        b,
                        n + 1,
                        length - n * b - 1,
                    );
                }
            }
        }
        proof {
            assert forall|i: int, j: int| 0 <= i < j < blocks@.len() implies (
            #[trigger] blocks@[i]).offset != (#[trigger] blocks@[j]).offset by {
                assert(i * block_size < j * block_size) by (nonlinear_arith)
                    requires
                        i < j,
                        block_size > 0,
                ;
                assert(0 <= i * block_size) by (nonlinear_arith)
                    requires
                        0 <= i,
                ;
            }
        }
        Piece { index, hash, length, blocks, downloaded: false, verified: false, priority: 1 }
    }

    /// Check if the piece is complete (all blocks received)
    pub fn is_complete(&self) -> (r: bool)
        ensures
            r == all_received(self.blocks@),
    {
        let mut i: usize = 0;
        while i < self.blocks.len()
            invariant
                i <= self.blocks@.len(),
                forall|j: int| 0 <= j < i ==> (#[trigger] self.blocks@[j]).received,
            decreases self.blocks@.len() - i,
        {
            if !self.blocks[i].received {
                return false;
            }
            i += 1;
        }
        true
    }

    /// Get the next block that needs to be requested
    pub fn next_block_to_request(&mut self) -> (r: Option<&mut Block>)
        ensures
            ({
                let i = first_block(old(self).blocks@, can_be_requested());
                match r {
                    Some(block) => {
                        &&& i < old(self).blocks@.len()
                        &&& *block == old(self).blocks@[i]
                        &&& final(self).blocks@ == old(self).blocks@.update(i, *final(block))
                    },
                    None => {
                        &&& i == old(self).blocks@.len()
                        &&& final(self).blocks@ == old(self).blocks@
                    },
                }
            }),
            final(self).same_but_blocks(*old(self)),
    {
        let mut i: usize = 0;
        while i < self.blocks.len()
            invariant
                i <= self.blocks@.len(),
                *self == *old(self),
                forall|j: int| 0 <= j < i ==> !(#[trigger] self.blocks@[j]).is_open(),
            decreases self.blocks@.len() - i,
        {
            if !self.blocks[i].requested && !self.blocks[i].received {
                proof {
                    lemma_is_first_block(self.blocks@, can_be_requested(), i as int);
                }
                return Some(&mut self.blocks[i]);
            }
            i += 1;
        }
        proof {
            lemma_is_first_block(self.blocks@, can_be_requested(), i as int);
        }
        None
    }

    /// Where the first block with this offset stands, or the number of blocks
    fn position(&self, offset: usize) -> (i: usize)
        ensures
            i == first_block(self.blocks@, starts_at(offset)),
            i <= self.blocks@.len(),
    {
        let mut i: usize = 0;
        while i < self.blocks.len()
            invariant
                i <= self.blocks@.len(),
                forall|j: int| 0 <= j < i ==> (#[trigger] self.blocks@[j]).offset != offset,
            decreases self.blocks@.len() - i,
        {
            if self.blocks[i].offset == offset {
                proof {
                    lemma_is_first_block(self.blocks@, starts_at(offset), i as int);
                }
                return i;
            }
            i += 1;
        }
        proof {
            lemma_is_first_block(self.blocks@, starts_at(offset), i as int);
        }
        i
    }

    /// Get the blocks that were requested more than `timeout` nanoseconds
    /// before `now` and have not come, as piece index and offset
    pub fn timed_out_blocks_at(&self, now: u128, timeout: u128) -> (r: Vec<(usize, usize)>)
        ensures
            r@ == timed_out_blocks(self.index, self.blocks@, now, timeout),
    {
        let mut r: Vec<(usize, usize)> = Vec::new();
        let mut i: usize = 0;
        proof {
            assert(self.blocks@.take(0) =~= Seq::empty());
        }
        while i < self.blocks.len()
            invariant
                i <= self.blocks@.len(),
                r@ == timed_out_blocks(self.index, self.blocks@.take(i as int), now, timeout),
            decreases self.blocks@.len() - i,
        {
            proof {
                assert(self.blocks@.take(i + 1).drop_last() =~= self.blocks@.take(i as int));
            }
            if self.blocks[i].is_timed_out(now, timeout) {
                r.push((self.index, self.blocks[i].offset));
            }
            i += 1;
        }
        proof {
            assert(self.blocks@.take(i as int) =~= self.blocks@);
        }
        r
    }

    /// Get blocks that have been requested but not received and timed out
    pub fn get_timed_out_blocks(&self, clock: &Clock, timeout: u128) -> (r: Vec<(usize, usize)>)
        ensures
            exists|now: u128|
                r@ == #[trigger] timed_out_blocks(self.index, self.blocks@, now, timeout),
    {
        let now = clock.now();
        self.timed_out_blocks_at(now, timeout)
    }

    /// Reset a block to be requested again
    pub fn reset_block(&mut self, block_offset: usize)
        ensures
            ({
                let i = first_block(old(self).blocks@, starts_at(block_offset));
                final(self).blocks@ == if i < old(self).blocks@.len() {
                    old(self).blocks@.update(i, old(self).blocks@[i].unrequested())
                } else {
                    old(self).blocks@
                }
            }),
            final(self).same_but_blocks(*old(self)),
            old(self).wf() ==> final(self).wf(),
    {
        let i = self.position(block_offset);
        if i < self.blocks.len() {
            let block = &mut self.blocks[i];
            block.requested = false;
            block.request_time = None;
        }
        proof {
            lemma_joined_by_data(old(self).blocks@, self.blocks@);
        }
    }

    /// Reset the blocks that were requested more than `timeout` nanoseconds
    /// before `now` and have not come. Says whether there are any.
    pub fn release_timed_out(&mut self, now: u128, timeout: u128) -> (r: bool)
        ensures
            final(self).blocks@ == released_blocks(old(self).blocks@, now, timeout),
            r == exists|i: int|
                0 <= i < old(self).blocks@.len() && (#[trigger] old(self).blocks@[i]).timed_out(
                    now,
                    timeout,
                ),
            final(self).same_but_blocks(*old(self)),
            old(self).wf() ==> final(self).wf(),
    {
        let ghost before = self.blocks@;
        let ghost after = released_blocks(before, now, timeout);
        let mut any = false;
        let mut i: usize = 0;
        while i < self.blocks.len()
            invariant
                i <= self.blocks@.len(),
                before == old(self).blocks@,
                after == released_blocks(before, now, timeout),
                self.blocks@.len() == before.len(),
                self.same_but_blocks(*old(self)),
                forall|j: int| 0 <= j < i ==> #[trigger] self.blocks@[j] == after[j],
                forall|j: int| i <= j < before.len() ==> #[trigger] self.blocks@[j] == before[j],
                any == exists|j: int|
                    0 <= j < i && (#[trigger] before[j]).timed_out(now, timeout),
            decreases self.blocks@.len() - i,
        {
            proof {
                assert(self.blocks@[i as int] == before[i as int]);
            }
            if self.blocks[i].is_timed_out(now, timeout) {
                let block = &mut self.blocks[i];
                block.requested = false;
                block.request_time = None;
                any = true;
            }
            i += 1;
        }
        proof {
            assert(self.blocks@ =~= after);
            lemma_joined_by_data(before, self.blocks@);
        }
        any
    }

    /// Check that no block was requested and none has come
    fn is_untouched(&self) -> (r: bool)
        ensures
            r == forall|i: int|
                0 <= i < self.blocks@.len() ==> (#[trigger] self.blocks@[i]).is_open(),
    {
        let mut i: usize = 0;
        while i < self.blocks.len()
            invariant
                i <= self.blocks@.len(),
                forall|j: int| 0 <= j < i ==> (#[trigger] self.blocks@[j]).is_open(),
            decreases self.blocks@.len() - i,
        {
            if self.blocks[i].requested || self.blocks[i].received {
                proof {
                    assert(!self.blocks@[i as int].is_open());
                }
                return false;
            }
            i += 1;
        }
        true
    }

    /// Add received block data. Says whether a block took it.
    pub fn add_block_data(&mut self, offset: usize, data: Bytes) -> (r: bool)
        ensures
            r == takes_data(old(self).blocks@, offset),
            final(self).blocks@ == with_data(old(self).blocks@, offset, data),
            final(self).same_but_blocks(*old(self)),
            old(self).wf() ==> final(self).wf(),
    {
        let i = self.position(offset);
        if i < self.blocks.len() {
            if !self.blocks[i].received {
                let block = &mut self.blocks[i];
                block.data = Some(data);
                block.received = true;
                return true;
            }
        }
        false
    }

    /// The data of the blocks up to the first block that has none, and
    /// whether that is all of them
    fn collect_data(&self) -> (r: (Vec<u8>, bool))
        ensures
            r.0@ == joined(self.blocks@),
            r.1 == all_have_data(self.blocks@),
    {
        let mut data: Vec<u8> = Vec::new();
        let mut i: usize = 0;
        proof {
            assert(self.blocks@.skip(0) =~= self.blocks@);
        }
        while i < self.blocks.len()
            invariant
                i <= self.blocks@.len(),
                data@ + joined(self.blocks@.skip(i as int)) == joined(self.blocks@),
                forall|j: int| 0 <= j < i ==> (#[trigger] self.blocks@[j]).data is Some,
            decreases self.blocks@.len() - i,
        {
            proof {
                assert(self.blocks@.skip(i as int).drop_first() =~= self.blocks@.skip(i + 1));
                assert(self.blocks@.skip(i as int)[0] == self.blocks@[i as int]);
            }
            match &self.blocks[i].data {
                Some(block_data) => {
                    let ghost before = data@;
                    data.extend_from_slice(as_slice(block_data));
                    proof {
                        let rest = joined(self.blocks@.skip(i + 1));
                        assert(before + (contents(*block_data) + rest) =~= data@ + rest);
                    }
                },
                None => {
                    proof {
                        assert(data@ + joined(self.blocks@.skip(i as int)) =~= data@);
                        assert(self.blocks@[i as int].data is None);
                    }
                    return (data, false);
                },
            }
            i += 1;
        }
        proof {
            assert(data@ + joined(self.blocks@.skip(i as int)) =~= data@);
        }
        (data, true)
    }

    /// Verify the piece hash
    pub fn verify(&mut self) -> (r: bool)
        ensures
            r == old(self).has_hash(),
            final(self).verified == (old(self).verified || r),
            final(self).downloaded == (old(self).downloaded || r),
            final(self).blocks@ == if !r && all_received(old(self).blocks@) && all_have_data(
                old(self).blocks@,
            ) {
                emptied_blocks(old(self).blocks@)
            } else {
                old(self).blocks@
            },
            final(self).index == old(self).index,
            final(self).hash == old(self).hash,
            final(self).length == old(self).length,
            final(self).priority == old(self).priority,
            old(self).wf() ==> final(self).wf(),
    {
        if !self.is_complete() {
            return false;
        }
        let (data, complete) = self.collect_data();
        if !complete {
            return false;
        }
        let digest = sha1(data.as_slice());
        let verified = same_bytes(digest.as_slice(), self.hash.as_slice());
        if verified {
            self.verified = true;
            self.downloaded = true;
        } else {
            let ghost before = self.blocks@;
            let mut i: usize = 0;
            while i < self.blocks.len()
                invariant
                    i <= self.blocks@.len(),
                    self.blocks@.len() == before.len(),
                    before == old(self).blocks@,
                    self.same_but_blocks(*old(self)),
                    forall|j: int| 0 <= j < i ==> #[trigger] self.blocks@[j] == before[j].emptied(),
                    forall|j: int|
                        i <= j < before.len() ==> #[trigger] self.blocks@[j] == before[j],
                decreases self.blocks@.len() - i,
            {
                let block = &mut self.blocks[i];
                block.requested = false;
                block.received = false;
                block.data = None;
                block.request_time = None;
                i += 1;
            }
            proof {
                assert(self.blocks@ =~= emptied_blocks(before));
            }
        }
        verified
    }

    /// What is to be written of the piece to a file in which it starts at
    /// the offset
    pub fn write_to_file(&self, offset: u64) -> (r: Result<PieceWrite, PieceError>)
        ensures
            match r {
                Ok(write) => self.verified && write.describes(*self, offset),
                Err(e) => e == PieceError::Unverified && !self.verified,
            },
    {
        if !self.verified {
            return Err(PieceError::Unverified);
        }
        let (data, complete) = self.collect_data();
        Ok(PieceWrite { offset, data, complete })
    }
}

/// How long a block may be awaited: thirty seconds.
pub const PIECE_REQUEST_TIMEOUT: u128 = 30_000_000_000;

/// The place of the first index that is neither in progress nor downloaded,
/// or the number of indices.
pub open spec fn first_free(
    needed: Seq<usize>,
    in_progress: Set<usize>,
    downloaded: Set<usize>,
) -> int
    decreases needed.len(),
{
    if needed.len() == 0 {
        0
    } else if !in_progress.contains(needed[0]) && !downloaded.contains(needed[0]) {
        0
    } else {
        1 + first_free(needed.drop_first(), in_progress, downloaded)
    }
}

/// The sum of the lengths of the pieces.
pub open spec fn total_of(pieces: Seq<Piece>) -> nat
    decreases pieces.len(),
{
    if pieces.len() == 0 {
        0
    } else {
        total_of(pieces.drop_last()) + pieces.last().length as nat
    }
}

/// The blocks after those that have timed out can be requested again.
pub open spec fn released_blocks(blocks: Seq<Block>, now: u128, timeout: u128) -> Seq<Block> {
    blocks.map_values(
        |b: Block|
            if b.timed_out(now, timeout) {
                b.unrequested()
            } else {
                b
            },
    )
}

/// Some block has timed out and nothing else holds the piece: once those
/// blocks are released, none is requested and none has come.
pub open spec fn given_up(blocks: Seq<Block>, now: u128, timeout: u128) -> bool {
    &&& exists|i: int| 0 <= i < blocks.len() && (#[trigger] blocks[i]).timed_out(now, timeout)
    &&& forall|i: int|
        0 <= i < blocks.len() ==> (#[trigger] released_blocks(blocks, now, timeout)[i]).is_open()
}

/// Manages the downloading of pieces
pub struct PieceManager {
    pub pieces: Vec<Piece>,
    pub downloaded_pieces: HashSet<usize>,
    pub needed_pieces: VecDeque<usize>,
    pub in_progress: HashSet<usize>,
    pub block_size: usize,
    pub piece_request_timeout: u128,
}

/// Which pieces are needed, in progress and downloaded fits the pieces, and
/// every piece is one of the three.
pub open spec fn books_balance(
    pieces: Seq<Piece>,
    needed: Seq<usize>,
    in_progress: Set<usize>,
    downloaded: Set<usize>,
) -> bool {
    &&& forall|i: usize| #[trigger]
        downloaded.contains(i) <==> i < pieces.len() && pieces[i as int].verified
    &&& forall|i: usize| #[trigger]
        in_progress.contains(i) ==> i < pieces.len() && !downloaded.contains(i)
    &&& forall|k: int| 0 <= k < needed.len() ==> #[trigger] needed[k] < pieces.len()
    &&& forall|i: usize|
        i < pieces.len() ==> #[trigger] needed.contains(i) || in_progress.contains(i)
            || downloaded.contains(i)
}

/// One write for each verified piece, in order: its index and its data, at
/// the sum of the lengths of the pieces before it.
pub open spec fn is_write_list(writes: Seq<(usize, PieceWrite)>, pieces: Seq<Piece>) -> bool
    decreases pieces.len(),
{
    if pieces.len() == 0 {
        writes.len() == 0
    } else if pieces.last().verified {
        &&& writes.len() > 0
        &&& writes.last().0 == pieces.last().index
        &&& writes.last().1.describes(pieces.last(), total_of(pieces.drop_last()) as u64)
        &&& is_write_list(writes.drop_last(), pieces.drop_last())
    } else {
        is_write_list(writes, pieces.drop_last())
    }
}

impl PieceManager {
    /// The piece is in progress and is given up `now`.
    pub open spec fn gives_up(self, now: u128, i: usize) -> bool {
        self.in_progress@.contains(i) && given_up(
            self.pieces@[i as int].blocks@,
            now,
            self.piece_request_timeout,
        )
    }

    /// Those of the first `n` pieces that are given up `now`, in order.
    pub open spec fn all_given_up(self, now: u128, n: nat) -> Seq<usize>
        decreases n,
    {
        if n == 0 {
            Seq::empty()
        } else {
            let before = self.all_given_up(now, (n - 1) as nat);
            if self.gives_up(now, (n - 1) as usize) {
                before.push((n - 1) as usize)
            } else {
                before
            }
        }
    }

    /// Every piece is in order and stands at its index, and the books
    /// balance.
    pub open spec fn wf(self) -> bool {
        &&& forall|i: int|
            0 <= i < self.pieces@.len() ==> (#[trigger] self.pieces@[i]).wf()
                && self.pieces@[i].index == i
        &&& books_balance(
            self.pieces@,
            self.needed_pieces@,
            self.in_progress@,
            self.downloaded_pieces@,
        )
    }

    /// The data is news and makes every block of the piece have come.
    pub open spec fn fills(self, piece_index: usize, offset: usize, data: Bytes) -> bool {
        let blocks = self.pieces@[piece_index as int].blocks@;
        &&& piece_index < self.pieces@.len()
        &&& takes_data(blocks, offset)
        &&& all_received(with_data(blocks, offset, data))
    }

    /// The data fills the piece, and what the piece then holds has the hash
    /// of the piece.
    pub open spec fn completes(self, piece_index: usize, offset: usize, data: Bytes) -> bool {
        let piece = self.pieces@[piece_index as int];
        let blocks = with_data(piece.blocks@, offset, data);
        &&& self.fills(piece_index, offset, data)
        &&& all_have_data(blocks)
        &&& sha1_of(joined(blocks)) == piece.hash@
    }

    /// The data fills the piece with something else than what it is to hold.
    pub open spec fn spoils(self, piece_index: usize, offset: usize, data: Bytes) -> bool {
        self.fills(piece_index, offset, data) && !self.completes(piece_index, offset, data)
    }

    /// Create a new piece manager
    pub fn new(
        piece_hashes: Vec<[u8; 20]>,
        piece_lengths: Vec<usize>,
        block_size: usize,
    ) -> (m: Self)
        requires
            forall|i: int|
                0 <= i < piece_lengths@.len() && i < piece_hashes@.len()
                    && #[trigger] piece_lengths@[i] > 0 ==> block_size > 0,
        ensures
            m.pieces@.len() == if piece_hashes@.len() < piece_lengths@.len() {
                piece_hashes@.len()
            } else {
                piece_lengths@.len()
            },
            forall|i: int|
                0 <= i < m.pieces@.len() ==> (#[trigger] m.pieces@[i]).is_new(
                    i as usize,
                    piece_hashes@[i],
                    piece_lengths@[i],
                    block_size,
                ),
            m.downloaded_pieces@ == Set::<usize>::empty(),
            m.needed_pieces@ == Seq::new(m.pieces@.len(), |i: int| i as usize),
            m.in_progress@ == Set::<usize>::empty(),
            m.block_size == block_size,
            m.piece_request_timeout == PIECE_REQUEST_TIMEOUT,
            m.wf(),
    {
        broadcast use vstd::std_specs::hash::group_hash_axioms;

        let mut pieces: Vec<Piece> = Vec::new();
        let mut needed_pieces: VecDeque<usize> = VecDeque::new();
        let mut i: usize = 0;
        while i < piece_hashes.len() && i < piece_lengths.len()
            invariant
                i <= piece_hashes@.len(),
                i <= piece_lengths@.len(),
                pieces@.len() == i,
                needed_pieces@.len() == i,
                forall|j: int|
                    0 <= j < piece_lengths@.len() && j < piece_hashes@.len()
                        && #[trigger] piece_lengths@[j] > 0 ==> block_size > 0,
                forall|j: int| 0 <= j < i ==> #[trigger] needed_pieces@[j] == j as usize,
                forall|j: int|
                    0 <= j < i ==> (#[trigger] pieces@[j]).is_new(
                        j as usize,
                        piece_hashes@[j],
                        piece_lengths@[j],
                        block_size,
                    ) && pieces@[j].wf(),
            decreases piece_hashes@.len() - i,
        {
            pieces.push(Piece::new(i, piece_hashes[i], piece_lengths[i], block_size));
            needed_pieces.push_back(i);
            i += 1;
        }
        proof {
            assert(needed_pieces@ =~= Seq::new(pieces@.len(), |i: int| i as usize));
            assert forall|k: usize| k < pieces@.len() implies #[trigger] needed_pieces@.contains(
                k,
            ) by {
                assert(needed_pieces@[k as int] == k);
            }
        }
        PieceManager {
            pieces,
            downloaded_pieces: HashSet::new(),
            needed_pieces,
            in_progress: HashSet::new(),
            block_size,
            piece_request_timeout: PIECE_REQUEST_TIMEOUT,
        }
    }

    /// Get the next piece to download
    pub fn next_piece(&mut self) -> (r: Option<&mut Piece>)
        ensures
            ({
                let needed = old(self).needed_pieces@;
                let k = first_free(needed, old(self).in_progress@, old(self).downloaded_pieces@);
                if k < needed.len() {
                    &&& final(self).needed_pieces@ == needed.skip(k + 1)
                    &&& final(self).in_progress@ == old(self).in_progress@.insert(needed[k])
                    &&& match r {
                        Some(piece) => {
                            &&& needed[k] < old(self).pieces@.len()
                            &&& *piece == old(self).pieces@[needed[k] as int]
                            &&& final(self).pieces@ == old(self).pieces@.update(
                                needed[k] as int,
                                *final(piece),
                            )
                        },
                        None => needed[k] >= old(self).pieces@.len() && final(self).pieces@ == old(
                            self).pieces@,
                    }
                } else {
                    &&& final(self).needed_pieces@ == Seq::<usize>::empty()
                    &&& final(self).in_progress@ == old(self).in_progress@
                    &&& r is None
                    &&& final(self).pieces@ == old(self).pieces@
                }
            }),
            final(self).downloaded_pieces@ == old(self).downloaded_pieces@,
            final(self).block_size == old(self).block_size,
            final(self).piece_request_timeout == old(self).piece_request_timeout,
            old(self).wf() ==> match r {
                Some(piece) => {
                    &&& piece.wf()
                    &&& !piece.verified
                    &&& final(piece).wf() && final(piece).index == piece.index
                        && !final(piece).verified ==> final(self).wf()
                },
                None => final(self).wf(),
            },
    {
        broadcast use vstd::std_specs::hash::group_hash_axioms;

        let ghost start = self.needed_pieces@;
        let ghost mut k: int = 0;
        proof {
            assert(start.skip(0) =~= start);
        }
        loop
            invariant
                0 <= k <= start.len(),
                start == old(self).needed_pieces@,
                self.needed_pieces@ == start.skip(k),
                self.pieces == old(self).pieces,
                self.in_progress == old(self).in_progress,
                self.downloaded_pieces == old(self).downloaded_pieces,
                self.block_size == old(self).block_size,
                self.piece_request_timeout == old(self).piece_request_timeout,
                first_free(start, self.in_progress@, self.downloaded_pieces@) == k + first_free(
                    start.skip(k),
                    self.in_progress@,
                    self.downloaded_pieces@,
                ),
                forall|j: int|
                    0 <= j < k ==> self.in_progress@.contains(#[trigger] start[j])
                        || self.downloaded_pieces@.contains(start[j]),
            decreases start.len() - k,
        {
            let index: usize = match self.needed_pieces.pop_front() {
                Some(index) => index,
                None => {
                    proof {
                        assert forall|i: usize| old(self).wf() && i < self.pieces@.len() implies (
                        #[trigger] self.needed_pieces@.contains(i) || self.in_progress@.contains(i)
                            || self.downloaded_pieces@.contains(i)) by {
                            lemma_skipped(start, k, i);
                        }
                    }
                    return None;
                },
            };
            proof {
                assert(start.skip(k).drop_first() =~= start.skip(k + 1));
                assert(start.skip(k)[0] == start[k]);
            }
            if !self.in_progress.contains(&index) && !self.downloaded_pieces.contains(&index) {
                self.in_progress.insert(index);
                proof {
                    assert forall|i: usize| old(self).wf() && i < self.pieces@.len() implies (
                    #[trigger] self.needed_pieces@.contains(i) || self.in_progress@.contains(i)
                        || self.downloaded_pieces@.contains(i)) by {
                        lemma_skipped(start, k + 1, i);
                    }
                }
                if index < self.pieces.len() {
                    return Some(&mut self.pieces[index]);
                }
                return None;
            }
            proof {
                k = k + 1;
            }
        }
    }

    /// Handle a received block. Says whether it completed its piece.
    pub fn received_block(&mut self, piece_index: usize, offset: usize, data: Bytes) -> (r: bool)
        ensures
            block_received(*old(self), *final(self), piece_index, offset, data, r),
            old(self).wf() ==> final(self).wf(),
    {
        broadcast use vstd::std_specs::hash::group_hash_axioms;

        if piece_index < self.pieces.len() {
            let piece = &mut self.pieces[piece_index];
            if piece.add_block_data(offset, data) {
                if piece.is_complete() {
                    if piece.verify() {
                        self.downloaded_pieces.insert(piece_index);
                        self.in_progress.remove(&piece_index);
                        return true;
                    } else {
                        self.in_progress.remove(&piece_index);
                        self.needed_pieces.push_back(piece_index);
                        proof {
                            if old(self).wf() {
                                lemma_pushed(old(self).needed_pieces@, piece_index);
                            }
                        }
                    }
                }
            }
        }
        false
    }

    /// Reset the requests that are older than the timeout `now`. A piece that
    /// nothing is then awaited of is needed again.
    pub fn check_timeouts_at(&mut self, now: u128)
        requires
            old(self).wf(),
        ensures
            timeouts_checked(*old(self), *final(self), now),
            final(self).wf(),
    {
        broadcast use vstd::std_specs::hash::group_hash_axioms;

        let timeout = self.piece_request_timeout;
        let mut index: usize = 0;
        proof {
            assert(self.needed_pieces@ + self.all_given_up(now, 0) =~= self.needed_pieces@);
        }
        while index < self.pieces.len()
            invariant
                old(self).wf(),
                self.wf(),
                index <= self.pieces@.len(),
                timeout == old(self).piece_request_timeout,
                self.pieces@.len() == old(self).pieces@.len(),
                forall|i: int|
                    0 <= i < index ==> (#[trigger] self.pieces@[i]).same_but_blocks(
                        old(self).pieces@[i],
                    ) && self.pieces@[i].blocks@ == if old(self).in_progress@.contains(i as usize) {
                        released_blocks(old(self).pieces@[i].blocks@, now, timeout)
                    } else {
                        old(self).pieces@[i].blocks@
                    },
                forall|i: int|
                    index <= i < self.pieces@.len() ==> #[trigger] self.pieces@[i] == old(
                        self).pieces@[i],
                forall|i: usize| #[trigger]
                    self.in_progress@.contains(i) <==> old(self).in_progress@.contains(i) && !(i
                        < index && old(self).gives_up(now, i)),
                self.needed_pieces@ == old(self).needed_pieces@ + old(self).all_given_up(
                    now,
                    index as nat,
                ),
                self.downloaded_pieces@ == old(self).downloaded_pieces@,
                self.block_size == old(self).block_size,
                self.piece_request_timeout == timeout,
            decreases self.pieces@.len() - index,
        {
            let ghost start = *self;
            if self.in_progress.contains(&index) {
                let any = self.pieces[index].release_timed_out(now, timeout);
                if any && self.pieces[index].is_untouched() {
                    self.in_progress.remove(&index);
                    self.needed_pieces.push_back(index);
                    proof {
                        assert(old(self).gives_up(now, index));
                        lemma_pushed(start.needed_pieces@, index);
                    }
                } else {
                    proof {
                        assert(!old(self).gives_up(now, index));
                    }
                }
            }
            proof {
                assert(self.needed_pieces@ =~= old(self).needed_pieces@ + old(self).all_given_up(
                    now,
                    (index + 1) as nat,
                ));
            }
            index += 1;
        }
    }

    /// Check for timed out piece requests and reset them
    pub fn check_timeouts(&mut self, clock: &Clock)
        requires
            old(self).wf(),
        ensures
            exists|now: u128| #[trigger] timeouts_checked(*old(self), *final(self), now),
            final(self).wf(),
    {
        let now = clock.now();
        self.check_timeouts_at(now);
        proof {
            assert(timeouts_checked(*old(self), *self, now));
        }
    }

    /// Tells whether all pieces are downloaded. Without any pieces there is
    /// nothing to download yet.
    pub fn is_finished(&self) -> (r: bool)
        ensures
            r == (self.pieces@.len() > 0 && self.downloaded_pieces@.len() >= self.pieces@.len()),
    {
        broadcast use vstd::std_specs::hash::group_hash_axioms;

        self.pieces.len() > 0 && self.downloaded_pieces.len() >= self.pieces.len()
    }

    /// What is to be written of each verified piece to a file that holds all
    /// pieces one after the other
    pub fn write_to_file(&self) -> (r: Vec<(usize, PieceWrite)>)
        requires
            total_of(self.pieces@) <= u64::MAX,
        ensures
            is_write_list(r@, self.pieces@),
    {
        let mut r: Vec<(usize, PieceWrite)> = Vec::new();
        let mut offset: u64 = 0;
        let mut i: usize = 0;
        proof {
            assert(self.pieces@.take(0) =~= Seq::empty());
        }
        while i < self.pieces.len()
            invariant
                i <= self.pieces@.len(),
                total_of(self.pieces@) <= u64::MAX,
                offset == total_of(self.pieces@.take(i as int)),
                is_write_list(r@, self.pieces@.take(i as int)),
            decreases self.pieces@.len() - i,
        {
            let ghost part = self.pieces@.take(i + 1);
            proof {
                assert(part.drop_last() =~= self.pieces@.take(i as int));
                lemma_total_of_part(self.pieces@, i + 1);
            }
            let piece = &self.pieces[i];
            if let Ok(write) = piece.write_to_file(offset) {
                let ghost before = r@;
                r.push((piece.index, write));
                proof {
                    assert(r@.drop_last() =~= before);
                }
            }
            offset = offset + piece.length as u64;
            i += 1;
        }
        proof {
            assert(self.pieces@.take(i as int) =~= self.pieces@);
        }
        r
    }
}

/// The manager got data for a block. Where this completes the piece, the
/// piece is downloaded; where it fills the piece with something else, the
/// piece starts over.
pub open spec fn block_received(
    before: PieceManager,
    after: PieceManager,
    piece_index: usize,
    offset: usize,
    data: Bytes,
    completed: bool,
) -> bool {
    let spoiled = before.spoils(piece_index, offset, data);
    &&& completed == before.completes(piece_index, offset, data)
    &&& after.pieces@.len() == before.pieces@.len()
    &&& forall|i: int|
        0 <= i < before.pieces@.len() && i != piece_index ==> #[trigger] after.pieces@[i]
            == before.pieces@[i]
    &&& piece_index < before.pieces@.len() ==> {
        let old_piece = before.pieces@[piece_index as int];
        let new_piece = after.pieces@[piece_index as int];
        let blocks = with_data(old_piece.blocks@, offset, data);
        &&& new_piece.blocks@ == if spoiled && all_have_data(blocks) {
            emptied_blocks(blocks)
        } else {
            blocks
        }
        &&& new_piece.verified == (old_piece.verified || completed)
        &&& new_piece.downloaded == (old_piece.downloaded || completed)
        &&& new_piece.index == old_piece.index
        &&& new_piece.hash == old_piece.hash
        &&& new_piece.length == old_piece.length
        &&& new_piece.priority == old_piece.priority
    }
    &&& after.downloaded_pieces@ == if completed {
        before.downloaded_pieces@.insert(piece_index)
    } else {
        before.downloaded_pieces@
    }
    &&& after.in_progress@ == if completed || spoiled {
        before.in_progress@.remove(piece_index)
    } else {
        before.in_progress@
    }
    &&& after.needed_pieces@ == if spoiled {
        before.needed_pieces@.push(piece_index)
    } else {
        before.needed_pieces@
    }
    &&& after.block_size == before.block_size
    &&& after.piece_request_timeout == before.piece_request_timeout
}

/// The timeouts of the manager were checked at this moment.
pub open spec fn timeouts_checked(before: PieceManager, after: PieceManager, now: u128) -> bool {
    &&& after.pieces@.len() == before.pieces@.len()
    &&& forall|i: int|
        0 <= i < before.pieces@.len() ==> (#[trigger] after.pieces@[i]).same_but_blocks(
            before.pieces@[i],
        ) && after.pieces@[i].blocks@ == if before.in_progress@.contains(i as usize) {
            released_blocks(before.pieces@[i].blocks@, now, before.piece_request_timeout)
        } else {
            before.pieces@[i].blocks@
        }
    &&& forall|i: usize| #[trigger]
        after.in_progress@.contains(i) <==> before.in_progress@.contains(i) && !before.gives_up(
            now,
            i,
        )
    &&& after.needed_pieces@ == before.needed_pieces@ + before.all_given_up(
        now,
        before.pieces@.len(),
    )
    &&& after.downloaded_pieces@ == before.downloaded_pieces@
    &&& after.block_size == before.block_size
    &&& after.piece_request_timeout == before.piece_request_timeout
}

/// The sum over the first pieces is no more than the sum over all.
proof fn lemma_total_of_part(pieces: Seq<Piece>, n: int)
    requires
        0 <= n <= pieces.len(),
    ensures
        total_of(pieces.take(n)) <= total_of(pieces),
    decreases pieces.len() - n,
{
    if n < pieces.len() {
        assert(pieces.take(n + 1).drop_last() =~= pieces.take(n));
        lemma_total_of_part(pieces, n + 1);
    } else {
        assert(pieces.take(n) =~= pieces);
    }
}

/// What was in a sequence is in it after a push, and so is what was pushed.
proof fn lemma_pushed(s: Seq<usize>, x: usize)
    ensures
        s.push(x).contains(x),
        forall|i: usize| s.contains(i) ==> #[trigger] s.push(x).contains(i),
{
    assert(s.push(x)[s.len() as int] == x);
    assert forall|i: usize| s.contains(i) implies #[trigger] s.push(x).contains(i) by {
        let j = choose|j: int| 0 <= j < s.len() && s[j] == i;
        assert(s.push(x)[j] == i);
    }
}

/// An item of a sequence is skipped or remains.
proof fn lemma_skipped(s: Seq<usize>, k: int, i: usize)
    requires
        0 <= k <= s.len(),
    ensures
        s.contains(i) ==> s.skip(k).contains(i) || exists|j: int|
            0 <= j < k && #[trigger] s[j] == i,
{
    if s.contains(i) {
        let j = choose|j: int| 0 <= j < s.len() && s[j] == i;
        if j >= k {
            assert(s.skip(k)[j - k] == i);
        }
    }
}

/// The sum of the lengths of the blocks.
pub open spec fn blocks_length(blocks: Seq<Block>) -> nat
    decreases blocks.len(),
{
    if blocks.len() == 0 {
        0
    } else {
        blocks_length(blocks.drop_last()) + blocks.last().length as nat
    }
}

/// The blocks of a new piece lie side by side and are the whole piece: each
/// starts where the one before it ends, none is empty or longer than the
/// block size, and their lengths add up to the length of the piece.
pub proof fn law_blocks_tile_the_piece(
    piece: Piece,
    index: usize,
    hash: [u8; 20],
    length: usize,
    block_size: usize,
)
    requires
        length > 0 ==> block_size > 0,
        piece.is_new(index, hash, length, block_size),
    ensures
        blocks_length(piece.blocks@) == length,
        forall|i: int|
            0 <= i < piece.blocks@.len() ==> {
                let block = #[trigger] piece.blocks@[i];
                &&& 0 < block.length <= block_size
                &&& block.offset == blocks_length(piece.blocks@.take(i))
                &&& block.piece_index == index
                &&& block.is_open()
            },
{
    let b = block_size as int;
    let n = piece.blocks@.len() as int;
    if length > 0 {
        vstd::arithmetic::div_mod::lemma_fundamental_div_mod(length + b - 1, b);
        vstd::arithmetic::div_mod::lemma_mod_bound(length + b - 1, b);
        vstd::arithmetic::div_mod::lemma_div_pos_is_pos(length + b - 1, b);
        assert(b * n == n * b) by (nonlinear_arith);
        assert((n - 1) * b == n * b - b) by (nonlinear_arith);
        assert forall|i: int| 0 <= i <= n implies {
            &&& i < n ==> blocks_length(#[trigger] piece.blocks@.take(i)) == i * b
            &&& i == n ==> blocks_length(piece.blocks@.take(i)) == length
            &&& i < n ==> i * b < length
        } by {
            lemma_first_blocks_length(piece, index, hash, length, block_size, i);
        }
        assert forall|i: int| 0 <= i < n implies {
            let block = #[trigger] piece.blocks@[i];
            &&& 0 < block.length <= block_size
            &&& block.offset == blocks_length(piece.blocks@.take(i))
            &&& block.piece_index == index
            &&& block.is_open()
        } by {
            assert(blocks_length(piece.blocks@.take(i)) == i * b);
            assert(0 <= i * b) by (nonlinear_arith)
                requires
                    0 <= i,
                    0 <= b,
            ;
        }
        assert(piece.blocks@.take(n) =~= piece.blocks@);
        assert(blocks_length(piece.blocks@.take(n)) == length);
    }
}

proof fn lemma_first_blocks_length(
    piece: Piece,
    index: usize,
    hash: [u8; 20],
    length: usize,
    block_size: usize,
    i: int,
)
    requires
        length > 0,
        block_size > 0,
        piece.is_new(index, hash, length, block_size),
        0 <= i <= piece.blocks@.len(),
    ensures
        i < piece.blocks@.len() ==> blocks_length(piece.blocks@.take(i)) == i * block_size && i
            * block_size < length,
        i == piece.blocks@.len() ==> blocks_length(piece.blocks@.take(i)) == length,
    decreases i,
{
    let b = block_size as int;
    let n = piece.blocks@.len() as int;
    vstd::arithmetic::div_mod::lemma_fundamental_div_mod(length + b - 1, b);
    vstd::arithmetic::div_mod::lemma_mod_bound(length + b - 1, b);
    vstd::arithmetic::div_mod::lemma_div_pos_is_pos(length + b - 1, b);
    assert(b * n == n * b) by (nonlinear_arith);
    assert((n - 1) * b == n * b - b) by (nonlinear_arith);
    if i == 0 {
        assert(i * b == 0) by (nonlinear_arith)
            requires
                i == 0,
        ;
    }
    if i > 0 {
        lemma_first_blocks_length(piece, index, hash, length, block_size, i - 1);
        assert(piece.blocks@.take(i).drop_last() =~= piece.blocks@.take(i - 1));
        assert(piece.blocks@.take(i).last() == piece.blocks@[i - 1]);
        assert((i - 1) * b == i * b - b) by (nonlinear_arith);
        assert(0 <= (i - 1) * b) by (nonlinear_arith)
            requires
                1 <= i,
                0 <= b,
        ;
    }
    if i < n {
        assert(i * b <= (n - 1) * b) by (nonlinear_arith)
            requires
                i <= n - 1,
                0 <= b,
        ;
    } else {
        assert(i == n);
    }
}

/// A block takes data once: what comes for the same offset later changes
/// nothing.
pub proof fn law_block_is_taken_once(
    blocks: Seq<Block>,
    offset: usize,
    first: Bytes,
    second: Bytes,
)
    ensures
        with_data(with_data(blocks, offset, first), offset, second) == with_data(
            blocks,
            offset,
            first,
        ),
{
    lemma_first_block(blocks, starts_at(offset));
    let after = with_data(blocks, offset, first);
    lemma_is_first_block(after, starts_at(offset), first_block(blocks, starts_at(offset)));
}

/// Every piece that counts as downloaded holds data with the hash that the
/// piece is to have, whatever was received.
pub proof fn law_downloaded_pieces_have_their_hash(manager: PieceManager, i: usize)
    requires
        manager.wf(),
        manager.downloaded_pieces@.contains(i),
    ensures
        i < manager.pieces@.len(),
        sha1_of(joined(manager.pieces@[i as int].blocks@)) == manager.pieces@[i as int].hash@,
{
}

/// No piece is forgotten: it is needed, in progress or downloaded.
pub proof fn law_no_piece_is_forgotten(manager: PieceManager, i: usize)
    requires
        manager.wf(),
        i < manager.pieces@.len(),
    ensures
        manager.needed_pieces@.contains(i) || manager.in_progress@.contains(i)
            || manager.downloaded_pieces@.contains(i),
{
}

/// A piece that held wrong data starts over: every block can be requested
/// again.
pub proof fn law_spoiled_piece_starts_over(blocks: Seq<Block>)
    ensures
        emptied_blocks(blocks).len() == blocks.len(),
        forall|i: int|
            0 <= i < blocks.len() ==> (#[trigger] emptied_blocks(blocks)[i]).is_open()
                && emptied_blocks(blocks)[i].data is None && emptied_blocks(blocks)[i].offset
                == blocks[i].offset,
{
}

/// After a check for timeouts no block of a piece in progress is overdue, and
/// nothing that has come is lost.
pub proof fn law_no_block_stays_overdue(
    before: PieceManager,
    after: PieceManager,
    now: u128,
    piece: usize,
    block: int,
)
    requires
        before.wf(),
        timeouts_checked(before, after, now),
        before.in_progress@.contains(piece),
        0 <= block < before.pieces@[piece as int].blocks@.len(),
    ensures
        ({
            let old_block = before.pieces@[piece as int].blocks@[block];
            let new_block = after.pieces@[piece as int].blocks@[block];
            &&& !new_block.timed_out(now, before.piece_request_timeout)
            &&& new_block.received == old_block.received
            &&& new_block.data == old_block.data
        }),
{
    assert(after.pieces@[piece as int].same_but_blocks(before.pieces@[piece as int]));
}

/// Once all pieces are downloaded, all of them are written in full, each
/// where the one before it ends.
pub proof fn law_complete_download_is_written(
    manager: PieceManager,
    writes: Seq<(usize, PieceWrite)>,
    i: int,
)
    requires
        manager.wf(),
        forall|k: usize|
            k < manager.pieces@.len() ==> #[trigger] manager.downloaded_pieces@.contains(k),
        total_of(manager.pieces@) <= u64::MAX,
        is_write_list(writes, manager.pieces@),
        0 <= i < manager.pieces@.len(),
    ensures
        writes.len() == manager.pieces@.len(),
        writes[i].0 == i,
        writes[i].1.offset == total_of(manager.pieces@.take(i)),
        writes[i].1.data@ == joined(manager.pieces@[i].blocks@),
        writes[i].1.complete,
{
    assert forall|k: int| 0 <= k < manager.pieces@.len() implies (
    #[trigger] manager.pieces@[k]).verified by {
        assert(manager.downloaded_pieces@.contains(k as usize));
    }
    lemma_all_written(writes, manager.pieces@, i);
    lemma_total_of_part(manager.pieces@, i);
}

proof fn lemma_all_written(writes: Seq<(usize, PieceWrite)>, pieces: Seq<Piece>, i: int)
    requires
        forall|k: int| 0 <= k < pieces.len() ==> (#[trigger] pieces[k]).verified,
        is_write_list(writes, pieces),
    ensures
        writes.len() == pieces.len(),
        0 <= i < pieces.len() ==> writes[i].0 == pieces[i].index && writes[i].1.describes(
            pieces[i],
            total_of(pieces.take(i)) as u64,
        ),
    decreases pieces.len(),
{
    if pieces.len() > 0 {
        lemma_all_written(writes.drop_last(), pieces.drop_last(), i);
        if 0 <= i < pieces.len() - 1 {
            assert(pieces.drop_last().take(i) =~= pieces.take(i));
        } else {
            assert(pieces.take(pieces.len() - 1) =~= pieces.drop_last());
        }
    }
}

/// A set of numbers below `n` has at most `n` members.
proof fn lemma_numbers_below(s: Set<usize>, n: nat)
    requires
        s.finite(),
        forall|i: usize| #[trigger] s.contains(i) ==> i < n,
        n <= usize::MAX,
    ensures
        s.len() <= n,
    decreases n,
{
    if n == 0 {
        assert(s =~= Set::empty());
    } else {
        let top = (n - 1) as usize;
        lemma_numbers_below(s.remove(top), (n - 1) as nat);
    }
}

/// A set of all numbers below `n` has at least `n` members.
proof fn lemma_all_numbers_below(s: Set<usize>, n: nat)
    requires
        s.finite(),
        forall|i: usize| i < n ==> #[trigger] s.contains(i),
        n <= usize::MAX,
    ensures
        s.len() >= n,
    decreases n,
{
    if n > 0 {
        let top = (n - 1) as usize;
        assert(s.contains(top));
        lemma_all_numbers_below(s.remove(top), (n - 1) as nat);
    }
}

/// There are as many downloaded pieces as pieces just when every piece is
/// downloaded.
pub proof fn law_finished_means_all_pieces(manager: PieceManager)
    requires
        manager.wf(),
        manager.downloaded_pieces@.finite(),
        manager.pieces@.len() <= usize::MAX,
    ensures
        manager.downloaded_pieces@.len() >= manager.pieces@.len() <==> forall|i: usize|
            i < manager.pieces@.len() ==> #[trigger] manager.downloaded_pieces@.contains(i),
{
    let downloaded = manager.downloaded_pieces@;
    let n = manager.pieces@.len();
    if forall|i: usize| i < n ==> #[trigger] downloaded.contains(i) {
        lemma_all_numbers_below(downloaded, n);
    } else {
        let i = choose|i: usize| i < n && !#[trigger] downloaded.contains(i);
        lemma_numbers_below(downloaded.insert(i), n);
    }
}

/// The block has come with its part of the data.
pub open spec fn has_part(block: Block, data: Seq<u8>) -> bool {
    &&& block.received
    &&& block.data matches Some(part) && contents(part) == data.subrange(
        block.offset as int,
        block.offset + block.length,
    )
}

/// Once every block of a piece has come with its part of the data, in
/// whatever order, the piece holds the data; and where the data has the hash
/// of the piece, the piece passes its check.
pub proof fn law_right_parts_make_the_piece(
    new: Piece,
    piece: Piece,
    index: usize,
    hash: [u8; 20],
    length: usize,
    block_size: usize,
    data: Seq<u8>,
)
    requires
        length > 0 ==> block_size > 0,
        new.is_new(index, hash, length, block_size),
        data.len() == length,
        piece.hash == hash,
        piece.blocks@.len() == new.blocks@.len(),
        forall|i: int|
            0 <= i < piece.blocks@.len() ==> (#[trigger] piece.blocks@[i]).offset
                == new.blocks@[i].offset && piece.blocks@[i].length == new.blocks@[i].length
                && has_part(piece.blocks@[i], data),
    ensures
        joined(piece.blocks@) == data,
        sha1_of(data) == hash@ ==> piece.has_hash(),
{
    law_blocks_tile_the_piece(new, index, hash, length, block_size);
    let blocks = piece.blocks@;
    let n = blocks.len() as int;
    let starts = Seq::new((n + 1) as nat, |i: int| blocks_length(new.blocks@.take(i)) as int);
    assert(new.blocks@.take(0) =~= Seq::empty());
    assert(new.blocks@.take(n) =~= new.blocks@);
    assert forall|k: int| 0 <= k < n implies has_part(#[trigger] blocks[k], data)
        && blocks[k].offset == starts[k] && starts[k + 1] == starts[k] + blocks[k].length by {
        assert(new.blocks@[k].offset == blocks_length(new.blocks@.take(k)));
        assert(new.blocks@.take(k + 1).drop_last() =~= new.blocks@.take(k));
    }
    lemma_joined_rest(starts, blocks, data, 0);
    assert(blocks.skip(0) =~= blocks);
    assert(data.skip(0) =~= data);
    assert(all_have_data(blocks)) by {
        assert forall|i: int| 0 <= i < blocks.len() implies (#[trigger] blocks[i]).data is Some by {
            assert(has_part(blocks[i], data));
        }
    }
    assert(all_received(blocks)) by {
        assert forall|i: int| 0 <= i < blocks.len() implies (#[trigger] blocks[i]).received by {
            assert(has_part(blocks[i], data));
        }
    }
}

/// The blocks from the `i`-th on hold the end of the data.
proof fn lemma_joined_rest(starts: Seq<int>, blocks: Seq<Block>, data: Seq<u8>, i: int)
    requires
        0 <= i <= blocks.len(),
        starts.len() == blocks.len() + 1,
        starts[blocks.len() as int] == data.len(),
        forall|k: int|
            0 <= k < blocks.len() ==> has_part(#[trigger] blocks[k], data) && blocks[k].offset
                == starts[k] && starts[k + 1] == starts[k] + blocks[k].length,
    ensures
        starts[i] <= data.len(),
        joined(blocks.skip(i)) == data.skip(starts[i]),
    decreases blocks.len() - i,
{
    if i == blocks.len() {
        assert(blocks.skip(i) =~= Seq::empty());
        assert(data.skip(data.len() as int) =~= Seq::empty());
    } else {
        lemma_joined_rest(starts, blocks, data, i + 1);
        let block = blocks[i];
        assert(has_part(block, data));
        assert(blocks.skip(i).drop_first() =~= blocks.skip(i + 1));
        assert(blocks.skip(i)[0] == block);
        let start = starts[i];
        assert(data.subrange(start, start + block.length) + data.skip(start + block.length)
            =~= data.skip(start));
    }
}

/// Data for an offset go to the block there, unless it has come already,
/// whether or not it was requested: the block has then come and holds just
/// these data. Nothing else of it changes, and no other block does.
pub proof fn law_data_go_to_the_block_at_the_offset(
    blocks: Seq<Block>,
    offset: usize,
    data: Bytes,
    i: int,
)
    requires
        0 <= i < blocks.len(),
        blocks[i].offset == offset,
        forall|j: int| 0 <= j < i ==> (#[trigger] blocks[j]).offset != offset,
    ensures
        takes_data(blocks, offset) == !blocks[i].received,
        with_data(blocks, offset, data).len() == blocks.len(),
        forall|j: int|
            0 <= j < blocks.len() && j != i ==> #[trigger] with_data(blocks, offset, data)[j]
                == blocks[j],
        blocks[i].received ==> with_data(blocks, offset, data)[i] == blocks[i],
        !blocks[i].received ==> ({
            let block = with_data(blocks, offset, data)[i];
            &&& block.received
            &&& block.data == Some(data)
            &&& block.requested == blocks[i].requested
            &&& block.request_time == blocks[i].request_time
            &&& block.piece_index == blocks[i].piece_index
            &&& block.offset == offset
            &&& block.length == blocks[i].length
        }),
{
    lemma_is_first_block(blocks, starts_at(offset), i);
}

/// Data for an offset at which no block starts are not taken.
pub proof fn law_data_for_no_block_are_not_taken(blocks: Seq<Block>, offset: usize, data: Bytes)
    requires
        forall|j: int| 0 <= j < blocks.len() ==> (#[trigger] blocks[j]).offset != offset,
    ensures
        !takes_data(blocks, offset),
        with_data(blocks, offset, data) == blocks,
{
    lemma_is_first_block(blocks, starts_at(offset), blocks.len() as int);
}

/// Only requests may differ between the blocks.
pub open spec fn differ_in_requests(before: Seq<Block>, after: Seq<Block>) -> bool {
    &&& after.len() == before.len()
    &&& forall|i: int|
        0 <= i < before.len() ==> (#[trigger] after[i]).offset == before[i].offset
            && after[i].length == before[i].length && after[i].data == before[i].data
            && after[i].received == before[i].received && after[i].piece_index
            == before[i].piece_index
}

/// One step of a download: blocks are requested, or requests are forgotten; or
/// the right data come for the block that is named.
pub open spec fn is_download_step(
    before: Seq<Block>,
    after: Seq<Block>,
    given: Option<int>,
    data: Seq<u8>,
) -> bool {
    match given {
        None => differ_in_requests(before, after),
        Some(k) => {
            &&& 0 <= k < before.len()
            &&& exists|part: Bytes|
                after == #[trigger] with_data(before, before[k].offset, part) && contents(part)
                    == data.subrange(
                    before[k].offset as int,
                    before[k].offset + before[k].length,
                )
        },
    }
}

/// Data were given for the block.
pub open spec fn was_given(given: Seq<Option<int>>, k: int) -> bool {
    exists|t: int| 0 <= t < given.len() && #[trigger] given[t] == Some(k)
}

/// What holds of the blocks of a download: they are where they were, and those
/// that have come hold their part of the data.
spec fn is_going_well(new: Seq<Block>, blocks: Seq<Block>, data: Seq<u8>) -> bool {
    &&& blocks.len() == new.len()
    &&& forall|i: int|
        0 <= i < blocks.len() ==> (#[trigger] blocks[i]).offset == new[i].offset
            && blocks[i].length == new[i].length && (blocks[i].received ==> has_part(
            blocks[i],
            data,
        ))
}

/// A download goes on well, and a block that was given has come.
proof fn lemma_download(
    new: Seq<Block>,
    states: Seq<Seq<Block>>,
    given: Seq<Option<int>>,
    data: Seq<u8>,
    n: int,
)
    requires
        forall|i: int, j: int|
            0 <= i < j < new.len() ==> (#[trigger] new[i]).offset != (#[trigger] new[j]).offset,
        forall|i: int| 0 <= i < new.len() ==> !(#[trigger] new[i]).received,
        states.len() == given.len() + 1,
        states[0] == new,
        forall|t: int|
            0 <= t < given.len() ==> is_download_step(
                states[t],
                states[t + 1],
                #[trigger] given[t],
                data,
            ),
        0 <= n <= given.len(),
    ensures
        is_going_well(new, states[n], data),
        forall|t: int|
            0 <= t < n && (#[trigger] given[t]) is Some ==> states[n][given[t]->0].received,
    decreases n,
{
    if n > 0 {
        lemma_download(new, states, given, data, n - 1);
        let before = states[n - 1];
        let after = states[n];
        assert(is_download_step(before, states[n - 1 + 1], given[n - 1], data));
        match given[n - 1] {
            None => {
                assert forall|i: int| 0 <= i < after.len() implies (#[trigger] after[i]).offset
                    == new[i].offset && after[i].length == new[i].length && (after[i].received
                    ==> has_part(after[i], data)) by {
                    assert(before[i].offset == new[i].offset);
                }
                assert forall|t: int| 0 <= t < n && (#[trigger] given[t]) is Some implies
                    after[given[t]->0].received by {
                    assert(before[given[t]->0].received);
                    assert(is_download_step(states[t], states[t + 1], given[t], data));
                    lemma_states_are_as_long(new, states, given, data, t);
                    assert(after[given[t]->0].received == before[given[t]->0].received);
                }
            },
            Some(k) => {
                let part = choose|part: Bytes|
                    after == #[trigger] with_data(before, before[k].offset, part) && contents(part)
                        == data.subrange(
                        before[k].offset as int,
                        before[k].offset + before[k].length,
                    );
                assert forall|j: int| 0 <= j < k implies (#[trigger] before[j]).offset
                    != before[k].offset by {
                    assert(new[j].offset != new[k].offset);
                    assert(before[j].offset == new[j].offset);
                    assert(before[k].offset == new[k].offset);
                }
                law_data_go_to_the_block_at_the_offset(before, before[k].offset, part, k);
                assert forall|i: int| 0 <= i < after.len() implies (#[trigger] after[i]).offset
                    == new[i].offset && after[i].length == new[i].length && (after[i].received
                    ==> has_part(after[i], data)) by {
                    assert(before[i].offset == new[i].offset);
                    if i != k {
                        assert(with_data(before, before[k].offset, part)[i] == before[i]);
                    }
                }
                assert forall|t: int| 0 <= t < n && (#[trigger] given[t]) is Some implies
                    after[given[t]->0].received by {
                    if t < n - 1 {
                        assert(before[given[t]->0].received);
                        assert(is_download_step(states[t], states[t + 1], given[t], data));
                        lemma_states_are_as_long(new, states, given, data, t);
                        let i = given[t]->0;
                        if i != k {
                            assert(with_data(before, before[k].offset, part)[i] == before[i]);
                        }
                    }
                }
            },
        }
    }
}

/// No step of a download changes the number of blocks.
proof fn lemma_states_are_as_long(
    new: Seq<Block>,
    states: Seq<Seq<Block>>,
    given: Seq<Option<int>>,
    data: Seq<u8>,
    n: int,
)
    requires
        states.len() == given.len() + 1,
        states[0] == new,
        forall|t: int|
            0 <= t < given.len() ==> is_download_step(
                states[t],
                states[t + 1],
                #[trigger] given[t],
                data,
            ),
        0 <= n <= given.len(),
    ensures
        states[n].len() == new.len(),
    decreases n,
{
    if n > 0 {
        lemma_states_are_as_long(new, states, given, data, n - 1);
        assert(is_download_step(states[n - 1], states[n - 1 + 1], given[n - 1], data));
        if let Some(k) = given[n - 1] {
            let before = states[n - 1];
            let part = choose|part: Bytes|
                states[n] == #[trigger] with_data(before, before[k].offset, part) && contents(part)
                    == data.subrange(
                    before[k].offset as int,
                    before[k].offset + before[k].length,
                );
            lemma_first_block(before, starts_at(before[k].offset));
            assert(states[n] == with_data(before, before[k].offset, part));
        }
    }
}

/// However blocks are requested in between, and in whatever order data come:
/// once the right data were given for every block of a new piece, the piece
/// holds the data, and passes its check where they have the hash.
pub proof fn law_download_in_any_order_makes_the_piece(
    new: Piece,
    piece: Piece,
    index: usize,
    hash: [u8; 20],
    length: usize,
    block_size: usize,
    data: Seq<u8>,
    states: Seq<Seq<Block>>,
    given: Seq<Option<int>>,
)
    requires
        length > 0 ==> block_size > 0,
        new.is_new(index, hash, length, block_size),
        data.len() == length,
        piece.hash == hash,
        states.len() == given.len() + 1,
        states[0] == new.blocks@,
        piece.blocks@ == states.last(),
        forall|t: int|
            0 <= t < given.len() ==> is_download_step(
                states[t],
                states[t + 1],
                #[trigger] given[t],
                data,
            ),
        forall|k: int| 0 <= k < new.blocks@.len() ==> #[trigger] was_given(given, k),
    ensures
        joined(piece.blocks@) == data,
        sha1_of(data) == hash@ ==> piece.has_hash(),
{
    let n = given.len() as int;
    law_blocks_tile_the_piece(new, index, hash, length, block_size);
    assert forall|i: int, j: int| 0 <= i < j < new.blocks@.len() implies (
    #[trigger] new.blocks@[i]).offset != (#[trigger] new.blocks@[j]).offset by {
        lemma_blocks_length_grows(new.blocks@, i, j);
        assert(0 < new.blocks@[i].length);
        assert(new.blocks@[i].offset == blocks_length(new.blocks@.take(i)));
        assert(new.blocks@[j].offset == blocks_length(new.blocks@.take(j)));
    }
    assert forall|i: int| 0 <= i < new.blocks@.len() implies !(
    #[trigger] new.blocks@[i]).received by {
        assert(new.blocks@[i].is_open());
    }
    lemma_download(new.blocks@, states, given, data, n);
    assert forall|i: int| 0 <= i < piece.blocks@.len() implies (#[trigger] piece.blocks@[i]).offset
        == new.blocks@[i].offset && piece.blocks@[i].length == new.blocks@[i].length && has_part(
        piece.blocks@[i],
        data,
    ) by {
        assert(was_given(given, i));
        let t = choose|t: int| 0 <= t < given.len() && #[trigger] given[t] == Some(i);
        assert(given[t] is Some);
        assert(states[n][i].received);
    }
    law_right_parts_make_the_piece(new, piece, index, hash, length, block_size, data);
}

/// A later block starts behind an earlier one.
proof fn lemma_blocks_length_grows(blocks: Seq<Block>, i: int, j: int)
    requires
        0 <= i < j < blocks.len(),
    ensures
        blocks_length(blocks.take(i)) + blocks[i].length <= blocks_length(blocks.take(j)),
    decreases j,
{
    assert(blocks.take(j).drop_last() =~= blocks.take(j - 1));
    assert(blocks.take(j).last() == blocks[j - 1]);
    if i < j - 1 {
        lemma_blocks_length_grows(blocks, i, j - 1);
    }
}

/// The blocks of a new piece, by their fields: all but the last have the block
/// size, and nothing was requested and nothing has come.
pub proof fn law_blocks_of_a_new_piece(
    piece: Piece,
    index: usize,
    hash: [u8; 20],
    length: usize,
    block_size: usize,
    i: int,
)
    requires
        block_size > 0,
        piece.is_new(index, hash, length, block_size),
        0 <= i < piece.blocks@.len(),
    ensures
        ({
            let block = piece.blocks@[i];
            &&& block.piece_index == index
            &&& block.offset == i * block_size
            &&& i < piece.blocks@.len() - 1 ==> block.length == block_size
            &&& i == piece.blocks@.len() - 1 ==> block.offset + block.length == length
            &&& block.data is None
            &&& !block.requested
            &&& !block.received
            &&& block.request_time is None
        }),
        piece.index == index,
        piece.hash == hash,
        piece.length == length,
        !piece.downloaded,
        !piece.verified,
        piece.priority == 1,
{
    let b = block_size as int;
    let n = piece.blocks@.len() as int;
    law_blocks_tile_the_piece(piece, index, hash, length, block_size);
    assert(piece.blocks@.take(n) =~= piece.blocks@);
    assert(piece.blocks@.take(i + 1).drop_last() =~= piece.blocks@.take(i));
    assert(piece.blocks@.take(i + 1).last() == piece.blocks@[i]);
    if length > 0 {
        lemma_first_blocks_length(piece, index, hash, length, block_size, i);
        if i < n - 1 {
            lemma_first_blocks_length(piece, index, hash, length, block_size, i + 1);
            assert((i + 1) * b == i * b + b) by (nonlinear_arith);
        }
    }
    assert(piece.blocks@[i].is_open());
}

/// The next block to request is the first that was neither requested nor has
/// come; there is none just where every block was requested or has come.
pub proof fn law_next_block_is_the_first_open_one(blocks: Seq<Block>)
    ensures
        ({
            let i = first_block(blocks, can_be_requested());
            &&& 0 <= i <= blocks.len()
            &&& i < blocks.len() ==> !blocks[i].requested && !blocks[i].received
            &&& forall|j: int|
                0 <= j < i ==> (#[trigger] blocks[j]).requested || blocks[j].received
        }),
{
    lemma_first_block(blocks, can_be_requested());
    assert forall|j: int| 0 <= j < first_block(blocks, can_be_requested()) implies (
    #[trigger] blocks[j]).requested || blocks[j].received by {
        assert(!can_be_requested()(blocks[j]));
    }
}

/// The block at an offset is the first that starts there.
pub proof fn law_block_at_an_offset(blocks: Seq<Block>, offset: usize)
    ensures
        ({
            let i = first_block(blocks, starts_at(offset));
            &&& 0 <= i <= blocks.len()
            &&& i < blocks.len() ==> blocks[i].offset == offset
            &&& forall|j: int| 0 <= j < i ==> (#[trigger] blocks[j]).offset != offset
        }),
{
    lemma_first_block(blocks, starts_at(offset));
    assert forall|j: int| 0 <= j < first_block(blocks, starts_at(offset)) implies (
    #[trigger] blocks[j]).offset != offset by {
        assert(!starts_at(offset)(blocks[j]));
    }
}

/// What a block is after its request, or all that was known of it, is
/// forgotten, and after it has come.
pub proof fn law_blocks_change_field_by_field(block: Block, data: Bytes)
    ensures
        block.unrequested() == (Block {
            piece_index: block.piece_index,
            offset: block.offset,
            length: block.length,
            data: block.data,
            requested: false,
            received: block.received,
            request_time: None,
        }),
        block.emptied() == (Block {
            piece_index: block.piece_index,
            offset: block.offset,
            length: block.length,
            data: None,
            requested: false,
            received: false,
            request_time: None,
        }),
        block.filled(data) == (Block {
            piece_index: block.piece_index,
            offset: block.offset,
            length: block.length,
            data: Some(data),
            requested: block.requested,
            received: true,
            request_time: block.request_time,
        }),
{
}

/// A block is overdue just where it was requested, has not come, and its
/// request is older than the timeout.
pub proof fn law_overdue_blocks(block: Block, now: u128, timeout: u128)
    ensures
        block.timed_out(now, timeout) <==> block.requested && !block.received
            && block.request_time is Some && now > block.request_time->0 + timeout,
{
}

/// The overdue blocks of a piece come out in order, each with the index of the
/// piece and its offset, and no others do.
pub proof fn law_overdue_blocks_come_in_order(
    index: usize,
    blocks: Seq<Block>,
    now: u128,
    timeout: u128,
)
    ensures
        timed_out_blocks(index, blocks, now, timeout) == blocks.filter(
            |b: Block|
                b.requested && !b.received && b.request_time is Some && now > b.request_time->0
                    + timeout,
        ).map_values(|b: Block| (index, b.offset)),
    decreases blocks.len(),
{
    let overdue = |b: Block|
        b.requested && !b.received && b.request_time is Some && now > b.request_time->0 + timeout;
    let place = |b: Block| (index, b.offset);
    reveal(Seq::filter);
    if blocks.len() > 0 {
        law_overdue_blocks_come_in_order(index, blocks.drop_last(), now, timeout);
        let before = blocks.drop_last().filter(overdue);
        law_overdue_blocks(blocks.last(), now, timeout);
        if overdue(blocks.last()) {
            assert(before.push(blocks.last()).map_values(place) =~= before.map_values(place).push(
                place(blocks.last()),
            ));
        }
        assert(timed_out_blocks(index, blocks, now, timeout) =~= blocks.filter(overdue).map_values(
            place,
        ));
    } else {
        assert(timed_out_blocks(index, blocks, now, timeout) =~= blocks.filter(overdue).map_values(
            place,
        ));
    }
}

/// After a check for timeouts a block that was overdue can be requested again
/// and holds what it held; every other block is as it was.
pub proof fn law_overdue_blocks_are_released(
    blocks: Seq<Block>,
    now: u128,
    timeout: u128,
    i: int,
)
    requires
        0 <= i < blocks.len(),
    ensures
        ({
            let block = blocks[i];
            let after = released_blocks(blocks, now, timeout)[i];
            let overdue = block.requested && !block.received && block.request_time is Some && now
                > block.request_time->0 + timeout;
            &&& released_blocks(blocks, now, timeout).len() == blocks.len()
            &&& !overdue ==> after == block
            &&& overdue ==> !after.requested && !after.received && after.request_time is None
                && after.data == block.data && after.offset == block.offset && after.length
                == block.length && after.piece_index == block.piece_index
        }),
{
}

/// A piece in progress is needed again after a check for timeouts just where a
/// block of it was overdue and every other block was neither requested nor has
/// come, or was overdue, too. It is then no longer in progress.
pub proof fn law_pieces_are_given_up(before: PieceManager, after: PieceManager, now: u128, i: usize)
    requires
        before.wf(),
        timeouts_checked(before, after, now),
        i < before.pieces@.len(),
    ensures
        ({
            let blocks = before.pieces@[i as int].blocks@;
            let limit = before.piece_request_timeout;
            let given_up = before.in_progress@.contains(i) && (exists|k: int|
                0 <= k < blocks.len() && is_overdue(#[trigger] blocks[k], now, limit)) && (forall|
                k: int,
            |
                0 <= k < blocks.len() ==> is_overdue(#[trigger] blocks[k], now, limit) || (
                !blocks[k].requested && !blocks[k].received));
            &&& after.in_progress@.contains(i) <==> before.in_progress@.contains(i) && !given_up
            &&& given_up ==> exists|k: int|
                before.needed_pieces@.len() <= k < after.needed_pieces@.len()
                    && #[trigger] after.needed_pieces@[k] == i
            &&& !given_up ==> forall|k: int|
                before.needed_pieces@.len() <= k < after.needed_pieces@.len()
                    ==> #[trigger] after.needed_pieces@[k] != i
        }),
        after.needed_pieces@.len() >= before.needed_pieces@.len(),
        after.needed_pieces@.take(before.needed_pieces@.len() as int) == before.needed_pieces@,
        after.downloaded_pieces@ == before.downloaded_pieces@,
{
    let blocks = before.pieces@[i as int].blocks@;
    let limit = before.piece_request_timeout;
    let released = released_blocks(blocks, now, limit);
    let more = before.all_given_up(now, before.pieces@.len());
    assert(after.needed_pieces@.take(before.needed_pieces@.len() as int)
        =~= before.needed_pieces@);
    assert forall|k: int| 0 <= k < blocks.len() implies (#[trigger] released[k]).is_open() == (
    is_overdue(blocks[k], now, limit) || (!blocks[k].requested && !blocks[k].received)) by {}
    if exists|k: int| 0 <= k < blocks.len() && is_overdue(#[trigger] blocks[k], now, limit) {
        let k = choose|k: int| 0 <= k < blocks.len() && is_overdue(#[trigger] blocks[k], now, limit);
        assert(blocks[k].timed_out(now, limit));
    }
    if given_up(blocks, now, limit) {
        let k = choose|k: int| 0 <= k < blocks.len() && (#[trigger] blocks[k]).timed_out(now, limit);
        assert(is_overdue(blocks[k], now, limit));
        assert forall|k: int| 0 <= k < blocks.len() implies is_overdue(
            #[trigger] blocks[k],
            now,
            limit,
        ) || (!blocks[k].requested && !blocks[k].received) by {
            assert(released[k].is_open());
        }
    }
    assert(before.pieces.len() == before.pieces@.len());
    lemma_all_given_up(before, now, before.pieces@.len(), i);
    if before.gives_up(now, i) {
        let k = choose|k: int| 0 <= k < more.len() && #[trigger] more[k] == i;
        assert(after.needed_pieces@[before.needed_pieces@.len() + k] == i);
    } else {
        assert forall|k: int|
            before.needed_pieces@.len() <= k
                < after.needed_pieces@.len() implies #[trigger] after.needed_pieces@[k] != i by {
            assert(more[k - before.needed_pieces@.len()] != i);
        }
    }
}

/// The block was requested, has not come, and its request is too old.
pub open spec fn is_overdue(block: Block, now: u128, timeout: u128) -> bool {
    &&& block.requested
    &&& !block.received
    &&& block.request_time is Some
    &&& now > block.request_time->0 + timeout
}

/// The pieces that are given up are all in the list, and no others.
proof fn lemma_all_given_up(manager: PieceManager, now: u128, n: nat, i: usize)
    requires
        n <= manager.pieces@.len(),
        manager.pieces@.len() <= usize::MAX,
    ensures
        manager.gives_up(now, i) && i < n ==> exists|k: int|
            0 <= k < manager.all_given_up(now, n).len() && #[trigger] manager.all_given_up(
                now,
                n,
            )[k] == i,
        !(manager.gives_up(now, i) && i < n) ==> forall|k: int|
            0 <= k < manager.all_given_up(now, n).len() ==> #[trigger] manager.all_given_up(
                now,
                n,
            )[k] != i,
    decreases n,
{
    if n > 0 {
        let before = manager.all_given_up(now, (n - 1) as nat);
        let all = manager.all_given_up(now, n);
        lemma_all_given_up(manager, now, (n - 1) as nat, i);
        if manager.gives_up(now, i) && i < n {
            if i == n - 1 {
                assert(all[before.len() as int] == i);
            } else {
                let k = choose|k: int| 0 <= k < before.len() && #[trigger] before[k] == i;
                assert(all[k] == i);
            }
        }
    }
}

/// What the blocks hold, one after the other, where all of them hold data.
pub open spec fn block_contents(blocks: Seq<Block>) -> Seq<Seq<u8>> {
    Seq::new(blocks.len(), |i: int| contents(blocks[i].data->0))
}

/// The data of a piece are those of its blocks, end to end in their order; up
/// to a block that holds none where there is one.
pub proof fn law_data_are_those_of_the_blocks(blocks: Seq<Block>, block: Block, rest: Seq<Block>)
    ensures
        (forall|i: int| 0 <= i < blocks.len() ==> (#[trigger] blocks[i]).data is Some) ==> joined(
            blocks,
        ) == block_contents(blocks).flatten(),
        block.data is None ==> joined(seq![block] + rest) == Seq::<u8>::empty(),
        block.data is Some ==> joined(seq![block] + rest) == contents(block.data->0) + joined(rest),
    decreases blocks.len(),
{
    let more = seq![block] + rest;
    assert(more.drop_first() =~= rest);
    assert(more[0] == block);
    if forall|i: int| 0 <= i < blocks.len() ==> (#[trigger] blocks[i]).data is Some {
        if blocks.len() > 0 {
            let tail = blocks.drop_first();
            assert forall|i: int| 0 <= i < tail.len() implies (#[trigger] tail[i]).data is Some by {
                assert(blocks[i + 1].data is Some);
            }
            law_data_are_those_of_the_blocks(tail, block, rest);
            assert(block_contents(blocks).drop_first() =~= block_contents(tail));
            assert(blocks[0].data is Some);
        }
    }
}

/// A piece passes its check just where all of its blocks have come and what
/// they hold, end to end, has the hash.
pub proof fn law_what_passes_the_check(piece: Piece)
    ensures
        piece.has_hash() <==> (forall|i: int|
            0 <= i < piece.blocks@.len() ==> (#[trigger] piece.blocks@[i]).received
                && piece.blocks@[i].data is Some) && sha1_of(
            block_contents(piece.blocks@).flatten(),
        ) == piece.hash@,
{
    let blocks = piece.blocks@;
    if blocks.len() > 0 {
        law_data_are_those_of_the_blocks(blocks, blocks[0], blocks);
    } else {
        law_data_are_those_of_the_blocks(blocks, arbitrary(), blocks);
    }
    if piece.has_hash() {
        assert forall|i: int| 0 <= i < blocks.len() implies (#[trigger] blocks[i]).received
            && blocks[i].data is Some by {}
    }
}

/// What a received block does, by the fields of the piece and its blocks. Where
/// the block has come already, nothing. Else it holds the data from then on;
/// and where it was the last that had not come, the piece is downloaded if the
/// data have its hash, and otherwise starts over and is needed again.
pub proof fn law_what_a_received_block_does(
    before: PieceManager,
    after: PieceManager,
    piece_index: usize,
    offset: usize,
    data: Bytes,
    completed: bool,
    i: int,
)
    requires
        block_received(before, after, piece_index, offset, data, completed),
        piece_index < before.pieces@.len(),
        0 <= i < before.pieces@[piece_index as int].blocks@.len(),
        before.pieces@[piece_index as int].blocks@[i].offset == offset,
        forall|j: int|
            0 <= j < i ==> (#[trigger] before.pieces@[piece_index as int].blocks@[j]).offset
                != offset,
        forall|j: int|
            0 <= j < before.pieces@[piece_index as int].blocks@.len() ==> ((
            #[trigger] before.pieces@[piece_index as int].blocks@[j]).received
                <==> before.pieces@[piece_index as int].blocks@[j].data is Some),
    ensures
        ({
            let old_piece = before.pieces@[piece_index as int];
            let new_piece = after.pieces@[piece_index as int];
            let blocks = old_piece.blocks@;
            let filled = blocks.update(
                i,
                Block { data: Some(data), received: true, ..blocks[i] },
            );
            let full = forall|j: int| 0 <= j < filled.len() ==> (#[trigger] filled[j]).received;
            let right = sha1_of(block_contents(filled).flatten()) == old_piece.hash@;
            if blocks[i].received {
                &&& !completed
                &&& new_piece.blocks@ == blocks
                &&& new_piece.verified == old_piece.verified
                &&& after.downloaded_pieces@ == before.downloaded_pieces@
                &&& after.in_progress@ == before.in_progress@
                &&& after.needed_pieces@ == before.needed_pieces@
            } else if !full {
                &&& !completed
                &&& new_piece.blocks@ == filled
                &&& new_piece.verified == old_piece.verified
                &&& after.downloaded_pieces@ == before.downloaded_pieces@
                &&& after.in_progress@ == before.in_progress@
                &&& after.needed_pieces@ == before.needed_pieces@
            } else if right {
                &&& completed
                &&& new_piece.blocks@ == filled
                &&& new_piece.verified
                &&& new_piece.downloaded
                &&& after.downloaded_pieces@ == before.downloaded_pieces@.insert(piece_index)
                &&& after.in_progress@ == before.in_progress@.remove(piece_index)
                &&& after.needed_pieces@ == before.needed_pieces@
            } else {
                &&& !completed
                &&& new_piece.blocks@.len() == blocks.len()
                &&& forall|j: int|
                    0 <= j < blocks.len() ==> (#[trigger] new_piece.blocks@[j]) == (Block {
                        data: None,
                        requested: false,
                        received: false,
                        request_time: None,
                        ..blocks[j]
                    })
                &&& new_piece.verified == old_piece.verified
                &&& after.downloaded_pieces@ == before.downloaded_pieces@
                &&& after.in_progress@ == before.in_progress@.remove(piece_index)
                &&& after.needed_pieces@ == before.needed_pieces@.push(piece_index)
            }
        }),
        after.pieces@[piece_index as int].index == before.pieces@[piece_index as int].index,
        after.pieces@[piece_index as int].hash == before.pieces@[piece_index as int].hash,
        after.pieces@[piece_index as int].length == before.pieces@[piece_index as int].length,
        after.pieces@.len() == before.pieces@.len(),
        forall|k: int|
            0 <= k < before.pieces@.len() && k != piece_index ==> #[trigger] after.pieces@[k]
                == before.pieces@[k],
{
    let blocks = before.pieces@[piece_index as int].blocks@;
    let filled = blocks.update(i, Block { data: Some(data), received: true, ..blocks[i] });
    law_data_go_to_the_block_at_the_offset(blocks, offset, data, i);
    if !blocks[i].received {
        let with = with_data(blocks, offset, data);
        assert forall|j: int| 0 <= j < blocks.len() implies with[j] == filled[j] by {}
        assert(with =~= filled);
        if forall|j: int| 0 <= j < filled.len() ==> (#[trigger] filled[j]).received {
            assert forall|j: int| 0 <= j < filled.len() implies (
            #[trigger] filled[j]).data is Some by {
                assert(filled[j].received);
                if j != i {
                    assert(blocks[j].received);
                }
            }
            law_data_are_those_of_the_blocks(filled, filled[i], filled);
            assert(all_received(filled));
            assert(all_have_data(filled));
        } else {
            assert(!all_received(filled));
        }
    }
}

/// A block for a piece that is not there, or at an offset at which no block of
/// the piece starts, does nothing.
pub proof fn law_stray_blocks_do_nothing(
    before: PieceManager,
    after: PieceManager,
    piece_index: usize,
    offset: usize,
    data: Bytes,
    completed: bool,
)
    requires
        block_received(before, after, piece_index, offset, data, completed),
        piece_index < before.pieces@.len() ==> forall|j: int|
            0 <= j < before.pieces@[piece_index as int].blocks@.len() ==> (
            #[trigger] before.pieces@[piece_index as int].blocks@[j]).offset != offset,
    ensures
        !completed,
        after.pieces@.len() == before.pieces@.len(),
        forall|k: int|
            0 <= k < before.pieces@.len() ==> (#[trigger] after.pieces@[k]).blocks@
                == before.pieces@[k].blocks@ && after.pieces@[k].verified
                == before.pieces@[k].verified,
        after.downloaded_pieces@ == before.downloaded_pieces@,
        after.in_progress@ == before.in_progress@,
        after.needed_pieces@ == before.needed_pieces@,
{
    if piece_index < before.pieces@.len() {
        law_data_for_no_block_are_not_taken(
            before.pieces@[piece_index as int].blocks@,
            offset,
            data,
        );
    }
}

/// The next piece to download is the first needed one that is neither in
/// progress nor downloaded.
pub proof fn law_next_piece_is_the_first_free_one(
    needed: Seq<usize>,
    in_progress: Set<usize>,
    downloaded: Set<usize>,
)
    ensures
        ({
            let k = first_free(needed, in_progress, downloaded);
            &&& 0 <= k <= needed.len()
            &&& k < needed.len() ==> !in_progress.contains(needed[k]) && !downloaded.contains(
                needed[k],
            )
            &&& forall|j: int|
                0 <= j < k ==> in_progress.contains(#[trigger] needed[j]) || downloaded.contains(
                    needed[j],
                )
        }),
    decreases needed.len(),
{
    if needed.len() > 0 {
        let rest = needed.drop_first();
        law_next_piece_is_the_first_free_one(rest, in_progress, downloaded);
        let k = first_free(needed, in_progress, downloaded);
        assert forall|j: int| 0 <= j < k implies in_progress.contains(#[trigger] needed[j])
            || downloaded.contains(needed[j]) by {
            if j > 0 {
                assert(needed[j] == rest[j - 1]);
            }
        }
    }
}

/// A piece starts in a file where the one before it ends.
pub proof fn law_pieces_follow_each_other(pieces: Seq<Piece>, piece: Piece)
    ensures
        total_of(Seq::empty()) == 0,
        total_of(pieces.push(piece)) == total_of(pieces) + piece.length,
{
    assert(pieces.push(piece).drop_last() =~= pieces);
}

/// What is written grows with the pieces: nothing for no pieces; for one more
/// piece that is verified one write more, of its data at the end of the pieces
/// before it; for one that is not, none.
pub proof fn law_writes_follow_the_pieces(
    writes: Seq<(usize, PieceWrite)>,
    pieces: Seq<Piece>,
    piece: Piece,
)
    requires
        is_write_list(writes, pieces.push(piece)),
    ensures
        piece.verified ==> ({
            &&& writes.len() > 0
            &&& is_write_list(writes.drop_last(), pieces)
            &&& writes.last().0 == piece.index
            &&& writes.last().1.offset == total_of(pieces) as u64
            &&& (forall|i: int|
                0 <= i < piece.blocks@.len() ==> (#[trigger] piece.blocks@[i]).data is Some)
                ==> writes.last().1.data@ == block_contents(piece.blocks@).flatten()
                && writes.last().1.complete
        }),
        !piece.verified ==> is_write_list(writes, pieces),
        is_write_list(Seq::empty(), Seq::empty()),
        forall|w: Seq<(usize, PieceWrite)>| #[trigger]
            is_write_list(w, Seq::empty()) ==> w.len() == 0,
{
    let all = pieces.push(piece);
    assert(all.drop_last() =~= pieces);
    assert(all.last() == piece);
    let blocks = piece.blocks@;
    if forall|i: int| 0 <= i < blocks.len() ==> (#[trigger] blocks[i]).data is Some {
        law_data_are_those_of_the_blocks(blocks, arbitrary(), blocks);
        assert(all_have_data(blocks));
    }
}

/// The pieces that are given up are needed again in the order of their
/// indices.
pub proof fn law_given_up_pieces_come_in_order(manager: PieceManager, now: u128, n: nat, a: int, b: int)
    requires
        n <= manager.pieces@.len() <= usize::MAX,
        0 <= a < b < manager.all_given_up(now, n).len(),
    ensures
        manager.all_given_up(now, n)[a] < manager.all_given_up(now, n)[b] < n,
    decreases n,
{
    if n > 0 {
        let before = manager.all_given_up(now, (n - 1) as nat);
        if b < before.len() {
            law_given_up_pieces_come_in_order(manager, now, (n - 1) as nat, a, b);
        } else {
            lemma_given_up_below(manager, now, (n - 1) as nat, a);
        }
    }
}

proof fn lemma_given_up_below(manager: PieceManager, now: u128, n: nat, a: int)
    requires
        n <= manager.pieces@.len() <= usize::MAX,
        0 <= a < manager.all_given_up(now, n).len(),
    ensures
        manager.all_given_up(now, n)[a] < n,
    decreases n,
{
    if n > 0 {
        let before = manager.all_given_up(now, (n - 1) as nat);
        if a < before.len() {
            lemma_given_up_below(manager, now, (n - 1) as nat, a);
        }
    }
}

/// All blocks have come, or have data, just where none is without.
pub proof fn law_complete_means_every_block(blocks: Seq<Block>)
    ensures
        all_received(blocks) <==> !(exists|i: int|
            0 <= i < blocks.len() && !(#[trigger] blocks[i]).received),
        all_have_data(blocks) <==> !(exists|i: int|
            0 <= i < blocks.len() && (#[trigger] blocks[i]).data is None),
{
}

/// A block may be awaited for half a minute.
pub proof fn law_limit_of_a_request()
    ensures
        PIECE_REQUEST_TIMEOUT == 30 * 1_000_000_000,
{
}

/// Where only the blocks of a piece change, its place, its hash and what is
/// said of it stay.
pub proof fn law_only_blocks_change(before: Piece, after: Piece)
    requires
        after.same_but_blocks(before),
    ensures
        after == (Piece { blocks: after.blocks, ..before }),
{
}

/// What is written of a piece goes to the offset that is asked for, and is all
/// of the piece if and only if every block has data.
pub proof fn law_pieces_are_written_at_their_offset(write: PieceWrite, piece: Piece, offset: u64)
    requires
        write.describes(piece, offset),
    ensures
        write.offset == offset,
        write.data@ == joined(piece.blocks@),
        write.complete <==> forall|i: int|
            0 <= i < piece.blocks@.len() ==> (#[trigger] piece.blocks@[i]).data is Some,
{
}

/// A check for timeouts releases the overdue blocks of the pieces in progress.
/// All other blocks, and all else of the pieces, stay as they were.
pub proof fn law_a_check_releases_overdue_blocks(
    before: PieceManager,
    after: PieceManager,
    now: u128,
    i: usize,
    k: int,
)
    requires
        timeouts_checked(before, after, now),
        i < before.pieces@.len(),
        0 <= k < before.pieces@[i as int].blocks@.len(),
    ensures
        after.pieces@.len() == before.pieces@.len(),
        after.block_size == before.block_size,
        after.piece_request_timeout == before.piece_request_timeout,
        ({
            let piece = before.pieces@[i as int];
            let next = after.pieces@[i as int];
            let overdue = before.in_progress@.contains(i) && is_overdue(
                piece.blocks@[k],
                now,
                before.piece_request_timeout,
            );
            &&& next == (Piece { blocks: next.blocks, ..piece })
            &&& next.blocks@.len() == piece.blocks@.len()
            &&& !overdue ==> next.blocks@[k] == piece.blocks@[k]
            &&& overdue ==> next.blocks@[k] == (Block {
                requested: false,
                request_time: None,
                ..piece.blocks@[k]
            })
        }),
{
    let piece = before.pieces@[i as int];
    let next = after.pieces@[i as int];
    assert(next.same_but_blocks(piece));
}

} // verus!

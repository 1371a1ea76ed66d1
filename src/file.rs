//! The output file of a torrent: its contents, which bytes and blocks of each
//! piece have been written, and which pieces have been verified by hash.
use vstd::prelude::*;

use crate::digest::{sha1_digest, sha1_of};

verus! {

/// The fixed sub-piece transfer unit, in bytes.
pub const BLOCK_SIZE: usize = 16000;

/// Why a store operation was refused. A refused call changes nothing.
#[derive(Debug, Clone, Copy, PartialEq, Eq, Structural)]
pub enum StoreError {
    /// The piece index is not below the number of pieces.
    IndexOutOfRange,
    /// The range runs past the end of a piece.
    BeyondPieceSize,
    /// The range runs past the end of the last, shorter piece.
    BeyondLastPieceSize,
    /// A block of no bytes was offered.
    EmptyBlock,
    /// The block does not start on the block grid.
    Misaligned,
    /// The piece has not been verified yet, so it cannot be read.
    NotFinished,
    /// The piece has bytes that were never written, so it cannot be hashed.
    NotComplete,
}

/// `a / b` rounded up.
pub open spec fn ceil_div(a: int, b: int) -> int {
    a / b + if a % b == 0 { 0int } else { 1int }
}

/// A file of `length` bytes cut into `num_pieces` pieces of `piece_size` bytes,
/// the last of which may be shorter but not empty.
pub open spec fn valid_geometry(length: int, num_pieces: int, piece_size: int, block_size: int) -> bool {
    &&& num_pieces >= 1
    &&& piece_size >= 1
    &&& block_size >= 1
    &&& (num_pieces - 1) * piece_size < length <= num_pieces * piece_size
    &&& num_pieces * ceil_div(piece_size, block_size) <= usize::MAX
}

/// The total length of the pieces below `i` that are not verified.
pub open spec fn unverified_bytes(f: OutputFile, i: int) -> int
    decreases i,
{
    if i <= 0 {
        0
    } else {
        unverified_bytes(f, i - 1) + if f.verified()[i - 1] {
            0
        } else {
            f.piece_len(i - 1)
        }
    }
}

/// `s` with the bytes from `at` on replaced by `b`.
pub open spec fn splice(s: Seq<u8>, at: int, b: Seq<u8>) -> Seq<u8> {
    s.subrange(0, at) + b + s.subrange(at + b.len(), s.len() as int)
}

/// Two grid cells `(i, j)` and `(i2, j2)` with columns below `w` sit at the same
/// flat position only when they are the same cell.
proof fn lemma_grid_unique(i: int, j: int, i2: int, j2: int, w: int)
    requires
        0 <= i,
        0 <= i2,
        0 <= j < w,
        0 <= j2 < w,
        i * w + j == i2 * w + j2,
    ensures
        i == i2,
        j == j2,
{
    if i < i2 {
        assert(i * w + w <= i2 * w) by (nonlinear_arith)
            requires
                i < i2,
                0 <= w,
        ;
    } else if i2 < i {
        assert(i2 * w + w <= i * w) by (nonlinear_arith)
            requires
                i2 < i,
                0 <= w,
        ;
    }
}

/// A cell of a grid with `n` rows of `w` columns lies within `n * w`.
proof fn lemma_grid_bound(i: int, j: int, n: int, w: int)
    requires
        0 <= i < n,
        0 <= j < w,
    ensures
        0 <= i * w + j < n * w,
{
    assert(0 <= i * w) by (nonlinear_arith)
        requires
            0 <= i,
            0 <= w,
    ;
    assert(i * w + w <= n * w) by (nonlinear_arith)
        requires
            i < n,
            0 <= w,
    ;
}

pub struct OutputFile {
    length: usize,
    block_size: usize,
    num_pieces: usize,
    piece_size: usize,
    last_piece_size: usize,
    blocks_per_piece: usize,
    /// The file's contents.
    data: Vec<u8>,
    /// One flag per byte of the file: has it been written.
    written: Vec<bool>,
    /// One flag per block-grid cell, piece after piece.
    blocks: Vec<bool>,
    /// One flag per piece: has it been verified.
    pieces: Vec<bool>,
}

impl OutputFile {
    pub closed spec fn wf(self) -> bool {
        &&& valid_geometry(
            self.length as int,
            self.num_pieces as int,
            self.piece_size as int,
            self.block_size as int,
        )
        &&& self.blocks_per_piece == ceil_div(self.piece_size as int, self.block_size as int)
        &&& self.last_piece_size == self.length - (self.num_pieces - 1) * self.piece_size
        &&& self.data@.len() == self.length
        &&& self.written@.len() == self.length
        &&& self.blocks@.len() == self.num_pieces * self.blocks_per_piece
        &&& self.pieces@.len() == self.num_pieces
    }

    pub closed spec fn spec_length(self) -> int {
        self.length as int
    }

    pub closed spec fn spec_num_pieces(self) -> int {
        self.num_pieces as int
    }

    pub closed spec fn spec_piece_size(self) -> int {
        self.piece_size as int
    }

    pub closed spec fn spec_block_size(self) -> int {
        self.block_size as int
    }

    /// The bytes of the file.
    pub closed spec fn content(self) -> Seq<u8> {
        self.data@
    }

    /// The verified-piece bitfield.
    pub closed spec fn verified(self) -> Seq<bool> {
        self.pieces@
    }

    /// Has byte `k` of piece `i` been written.
    pub closed spec fn byte_done(self, i: int, k: int) -> bool {
        self.written@[i * self.piece_size + k]
    }

    /// Has block `j` of piece `i` been written.
    pub closed spec fn block_done(self, i: int, j: int) -> bool {
        self.blocks@[i * self.blocks_per_piece + j]
    }

    /// Number of block-grid cells in each piece.
    pub open spec fn spec_blocks_per_piece(self) -> int {
        ceil_div(self.spec_piece_size(), self.spec_block_size())
    }

    /// The logical length of piece `i`: the last piece holds what is left.
    pub open spec fn piece_len(self, i: int) -> int {
        if i == self.spec_num_pieces() - 1 {
            self.spec_length() - (self.spec_num_pieces() - 1) * self.spec_piece_size()
        } else {
            self.spec_piece_size()
        }
    }

    /// File offset at which piece `i` starts.
    pub open spec fn piece_start(self, i: int) -> int {
        i * self.spec_piece_size()
    }

    /// Every byte in the logical range of piece `i` has been written.
    pub open spec fn byte_complete(self, i: int) -> bool {
        forall|k: int| 0 <= k < self.piece_len(i) ==> #[trigger] self.byte_done(i, k)
    }

    /// The bytes of piece `i`.
    pub open spec fn piece_content(self, i: int) -> Seq<u8> {
        self.content().subrange(self.piece_start(i), self.piece_start(i) + self.piece_len(i))
    }

    /// All pieces are verified.
    pub open spec fn file_finished(self) -> bool {
        forall|i: int| 0 <= i < self.spec_num_pieces() ==> #[trigger] self.verified()[i]
    }

    /// How many bytes of a block of `len` bytes are kept: at most one block.
    pub open spec fn accepted_len(self, len: int) -> int {
        if len > self.spec_block_size() {
            self.spec_block_size()
        } else {
            len
        }
    }

    /// What is wrong with the range `begin .. begin + len` of piece `index`.
    pub open spec fn range_error(self, index: int, begin: int, len: int) -> Option<StoreError> {
        if index >= self.spec_num_pieces() {
            Some(StoreError::IndexOutOfRange)
        } else if begin + len > self.spec_piece_size() {
            Some(StoreError::BeyondPieceSize)
        } else if index == self.spec_num_pieces() - 1 && begin + len > self.piece_len(index) {
            Some(StoreError::BeyondLastPieceSize)
        } else {
            None
        }
    }

    /// Why `write_block(index, begin, block)` with a block of `len` bytes is refused.
    pub open spec fn write_error(self, index: int, begin: int, len: int) -> Option<StoreError> {
        if self.range_error(index, begin, len).is_some() {
            self.range_error(index, begin, len)
        } else if len == 0 {
            Some(StoreError::EmptyBlock)
        } else if begin % self.spec_block_size() != 0 {
            Some(StoreError::Misaligned)
        } else {
            None
        }
    }

    /// Why `read_block(index, begin, len)` is refused.
    pub open spec fn read_error(self, index: int, begin: int, len: int) -> Option<StoreError> {
        if index >= self.spec_num_pieces() {
            Some(StoreError::IndexOutOfRange)
        } else if !self.verified()[index] {
            Some(StoreError::NotFinished)
        } else {
            self.range_error(index, begin, len)
        }
    }

    /// `self` and `other` describe the same file layout.
    pub open spec fn same_geometry(self, other: OutputFile) -> bool {
        &&& self.wf()
        &&& self.spec_length() == other.spec_length()
        &&& self.spec_num_pieces() == other.spec_num_pieces()
        &&& self.spec_piece_size() == other.spec_piece_size()
        &&& self.spec_block_size() == other.spec_block_size()
    }

    proof fn lemma_wf_facts(self)
        requires
            self.wf(),
        ensures
            self.blocks_per_piece == self.spec_blocks_per_piece(),
            self.blocks_per_piece >= 1,
            self.blocks_per_piece <= self.piece_size,
            0 < self.last_piece_size <= self.piece_size,
            self.last_piece_size == self.piece_len(self.num_pieces - 1),
    {
        let ps = self.piece_size as int;
        let bs = self.block_size as int;
        assert(ps / bs <= ps) by (nonlinear_arith)
            requires
                ps >= 1,
                bs >= 1,
        ;
        assert(ps / bs >= 1 || ps % bs != 0) by (nonlinear_arith)
            requires
                ps >= 1,
                bs >= 1,
        ;
        if ps % bs != 0 {
            assert(ps / bs < ps) by (nonlinear_arith)
                requires
                    ps >= 1,
                    bs >= 1,
                    ps % bs != 0,
            ;
        }
        let n = self.num_pieces as int;
        assert(n * ps == (n - 1) * ps + ps) by (nonlinear_arith);
    }

    /// Byte `k` of piece `i` lies inside the file.
    proof fn lemma_byte_in_file(self, i: int, k: int)
        requires
            self.wf(),
            0 <= i < self.num_pieces,
            0 <= k < self.piece_len(i),
        ensures
            0 <= self.piece_start(i) + k < self.length,
            self.piece_start(i) + self.piece_len(i) <= self.length,
    {
        self.lemma_wf_facts();
        let ps = self.piece_size as int;
        let n = self.num_pieces as int;
        assert(0 <= i * ps) by (nonlinear_arith)
            requires
                0 <= i,
                0 <= ps,
        ;
        if i < n - 1 {
            assert(i * ps + ps <= (n - 1) * ps) by (nonlinear_arith)
                requires
                    i < n - 1,
                    0 <= ps,
            ;
        }
    }

    /// Creates the store for a file of `length` bytes in `num_pieces` pieces of
    /// `piece_size` bytes, written in blocks of `block_size` bytes. The file
    /// starts as zero bytes with nothing written and nothing verified.
    /// Returns `None` where the numbers describe no such file.
    pub fn new(length: usize, num_pieces: usize, piece_size: usize, block_size: usize) -> (r:
        Option<Self>)
        ensures
            r.is_some() == valid_geometry(
                length as int,
                num_pieces as int,
                piece_size as int,
                block_size as int,
            ),
            r matches Some(f) ==> {
                &&& f.wf()
                &&& f.spec_length() == length
                &&& f.spec_num_pieces() == num_pieces
                &&& f.spec_piece_size() == piece_size
                &&& f.spec_block_size() == block_size
                &&& f.content() == Seq::new(length as nat, |k: int| 0u8)
                &&& forall|i: int, k: int|
                    0 <= i < num_pieces && 0 <= k < f.piece_len(i) ==> !#[trigger] f.byte_done(i, k)
                &&& forall|i: int, j: int|
                    0 <= i < num_pieces && 0 <= j < f.spec_blocks_per_piece() ==> !#[trigger] f.block_done(i, j)
                &&& f.verified() == Seq::new(num_pieces as nat, |i: int| false)
            },
    {
        if num_pieces == 0 || piece_size == 0 || block_size == 0 {
            return None;
        }
        proof {
            let ps = piece_size as int;
            let bs = block_size as int;
            assert(ps / bs <= ps) by (nonlinear_arith)
                requires
                    ps >= 1,
                    bs >= 1,
            ;
            if ps % bs != 0 {
                assert(ps / bs < ps) by (nonlinear_arith)
                    requires
                        ps >= 1,
                        bs >= 1,
                        ps % bs != 0,
                ;
            }
        }
        let bpp: usize = piece_size / block_size + if piece_size % block_size == 0 {
            0usize
        } else {
            1usize
        };
        let before_last = (num_pieces - 1).checked_mul(piece_size);
        let grid = num_pieces.checked_mul(bpp);
        proof {
            let n = num_pieces as int;
            let ps = piece_size as int;
            assert(n * ps == (n - 1) * ps + ps) by (nonlinear_arith);
        }
        match (before_last, grid) {
            (Some(prev), Some(cells)) => {
                if length <= prev || length - prev > piece_size {
                    return None;
                }
                let data: Vec<u8> = vec![0u8; length];
                let written: Vec<bool> = vec![false; length];
                let blocks: Vec<bool> = vec![false; cells];
                let pieces: Vec<bool> = vec![false; num_pieces];
                let f = OutputFile {
                    length,
                    block_size,
                    num_pieces,
                    piece_size,
                    last_piece_size: length - prev,
                    blocks_per_piece: bpp,
                    data,
                    written,
                    blocks,
                    pieces,
                };
                assert(f.content() =~= Seq::new(length as nat, |k: int| 0u8));
                assert(f.verified() =~= Seq::new(num_pieces as nat, |i: int| false));
                assert forall|i: int, k: int|
                    0 <= i < num_pieces && 0 <= k < f.piece_len(i) implies !#[trigger] f.byte_done(
                    i,
                    k,
                ) by {
                    f.lemma_byte_in_file(i, k);
                }
                assert forall|i: int, j: int|
                    0 <= i < num_pieces && 0 <= j < f.spec_blocks_per_piece() implies !#[trigger] f.block_done(
                    i,
                    j,
                ) by {
                    lemma_grid_bound(i, j, num_pieces as int, bpp as int);
                }
                Some(f)
            },
            _ => None,
        }
    }

    /// Whether every byte of piece `index` has been written.
    fn check_piece_finished(&self, index: usize) -> (r: bool)
        requires
            self.wf(),
            index < self.spec_num_pieces(),
        ensures
            r == self.byte_complete(index as int),
    {
        proof {
            self.lemma_wf_facts();
        }
        let bound = if index == self.num_pieces - 1 {
            self.last_piece_size
        } else {
            self.piece_size
        };
        proof {
            self.lemma_byte_in_file(index as int, 0);
        }
        let start = index * self.piece_size;
        let mut k: usize = 0;
        while k < bound
            invariant
                self.wf(),
                index < self.num_pieces,
                bound == self.piece_len(index as int),
                start == self.piece_start(index as int),
                start + bound <= self.length,
                k <= bound,
                forall|t: int| 0 <= t < k ==> #[trigger] self.byte_done(index as int, t),
            decreases bound - k,
        {
            if !self.written[start + k] {
                assert(!self.byte_done(index as int, k as int));
                return false;
            }
            k = k + 1;
        }
        true
    }

    /// Writes `block` at offset `begin` of piece `index`. A block longer than
    /// the block size is cut to its first `block_size` bytes. Returns whether
    /// every byte of the piece has now been written (it is not yet verified).
    /// A refused call changes nothing.
    pub fn write_block(&mut self, index: usize, begin: usize, block: Vec<u8>) -> (r: Result<
        bool,
        StoreError,
    >)
        requires
            old(self).wf(),
        ensures
            match r {
                Err(e) => {
                    &&& old(self).write_error(index as int, begin as int, block@.len() as int)
                        == Some(e)
                    &&& *final(self) == *old(self)
                },
                Ok(done) => {
                    let w = old(self).accepted_len(block@.len() as int);
                    &&& old(self).write_error(index as int, begin as int, block@.len() as int)
                        is None
                    &&& final(self).same_geometry(*old(self))
                    &&& final(self).content() == splice(
                        old(self).content(),
                        old(self).piece_start(index as int) + begin,
                        block@.take(w),
                    )
                    &&& forall|i: int, k: int|
                        0 <= i < old(self).spec_num_pieces() && 0 <= k < old(self).piece_len(i)
                            ==> #[trigger] final(self).byte_done(i, k) == (old(self).byte_done(i, k)
                            || (i == index && begin <= k < begin + w))
                    &&& forall|i: int, j: int|
                        0 <= i < old(self).spec_num_pieces() && 0 <= j
                            < old(self).spec_blocks_per_piece() ==> #[trigger] final(self).block_done(
                            i,
                            j,
                        ) == (old(self).block_done(i, j) || (i == index && j == (begin as int)
                            / old(self).spec_block_size()))
                    &&& final(self).verified() == old(self).verified()
                    &&& done == final(self).byte_complete(index as int)
                },
            },
    {
        proof {
            self.lemma_wf_facts();
        }
        if index >= self.num_pieces {
            return Err(StoreError::IndexOutOfRange);
        }
        if begin > self.piece_size || block.len() > self.piece_size - begin {
            return Err(StoreError::BeyondPieceSize);
        }
        if index == self.num_pieces - 1 && begin + block.len() > self.last_piece_size {
            return Err(StoreError::BeyondLastPieceSize);
        }
        if block.len() == 0 {
            return Err(StoreError::EmptyBlock);
        }
        if begin % self.block_size != 0 {
            return Err(StoreError::Misaligned);
        }
        let w: usize = if block.len() > self.block_size {
            self.block_size
        } else {
            block.len()
        };
        proof {
            self.lemma_byte_in_file(index as int, begin as int);
        }
        let start = index * self.piece_size + begin;
        let ghost old_self = *self;
        let mut j: usize = 0;
        while j < w
            invariant
                self.wf(),
                old_self.wf(),
                self.length == old_self.length,
                self.num_pieces == old_self.num_pieces,
                self.piece_size == old_self.piece_size,
                self.block_size == old_self.block_size,
                self.last_piece_size == old_self.last_piece_size,
                self.blocks_per_piece == old_self.blocks_per_piece,
                self.blocks == old_self.blocks,
                self.pieces == old_self.pieces,
                w <= block@.len(),
                start == index * self.piece_size + begin,
                start + w <= self.length,
                j <= w,
                forall|t: int|
                    0 <= t < self.length ==> #[trigger] self.data@[t] == if start <= t < start + j {
                        block@[t - start]
                    } else {
                        old_self.data@[t]
                    },
                forall|t: int|
                    0 <= t < self.length ==> #[trigger] self.written@[t] == (old_self.written@[t]
                        || (start <= t < start + j)),
            decreases w - j,
        {
            self.data.set(start + j, block[j]);
            self.written.set(start + j, true);
            j = j + 1;
        }
        proof {
            let bs = self.block_size as int;
            let ps = self.piece_size as int;
            assert((begin as int) / bs < ceil_div(ps, bs)) by (nonlinear_arith)
                requires
                    begin < ps,
                    bs >= 1,
            ;
            lemma_grid_bound(
                index as int,
                (begin as int) / bs,
                self.num_pieces as int,
                self.blocks_per_piece as int,
            );
        }
        let cell = index * self.blocks_per_piece + begin / self.block_size;
        self.blocks.set(cell, true);
        proof {
            assert(self.content() =~= splice(
                old_self.content(),
                old_self.piece_start(index as int) + begin,
                block@.take(w as int),
            ));
            assert forall|i: int, k: int|
                0 <= i < old_self.spec_num_pieces() && 0 <= k < old_self.piece_len(i)
                    implies #[trigger] self.byte_done(i, k) == (old_self.byte_done(i, k) || (i
                == index && begin <= k < begin + w)) by {
                old_self.lemma_byte_in_file(i, k);
                old_self.lemma_byte_in_file(index as int, 0);
                let ps = self.piece_size as int;
                if start <= i * ps + k < start + w {
                    assert(k < ps);
                    lemma_grid_unique(i, k, index as int, (i * ps + k) - index * ps, ps);
                }
            }
            assert forall|i: int, j: int|
                0 <= i < old_self.spec_num_pieces() && 0 <= j < old_self.spec_blocks_per_piece()
                    implies #[trigger] self.block_done(i, j) == (old_self.block_done(i, j) || (i
                == index && j == (begin as int) / old_self.spec_block_size())) by {
                let bpp = self.blocks_per_piece as int;
                lemma_grid_bound(i, j, self.num_pieces as int, bpp);
                if i * bpp + j == cell {
                    lemma_grid_unique(i, j, index as int, (begin as int) / (self.block_size as int), bpp);
                }
            }
        }
        let done = self.check_piece_finished(index);
        Ok(done)
    }

    /// Reads `length` bytes at offset `begin` of piece `index`, which must
    /// have been verified.
    pub fn read_block(&self, index: usize, begin: usize, length: usize) -> (r: Result<
        Vec<u8>,
        StoreError,
    >)
        requires
            self.wf(),
        ensures
            match r {
                Err(e) => self.read_error(index as int, begin as int, length as int) == Some(e),
                Ok(v) => {
                    &&& self.read_error(index as int, begin as int, length as int) is None
                    &&& v@.len() == length
                    &&& v@ == self.content().subrange(
                        self.piece_start(index as int) + begin,
                        self.piece_start(index as int) + begin + length,
                    )
                },
            },
    {
        proof {
            self.lemma_wf_facts();
        }
        if index >= self.num_pieces {
            return Err(StoreError::IndexOutOfRange);
        }
        if !self.pieces[index] {
            return Err(StoreError::NotFinished);
        }
        if begin > self.piece_size || length > self.piece_size - begin {
            return Err(StoreError::BeyondPieceSize);
        }
        if index == self.num_pieces - 1 && begin + length > self.last_piece_size {
            return Err(StoreError::BeyondLastPieceSize);
        }
        proof {
            self.lemma_byte_in_file(index as int, 0);
        }
        let start = index * self.piece_size + begin;
        let v = self.copy_range(start, length);
        Ok(v)
    }

    /// The `length` bytes of the file from offset `start`.
    fn copy_range(&self, start: usize, length: usize) -> (v: Vec<u8>)
        requires
            self.wf(),
            start + length <= self.length,
        ensures
            v@ == self.content().subrange(start as int, start + length),
    {
        let mut v: Vec<u8> = Vec::with_capacity(length);
        let mut j: usize = 0;
        while j < length
            invariant
                self.wf(),
                start + length <= self.length,
                j <= length,
                v@ == self.content().subrange(start as int, start + j),
            decreases length - j,
        {
            v.push(self.data[start + j]);
            j = j + 1;
            assert(v@ =~= self.content().subrange(start as int, start + j));
        }
        v
    }

    /// The SHA-1 digest of piece `index`, over its logical length; every byte
    /// of it must have been written.
    pub fn hash_piece(&self, index: usize) -> (r: Result<[u8; 20], StoreError>)
        requires
            self.wf(),
        ensures
            match r {
                Err(e) => {
                    ||| index >= self.spec_num_pieces() && e == StoreError::IndexOutOfRange
                    ||| index < self.spec_num_pieces() && !self.byte_complete(index as int) && e
                        == StoreError::NotComplete
                },
                Ok(h) => {
                    &&& index < self.spec_num_pieces()
                    &&& self.byte_complete(index as int)
                    &&& h@ == sha1_of(self.piece_content(index as int))
                },
            },
    {
        if index >= self.num_pieces {
            return Err(StoreError::IndexOutOfRange);
        }
        if !self.check_piece_finished(index) {
            return Err(StoreError::NotComplete);
        }
        proof {
            self.lemma_wf_facts();
            self.lemma_byte_in_file(index as int, 0);
        }
        let len = if index == self.num_pieces - 1 {
            self.last_piece_size
        } else {
            self.piece_size
        };
        let bytes = self.copy_range(index * self.piece_size, len);
        Ok(sha1_digest(bytes.as_slice()))
    }

    /// Whether the SHA-1 digest of piece `index` is `hash`; every byte of the
    /// piece must have been written.
    pub fn compare_piece_hash(&self, index: usize, hash: &[u8; 20]) -> (r: Result<
        bool,
        StoreError,
    >)
        requires
            self.wf(),
        ensures
            match r {
                Err(e) => {
                    ||| index >= self.spec_num_pieces() && e == StoreError::IndexOutOfRange
                    ||| index < self.spec_num_pieces() && !self.byte_complete(index as int) && e
                        == StoreError::NotComplete
                },
                Ok(same) => {
                    &&& index < self.spec_num_pieces()
                    &&& self.byte_complete(index as int)
                    &&& same == (sha1_of(self.piece_content(index as int)) == hash@)
                },
            },
    {
        match self.hash_piece(index) {
            Err(e) => Err(e),
            Ok(h) => Ok(digests_equal(&h, hash)),
        }
    }

    /// Marks piece `index` verified.
    pub fn set_piece_finished(&mut self, index: usize) -> (r: Result<(), StoreError>)
        requires
            old(self).wf(),
        ensures
            r is Err <==> index >= old(self).spec_num_pieces(),
            r is Err ==> *final(self) == *old(self),
            r is Ok ==> {
                &&& final(self).same_geometry(*old(self))
                &&& final(self).content() == old(self).content()
                &&& final(self).verified() == old(self).verified().update(index as int, true)
                &&& forall|i: int, k: int| #[trigger]
                    final(self).byte_done(i, k) == old(self).byte_done(i, k)
                &&& forall|i: int, j: int| #[trigger]
                    final(self).block_done(i, j) == old(self).block_done(i, j)
            },
    {
        if index >= self.num_pieces {
            return Err(StoreError::IndexOutOfRange);
        }
        self.pieces.set(index, true);
        Ok(())
    }

    /// Forgets that piece `index` was verified and that any of its blocks was
    /// written, so that it is downloaded again. Which bytes were written is
    /// kept.
    pub fn clear_piece(&mut self, index: usize) -> (r: Result<(), StoreError>)
        requires
            old(self).wf(),
        ensures
            r is Err <==> index >= old(self).spec_num_pieces(),
            r is Err ==> *final(self) == *old(self),
            r is Ok ==> {
                &&& final(self).same_geometry(*old(self))
                &&& final(self).content() == old(self).content()
                &&& final(self).verified() == old(self).verified().update(index as int, false)
                &&& forall|i: int, k: int| #[trigger]
                    final(self).byte_done(i, k) == old(self).byte_done(i, k)
                &&& forall|i: int, j: int|
                    0 <= i < old(self).spec_num_pieces() && 0 <= j
                        < old(self).spec_blocks_per_piece() ==> #[trigger] final(self).block_done(
                        i,
                        j,
                    ) == (i != index && old(self).block_done(i, j))
            },
    {
        if index >= self.num_pieces {
            return Err(StoreError::IndexOutOfRange);
        }
        proof {
            self.lemma_wf_facts();
            lemma_grid_bound(
                index as int,
                self.blocks_per_piece - 1,
                self.num_pieces as int,
                self.blocks_per_piece as int,
            );
        }
        let ghost old_self = *self;
        let first = index * self.blocks_per_piece;
        let mut j: usize = 0;
        while j < self.blocks_per_piece
            invariant
                self.wf(),
                self.length == old_self.length,
                self.num_pieces == old_self.num_pieces,
                self.piece_size == old_self.piece_size,
                self.block_size == old_self.block_size,
                self.last_piece_size == old_self.last_piece_size,
                self.blocks_per_piece == old_self.blocks_per_piece,
                self.data == old_self.data,
                self.written == old_self.written,
                self.pieces == old_self.pieces,
                first == index * self.blocks_per_piece,
                first + self.blocks_per_piece <= self.blocks@.len(),
                j <= self.blocks_per_piece,
                forall|t: int|
                    0 <= t < self.blocks@.len() ==> #[trigger] self.blocks@[t] == (old_self.blocks@[t]
                        && !(first <= t < first + j)),
            decreases self.blocks_per_piece - j,
        {
            self.blocks.set(first + j, false);
            j = j + 1;
        }
        self.pieces.set(index, false);
        proof {
            assert forall|i: int, j: int|
                0 <= i < old_self.spec_num_pieces() && 0 <= j < old_self.spec_blocks_per_piece()
                    implies #[trigger] self.block_done(i, j) == (i != index && old_self.block_done(
                i,
                j,
            )) by {
                let bpp = self.blocks_per_piece as int;
                lemma_grid_bound(i, j, self.num_pieces as int, bpp);
                if first <= i * bpp + j < first + bpp {
                    lemma_grid_unique(i, j, index as int, i * bpp + j - first, bpp);
                }
                if i == index {
                    assert(first <= i * bpp + j < first + bpp);
                }
            }
        }
        Ok(())
    }

    /// Whether the block-grid cell that holds offset `begin` of piece `index`
    /// has been written; `None` where there is no such cell.
    pub fn is_block_finished(&self, index: usize, begin: usize) -> (r: Option<bool>)
        requires
            self.wf(),
        ensures
            r is None <==> (index >= self.spec_num_pieces() || (begin as int) / self.spec_block_size()
                >= self.spec_blocks_per_piece()),
            r matches Some(b) ==> b == self.block_done(
                index as int,
                (begin as int) / self.spec_block_size(),
            ),
    {
        proof {
            self.lemma_wf_facts();
        }
        if index >= self.num_pieces {
            return None;
        }
        let j = begin / self.block_size;
        if j >= self.blocks_per_piece {
            return None;
        }
        proof {
            lemma_grid_bound(
                index as int,
                j as int,
                self.num_pieces as int,
                self.blocks_per_piece as int,
            );
        }
        Some(self.blocks[index * self.blocks_per_piece + j])
    }

    /// Whether byte `k` of piece `index` has been written; `None` outside the
    /// piece's logical range.
    pub fn is_byte_finished(&self, index: usize, k: usize) -> (r: Option<bool>)
        requires
            self.wf(),
        ensures
            r is None <==> (index >= self.spec_num_pieces() || k >= self.piece_len(index as int)),
            r matches Some(b) ==> b == self.byte_done(index as int, k as int),
    {
        proof {
            self.lemma_wf_facts();
        }
        if index >= self.num_pieces {
            return None;
        }
        let bound = if index == self.num_pieces - 1 {
            self.last_piece_size
        } else {
            self.piece_size
        };
        if k >= bound {
            return None;
        }
        proof {
            self.lemma_byte_in_file(index as int, k as int);
        }
        Some(self.written[index * self.piece_size + k])
    }

    /// A copy of the verified-piece bitfield.
    pub fn get_file_bitfield(&self) -> (r: Vec<bool>)
        requires
            self.wf(),
        ensures
            r@ == self.verified(),
            r@.len() == self.spec_num_pieces(),
    {
        let mut r: Vec<bool> = Vec::with_capacity(self.num_pieces);
        let mut i: usize = 0;
        while i < self.num_pieces
            invariant
                self.wf(),
                i <= self.num_pieces,
                r@ == self.verified().subrange(0, i as int),
            decreases self.num_pieces - i,
        {
            r.push(self.pieces[i]);
            i = i + 1;
            assert(r@ =~= self.verified().subrange(0, i as int));
        }
        assert(r@ =~= self.verified());
        r
    }

    /// The block grid, one row per piece.
    pub fn get_blocks(&self) -> (r: Vec<Vec<bool>>)
        requires
            self.wf(),
        ensures
            r@.len() == self.spec_num_pieces(),
            forall|i: int|
                0 <= i < self.spec_num_pieces() ==> (#[trigger] r@[i])@.len()
                    == self.spec_blocks_per_piece(),
            forall|i: int, j: int|
                0 <= i < self.spec_num_pieces() && 0 <= j < self.spec_blocks_per_piece()
                    ==> #[trigger] r@[i]@[j] == self.block_done(i, j),
    {
        proof {
            self.lemma_wf_facts();
        }
        let bpp = self.blocks_per_piece;
        let mut r: Vec<Vec<bool>> = Vec::with_capacity(self.num_pieces);
        let mut i: usize = 0;
        while i < self.num_pieces
            invariant
                self.wf(),
                bpp == self.blocks_per_piece,
                bpp == self.spec_blocks_per_piece(),
                i <= self.num_pieces,
                r@.len() == i,
                forall|a: int| 0 <= a < i ==> (#[trigger] r@[a])@.len() == bpp,
                forall|a: int, b: int|
                    0 <= a < i && 0 <= b < bpp ==> #[trigger] r@[a]@[b] == self.block_done(a, b),
            decreases self.num_pieces - i,
        {
            let mut row: Vec<bool> = Vec::with_capacity(bpp);
            let mut j: usize = 0;
            while j < bpp
                invariant
                    self.wf(),
                    bpp == self.blocks_per_piece,
                    i < self.num_pieces,
                    j <= bpp,
                    row@.len() == j,
                    forall|b: int| 0 <= b < j ==> #[trigger] row@[b] == self.block_done(i as int, b),
                decreases bpp - j,
            {
                proof {
                    lemma_grid_bound(i as int, j as int, self.num_pieces as int, bpp as int);
                }
                row.push(self.blocks[i * bpp + j]);
                j = j + 1;
            }
            r.push(row);
            i = i + 1;
        }
        r
    }

    /// The bytes still missing: the total length of the pieces not verified.
    pub fn bytes_left(&self) -> (r: usize)
        requires
            self.wf(),
        ensures
            r == unverified_bytes(*self, self.spec_num_pieces()),
    {
        proof {
            self.lemma_wf_facts();
        }
        let n = self.num_pieces;
        let mut acc: usize = 0;
        let mut i: usize = 0;
        while i < n - 1
            invariant
                self.wf(),
                n == self.num_pieces,
                i <= n - 1,
                acc == unverified_bytes(*self, i as int),
                acc <= self.piece_start(i as int),
            decreases n - 1 - i,
        {
            proof {
                let ps = self.piece_size as int;
                assert((i + 1) * ps == i * ps + ps) by (nonlinear_arith);
                assert((i + 1) * ps <= (n - 1) * ps) by (nonlinear_arith)
                    requires
                        i + 1 <= n - 1,
                        ps >= 0,
                ;
            }
            if !self.pieces[i] {
                acc = acc + self.piece_size;
            }
            i = i + 1;
        }
        if !self.pieces[n - 1] {
            acc = acc + self.last_piece_size;
        }
        acc
    }

    /// Whether every piece has been verified.
    pub fn is_file_finished(&self) -> (r: bool)
        requires
            self.wf(),
        ensures
            r == self.file_finished(),
    {
        let mut i: usize = 0;
        while i < self.num_pieces
            invariant
                self.wf(),
                i <= self.num_pieces,
                forall|t: int| 0 <= t < i ==> #[trigger] self.verified()[t],
            decreases self.num_pieces - i,
        {
            if !self.pieces[i] {
                assert(!self.verified()[i as int]);
                return false;
            }
            i = i + 1;
        }
        true
    }

    pub fn get_file_length(&self) -> (r: usize)
        requires
            self.wf(),
        ensures
            r == self.spec_length(),
    {
        self.length
    }

    pub fn get_num_pieces(&self) -> (r: usize)
        requires
            self.wf(),
        ensures
            r == self.spec_num_pieces(),
    {
        self.num_pieces
    }

    pub fn get_piece_size(&self) -> (r: usize)
        requires
            self.wf(),
        ensures
            r == self.spec_piece_size(),
    {
        self.piece_size
    }

    /// The logical length of piece `index`.
    pub fn get_piece_len(&self, index: usize) -> (r: usize)
        requires
            self.wf(),
            index < self.spec_num_pieces(),
        ensures
            r == self.piece_len(index as int),
            0 < r <= self.spec_piece_size(),
    {
        proof {
            self.lemma_wf_facts();
        }
        if index == self.num_pieces - 1 {
            self.last_piece_size
        } else {
            self.piece_size
        }
    }

    pub fn get_block_size(&self) -> (r: usize)
        requires
            self.wf(),
        ensures
            r == self.spec_block_size(),
            r >= 1,
    {
        self.block_size
    }
}

} // verus!

verus! {

/// Whether two digests hold the same bytes.
fn digests_equal(a: &[u8; 20], b: &[u8; 20]) -> (r: bool)
    ensures
        r == (a@ == b@),
{
    let mut i: usize = 0;
    while i < 20
        invariant
            i <= 20,
            a@.len() == 20,
            b@.len() == 20,
            forall|t: int| 0 <= t < i ==> a@[t] == b@[t],
        decreases 20 - i,
    {
        if a[i] != b[i] {
            return false;
        }
        i = i + 1;
    }
    assert(a@ =~= b@);
    true
}

} // verus!

verus! {

/// Read after write: once `write_block(index, begin, block)` has been accepted
/// with a block of at most one block size, the bytes at `begin .. begin + len`
/// of piece `index` are exactly the block. Marking the piece verified keeps
/// the contents, so `read_block(index, begin, len)` then returns the block.
pub proof fn lemma_read_after_write(f: OutputFile, index: int, begin: int, block: Seq<u8>)
    requires
        f.wf(),
        0 <= index,
        0 <= begin,
        f.write_error(index, begin, block.len() as int) is None,
        block.len() <= f.spec_block_size(),
    ensures
        ({
            let at = f.piece_start(index) + begin;
            let after = splice(f.content(), at, block.take(f.accepted_len(block.len() as int)));
            after.subrange(at, at + block.len()) == block
        }),
{
    f.lemma_byte_in_file(index, 0);
    f.lemma_wf_facts();
    let at = f.piece_start(index) + begin;
    let after = splice(f.content(), at, block.take(block.len() as int));
    assert(block.take(block.len() as int) =~= block);
    assert(after.subrange(at, at + block.len()) =~= block);
}

/// One accepted write: piece `w.0`, from offset `w.1`, `w.2` bytes kept.
pub open spec fn write_covers(w: (int, int, int), i: int, k: int) -> bool {
    w.0 == i && w.1 <= k < w.1 + w.2
}

/// Some write of `writes` covers byte `k` of piece `i`.
pub open spec fn covered(writes: Seq<(int, int, int)>, i: int, k: int) -> bool {
    exists|t: int| 0 <= t < writes.len() && #[trigger] write_covers(writes[t], i, k)
}

/// How an accepted `write_block` changes the written bytes, as its contract states.
pub open spec fn write_step(before: OutputFile, after: OutputFile, w: (int, int, int)) -> bool {
    &&& after.same_geometry(before)
    &&& forall|i: int, k: int|
        0 <= i < before.spec_num_pieces() && 0 <= k < before.piece_len(i) ==> #[trigger] after.byte_done(i, k)
            == (before.byte_done(i, k) || write_covers(w, i, k))
}

/// A store in which no byte has been written.
pub open spec fn nothing_written(f: OutputFile) -> bool {
    forall|i: int, k: int|
        0 <= i < f.spec_num_pieces() && 0 <= k < f.piece_len(i) ==> !#[trigger] f.byte_done(i, k)
}

/// Byte-completeness is coverage: starting from a store with nothing written,
/// after any sequence of accepted writes, in any order and overlapping or not,
/// piece `i` is byte-complete exactly when every offset of its logical range
/// is covered by at least one of the writes.
pub proof fn lemma_complete_iff_covered(
    states: Seq<OutputFile>,
    writes: Seq<(int, int, int)>,
    i: int,
)
    requires
        states.len() == writes.len() + 1,
        states[0].wf(),
        nothing_written(states[0]),
        forall|t: int| 0 <= t < writes.len() ==> write_step(#[trigger] states[t], states[t + 1], writes[t]),
        0 <= i < states[0].spec_num_pieces(),
    ensures
        states.last().byte_complete(i) <==> forall|k: int|
            0 <= k < states[0].piece_len(i) ==> #[trigger] covered(writes, i, k),
    decreases writes.len(),
{
    lemma_done_is_covered(states, writes);
    let last = states.last();
    assert(last.piece_len(i) == states[0].piece_len(i));
    if last.byte_complete(i) {
        assert forall|k: int| 0 <= k < states[0].piece_len(i) implies #[trigger] covered(
            writes,
            i,
            k,
        ) by {
            assert(last.byte_done(i, k));
        }
    }
    if forall|k: int| 0 <= k < states[0].piece_len(i) ==> #[trigger] covered(writes, i, k) {
        assert forall|k: int| 0 <= k < last.piece_len(i) implies #[trigger] last.byte_done(i, k) by {
            assert(covered(writes, i, k));
        }
    }
}

/// Completion depends on coverage alone: two stores of the same layout with
/// nothing written, given sequences of accepted writes (in any order,
/// overlapping or not) that cover the same offsets of piece `i`, end with
/// piece `i` byte-complete in both or in neither.
pub proof fn lemma_same_coverage_same_completion(
    states1: Seq<OutputFile>,
    writes1: Seq<(int, int, int)>,
    states2: Seq<OutputFile>,
    writes2: Seq<(int, int, int)>,
    i: int,
)
    requires
        states1.len() == writes1.len() + 1,
        states1[0].wf(),
        nothing_written(states1[0]),
        forall|t: int|
            0 <= t < writes1.len() ==> write_step(#[trigger] states1[t], states1[t + 1], writes1[t]),
        states2.len() == writes2.len() + 1,
        states2[0].wf(),
        nothing_written(states2[0]),
        forall|t: int|
            0 <= t < writes2.len() ==> write_step(#[trigger] states2[t], states2[t + 1], writes2[t]),
        states1[0].same_geometry(states2[0]),
        0 <= i < states1[0].spec_num_pieces(),
        forall|k: int|
            0 <= k < states1[0].piece_len(i) ==> #[trigger] covered(writes1, i, k) == covered(
                writes2,
                i,
                k,
            ),
    ensures
        states1.last().byte_complete(i) == states2.last().byte_complete(i),
{
    lemma_complete_iff_covered(states1, writes1, i);
    lemma_complete_iff_covered(states2, writes2, i);
    assert(states1[0].piece_len(i) == states2[0].piece_len(i));
    if states1.last().byte_complete(i) {
        assert forall|k: int| 0 <= k < states2[0].piece_len(i) implies #[trigger] covered(
            writes2,
            i,
            k,
        ) by {
            assert(covered(writes1, i, k));
        }
    }
    if states2.last().byte_complete(i) {
        assert forall|k: int| 0 <= k < states1[0].piece_len(i) implies #[trigger] covered(
            writes1,
            i,
            k,
        ) by {
            assert(covered(writes2, i, k));
        }
    }
}

/// Along such a sequence every state keeps the first one's geometry, and a
/// byte is written in the last state exactly when some write covers it.
proof fn lemma_done_is_covered(states: Seq<OutputFile>, writes: Seq<(int, int, int)>)
    requires
        states.len() == writes.len() + 1,
        states[0].wf(),
        nothing_written(states[0]),
        forall|t: int| 0 <= t < writes.len() ==> write_step(#[trigger] states[t], states[t + 1], writes[t]),
    ensures
        states.last().same_geometry(states[0]),
        forall|i: int, k: int|
            0 <= i < states[0].spec_num_pieces() && 0 <= k < states[0].piece_len(i)
                ==> #[trigger] states.last().byte_done(i, k) == covered(writes, i, k),
    decreases writes.len(),
{
    if writes.len() == 0 {
        assert forall|i: int, k: int|
            0 <= i < states[0].spec_num_pieces() && 0 <= k < states[0].piece_len(i)
                implies #[trigger] states.last().byte_done(i, k) == covered(writes, i, k) by {
            assert(!states[0].byte_done(i, k));
        }
    } else {
        let n = writes.len() - 1;
        let s2 = states.take(n + 1);
        let w2 = writes.take(n);
        assert forall|t: int| 0 <= t < w2.len() implies write_step(
            #[trigger] s2[t],
            s2[t + 1],
            w2[t],
        ) by {
            assert(write_step(states[t], states[t + 1], writes[t]));
        }
        lemma_done_is_covered(s2, w2);
        let prev = states[n];
        assert(s2.last() == prev);
        assert(write_step(states[n], states[n + 1], writes[n]));
        assert(states.last() == states[n + 1]);
        assert forall|i: int, k: int|
            0 <= i < states[0].spec_num_pieces() && 0 <= k < states[0].piece_len(i)
                implies #[trigger] states.last().byte_done(i, k) == covered(writes, i, k) by {
            assert(prev.byte_done(i, k) == covered(w2, i, k));
            if covered(writes, i, k) {
                let t = choose|t: int| 0 <= t < writes.len() && #[trigger] write_covers(writes[t], i, k);
                if t < n {
                    assert(w2[t] == writes[t]);
                    assert(covered(w2, i, k));
                }
            }
            if covered(w2, i, k) {
                let t = choose|t: int| 0 <= t < w2.len() && #[trigger] write_covers(w2[t], i, k);
                assert(w2[t] == writes[t]);
            }
        }
    }
}

} // verus!

use vstd::prelude::*;
use vstd::arithmetic::div_mod::lemma_fundamental_div_mod;
use crate::EngineError;

verus! {

/// Default block (chunk) length used when the descriptor gives no override.
pub const DEFAULT_BLOCK_LENGTH: u64 = 16384;

/// `a / b` rounded towards positive infinity, for positive `b`.
pub open spec fn ceil_div(a: int, b: int) -> int {
    a / b + if a % b == 0 { 0int } else { 1int }
}

/// The smaller of two integers.
pub open spec fn min_int(a: int, b: int) -> int {
    if a < b { a } else { b }
}

/// A positive total split into units of a positive size covers between
/// `(count - 1) * unit` (exclusive) and `count * unit` (inclusive) bytes.
pub proof fn lemma_ceil_div_bounds(total: int, unit: int)
    requires
        total > 0,
        unit > 0,
    ensures
        ceil_div(total, unit) >= 1,
        (ceil_div(total, unit) - 1) * unit < total,
        total <= ceil_div(total, unit) * unit,
{
    lemma_fundamental_div_mod(total, unit);
    let q = total / unit;
    let r = total % unit;
    if r == 0 {
        assert(total == unit * q);
        assert(q >= 1) by (nonlinear_arith)
            requires unit * q > 0, unit > 0, q == total / unit, total > 0;
        assert((q - 1) * unit == unit * q - unit) by (nonlinear_arith);
        assert(q * unit == unit * q) by (nonlinear_arith);
    } else {
        assert(total == unit * q + r);
        assert(q >= 0);
        assert((q + 1 - 1) * unit == unit * q) by (nonlinear_arith);
        assert((q + 1) * unit == unit * q + unit) by (nonlinear_arith);
    }
}

/// Immutable piece/block geometry of a download, derived once from the
/// descriptor. Every piece and block computation of the engine routes
/// through this type, so the handling of the final short piece and block
/// lives in one place.
#[derive(Clone, Copy, Debug, PartialEq, Eq, Structural)]
pub struct Lengths {
    /// Total byte length of the whole file set.
    pub total_length: u64,
    /// Byte length of every piece except possibly the last.
    pub piece_length: u64,
    /// Byte length of every block except possibly the last one of a piece.
    pub block_length: u64,
}

/// The inputs from which a well-formed geometry can be built: nothing is
/// empty, and an overridden block length is positive and fits in a piece.
pub open spec fn valid_geometry(total_length: u64, piece_length: u64, block_override: Option<u64>) -> bool {
    &&& total_length > 0
    &&& piece_length > 0
    &&& match block_override {
        Some(b) => 0 < b <= piece_length,
        None => true,
    }
}

/// The block length that a geometry built from these inputs uses.
pub open spec fn effective_block_length(piece_length: u64, block_override: Option<u64>) -> u64 {
    match block_override {
        Some(b) => b,
        None => if piece_length < DEFAULT_BLOCK_LENGTH { piece_length } else { DEFAULT_BLOCK_LENGTH },
    }
}

impl Lengths {
    /// Well-formed geometry: nothing is empty, and a block fits in a piece.
    pub open spec fn wf(self) -> bool {
        &&& self.total_length > 0
        &&& self.piece_length > 0
        &&& 0 < self.block_length <= self.piece_length
    }

    /// Number of pieces: the total length over the piece length, rounded up.
    pub open spec fn spec_piece_count(self) -> int {
        ceil_div(self.total_length as int, self.piece_length as int)
    }

    /// Whether `piece` is a valid piece index.
    pub open spec fn valid_piece(self, piece: int) -> bool {
        0 <= piece < self.spec_piece_count()
    }

    /// Global byte offset where `piece` starts.
    pub open spec fn spec_piece_offset(self, piece: int) -> int {
        piece * self.piece_length
    }

    /// Byte length of `piece`; only the last piece may be short.
    pub open spec fn spec_piece_len(self, piece: int) -> int {
        min_int(self.piece_length as int, self.total_length - self.spec_piece_offset(piece))
    }

    /// Number of blocks of `piece`: its length over the block length,
    /// rounded up.
    pub open spec fn spec_blocks_per_piece(self, piece: int) -> int {
        ceil_div(self.spec_piece_len(piece), self.block_length as int)
    }

    /// Whether `block` is a valid block index within `piece`.
    pub open spec fn valid_block(self, piece: int, block: int) -> bool {
        &&& self.valid_piece(piece)
        &&& 0 <= block < self.spec_blocks_per_piece(piece)
    }

    /// Byte offset of `block` inside its piece.
    pub open spec fn spec_block_offset(self, block: int) -> int {
        block * self.block_length
    }

    /// Byte length of `block` of `piece`; only the last block may be short.
    pub open spec fn spec_block_len(self, piece: int, block: int) -> int {
        min_int(self.block_length as int, self.spec_piece_len(piece) - self.spec_block_offset(block))
    }

    /// Build a geometry. Fails with `InvalidGeometry` exactly when the total
    /// length or the piece length is zero, or a block-length override is
    /// zero or larger than a piece.
    pub fn new(total_length: u64, piece_length: u64, block_length_override: Option<u64>) -> (r: Result<Lengths, EngineError>)
        ensures
            match r {
                Ok(l) => {
                    &&& valid_geometry(total_length, piece_length, block_length_override)
                    &&& l.wf()
                    &&& l.total_length == total_length
                    &&& l.piece_length == piece_length
                    &&& l.block_length == effective_block_length(piece_length, block_length_override)
                },
                Err(e) => {
                    &&& e == EngineError::InvalidGeometry
                    &&& !valid_geometry(total_length, piece_length, block_length_override)
                },
            },
    {
        if total_length == 0 || piece_length == 0 {
            return Err(EngineError::InvalidGeometry);
        }
        let block_length: u64 = match block_length_override {
            Some(b) => {
                if b == 0 || b > piece_length {
                    return Err(EngineError::InvalidGeometry);
                }
                b
            },
            None => {
                if piece_length < DEFAULT_BLOCK_LENGTH {
                    piece_length
                } else {
                    DEFAULT_BLOCK_LENGTH
                }
            },
        };
        Ok(Lengths { total_length, piece_length, block_length })
    }

    /// Every valid piece starts inside the total range, is non-empty, and
    /// ends inside the total range.
    pub proof fn lemma_piece_in_range(self, piece: int)
        requires
            self.wf(),
            self.valid_piece(piece),
        ensures
            0 <= self.spec_piece_offset(piece),
            self.spec_piece_offset(piece) < self.total_length,
            0 < self.spec_piece_len(piece) <= self.piece_length,
            self.spec_piece_offset(piece) + self.spec_piece_len(piece) <= self.total_length,
    {
        let t = self.total_length as int;
        let p = self.piece_length as int;
        let count = self.spec_piece_count();
        lemma_ceil_div_bounds(t, p);
        assert(piece * p >= 0) by (nonlinear_arith)
            requires piece >= 0, p > 0;
        assert(piece * p <= (count - 1) * p) by (nonlinear_arith)
            requires piece <= count - 1, p > 0;
    }

    /// The number of pieces, as a run-time value.
    pub fn piece_count(&self) -> (r: u64)
        requires
            self.wf(),
        ensures
            r as int == self.spec_piece_count(),
    {
        proof {
            lemma_fundamental_div_mod(self.total_length as int, self.piece_length as int);
        }
        let q = self.total_length / self.piece_length;
        let rem = self.total_length % self.piece_length;
        if rem == 0 {
            q
        } else {
            assert(q < self.total_length) by (nonlinear_arith)
                requires
                    self.total_length == self.piece_length * q + rem,
                    self.piece_length >= 1,
                    rem >= 1,
                    q >= 0;
            q + 1
        }
    }

    /// Global byte offset where `piece` starts, as a run-time value.
    pub fn piece_offset(&self, piece: u64) -> (r: u64)
        requires
            self.wf(),
            self.valid_piece(piece as int),
        ensures
            r as int == self.spec_piece_offset(piece as int),
    {
        proof {
            self.lemma_piece_in_range(piece as int);
        }
        piece * self.piece_length
    }

    /// Byte length of `piece`, as a run-time value.
    pub fn piece_len(&self, piece: u64) -> (r: u64)
        requires
            self.wf(),
            self.valid_piece(piece as int),
        ensures
            r as int == self.spec_piece_len(piece as int),
    {
        proof {
            self.lemma_piece_in_range(piece as int);
        }
        let offset = piece * self.piece_length;
        let rest = self.total_length - offset;
        if rest < self.piece_length {
            rest
        } else {
            self.piece_length
        }
    }

    /// Number of blocks of `piece`, as a run-time value.
    pub fn blocks_per_piece(&self, piece: u64) -> (r: u64)
        requires
            self.wf(),
            self.valid_piece(piece as int),
        ensures
            r as int == self.spec_blocks_per_piece(piece as int),
            1 <= r <= self.piece_length,
    {
        let len = self.piece_len(piece);
        proof {
            self.lemma_piece_in_range(piece as int);
            lemma_fundamental_div_mod(len as int, self.block_length as int);
            lemma_ceil_div_bounds(len as int, self.block_length as int);
            assert(ceil_div(len as int, self.block_length as int) <= len as int) by (nonlinear_arith)
                requires len >= 1, self.block_length >= 1;
        }
        let q = len / self.block_length;
        let rem = len % self.block_length;
        if rem == 0 {
            q
        } else {
            q + 1
        }
    }

    /// Every valid block starts inside its piece, is non-empty, and ends
    /// inside the piece.
    pub proof fn lemma_block_in_range(self, piece: int, block: int)
        requires
            self.wf(),
            self.valid_block(piece, block),
        ensures
            0 <= self.spec_block_offset(block),
            self.spec_block_offset(block) < self.spec_piece_len(piece),
            0 < self.spec_block_len(piece, block) <= self.block_length,
            self.spec_block_offset(block) + self.spec_block_len(piece, block) <= self.spec_piece_len(piece),
    {
        let len = self.spec_piece_len(piece);
        let b = self.block_length as int;
        let count = self.spec_blocks_per_piece(piece);
        self.lemma_piece_in_range(piece);
        lemma_ceil_div_bounds(len, b);
        assert(block * b >= 0) by (nonlinear_arith)
            requires block >= 0, b > 0;
        assert(block * b <= (count - 1) * b) by (nonlinear_arith)
            requires block <= count - 1, b > 0;
    }

    /// Byte offset of `block` inside its piece, as a run-time value.
    pub fn block_offset(&self, piece: u64, block: u64) -> (r: u64)
        requires
            self.wf(),
            self.valid_block(piece as int, block as int),
        ensures
            r as int == self.spec_block_offset(block as int),
    {
        proof {
            self.lemma_block_in_range(piece as int, block as int);
            self.lemma_piece_in_range(piece as int);
        }
        block * self.block_length
    }

    /// Byte length of `block` of `piece`, as a run-time value.
    pub fn block_len(&self, piece: u64, block: u64) -> (r: u64)
        requires
            self.wf(),
            self.valid_block(piece as int, block as int),
        ensures
            r as int == self.spec_block_len(piece as int, block as int),
    {
        proof {
            self.lemma_block_in_range(piece as int, block as int);
            self.lemma_piece_in_range(piece as int);
        }
        let len = self.piece_len(piece);
        let offset = block * self.block_length;
        let rest = len - offset;
        if rest < self.block_length {
            rest
        } else {
            self.block_length
        }
    }

    /// The pieces partition `[0, total_length)` exactly: the first piece
    /// starts at zero, each piece starts where the previous one ends, every
    /// piece but the last has the full piece length, and the last piece
    /// ends at the total length with length `total mod piece` when that is
    /// nonzero and the full piece length otherwise.
    pub proof fn lemma_pieces_partition(self)
        requires
            self.wf(),
        ensures
            self.spec_piece_count() >= 1,
            self.spec_piece_offset(0) == 0,
            forall|i: int| 0 <= i < self.spec_piece_count() - 1 ==>
                self.spec_piece_offset(i + 1) == self.spec_piece_offset(i) + #[trigger] self.spec_piece_len(i),
            forall|i: int| 0 <= i < self.spec_piece_count() - 1 ==>
                #[trigger] self.spec_piece_len(i) == self.piece_length,
            self.spec_piece_offset(self.spec_piece_count() - 1)
                + self.spec_piece_len(self.spec_piece_count() - 1) == self.total_length,
            self.total_length as int % self.piece_length as int != 0 ==>
                self.spec_piece_len(self.spec_piece_count() - 1)
                    == self.total_length as int % self.piece_length as int,
            self.total_length as int % self.piece_length as int == 0 ==>
                self.spec_piece_len(self.spec_piece_count() - 1) == self.piece_length,
    {
        let t = self.total_length as int;
        let p = self.piece_length as int;
        let count = self.spec_piece_count();
        lemma_ceil_div_bounds(t, p);
        lemma_fundamental_div_mod(t, p);
        assert forall|i: int| 0 <= i < count - 1 implies
            #[trigger] self.spec_piece_len(i) == p
        by {
            self.lemma_piece_in_range(i);
            assert((i + 1) * p == i * p + p) by (nonlinear_arith);
            assert((i + 1) * p <= (count - 1) * p) by (nonlinear_arith)
                requires i + 1 <= count - 1, p > 0;
        }
        assert forall|i: int| 0 <= i < count - 1 implies
            self.spec_piece_offset(i + 1) == self.spec_piece_offset(i) + #[trigger] self.spec_piece_len(i)
        by {
            self.lemma_piece_in_range(i);
            assert((i + 1) * p == i * p + p) by (nonlinear_arith);
        }
        let last = count - 1;
        self.lemma_piece_in_range(last);
        let q = t / p;
        let r = t % p;
        if r == 0 {
            assert(count == q);
            assert((q - 1) * p == p * q - p) by (nonlinear_arith);
        } else {
            assert(count == q + 1);
            assert(q * p == p * q) by (nonlinear_arith);
        }
    }
}

} // verus!

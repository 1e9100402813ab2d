//! The model's dimensions, the checkpoint header that carries them, and the
//! place of every weight tensor in the checkpoint.

use vstd::prelude::*;
use crate::bytes::{le_i32, read_i32};
use crate::error::LoadError;

verus! {

/// Length in bytes of the checkpoint header: seven 32-bit integers.
pub const HEADER_LEN: usize = 28;

/// Largest value that a dimension can take in the header.
pub const MAX_DIMENSION: usize = 0x7fff_ffff;

/// Number of tensors that a checkpoint lays out, the rotary tables included.
pub const TENSOR_COUNT: usize = 13;

/// A bound above the length of any single tensor: 2^93.
pub const TENSOR_BOUND: u128 = 0x2000_0000_0000_0000_0000_0000;

/// The dimensions of a model.
#[derive(Debug, Clone, Copy, PartialEq, Eq)]
pub struct Config {
    /// Embedding dimension.
    pub dim: usize,
    /// Hidden dimension of the feed-forward block.
    pub hidden_dim: usize,
    /// Number of transformer layers.
    pub n_layers: usize,
    /// Number of attention (query) heads.
    pub n_heads: usize,
    /// Number of key/value heads, a divisor of `n_heads`.
    pub n_kv_heads: usize,
    /// Number of tokens in the vocabulary.
    pub vocab_size: usize,
    /// Largest number of positions in a sequence.
    pub seq_len: usize,
    /// Whether the classifier shares the token embedding table.
    pub shared_classifier: bool,
}

/// The weight tensors of a checkpoint, in the order in which it stores them.
#[derive(Debug, Clone, Copy, PartialEq, Eq)]
pub enum Tensor {
    /// Token embedding table, `vocab_size` rows of `dim`.
    TokenEmbedding,
    /// Scale vectors of the normalization before attention, one per layer.
    AttentionNorm,
    /// Query projections, one `dim` by `dim` matrix per layer.
    Query,
    /// Key projections, one `kv_dim` by `dim` matrix per layer.
    Key,
    /// Value projections, one `kv_dim` by `dim` matrix per layer.
    Value,
    /// Attention output projections, one `dim` by `dim` matrix per layer.
    Output,
    /// Scale vectors of the normalization before the feed-forward block.
    FfnNorm,
    /// Gate projections, one `hidden_dim` by `dim` matrix per layer.
    Gate,
    /// Up projections, one `hidden_dim` by `dim` matrix per layer.
    Up,
    /// Down projections, one `dim` by `hidden_dim` matrix per layer.
    Down,
    /// Scale vector of the final normalization.
    FinalNorm,
    /// The two rotary tables that older checkpoints carry; never read.
    RotaryTables,
    /// Classifier matrix; empty when it shares the embedding table.
    Classifier,
}

impl Tensor {
    /// The place of the tensor in the checkpoint's order, from 0.
    pub open spec fn rank(self) -> int {
        match self {
            Tensor::TokenEmbedding => 0,
            Tensor::AttentionNorm => 1,
            Tensor::Query => 2,
            Tensor::Key => 3,
            Tensor::Value => 4,
            Tensor::Output => 5,
            Tensor::FfnNorm => 6,
            Tensor::Gate => 7,
            Tensor::Up => 8,
            Tensor::Down => 9,
            Tensor::FinalNorm => 10,
            Tensor::RotaryTables => 11,
            Tensor::Classifier => 12,
        }
    }

    /// Computes the place of the tensor in the checkpoint's order.
    pub fn index(self) -> (r: usize)
        ensures
            r == self.rank(),
            r < TENSOR_COUNT,
    {
        match self {
            Tensor::TokenEmbedding => 0,
            Tensor::AttentionNorm => 1,
            Tensor::Query => 2,
            Tensor::Key => 3,
            Tensor::Value => 4,
            Tensor::Output => 5,
            Tensor::FfnNorm => 6,
            Tensor::Gate => 7,
            Tensor::Up => 8,
            Tensor::Down => 9,
            Tensor::FinalNorm => 10,
            Tensor::RotaryTables => 11,
            Tensor::Classifier => 12,
        }
    }
}

/// The magnitude of the vocabulary field of a header: a negative field
/// carries the size negated.
pub open spec fn header_vocab_size(field: int) -> int {
    if field < 0 {
        -field
    } else {
        field
    }
}

/// The dimensions that a header states, read field by field.
pub open spec fn header_config(data: Seq<u8>) -> Config
    recommends
        data.len() >= HEADER_LEN,
{
    Config {
        dim: le_i32(data, 0) as usize,
        hidden_dim: le_i32(data, 4) as usize,
        n_layers: le_i32(data, 8) as usize,
        n_heads: le_i32(data, 12) as usize,
        n_kv_heads: le_i32(data, 16) as usize,
        vocab_size: header_vocab_size(le_i32(data, 20)) as usize,
        seq_len: le_i32(data, 24) as usize,
        shared_classifier: le_i32(data, 20) > 0,
    }
}

/// Whether the header states dimensions that a model can have: every field
/// is positive but for the vocabulary field, which is not zero and whose
/// magnitude is at most `MAX_DIMENSION`, and the dimensions fit together.
pub open spec fn header_valid(data: Seq<u8>) -> bool
    recommends
        data.len() >= HEADER_LEN,
{
    &&& le_i32(data, 0) > 0
    &&& le_i32(data, 4) > 0
    &&& le_i32(data, 8) > 0
    &&& le_i32(data, 12) > 0
    &&& le_i32(data, 16) > 0
    &&& le_i32(data, 20) != 0
    &&& le_i32(data, 20) != -0x8000_0000
    &&& le_i32(data, 24) > 0
    &&& header_config(data).valid()
}

impl Config {
    /// Whether the dimensions can be those of a model: all are positive and
    /// no larger than `MAX_DIMENSION`, the embedding dimension is a multiple
    /// of the number of heads, and the number of heads is a multiple of the
    /// number of key/value heads.
    pub open spec fn valid(self) -> bool {
        &&& 0 < self.dim <= MAX_DIMENSION
        &&& 0 < self.hidden_dim <= MAX_DIMENSION
        &&& 0 < self.n_layers <= MAX_DIMENSION
        &&& 0 < self.n_heads <= MAX_DIMENSION
        &&& 0 < self.n_kv_heads <= MAX_DIMENSION
        &&& 0 < self.vocab_size <= MAX_DIMENSION
        &&& 0 < self.seq_len <= MAX_DIMENSION
        &&& self.dim % self.n_heads == 0
        &&& self.n_heads % self.n_kv_heads == 0
    }

    /// Dimension of one attention head.
    pub open spec fn head_dim(self) -> int {
        self.dim as int / self.n_heads as int
    }

    /// Dimension of the keys, and of the values, of one position in one layer.
    pub open spec fn kv_dim(self) -> int {
        self.n_kv_heads * self.head_dim()
    }

    /// Number of query heads that share one key/value head.
    pub open spec fn group_size(self) -> int {
        self.n_heads as int / self.n_kv_heads as int
    }

    /// Number of values in the tensor of rank `rank`. The rotary tables
    /// count only where `with_tables` says that the checkpoint carries them.
    pub open spec fn len_at(self, rank: int, with_tables: bool) -> int {
        if rank == 0 {
            self.vocab_size * self.dim
        } else if rank == 1 || rank == 6 {
            self.n_layers * self.dim
        } else if rank == 2 || rank == 5 {
            self.n_layers * self.dim * self.dim
        } else if rank == 3 || rank == 4 {
            self.n_layers * self.dim * self.kv_dim()
        } else if rank == 7 || rank == 8 || rank == 9 {
            self.n_layers * self.dim * self.hidden_dim
        } else if rank == 10 {
            self.dim as int
        } else if rank == 11 {
            if with_tables {
                2 * ((self.seq_len * self.head_dim()) / 2)
            } else {
                0
            }
        } else if rank == 12 {
            if self.shared_classifier {
                0
            } else {
                self.vocab_size * self.dim
            }
        } else {
            0
        }
    }

    /// Number of values that precede the tensor of rank `rank`.
    pub open spec fn offset_at(self, rank: int, with_tables: bool) -> int
        decreases rank,
    {
        if rank <= 0 {
            0
        } else {
            self.offset_at(rank - 1, with_tables) + self.len_at(rank - 1, with_tables)
        }
    }

    /// Number of values in all tensors together.
    pub open spec fn weights_len(self, with_tables: bool) -> int {
        self.offset_at(TENSOR_COUNT as int, with_tables)
    }

    /// Length in bytes of a checkpoint with these dimensions: the header,
    /// then four bytes for every value.
    pub open spec fn checkpoint_len(self, with_tables: bool) -> int {
        HEADER_LEN + 4 * self.weights_len(with_tables)
    }

    /// Computes the dimension of one attention head.
    pub fn head_size(&self) -> (r: usize)
        requires
            self.valid(),
        ensures
            r == self.head_dim(),
            0 < r <= self.dim,
            r * self.n_heads == self.dim,
    {
        let r: usize = self.dim / self.n_heads;
        proof {
            lemma_exact_quotient(self.dim as int, self.n_heads as int);
        }
        r
    }

    /// Computes the dimension of the keys of one position in one layer.
    pub fn kv_size(&self) -> (r: usize)
        requires
            self.valid(),
        ensures
            r == self.kv_dim(),
            0 < r <= self.dim,
    {
        let head: usize = self.head_size();
        proof {
            lemma_exact_quotient(self.n_heads as int, self.n_kv_heads as int);
            lemma_product_order(
                self.n_kv_heads as int,
                self.n_heads as int,
                head as int,
            );
        }
        self.n_kv_heads * head
    }

    /// Computes the key/value head that query head `head` reads.
    pub fn kv_head(&self, head: usize) -> (r: usize)
        requires
            self.valid(),
            head < self.n_heads,
        ensures
            r == head as int / self.group_size(),
            r < self.n_kv_heads,
    {
        let group: usize = self.n_heads / self.n_kv_heads;
        proof {
            lemma_exact_quotient(self.n_heads as int, self.n_kv_heads as int);
            lemma_quotient_below(head as int, group as int, self.n_kv_heads as int);
        }
        head / group
    }

    /// Computes the number of values in the tensor of rank `rank`.
    pub fn len_of(&self, rank: usize, with_tables: bool) -> (r: u128)
        requires
            self.valid(),
            rank < TENSOR_COUNT,
        ensures
            r == self.len_at(rank as int, with_tables),
            r < TENSOR_BOUND,
    {
        if rank == 0 {
            product(self.vocab_size, self.dim, 1)
        } else if rank == 1 || rank == 6 {
            product(self.n_layers, self.dim, 1)
        } else if rank == 2 || rank == 5 {
            product(self.n_layers, self.dim, self.dim)
        } else if rank == 3 || rank == 4 {
            product(self.n_layers, self.dim, self.kv_size())
        } else if rank == 7 || rank == 8 || rank == 9 {
            product(self.n_layers, self.dim, self.hidden_dim)
        } else if rank == 10 {
            self.dim as u128
        } else if rank == 11 {
            if with_tables {
                let cells: u128 = product(self.seq_len, self.head_size(), 1);
                2 * (cells / 2)
            } else {
                0
            }
        } else {
            if self.shared_classifier {
                0
            } else {
                product(self.vocab_size, self.dim, 1)
            }
        }
    }

    /// Lays out the tensors of a checkpoint of `data_len` bytes.
    ///
    /// A checkpoint is as long as its header and its tensors together, with
    /// or without the rotary tables; for any other length this fails with
    /// `SizeMismatch`.
    pub fn layout(&self, data_len: usize) -> (r: Result<Layout, LoadError>)
        requires
            self.valid(),
        ensures
            match r {
                Ok(layout) => {
                    &&& data_len == self.checkpoint_len(layout.with_tables)
                    &&& layout.with_tables == (data_len == self.checkpoint_len(true))
                    &&& layout.describes(*self)
                },
                Err(e) => {
                    &&& data_len != self.checkpoint_len(true)
                    &&& data_len != self.checkpoint_len(false)
                    &&& e == (LoadError::SizeMismatch {
                        expected: self.checkpoint_len(true) as u128,
                        actual: data_len,
                    })
                },
            },
    {
        let long: u128 = self.total_len(true);
        let short: u128 = self.total_len(false);
        let actual: u128 = data_len as u128;
        let with_tables: bool = actual == HEADER_LEN as u128 + 4 * long;
        if !with_tables && actual != HEADER_LEN as u128 + 4 * short {
            return Err(
                LoadError::SizeMismatch { expected: HEADER_LEN as u128 + 4 * long, actual: data_len },
            );
        }
        let mut offsets: Vec<usize> = Vec::new();
        let mut sum: u128 = 0;
        offsets.push(0);
        let mut rank: usize = 0;
        while rank < TENSOR_COUNT
            invariant
                self.valid(),
                rank <= TENSOR_COUNT,
                data_len == self.checkpoint_len(with_tables),
                offsets@.len() == rank + 1,
                sum == self.offset_at(rank as int, with_tables),
                forall|k: int| 0 <= k <= rank ==> offsets@[k] == self.offset_at(k, with_tables),
            decreases TENSOR_COUNT - rank,
        {
            let len: u128 = self.len_of(rank, with_tables);
            proof {
                self.lemma_offsets_grow(rank as int + 1, TENSOR_COUNT as int, with_tables);
            }
            sum = sum + len;
            rank = rank + 1;
            offsets.push(sum as usize);
        }
        Ok(Layout { offsets, with_tables })
    }

    /// Computes the number of values in all tensors together.
    pub fn total_len(&self, with_tables: bool) -> (r: u128)
        requires
            self.valid(),
        ensures
            r == self.weights_len(with_tables),
            r <= TENSOR_COUNT * TENSOR_BOUND,
    {
        let mut sum: u128 = 0;
        let mut rank: usize = 0;
        while rank < TENSOR_COUNT
            invariant
                self.valid(),
                rank <= TENSOR_COUNT,
                sum == self.offset_at(rank as int, with_tables),
                sum <= rank * TENSOR_BOUND,
            decreases TENSOR_COUNT - rank,
        {
            let len: u128 = self.len_of(rank, with_tables);
            sum = sum + len;
            rank = rank + 1;
        }
        sum
    }

    /// Offsets never decrease along the checkpoint's order.
    pub proof fn lemma_offsets_grow(self, low: int, high: int, with_tables: bool)
        requires
            self.valid(),
            0 <= low <= high,
        ensures
            0 <= self.offset_at(low, with_tables) <= self.offset_at(high, with_tables),
        decreases high,
    {
        if high > 0 {
            self.lemma_len_nonnegative(high - 1, with_tables);
            if low < high {
                self.lemma_offsets_grow(low, high - 1, with_tables);
            } else {
                self.lemma_offsets_grow(0, high - 1, with_tables);
            }
        }
    }

    /// No tensor has a negative length.
    pub proof fn lemma_len_nonnegative(self, rank: int, with_tables: bool)
        requires
            self.valid(),
        ensures
            0 <= self.len_at(rank, with_tables),
    {
        lemma_exact_quotient(self.dim as int, self.n_heads as int);
        let head: int = self.head_dim();
        assert(0 <= self.n_kv_heads * head) by (nonlinear_arith)
            requires
                0 <= head,
        ;
        assert(0 <= self.seq_len * head) by (nonlinear_arith)
            requires
                0 <= head,
        ;
        assert(0 <= self.vocab_size * self.dim) by (nonlinear_arith);
        assert(0 <= self.n_layers * self.dim) by (nonlinear_arith);
        assert(0 <= self.n_layers * self.dim * self.dim) by (nonlinear_arith);
        assert(0 <= self.n_layers * self.dim * self.hidden_dim) by (nonlinear_arith);
        assert(0 <= self.n_layers * self.dim * self.kv_dim()) by (nonlinear_arith)
            requires
                0 <= self.kv_dim(),
        ;
    }

    /// Reads the dimensions from the header at the start of `data`.
    ///
    /// Fails with `Truncated` when `data` is shorter than a header and with
    /// `InvalidConfig` when the header is not valid.
    pub fn parse(data: &[u8]) -> (r: Result<Config, LoadError>)
        ensures
            data.len() < HEADER_LEN ==> r == Err::<Config, LoadError>(LoadError::Truncated),
            data.len() >= HEADER_LEN && !header_valid(data@) ==> r == Err::<Config, LoadError>(
                LoadError::InvalidConfig,
            ),
            data.len() >= HEADER_LEN && header_valid(data@) ==> r == Ok::<Config, LoadError>(
                header_config(data@),
            ),
    {
        if data.len() < HEADER_LEN {
            return Err(LoadError::Truncated);
        }
        let dim: i32 = read_i32(data, 0);
        let hidden_dim: i32 = read_i32(data, 4);
        let n_layers: i32 = read_i32(data, 8);
        let n_heads: i32 = read_i32(data, 12);
        let n_kv_heads: i32 = read_i32(data, 16);
        let vocab: i32 = read_i32(data, 20);
        let seq_len: i32 = read_i32(data, 24);
        if dim <= 0 || hidden_dim <= 0 || n_layers <= 0 || n_heads <= 0 || n_kv_heads <= 0
            || seq_len <= 0 || vocab == 0 || vocab == i32::MIN {
            return Err(LoadError::InvalidConfig);
        }
        let vocab_size: i32 = if vocab < 0 {
            -vocab
        } else {
            vocab
        };
        let config = Config {
            dim: dim as usize,
            hidden_dim: hidden_dim as usize,
            n_layers: n_layers as usize,
            n_heads: n_heads as usize,
            n_kv_heads: n_kv_heads as usize,
            vocab_size: vocab_size as usize,
            seq_len: seq_len as usize,
            shared_classifier: vocab > 0,
        };
        if config.dim % config.n_heads != 0 || config.n_heads % config.n_kv_heads != 0 {
            return Err(LoadError::InvalidConfig);
        }
        Ok(config)
    }
}

/// Where every tensor of a checkpoint starts, counted in values from the end
/// of the header.
#[derive(Debug, Clone, PartialEq, Eq)]
pub struct Layout {
    /// The offset of each tensor by rank, then the number of all values.
    pub offsets: Vec<usize>,
    /// Whether the checkpoint carries the rotary tables.
    pub with_tables: bool,
}

impl Layout {
    /// Whether this is the layout of a checkpoint with dimensions `config`.
    pub open spec fn describes(&self, config: Config) -> bool {
        &&& self.offsets@.len() == TENSOR_COUNT + 1
        &&& forall|k: int|
            0 <= k <= TENSOR_COUNT ==> self.offsets@[k] == config.offset_at(k, self.with_tables)
    }

    /// The offset of the first value of tensor `t`.
    pub fn offset(&self, t: Tensor) -> (r: usize)
        requires
            self.offsets@.len() == TENSOR_COUNT + 1,
        ensures
            r == self.offsets@[t.rank()],
    {
        self.offsets[t.index()]
    }

    /// The offset of the first value after tensor `t`.
    pub fn end(&self, t: Tensor) -> (r: usize)
        requires
            self.offsets@.len() == TENSOR_COUNT + 1,
        ensures
            r == self.offsets@[t.rank() + 1],
    {
        self.offsets[t.index() + 1]
    }

    /// The number of values in all tensors together.
    pub fn total(&self) -> (r: usize)
        requires
            self.offsets@.len() == TENSOR_COUNT + 1,
        ensures
            r == self.offsets@[TENSOR_COUNT as int],
    {
        self.offsets[TENSOR_COUNT]
    }
}

/// The product of three dimensions.
fn product(a: usize, b: usize, c: usize) -> (r: u128)
    requires
        a <= MAX_DIMENSION,
        b <= MAX_DIMENSION,
        c <= MAX_DIMENSION,
    ensures
        r == a * b * c,
        r < TENSOR_BOUND,
{
    assert(a * b <= 0x7fff_ffff * 0x7fff_ffff) by (nonlinear_arith)
        requires
            a <= 0x7fff_ffff,
            b <= 0x7fff_ffff,
    ;
    let ab: u128 = a as u128 * b as u128;
    assert(ab * c <= 0x3fff_ffff_0000_0001 * 0x7fff_ffff) by (nonlinear_arith)
        requires
            ab <= 0x3fff_ffff_0000_0001,
            c <= 0x7fff_ffff,
    ;
    ab * c as u128
}

/// A multiple divided by its divisor gives the factor back.
pub proof fn lemma_exact_quotient(a: int, b: int)
    requires
        a > 0,
        b > 0,
        a % b == 0,
    ensures
        (a / b) * b == a,
        0 < a / b <= a,
        b <= a,
{
    assert((a / b) * b == a && 0 < a / b <= a && b <= a) by (nonlinear_arith)
        requires
            a > 0,
            b > 0,
            a % b == 0,
    ;
}

/// A product grows with its first factor.
pub proof fn lemma_product_order(a: int, b: int, c: int)
    requires
        0 < a <= b,
        0 < c,
    ensures
        0 < a * c <= b * c,
{
    assert(0 < a * c <= b * c) by (nonlinear_arith)
        requires
            0 < a <= b,
            0 < c,
    ;
}

/// An index below `g * n` lies in one of `n` groups of `g`.
pub proof fn lemma_quotient_below(h: int, g: int, n: int)
    requires
        0 <= h < g * n,
        g > 0,
    ensures
        0 <= h / g < n,
{
    assert(0 <= h / g < n) by (nonlinear_arith)
        requires
            0 <= h < g * n,
            g > 0,
    ;
}

} // verus!

//! The forward pass as a plan: which operation reads and writes which part
//! of which buffer, for one token at one position.
//!
//! The library plans and the kernel computes. Every buffer is a flat
//! sequence of single-precision values that the kernel holds; a plan names
//! parts of them by buffer, start and length and holds no value itself.

use vstd::prelude::*;
use crate::cache::KvCache;
use crate::config::{header_config, header_valid, Config, Layout, Tensor, HEADER_LEN, TENSOR_COUNT};
use crate::error::LoadError;

verus! {

/// The buffers of an engine.
#[derive(Debug, Clone, Copy, PartialEq, Eq)]
pub enum Buffer {
    /// All weights, as the checkpoint stores them after its header.
    Weights,
    /// The keys of every position of every layer.
    Keys,
    /// The values of every position of every layer.
    Values,
    /// The activation that the layers add to, `dim` values.
    Residual,
    /// A normalized activation, then the output of the heads, `dim` values.
    Scratch,
    /// The output of the attention projection, `dim` values.
    Projection,
    /// Gate activations of the feed-forward block, `hidden_dim` values.
    Gate,
    /// Up activations of the feed-forward block, `hidden_dim` values.
    Up,
    /// The queries of all heads, `dim` values.
    Query,
    /// The attention scores, `seq_len` values for every head.
    Attention,
    /// The logits, one for every token.
    Logits,
}

/// A part of a buffer.
#[derive(Debug, Clone, Copy, PartialEq, Eq)]
pub struct Span {
    /// The buffer.
    pub buffer: Buffer,
    /// The place of the first value.
    pub start: usize,
    /// The number of values.
    pub len: usize,
}

/// One operation of a forward pass.
#[derive(Debug, Clone, Copy, PartialEq, Eq)]
pub enum Op {
    /// `dst = src`.
    Copy { dst: Span, src: Span },
    /// `dst = weight * src / rms(src)`, element by element.
    RmsNorm { dst: Span, src: Span, weight: Span },
    /// `dst = weight * src` for the matrix `weight` of `dst.len` rows.
    MatMul { dst: Span, src: Span, weight: Span },
    /// Rotates each pair of neighbours in `target` by the angle that
    /// position `pos` has at the pair's place in its head of `head_dim`.
    Rope { target: Span, head_dim: usize, pos: usize },
    /// `dst[t]` is the product of `query` and the key of as many values
    /// that starts at `t * stride + offset` in `keys`, over the square root
    /// of the query's length.
    Scores { dst: Span, query: Span, keys: Span, stride: usize, offset: usize },
    /// Replaces `target` by its softmax.
    Softmax { target: Span },
    /// `dst` is the sum over `t` of `weights[t]` times the value of as many
    /// values as `dst` has that starts at `t * stride + offset` in `values`.
    Mix { dst: Span, weights: Span, values: Span, stride: usize, offset: usize },
    /// `dst = dst + src`.
    Add { dst: Span, src: Span },
    /// `dst = silu(dst) * up`, element by element.
    SwiGlu { dst: Span, up: Span },
}

/// The books of an engine: the dimensions of its model, the layout of its
/// weights and the state of its cache.
#[derive(Debug, Clone, PartialEq, Eq)]
pub struct Engine {
    /// The dimensions of the model.
    pub config: Config,
    /// Where the tensors lie among the weights.
    pub layout: Layout,
    /// The shape of the key/value cache and what is written of it.
    pub cache: KvCache,
}

/// Why the checkpoint `data` gives no engine, if it gives none: it is
/// shorter than a header, its header is not valid, its length is not the
/// one that its header implies, with or without the rotary tables, or the
/// cache or the scores of a model of its dimensions cannot be addressed.
pub open spec fn load_fault(data: Seq<u8>) -> Option<LoadError> {
    let config = header_config(data);
    if data.len() < HEADER_LEN {
        Some(LoadError::Truncated)
    } else if !header_valid(data) {
        Some(LoadError::InvalidConfig)
    } else if data.len() != config.checkpoint_len(true) && data.len() != config.checkpoint_len(
        false,
    ) {
        Some(
            LoadError::SizeMismatch {
                expected: config.checkpoint_len(true) as u128,
                actual: data.len() as usize,
            },
        )
    } else if config.n_layers * config.seq_len * config.kv_dim() > usize::MAX || config.n_heads
        * config.seq_len > usize::MAX {
        Some(LoadError::TooLarge)
    } else {
        None
    }
}

impl Op {
    /// The part that the operation writes.
    pub open spec fn target(self) -> Span {
        match self {
            Op::Copy { dst, .. } => dst,
            Op::RmsNorm { dst, .. } => dst,
            Op::MatMul { dst, .. } => dst,
            Op::Rope { target, .. } => target,
            Op::Scores { dst, .. } => dst,
            Op::Softmax { target } => target,
            Op::Mix { dst, .. } => dst,
            Op::Add { dst, .. } => dst,
            Op::SwiGlu { dst, .. } => dst,
        }
    }

    /// The parts that the operation reads.
    pub open spec fn sources(self) -> Seq<Span> {
        match self {
            Op::Copy { src, .. } => seq![src],
            Op::RmsNorm { src, weight, .. } => seq![src, weight],
            Op::MatMul { src, weight, .. } => seq![src, weight],
            Op::Rope { target, .. } => seq![target],
            Op::Scores { query, keys, .. } => seq![query, keys],
            Op::Softmax { target } => seq![target],
            Op::Mix { weights, values, .. } => seq![weights, values],
            Op::Add { dst, src } => seq![dst, src],
            Op::SwiGlu { dst, up } => seq![dst, up],
        }
    }

    /// Whether the lengths of the parts are those that the operation needs.
    pub open spec fn shaped(self) -> bool {
        match self {
            Op::Copy { dst, src } => dst.len == src.len,
            Op::RmsNorm { dst, src, weight } => dst.len == src.len && weight.len == src.len,
            Op::MatMul { dst, src, weight } => weight.len == dst.len * src.len,
            Op::Rope { target, head_dim, pos } => head_dim > 0,
            Op::Scores { dst, query, keys, stride, offset } => keys.len == dst.len * stride
                && offset + query.len <= stride,
            Op::Softmax { target } => true,
            Op::Mix { dst, weights, values, stride, offset } => values.len == weights.len * stride
                && offset + dst.len <= stride,
            Op::Add { dst, src } => dst.len == src.len,
            Op::SwiGlu { dst, up } => dst.len == up.len,
        }
    }
}

impl Engine {
    /// Whether the books agree: the dimensions are valid, the layout and
    /// the cache are those of a model of these dimensions, and the scores
    /// of all heads can be addressed.
    pub open spec fn wf(&self) -> bool {
        &&& self.config.valid()
        &&& self.layout.describes(self.config)
        &&& self.cache.wf()
        &&& self.cache.n_layers == self.config.n_layers
        &&& self.cache.seq_len == self.config.seq_len
        &&& self.cache.kv_dim == self.config.kv_dim()
        &&& self.config.n_heads * self.config.seq_len <= usize::MAX
    }

    /// The number of values of buffer `b`.
    pub open spec fn buffer_len(&self, b: Buffer) -> int {
        match b {
            Buffer::Weights => self.layout.offsets@[TENSOR_COUNT as int] as int,
            Buffer::Keys => self.cache.arena_len(),
            Buffer::Values => self.cache.arena_len(),
            Buffer::Residual => self.config.dim as int,
            Buffer::Scratch => self.config.dim as int,
            Buffer::Projection => self.config.dim as int,
            Buffer::Gate => self.config.hidden_dim as int,
            Buffer::Up => self.config.hidden_dim as int,
            Buffer::Query => self.config.dim as int,
            Buffer::Attention => self.config.n_heads * self.config.seq_len,
            Buffer::Logits => self.config.vocab_size as int,
        }
    }

    /// Whether `span` lies inside its buffer.
    pub open spec fn holds(&self, span: Span) -> bool {
        span.start + span.len <= self.buffer_len(span.buffer)
    }

    /// Whether `op` can be carried out on the buffers: its parts have the
    /// lengths it needs and lie inside their buffers.
    pub open spec fn fits(&self, op: Op) -> bool {
        &&& op.shaped()
        &&& self.holds(op.target())
        &&& forall|k: int| 0 <= k < op.sources().len() ==> self.holds(#[trigger] op.sources()[k])
    }

    /// Whether `span`, if it is a part of the cache, lies in one layer
    /// within the positions from `first` to `last`.
    pub open spec fn within_positions(&self, span: Span, first: int, last: int) -> bool {
        span.buffer == Buffer::Keys || span.buffer == Buffer::Values ==> exists|layer: int|
            0 <= layer < self.cache.n_layers && self.cache.slot_start(layer, first) <= span.start
                && span.start + span.len <= #[trigger] self.cache.slot_start(layer, last)
                + self.cache.kv_dim
    }

    /// Whether `op` respects the order of positions at position `pos`: of
    /// the cache it writes nothing but position `pos` and reads nothing
    /// beyond it.
    pub open spec fn causal(&self, op: Op, pos: int) -> bool {
        &&& self.within_positions(op.target(), pos, pos)
        &&& forall|k: int|
            0 <= k < op.sources().len() ==> self.within_positions(#[trigger] op.sources()[k], 0, pos)
    }

    /// Whether every operation of `ops` fits the buffers and respects the
    /// order of positions at position `pos`.
    pub open spec fn sound(&self, ops: Seq<Op>, pos: int) -> bool {
        forall|i: int| 0 <= i < ops.len() ==> self.fits(#[trigger] ops[i]) && self.causal(ops[i], pos)
    }

    /// Reads the books of an engine from the checkpoint `data`: the
    /// dimensions from its header, the layout from its length. The cache
    /// is unwritten.
    pub fn load(data: &[u8]) -> (r: Result<Engine, LoadError>)
        ensures
            match r {
                Ok(engine) => {
                    &&& load_fault(data@) is None
                    &&& engine.wf()
                    &&& engine.config == header_config(data@)
                    &&& engine.layout.with_tables == (data@.len() == engine.config.checkpoint_len(
                        true,
                    ))
                    &&& engine.cache.filled == 0
                },
                Err(e) => load_fault(data@) == Some(e),
            },
    {
        let config: Config = match Config::parse(data) {
            Ok(config) => config,
            Err(e) => {
                return Err(e);
            },
        };
        let layout: Layout = match config.layout(data.len()) {
            Ok(layout) => layout,
            Err(e) => {
                return Err(e);
            },
        };
        let cache: KvCache = match KvCache::new(&config) {
            Some(cache) => cache,
            None => {
                return Err(LoadError::TooLarge);
            },
        };
        assert(config.n_heads * config.seq_len <= 0x7fff_ffff * 0x7fff_ffff) by (nonlinear_arith)
            requires
                config.n_heads <= 0x7fff_ffff,
                config.seq_len <= 0x7fff_ffff,
        ;
        let scores: u64 = config.n_heads as u64 * config.seq_len as u64;
        if scores > usize::MAX as u64 {
            return Err(LoadError::TooLarge);
        }
        Ok(Engine { config, layout, cache })
    }

    /// Computes the number of values of buffer `b`.
    pub fn buffer_size(&self, b: Buffer) -> (r: usize)
        requires
            self.wf(),
        ensures
            r == self.buffer_len(b),
    {
        match b {
            Buffer::Weights => self.layout.total(),
            Buffer::Keys => self.cache.len(),
            Buffer::Values => self.cache.len(),
            Buffer::Residual => self.config.dim,
            Buffer::Scratch => self.config.dim,
            Buffer::Projection => self.config.dim,
            Buffer::Gate => self.config.hidden_dim,
            Buffer::Up => self.config.hidden_dim,
            Buffer::Query => self.config.dim,
            Buffer::Attention => self.config.n_heads * self.config.seq_len,
            Buffer::Logits => self.config.vocab_size,
        }
    }
}

impl Engine {
    /// The `index`-th part of `len` values of the tensor of rank `rank`.
    pub open spec fn weights_part(&self, rank: int, index: int, len: int) -> Span {
        Span {
            buffer: Buffer::Weights,
            start: (self.config.offset_at(rank, self.layout.with_tables) + index * len) as usize,
            len: len as usize,
        }
    }

    /// All of buffer `b`.
    pub open spec fn whole(&self, b: Buffer) -> Span {
        Span { buffer: b, start: 0, len: self.buffer_len(b) as usize }
    }

    /// The part of cache buffer `b` that holds `count` positions of layer
    /// `layer` from position `first` on.
    pub open spec fn cache_rows(&self, b: Buffer, layer: int, first: int, count: int) -> Span {
        Span {
            buffer: b,
            start: self.cache.slot_start(layer, first) as usize,
            len: (count * self.cache.kv_dim) as usize,
        }
    }

    /// The scores of head `head` for the positions up to `pos`.
    pub open spec fn head_scores(&self, head: int, pos: int) -> Span {
        Span {
            buffer: Buffer::Attention,
            start: (head * self.config.seq_len) as usize,
            len: (pos + 1) as usize,
        }
    }

    /// The part of buffer `b` that belongs to head `head`.
    pub open spec fn head_part(&self, b: Buffer, head: int) -> Span {
        Span {
            buffer: b,
            start: (head * self.config.head_dim()) as usize,
            len: self.config.head_dim() as usize,
        }
    }

    /// Where the key/value head of query head `head` starts in the keys,
    /// and values, of one position.
    pub open spec fn shared_offset(&self, head: int) -> int {
        (head / self.config.group_size()) * self.config.head_dim()
    }

    /// Computes the `index`-th of the `count` parts of `len` values that
    /// tensor `t` is made of.
    pub fn weights_span(&self, t: Tensor, index: usize, count: usize, len: usize) -> (s: Span)
        requires
            self.wf(),
            index < count,
            self.config.len_at(t.rank(), self.layout.with_tables) == count * len,
        ensures
            s == self.weights_part(t.rank(), index as int, len as int),
            s.len == len,
            s.buffer == Buffer::Weights,
            self.holds(s),
    {
        proof {
            let tables = self.layout.with_tables;
            self.config.lemma_offsets_grow(t.rank() + 1, TENSOR_COUNT as int, tables);
            self.config.lemma_offsets_grow(t.rank(), t.rank() + 1, tables);
            assert(0 <= index * len && index * len + len <= count * len) by (nonlinear_arith)
                requires
                    0 <= index < count,
                    0 <= len,
            ;
        }
        let start: usize = self.layout.offset(t) + index * len;
        Span { buffer: Buffer::Weights, start, len }
    }

    /// Computes the part of tensor `t` that belongs to layer `layer`, a
    /// matrix of `rows` by `cols` values.
    pub fn layer_matrix(&self, t: Tensor, layer: usize, rows: usize, cols: usize) -> (s: Span)
        requires
            self.wf(),
            layer < self.config.n_layers,
            self.config.len_at(t.rank(), self.layout.with_tables) == self.config.n_layers * rows
                * cols,
        ensures
            s == self.weights_part(t.rank(), layer as int, rows * cols),
            s.len == rows * cols,
            s.buffer == Buffer::Weights,
            self.holds(s),
    {
        proof {
            let tables = self.layout.with_tables;
            let n: int = self.config.n_layers as int;
            self.config.lemma_offsets_grow(t.rank() + 1, TENSOR_COUNT as int, tables);
            self.config.lemma_offsets_grow(t.rank(), t.rank() + 1, tables);
            assert(n * rows * cols == n * (rows * cols) && 0 <= rows * cols <= n * (rows * cols))
                by (nonlinear_arith)
                requires
                    n >= 1,
                    rows >= 0,
                    cols >= 0,
            ;
        }
        let len: usize = rows * cols;
        self.weights_span(t, layer, self.config.n_layers, len)
    }

    /// Computes all of one of the activation buffers.
    pub fn all_of(&self, b: Buffer) -> (s: Span)
        requires
            self.wf(),
        ensures
            s == self.whole(b),
            s.buffer == b,
            s.start == 0,
            s.len == self.buffer_len(b),
            self.holds(s),
    {
        Span { buffer: b, start: 0, len: self.buffer_size(b) }
    }

    /// Computes the part of cache buffer `b` that holds `count` positions
    /// of layer `layer` from position `first` on.
    pub fn rows(&self, b: Buffer, layer: usize, first: usize, count: usize) -> (s: Span)
        requires
            self.wf(),
            b == Buffer::Keys || b == Buffer::Values,
            layer < self.config.n_layers,
            0 < count,
            first + count <= self.config.seq_len,
        ensures
            s == self.cache_rows(b, layer as int, first as int, count as int),
            s.buffer == b,
            s.start == self.cache.slot_start(layer as int, first as int),
            s.len == count * self.cache.kv_dim,
            s.start + s.len == self.cache.slot_start(layer as int, first + count - 1)
                + self.cache.kv_dim,
            self.holds(s),
    {
        let start: usize = self.cache.slot(layer, first);
        proof {
            let kv: int = self.cache.kv_dim as int;
            let row: int = layer * self.cache.seq_len + first;
            self.cache.lemma_slot_in_arena(layer as int, first + count - 1);
            assert(row * kv + count * kv == (row + count - 1) * kv + kv && 0 <= count * kv)
                by (nonlinear_arith)
                requires
                    0 < count,
                    0 <= kv,
            ;
            assert(layer * self.cache.seq_len + (first + count - 1) == row + count - 1);
        }
        let len: usize = count * self.cache.kv_dim;
        Span { buffer: b, start, len }
    }

    /// Computes the scores of head `head` for the positions up to `pos`.
    pub fn scores_of(&self, head: usize, pos: usize) -> (s: Span)
        requires
            self.wf(),
            head < self.config.n_heads,
            pos < self.config.seq_len,
        ensures
            s == self.head_scores(head as int, pos as int),
            s.len == pos + 1,
            s.buffer == Buffer::Attention,
            self.holds(s),
    {
        proof {
            let seq: int = self.config.seq_len as int;
            let heads: int = self.config.n_heads as int;
            assert(0 <= head * seq && head * seq + seq <= heads * seq) by (nonlinear_arith)
                requires
                    0 <= head < heads,
                    0 <= seq,
            ;
        }
        Span { buffer: Buffer::Attention, start: head * self.config.seq_len, len: pos + 1 }
    }

    /// Computes the part of buffer `b`, of `dim` values, that belongs to
    /// head `head`.
    pub fn part_of_head(&self, b: Buffer, head: usize) -> (s: Span)
        requires
            self.wf(),
            b == Buffer::Query || b == Buffer::Scratch,
            head < self.config.n_heads,
        ensures
            s == self.head_part(b, head as int),
            s.len == self.config.head_dim(),
            s.buffer == b,
            self.holds(s),
    {
        let size: usize = self.config.head_size();
        proof {
            let heads: int = self.config.n_heads as int;
            assert(0 <= head * size && head * size + size <= size * heads) by (nonlinear_arith)
                requires
                    0 <= head < heads,
                    0 <= size,
            ;
        }
        Span { buffer: b, start: head * size, len: size }
    }

    /// Computes where the key/value head of query head `head` starts in the
    /// keys of one position.
    pub fn offset_of_head(&self, head: usize) -> (r: usize)
        requires
            self.wf(),
            head < self.config.n_heads,
        ensures
            r == self.shared_offset(head as int),
            r + self.config.head_dim() <= self.config.kv_dim(),
    {
        let shared: usize = self.config.kv_head(head);
        let size: usize = self.config.head_size();
        proof {
            let groups: int = self.config.n_kv_heads as int;
            assert(0 <= shared * size && shared * size + size <= groups * size)
                by (nonlinear_arith)
                requires
                    0 <= shared < groups,
                    0 <= size,
            ;
        }
        shared * size
    }
}

impl Engine {
    /// The operation that fetches the embedding of `token`.
    pub open spec fn embed_ops(&self, token: int) -> Seq<Op> {
        seq![
            Op::Copy {
                dst: self.whole(Buffer::Residual),
                src: self.weights_part(Tensor::TokenEmbedding.rank(), token, self.config.dim as int),
            },
        ]
    }

    /// The first operations of layer `layer` at position `pos`: the
    /// activation is normalized and projected to queries, keys and values,
    /// the keys and values into the cache at `pos`, and queries and keys
    /// are rotated.
    pub open spec fn project_ops(&self, layer: int, pos: int) -> Seq<Op> {
        let dim = self.config.dim as int;
        let kv = self.config.kv_dim();
        seq![
            Op::RmsNorm {
                dst: self.whole(Buffer::Scratch),
                src: self.whole(Buffer::Residual),
                weight: self.weights_part(Tensor::AttentionNorm.rank(), layer, dim),
            },
            Op::MatMul {
                dst: self.whole(Buffer::Query),
                src: self.whole(Buffer::Scratch),
                weight: self.weights_part(Tensor::Query.rank(), layer, dim * dim),
            },
            Op::MatMul {
                dst: self.cache_rows(Buffer::Keys, layer, pos, 1),
                src: self.whole(Buffer::Scratch),
                weight: self.weights_part(Tensor::Key.rank(), layer, dim * kv),
            },
            Op::MatMul {
                dst: self.cache_rows(Buffer::Values, layer, pos, 1),
                src: self.whole(Buffer::Scratch),
                weight: self.weights_part(Tensor::Value.rank(), layer, dim * kv),
            },
            Op::Rope {
                target: self.whole(Buffer::Query),
                head_dim: self.config.head_dim() as usize,
                pos: pos as usize,
            },
            Op::Rope {
                target: self.cache_rows(Buffer::Keys, layer, pos, 1),
                head_dim: self.config.head_dim() as usize,
                pos: pos as usize,
            },
        ]
    }

    /// The operations of head `head` in layer `layer` at position `pos`:
    /// the query is scored against the keys of the positions up to `pos`,
    /// the scores are normalized, and the values are mixed by them.
    pub open spec fn head_ops(&self, layer: int, head: int, pos: int) -> Seq<Op> {
        seq![
            Op::Scores {
                dst: self.head_scores(head, pos),
                query: self.head_part(Buffer::Query, head),
                keys: self.cache_rows(Buffer::Keys, layer, 0, pos + 1),
                stride: self.cache.kv_dim,
                offset: self.shared_offset(head) as usize,
            },
            Op::Softmax { target: self.head_scores(head, pos) },
            Op::Mix {
                dst: self.head_part(Buffer::Scratch, head),
                weights: self.head_scores(head, pos),
                values: self.cache_rows(Buffer::Values, layer, 0, pos + 1),
                stride: self.cache.kv_dim,
                offset: self.shared_offset(head) as usize,
            },
        ]
    }

    /// The operations of the first `count` heads of layer `layer`.
    pub open spec fn heads_upto(&self, layer: int, count: int, pos: int) -> Seq<Op>
        decreases count,
    {
        if count <= 0 {
            Seq::empty()
        } else {
            self.heads_upto(layer, count - 1, pos) + self.head_ops(layer, count - 1, pos)
        }
    }

    /// The last operations of layer `layer`: the output of the heads is
    /// projected and added to the activation, which is then normalized, sent
    /// through the gated feed-forward block and added to again.
    pub open spec fn finish_ops(&self, layer: int) -> Seq<Op> {
        let dim = self.config.dim as int;
        let hidden = self.config.hidden_dim as int;
        seq![
            Op::MatMul {
                dst: self.whole(Buffer::Projection),
                src: self.whole(Buffer::Scratch),
                weight: self.weights_part(Tensor::Output.rank(), layer, dim * dim),
            },
            Op::Add { dst: self.whole(Buffer::Residual), src: self.whole(Buffer::Projection) },
            Op::RmsNorm {
                dst: self.whole(Buffer::Scratch),
                src: self.whole(Buffer::Residual),
                weight: self.weights_part(Tensor::FfnNorm.rank(), layer, dim),
            },
            Op::MatMul {
                dst: self.whole(Buffer::Gate),
                src: self.whole(Buffer::Scratch),
                weight: self.weights_part(Tensor::Gate.rank(), layer, dim * hidden),
            },
            Op::MatMul {
                dst: self.whole(Buffer::Up),
                src: self.whole(Buffer::Scratch),
                weight: self.weights_part(Tensor::Up.rank(), layer, dim * hidden),
            },
            Op::SwiGlu { dst: self.whole(Buffer::Gate), up: self.whole(Buffer::Up) },
            Op::MatMul {
                dst: self.whole(Buffer::Scratch),
                src: self.whole(Buffer::Gate),
                weight: self.weights_part(Tensor::Down.rank(), layer, dim * hidden),
            },
            Op::Add { dst: self.whole(Buffer::Residual), src: self.whole(Buffer::Scratch) },
        ]
    }

    /// The operations of layer `layer` at position `pos`.
    pub open spec fn layer_ops(&self, layer: int, pos: int) -> Seq<Op> {
        self.project_ops(layer, pos) + self.heads_upto(layer, self.config.n_heads as int, pos)
            + self.finish_ops(layer)
    }

    /// The operations of the first `count` layers.
    pub open spec fn layers_upto(&self, count: int, pos: int) -> Seq<Op>
        decreases count,
    {
        if count <= 0 {
            Seq::empty()
        } else {
            self.layers_upto(count - 1, pos) + self.layer_ops(count - 1, pos)
        }
    }

    /// The tensor that classifies: the embedding table where the model
    /// shares it, else the classifier of its own.
    pub open spec fn classifier(&self) -> Tensor {
        if self.config.shared_classifier {
            Tensor::TokenEmbedding
        } else {
            Tensor::Classifier
        }
    }

    /// The operations after the last layer: the activation is normalized
    /// and projected to the logits.
    pub open spec fn close_ops(&self) -> Seq<Op> {
        seq![
            Op::RmsNorm {
                dst: self.whole(Buffer::Scratch),
                src: self.whole(Buffer::Residual),
                weight: self.weights_part(Tensor::FinalNorm.rank(), 0, self.config.dim as int),
            },
            Op::MatMul {
                dst: self.whole(Buffer::Logits),
                src: self.whole(Buffer::Scratch),
                weight: self.weights_part(
                    self.classifier().rank(),
                    0,
                    self.config.vocab_size * self.config.dim,
                ),
            },
        ]
    }

    /// The forward pass for `token` at position `pos`.
    pub open spec fn plan(&self, token: int, pos: int) -> Seq<Op> {
        self.embed_ops(token) + self.layers_upto(self.config.n_layers as int, pos)
            + self.close_ops()
    }

    /// Operations that are sound one group after the other are sound
    /// together.
    pub proof fn lemma_sound_concat(&self, a: Seq<Op>, b: Seq<Op>, pos: int)
        requires
            self.sound(a, pos),
            self.sound(b, pos),
        ensures
            self.sound(a + b, pos),
    {
        assert forall|i: int| 0 <= i < (a + b).len() implies self.fits(#[trigger] (a + b)[i])
            && self.causal((a + b)[i], pos) by {
            if i < a.len() {
                assert((a + b)[i] == a[i]);
            } else {
                assert((a + b)[i] == b[i - a.len()]);
            }
        }
    }

    /// Adds to `ops` the first operations of layer `layer` at position
    /// `pos`.
    pub fn project(&self, layer: usize, pos: usize, ops: &mut Vec<Op>)
        requires
            self.wf(),
            layer < self.config.n_layers,
            pos < self.config.seq_len,
        ensures
            final(ops)@ == old(ops)@ + self.project_ops(layer as int, pos as int),
            self.sound(old(ops)@, pos as int) ==> self.sound(final(ops)@, pos as int),
    {
        let dim: usize = self.config.dim;
        let kv: usize = self.config.kv_size();
        let head: usize = self.config.head_size();
        let scratch: Span = self.all_of(Buffer::Scratch);
        let residual: Span = self.all_of(Buffer::Residual);
        let query: Span = self.all_of(Buffer::Query);
        let key: Span = self.rows(Buffer::Keys, layer, pos, 1);
        let value: Span = self.rows(Buffer::Values, layer, pos, 1);
        proof {
            assert(self.config.n_layers * dim * kv == self.config.n_layers * dim * self.config.kv_dim());
            assert(kv * dim == dim * kv) by (nonlinear_arith);
            assert(1 * self.cache.kv_dim == self.cache.kv_dim as int);
            self.lemma_rows_within(key, layer as int, pos as int, pos as int, pos as int);
            self.lemma_rows_within(key, layer as int, pos as int, 0, pos as int);
            self.lemma_rows_within(value, layer as int, pos as int, pos as int, pos as int);
        }
        let norm: Span = self.weights_span(Tensor::AttentionNorm, layer, self.config.n_layers, dim);
        let wq: Span = self.layer_matrix(Tensor::Query, layer, dim, dim);
        let wk: Span = self.layer_matrix(Tensor::Key, layer, dim, kv);
        let wv: Span = self.layer_matrix(Tensor::Value, layer, dim, kv);
        ops.push(Op::RmsNorm { dst: scratch, src: residual, weight: norm });
        ops.push(Op::MatMul { dst: query, src: scratch, weight: wq });
        ops.push(Op::MatMul { dst: key, src: scratch, weight: wk });
        ops.push(Op::MatMul { dst: value, src: scratch, weight: wv });
        ops.push(Op::Rope { target: query, head_dim: head, pos });
        ops.push(Op::Rope { target: key, head_dim: head, pos });
        proof {
            let added = self.project_ops(layer as int, pos as int);
            assert(ops@ =~= old(ops)@ + added);
            assert forall|i: int| 0 <= i < added.len() implies self.fits(#[trigger] added[i])
                && self.causal(added[i], pos as int) by {
                self.lemma_op_sound(added[i], pos as int);
            }
            if self.sound(old(ops)@, pos as int) {
                self.lemma_sound_concat(old(ops)@, added, pos as int);
            }
        }
    }

    /// A part of the cache that lies in the positions from `from` to `to`
    /// of one layer lies within any positions that hold these.
    pub proof fn lemma_rows_within(&self, span: Span, layer: int, from: int, first: int, last: int)
        requires
            span.buffer == Buffer::Keys || span.buffer == Buffer::Values,
            0 <= layer < self.cache.n_layers,
            0 <= first <= from <= last,
            span.start >= self.cache.slot_start(layer, from),
            span.start + span.len <= self.cache.slot_start(layer, last) + self.cache.kv_dim,
        ensures
            self.within_positions(span, first, last),
    {
        let kv: int = self.cache.kv_dim as int;
        let seq: int = self.cache.seq_len as int;
        assert((layer * seq + first) * kv <= (layer * seq + from) * kv) by (nonlinear_arith)
            requires
                first <= from,
                0 <= kv,
        ;
        assert(self.cache.slot_start(layer, first) <= span.start && span.start + span.len
            <= self.cache.slot_start(layer, last) + self.cache.kv_dim);
    }

    /// An operation is sound if it is shaped, its parts lie in their
    /// buffers, and those in the cache lie within the positions that the
    /// order allows.
    pub proof fn lemma_op_sound(&self, op: Op, pos: int)
        requires
            op.shaped(),
            self.holds(op.target()),
            self.within_positions(op.target(), pos, pos),
            forall|k: int|
                0 <= k < op.sources().len() ==> self.holds(#[trigger] op.sources()[k])
                    && self.within_positions(op.sources()[k], 0, pos),
        ensures
            self.fits(op),
            self.causal(op, pos),
    {
    }
}

impl Engine {
    /// Adds to `ops` the fetch of the embedding of `token`.
    pub fn embed(&self, token: usize, pos: usize, ops: &mut Vec<Op>)
        requires
            self.wf(),
            token < self.config.vocab_size,
        ensures
            final(ops)@ == old(ops)@ + self.embed_ops(token as int),
            self.sound(old(ops)@, pos as int) ==> self.sound(final(ops)@, pos as int),
    {
        let residual: Span = self.all_of(Buffer::Residual);
        let row: Span = self.weights_span(
            Tensor::TokenEmbedding,
            token,
            self.config.vocab_size,
            self.config.dim,
        );
        ops.push(Op::Copy { dst: residual, src: row });
        proof {
            let added = self.embed_ops(token as int);
            assert(ops@ =~= old(ops)@ + added);
            assert forall|i: int| 0 <= i < added.len() implies self.fits(#[trigger] added[i])
                && self.causal(added[i], pos as int) by {
                self.lemma_op_sound(added[i], pos as int);
            }
            if self.sound(old(ops)@, pos as int) {
                self.lemma_sound_concat(old(ops)@, added, pos as int);
            }
        }
    }

    /// Adds to `ops` the operations of head `head` in layer `layer` at
    /// position `pos`.
    pub fn attend(&self, layer: usize, head: usize, pos: usize, ops: &mut Vec<Op>)
        requires
            self.wf(),
            layer < self.config.n_layers,
            head < self.config.n_heads,
            pos < self.config.seq_len,
        ensures
            final(ops)@ == old(ops)@ + self.head_ops(layer as int, head as int, pos as int),
            self.sound(old(ops)@, pos as int) ==> self.sound(final(ops)@, pos as int),
    {
        let scores: Span = self.scores_of(head, pos);
        let query: Span = self.part_of_head(Buffer::Query, head);
        let out: Span = self.part_of_head(Buffer::Scratch, head);
        let keys: Span = self.rows(Buffer::Keys, layer, 0, pos + 1);
        let values: Span = self.rows(Buffer::Values, layer, 0, pos + 1);
        let offset: usize = self.offset_of_head(head);
        let stride: usize = self.cache.kv_dim;
        proof {
            self.lemma_rows_within(keys, layer as int, 0, 0, pos as int);
            self.lemma_rows_within(values, layer as int, 0, 0, pos as int);
        }
        ops.push(Op::Scores { dst: scores, query, keys, stride, offset });
        ops.push(Op::Softmax { target: scores });
        ops.push(Op::Mix { dst: out, weights: scores, values, stride, offset });
        proof {
            let added = self.head_ops(layer as int, head as int, pos as int);
            assert(ops@ =~= old(ops)@ + added);
            assert forall|i: int| 0 <= i < added.len() implies self.fits(#[trigger] added[i])
                && self.causal(added[i], pos as int) by {
                self.lemma_op_sound(added[i], pos as int);
            }
            if self.sound(old(ops)@, pos as int) {
                self.lemma_sound_concat(old(ops)@, added, pos as int);
            }
        }
    }

    /// Adds to `ops` the last operations of layer `layer`.
    pub fn finish(&self, layer: usize, pos: usize, ops: &mut Vec<Op>)
        requires
            self.wf(),
            layer < self.config.n_layers,
        ensures
            final(ops)@ == old(ops)@ + self.finish_ops(layer as int),
            self.sound(old(ops)@, pos as int) ==> self.sound(final(ops)@, pos as int),
    {
        let dim: usize = self.config.dim;
        let hidden: usize = self.config.hidden_dim;
        let scratch: Span = self.all_of(Buffer::Scratch);
        let residual: Span = self.all_of(Buffer::Residual);
        let projection: Span = self.all_of(Buffer::Projection);
        let gate: Span = self.all_of(Buffer::Gate);
        let up: Span = self.all_of(Buffer::Up);
        proof {
            assert(hidden * dim == dim * hidden) by (nonlinear_arith);
        }
        let wo: Span = self.layer_matrix(Tensor::Output, layer, dim, dim);
        let norm: Span = self.weights_span(Tensor::FfnNorm, layer, self.config.n_layers, dim);
        let w_gate: Span = self.layer_matrix(Tensor::Gate, layer, dim, hidden);
        let w_up: Span = self.layer_matrix(Tensor::Up, layer, dim, hidden);
        let w_down: Span = self.layer_matrix(Tensor::Down, layer, dim, hidden);
        ops.push(Op::MatMul { dst: projection, src: scratch, weight: wo });
        ops.push(Op::Add { dst: residual, src: projection });
        ops.push(Op::RmsNorm { dst: scratch, src: residual, weight: norm });
        ops.push(Op::MatMul { dst: gate, src: scratch, weight: w_gate });
        ops.push(Op::MatMul { dst: up, src: scratch, weight: w_up });
        ops.push(Op::SwiGlu { dst: gate, up });
        ops.push(Op::MatMul { dst: scratch, src: gate, weight: w_down });
        ops.push(Op::Add { dst: residual, src: scratch });
        proof {
            let added = self.finish_ops(layer as int);
            assert(ops@ =~= old(ops)@ + added);
            assert forall|i: int| 0 <= i < added.len() implies self.fits(#[trigger] added[i])
                && self.causal(added[i], pos as int) by {
                self.lemma_op_sound(added[i], pos as int);
            }
            if self.sound(old(ops)@, pos as int) {
                self.lemma_sound_concat(old(ops)@, added, pos as int);
            }
        }
    }

    /// Adds to `ops` the operations after the last layer.
    pub fn close(&self, pos: usize, ops: &mut Vec<Op>)
        requires
            self.wf(),
        ensures
            final(ops)@ == old(ops)@ + self.close_ops(),
            self.sound(old(ops)@, pos as int) ==> self.sound(final(ops)@, pos as int),
    {
        let dim: usize = self.config.dim;
        let scratch: Span = self.all_of(Buffer::Scratch);
        let residual: Span = self.all_of(Buffer::Residual);
        let logits: Span = self.all_of(Buffer::Logits);
        let norm: Span = self.weights_span(Tensor::FinalNorm, 0, 1, dim);
        let table: Tensor = if self.config.shared_classifier {
            Tensor::TokenEmbedding
        } else {
            Tensor::Classifier
        };
        proof {
            let tables = self.layout.with_tables;
            self.config.lemma_offsets_grow(table.rank() + 1, TENSOR_COUNT as int, tables);
            self.config.lemma_offsets_grow(table.rank(), table.rank() + 1, tables);
        }
        let len: usize = self.config.vocab_size * dim;
        let classifier: Span = self.weights_span(table, 0, 1, len);
        ops.push(Op::RmsNorm { dst: scratch, src: residual, weight: norm });
        ops.push(Op::MatMul { dst: logits, src: scratch, weight: classifier });
        proof {
            let added = self.close_ops();
            assert(ops@ =~= old(ops)@ + added);
            assert forall|i: int| 0 <= i < added.len() implies self.fits(#[trigger] added[i])
                && self.causal(added[i], pos as int) by {
                self.lemma_op_sound(added[i], pos as int);
            }
            if self.sound(old(ops)@, pos as int) {
                self.lemma_sound_concat(old(ops)@, added, pos as int);
            }
        }
    }

    /// Plans in `ops` the forward pass for `token` at position `pos`. What
    /// `ops` held before is dropped.
    ///
    /// Every operation of the plan fits the buffers. Of the cache the plan
    /// writes position `pos` and nothing else, and reads no position after
    /// `pos`.
    pub fn plan_forward(&self, token: usize, pos: usize, ops: &mut Vec<Op>)
        requires
            self.wf(),
            token < self.config.vocab_size,
            pos < self.config.seq_len,
        ensures
            final(ops)@ == self.plan(token as int, pos as int),
            self.sound(final(ops)@, pos as int),
    {
        ops.clear();
        self.embed(token, pos, ops);
        let mut layer: usize = 0;
        assert(ops@ =~= self.embed_ops(token as int) + self.layers_upto(0, pos as int));
        while layer < self.config.n_layers
            invariant
                self.wf(),
                pos < self.config.seq_len,
                layer <= self.config.n_layers,
                ops@ == self.embed_ops(token as int) + self.layers_upto(layer as int, pos as int),
                self.sound(ops@, pos as int),
            decreases self.config.n_layers - layer,
        {
            let ghost before: Seq<Op> = ops@;
            self.project(layer, pos, ops);
            let mut head: usize = 0;
            assert(ops@ =~= before + (self.project_ops(layer as int, pos as int) + self.heads_upto(
                layer as int,
                0,
                pos as int,
            )));
            while head < self.config.n_heads
                invariant
                    self.wf(),
                    pos < self.config.seq_len,
                    layer < self.config.n_layers,
                    head <= self.config.n_heads,
                    ops@ == before + (self.project_ops(layer as int, pos as int) + self.heads_upto(
                        layer as int,
                        head as int,
                        pos as int,
                    )),
                    self.sound(ops@, pos as int),
                decreases self.config.n_heads - head,
            {
                let ghost so_far: Seq<Op> = ops@;
                self.attend(layer, head, pos, ops);
                proof {
                    assert(before + (self.project_ops(layer as int, pos as int) + (self.heads_upto(
                        layer as int,
                        head as int,
                        pos as int,
                    ) + self.head_ops(layer as int, head as int, pos as int))) =~= so_far
                        + self.head_ops(layer as int, head as int, pos as int));
                }
                head = head + 1;
            }
            let ghost with_heads: Seq<Op> = ops@;
            self.finish(layer, pos, ops);
            proof {
                assert(self.embed_ops(token as int) + (self.layers_upto(layer as int, pos as int)
                    + self.layer_ops(layer as int, pos as int)) =~= with_heads + self.finish_ops(
                    layer as int,
                ));
            }
            layer = layer + 1;
        }
        self.close(pos, ops);
    }

    /// Plans in `ops` the forward pass for `token` at the next position,
    /// `pos`, and records that the position is written.
    pub fn forward(&mut self, token: usize, pos: usize, ops: &mut Vec<Op>)
        requires
            old(self).wf(),
            token < old(self).config.vocab_size,
            old(self).cache.writable(pos as int),
        ensures
            final(self).wf(),
            final(self).config == old(self).config,
            final(self).layout == old(self).layout,
            final(self).cache.filled == pos + 1,
            final(ops)@ == old(self).plan(token as int, pos as int),
            final(ops)@ == final(self).plan(token as int, pos as int),
            final(self).sound(final(ops)@, pos as int),
    {
        self.plan_forward(token, pos, ops);
        let ghost before: Engine = *self;
        self.cache.advance(pos);
        proof {
            before.lemma_plan_ignores_filled(*self, token as int, pos as int);
        }
    }

    /// An operation at a later position leaves what the cache holds of an
    /// earlier position as it is: the part it writes shares no value with
    /// the earlier position of any layer.
    pub proof fn lemma_earlier_positions_kept(&self, op: Op, pos: int, layer: int, earlier: int)
        requires
            self.causal(op, pos),
            op.target().buffer == Buffer::Keys || op.target().buffer == Buffer::Values,
            0 <= layer,
            0 <= earlier < pos < self.cache.seq_len,
        ensures
            op.target().start + op.target().len <= self.cache.slot_start(layer, earlier)
                || self.cache.slot_start(layer, earlier) + self.cache.kv_dim <= op.target().start,
    {
        let target = op.target();
        assert(self.within_positions(target, pos, pos));
        let written: int = choose|written: int|
            0 <= written < self.cache.n_layers && self.cache.slot_start(written, pos)
                <= target.start && target.start + target.len <= #[trigger] self.cache.slot_start(
                written,
                pos,
            ) + self.cache.kv_dim;
        self.cache.lemma_slots_disjoint(written, pos, layer, earlier);
    }

    /// What is written of the cache has no part in a plan.
    pub proof fn lemma_plan_ignores_filled(&self, other: Engine, token: int, pos: int)
        requires
            self.config == other.config,
            self.layout == other.layout,
            self.cache.n_layers == other.cache.n_layers,
            self.cache.seq_len == other.cache.seq_len,
            self.cache.kv_dim == other.cache.kv_dim,
        ensures
            self.plan(token, pos) == other.plan(token, pos),
            forall|ops: Seq<Op>| self.sound(ops, pos) == other.sound(ops, pos),
    {
        self.lemma_layers_ignore_filled(other, self.config.n_layers as int, pos);
        assert forall|ops: Seq<Op>| self.sound(ops, pos) == other.sound(ops, pos) by {
            assert forall|op: Op| self.fits(op) == other.fits(op) && self.causal(op, pos)
                == other.causal(op, pos) by {
                self.lemma_op_ignores_filled(other, op, pos);
            }
        }
    }

    /// What is written of the cache has no part in whether an operation is
    /// sound.
    pub proof fn lemma_op_ignores_filled(&self, other: Engine, op: Op, pos: int)
        requires
            self.config == other.config,
            self.layout == other.layout,
            self.cache.n_layers == other.cache.n_layers,
            self.cache.seq_len == other.cache.seq_len,
            self.cache.kv_dim == other.cache.kv_dim,
        ensures
            self.fits(op) == other.fits(op),
            self.causal(op, pos) == other.causal(op, pos),
    {
        assert forall|b: Buffer| self.buffer_len(b) == other.buffer_len(b) by {}
        assert forall|span: Span, first: int, last: int|
            self.within_positions(span, first, last) == other.within_positions(
                span,
                first,
                last,
            ) by {
            assert forall|layer: int|
                self.cache.slot_start(layer, first) == other.cache.slot_start(layer, first)
                    && self.cache.slot_start(layer, last) == other.cache.slot_start(
                    layer,
                    last,
                ) by {}
        }
    }

    /// What is written of the cache has no part in the operations of the
    /// layers.
    pub proof fn lemma_layers_ignore_filled(&self, other: Engine, count: int, pos: int)
        requires
            self.config == other.config,
            self.layout == other.layout,
            self.cache.n_layers == other.cache.n_layers,
            self.cache.seq_len == other.cache.seq_len,
            self.cache.kv_dim == other.cache.kv_dim,
        ensures
            self.layers_upto(count, pos) == other.layers_upto(count, pos),
        decreases count,
    {
        if count > 0 {
            self.lemma_layers_ignore_filled(other, count - 1, pos);
            self.lemma_heads_ignore_filled(other, count - 1, self.config.n_heads as int, pos);
        }
    }

    /// What is written of the cache has no part in the operations of the
    /// heads.
    pub proof fn lemma_heads_ignore_filled(&self, other: Engine, layer: int, count: int, pos: int)
        requires
            self.config == other.config,
            self.layout == other.layout,
            self.cache.n_layers == other.cache.n_layers,
            self.cache.seq_len == other.cache.seq_len,
            self.cache.kv_dim == other.cache.kv_dim,
        ensures
            self.heads_upto(layer, count, pos) == other.heads_upto(layer, count, pos),
        decreases count,
    {
        if count > 0 {
            self.lemma_heads_ignore_filled(other, layer, count - 1, pos);
        }
    }
}

} // verus!

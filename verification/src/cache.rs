//! Bookkeeping of the key/value cache: the shape of its arena, where each
//! position of each layer lies in it, and how many positions are written.
//! The arena itself, two tensors of that shape, belongs to the caller.

use vstd::prelude::*;
use crate::config::Config;

verus! {

/// The shape of a key/value arena and the number of positions written to it.
#[derive(Debug, Clone, Copy, PartialEq, Eq)]
pub struct KvCache {
    /// Number of layers.
    pub n_layers: usize,
    /// Number of positions that each layer holds.
    pub seq_len: usize,
    /// Number of values of one position in one layer.
    pub kv_dim: usize,
    /// Number of positions written so far; the next position to write.
    pub filled: usize,
}

impl KvCache {
    /// Number of values in one arena of this shape.
    pub open spec fn arena_len(&self) -> int {
        self.n_layers * self.seq_len * self.kv_dim
    }

    /// Whether the arena can be addressed and holds what was written.
    pub open spec fn wf(&self) -> bool {
        &&& self.arena_len() <= usize::MAX
        &&& self.filled <= self.seq_len
    }

    /// Where the values of position `pos` in layer `layer` start.
    pub open spec fn slot_start(&self, layer: int, pos: int) -> int {
        (layer * self.seq_len + pos) * self.kv_dim
    }

    /// An empty cache for a model of dimensions `config`, or `None` where an
    /// arena of that shape has more values than can be addressed.
    pub fn new(config: &Config) -> (r: Option<KvCache>)
        requires
            config.valid(),
        ensures
            match r {
                Some(cache) => {
                    &&& cache.wf()
                    &&& cache.n_layers == config.n_layers
                    &&& cache.seq_len == config.seq_len
                    &&& cache.kv_dim == config.kv_dim()
                    &&& cache.filled == 0
                },
                None => config.n_layers * config.seq_len * config.kv_dim() > usize::MAX,
            },
    {
        let kv_dim: usize = config.kv_size();
        assert(config.n_layers * config.seq_len <= 0x7fff_ffff * 0x7fff_ffff) by (nonlinear_arith)
            requires
                config.n_layers <= 0x7fff_ffff,
                config.seq_len <= 0x7fff_ffff,
        ;
        let rows: u128 = config.n_layers as u128 * config.seq_len as u128;
        assert(rows * kv_dim <= 0x3fff_ffff_0000_0001 * 0x7fff_ffff) by (nonlinear_arith)
            requires
                rows <= 0x3fff_ffff_0000_0001,
                kv_dim <= 0x7fff_ffff,
        ;
        let len: u128 = rows * kv_dim as u128;
        if len > usize::MAX as u128 {
            None
        } else {
            Some(
                KvCache {
                    n_layers: config.n_layers,
                    seq_len: config.seq_len,
                    kv_dim,
                    filled: 0,
                },
            )
        }
    }

    /// Computes the number of values in one arena.
    pub fn len(&self) -> (r: usize)
        requires
            self.wf(),
        ensures
            r == self.arena_len(),
    {
        proof {
            self.lemma_slot_in_arena(0, 0);
        }
        if self.n_layers == 0 || self.seq_len == 0 || self.kv_dim == 0 {
            assert(self.n_layers * self.seq_len * self.kv_dim == 0) by (nonlinear_arith)
                requires
                    self.n_layers == 0 || self.seq_len == 0 || self.kv_dim == 0,
            ;
            return 0;
        }
        assert(self.n_layers * self.seq_len <= self.n_layers * self.seq_len * self.kv_dim)
            by (nonlinear_arith)
            requires
                self.kv_dim >= 1,
                self.n_layers >= 0,
                self.seq_len >= 0,
        ;
        self.n_layers * self.seq_len * self.kv_dim
    }

    /// Computes where the values of position `pos` in layer `layer` start.
    pub fn slot(&self, layer: usize, pos: usize) -> (r: usize)
        requires
            self.wf(),
            layer < self.n_layers,
            pos < self.seq_len,
        ensures
            r == self.slot_start(layer as int, pos as int),
            r + self.kv_dim <= self.arena_len(),
    {
        proof {
            self.lemma_slot_in_arena(layer as int, pos as int);
            assert(layer * self.seq_len + pos <= (layer * self.seq_len + pos) * self.kv_dim
                || self.kv_dim == 0) by (nonlinear_arith)
                requires
                    layer * self.seq_len + pos >= 0,
                    self.kv_dim >= 0,
            ;
            assert(layer * self.seq_len <= layer * self.seq_len + pos);
            assert(0 <= layer * self.seq_len) by (nonlinear_arith);
        }
        if self.kv_dim == 0 {
            assert((layer * self.seq_len + pos) * 0 == 0);
            return 0;
        }
        (layer * self.seq_len + pos) * self.kv_dim
    }

    /// Whether `pos` is the position to write next.
    pub open spec fn writable(&self, pos: int) -> bool {
        pos == self.filled && pos < self.seq_len
    }

    /// Once position `pos` is written, neither it nor any position before
    /// it can be written again, whatever is written afterwards.
    pub proof fn lemma_written_once(&self, later: KvCache, pos: int, again: int)
        requires
            self.filled == pos + 1,
            later.filled >= self.filled,
            again <= pos,
        ensures
            !self.writable(again),
            !later.writable(again),
    {
    }

    /// Whatever positions are written to a cache that starts unwritten, one
    /// after the other, they are 0, 1, 2 and so on: `caches` are the states
    /// that the cache goes through and `positions` what is written between
    /// them, each as `advance` asks and leaves it.
    pub proof fn lemma_positions_in_order(caches: Seq<KvCache>, positions: Seq<int>, k: int)
        requires
            caches.len() == positions.len() + 1,
            caches[0].filled == 0,
            forall|i: int|
                0 <= i < positions.len() ==> (#[trigger] caches[i]).writable(positions[i])
                    && caches[i + 1].filled == positions[i] + 1,
            0 <= k < positions.len(),
        ensures
            positions[k] == k,
            caches[k + 1].filled == k + 1,
        decreases k,
    {
        assert(caches[k].writable(positions[k]));
        if k > 0 {
            Self::lemma_positions_in_order(caches, positions, k - 1);
        }
    }

    /// Tests whether `pos` is the position to write next.
    pub fn accepts(&self, pos: usize) -> (r: bool)
        ensures
            r == self.writable(pos as int),
    {
        pos == self.filled && pos < self.seq_len
    }

    /// Records that position `pos` has been written in every layer.
    ///
    /// Positions are written once each, in order from 0: `pos` has to be the
    /// number of positions written before.
    pub fn advance(&mut self, pos: usize)
        requires
            old(self).wf(),
            old(self).writable(pos as int),
        ensures
            final(self).wf(),
            final(self).filled == pos + 1,
            final(self).n_layers == old(self).n_layers,
            final(self).seq_len == old(self).seq_len,
            final(self).kv_dim == old(self).kv_dim,
    {
        self.filled = pos + 1;
    }

    /// Every slot lies inside the arena.
    pub proof fn lemma_slot_in_arena(&self, layer: int, pos: int)
        requires
            0 <= layer < self.n_layers || (layer == 0 && pos == 0),
            0 <= pos < self.seq_len || (layer == 0 && pos == 0),
        ensures
            0 <= self.slot_start(layer, pos),
            0 <= self.arena_len(),
            0 <= layer < self.n_layers && 0 <= pos < self.seq_len ==> self.slot_start(layer, pos)
                + self.kv_dim <= self.arena_len(),
    {
        let s: int = self.seq_len as int;
        let d: int = self.kv_dim as int;
        let n: int = self.n_layers as int;
        assert(0 <= (layer * s + pos) * d) by (nonlinear_arith)
            requires
                0 <= layer,
                0 <= pos,
                0 <= s,
                0 <= d,
        ;
        assert(0 <= n * s * d) by (nonlinear_arith)
            requires
                0 <= n,
                0 <= s,
                0 <= d,
        ;
        if 0 <= layer < n && 0 <= pos < s {
            assert((layer * s + pos) * d + d <= n * s * d) by (nonlinear_arith)
                requires
                    0 <= layer < n,
                    0 <= pos < s,
                    0 <= d,
            ;
        }
    }

    /// Two different slots share no value.
    pub proof fn lemma_slots_disjoint(&self, layer1: int, pos1: int, layer2: int, pos2: int)
        requires
            0 <= layer1,
            0 <= layer2,
            0 <= pos1 < self.seq_len,
            0 <= pos2 < self.seq_len,
            layer1 != layer2 || pos1 != pos2,
        ensures
            self.slot_start(layer1, pos1) + self.kv_dim <= self.slot_start(layer2, pos2)
                || self.slot_start(layer2, pos2) + self.kv_dim <= self.slot_start(layer1, pos1),
    {
        let s: int = self.seq_len as int;
        let d: int = self.kv_dim as int;
        let a: int = layer1 * s + pos1;
        let b: int = layer2 * s + pos2;
        assert(a != b) by (nonlinear_arith)
            requires
                a == layer1 * s + pos1,
                b == layer2 * s + pos2,
                0 <= pos1 < s,
                0 <= pos2 < s,
                layer1 != layer2 || pos1 != pos2,
        ;
        assert(a * d + d <= b * d || b * d + d <= a * d) by (nonlinear_arith)
            requires
                a != b,
                0 <= d,
        ;
    }
}

} // verus!

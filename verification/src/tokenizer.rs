//! The tokenizer's table: one piece of text and one score for every token,
//! the binary form it is loaded from, and the index by which a piece is
//! found.

use vstd::prelude::*;
use crate::bytes::{le_i32, le_u32, read_i32, read_u32};
use crate::error::LoadError;
use crate::lexical::{before, lemma_lex_irreflexive, lemma_lex_total, lemma_lex_transitive, lex_before};

verus! {

/// One record of a vocabulary: the score of a token, as the bit pattern of a
/// single-precision number, and its piece of text.
pub type Entry = (u32, Seq<u8>);

/// The table of a byte-pair tokenizer. Token `t` stands for `pieces[t]` and
/// has score `scores[t]`; byte `b` of a character that has no token is
/// written as token `byte_base + b`, where the vocabulary has that token.
#[derive(Debug, Clone, PartialEq, Eq)]
pub struct Tokenizer {
    /// The piece of text of every token, by token.
    pub pieces: Vec<Vec<u8>>,
    /// The score of every token, as the bit pattern of a single-precision
    /// number.
    pub scores: Vec<u32>,
    /// Length of the longest piece, as the vocabulary states it.
    pub max_piece_len: usize,
    /// The token that stands for byte 0; the other byte tokens follow it.
    pub byte_base: usize,
    /// All tokens in the order of their pieces, tokens of one piece in
    /// their own order.
    pub index: Vec<usize>,
}

/// The result of adding entries `done` in front of what `rest` holds.
pub open spec fn prepend(done: Seq<Entry>, rest: Result<Seq<Entry>, LoadError>) -> Result<
    Seq<Entry>,
    LoadError,
> {
    match rest {
        Ok(entries) => Ok(done + entries),
        Err(e) => Err(e),
    }
}

/// The `count` records that start at `at`: each is a score of four bytes, a
/// length of four bytes and a piece of that many bytes. A record that does
/// not fit in `data` gives `Truncated`, a negative length `InvalidLength`.
pub open spec fn records(data: Seq<u8>, at: int, count: nat) -> Result<Seq<Entry>, LoadError>
    decreases count,
{
    if count == 0 {
        Ok(Seq::empty())
    } else if at + 8 > data.len() {
        Err(LoadError::Truncated)
    } else if le_i32(data, at + 4) < 0 {
        Err(LoadError::InvalidLength)
    } else if at + 8 + le_i32(data, at + 4) > data.len() {
        Err(LoadError::Truncated)
    } else {
        prepend(
            seq![(le_u32(data, at) as u32, data.subrange(at + 8, at + 8 + le_i32(data, at + 4)))],
            records(data, at + 8 + le_i32(data, at + 4), (count - 1) as nat),
        )
    }
}

/// The entries of a vocabulary of `vocab_size` tokens stored in `data`: the
/// length of the longest piece in four bytes, then one record per token.
/// Bytes after the last record are not read.
pub open spec fn vocabulary(data: Seq<u8>, vocab_size: nat) -> Result<Seq<Entry>, LoadError> {
    if data.len() < 4 {
        Err(LoadError::Truncated)
    } else if le_i32(data, 0) < 0 {
        Err(LoadError::InvalidLength)
    } else {
        records(data, 4, vocab_size)
    }
}

impl Tokenizer {
    /// Number of tokens.
    pub open spec fn vocab_size(&self) -> nat {
        self.pieces@.len()
    }

    /// Whether the table is complete: every token has a piece and a score,
    /// and the index lists every token in order.
    pub open spec fn wf(&self) -> bool {
        &&& self.pieces@.len() == self.scores@.len()
        &&& self.index_sorted()
        &&& self.index_lists(0)
    }

    /// Whether token `t` comes before token `u` in the index: its piece
    /// comes first, or the pieces are the same and `t` is the lower token.
    pub open spec fn entry_before(&self, t: int, u: int) -> bool {
        lex_before(self.piece(t), self.piece(u)) || (self.piece(t) == self.piece(u) && t < u)
    }

    /// Whether the index holds tokens of the vocabulary in their order.
    pub open spec fn index_sorted(&self) -> bool {
        &&& forall|p: int|
            0 <= p < self.index@.len() ==> (#[trigger] self.index@[p]) < self.pieces@.len()
        &&& forall|p: int, q: int|
            0 <= p < q < self.index@.len() ==> self.entry_before(
                #[trigger] self.index@[p] as int,
                #[trigger] self.index@[q] as int,
            )
    }

    /// Whether the index holds token `t`.
    pub open spec fn listed(&self, t: int) -> bool {
        exists|p: int| 0 <= p < self.index@.len() && self.index@[p] == t
    }

    /// Whether the index holds the tokens from `low` up and no others.
    pub open spec fn index_lists(&self, low: int) -> bool {
        &&& forall|p: int| 0 <= p < self.index@.len() ==> low <= #[trigger] self.index@[p]
        &&& forall|t: int| low <= t < self.pieces@.len() ==> #[trigger] self.listed(t)
    }

    /// The piece of token `t`.
    pub open spec fn piece(&self, t: int) -> Seq<u8> {
        self.pieces@[t]@
    }

    /// The table as a sequence of entries.
    pub open spec fn entries(&self) -> Seq<Entry> {
        Seq::new(self.pieces@.len(), |t: int| (self.scores@[t], self.pieces@[t]@))
    }

    /// Whether `t` is the first token whose piece is `text`.
    pub open spec fn first_match(&self, text: Seq<u8>, t: int) -> bool {
        &&& 0 <= t < self.pieces@.len()
        &&& self.piece(t) == text
        &&& forall|u: int| 0 <= u < t ==> self.piece(u) != text
    }

    /// The first token whose piece is `text`, if there is one.
    pub open spec fn lookup(&self, text: Seq<u8>) -> Option<usize> {
        if exists|t: int| self.first_match(text, t) {
            Some((choose|t: int| self.first_match(text, t)) as usize)
        } else {
            None
        }
    }

    /// No two tokens are the first match of one text.
    pub proof fn lemma_first_match_unique(&self, text: Seq<u8>, t: int, u: int)
        requires
            self.first_match(text, t),
            self.first_match(text, u),
        ensures
            t == u,
    {
        if t < u {
            assert(self.piece(t) != text);
        } else if u < t {
            assert(self.piece(u) != text);
        }
    }

    /// Returns the number of tokens.
    pub fn size(&self) -> (r: usize)
        ensures
            r == self.vocab_size(),
    {
        self.pieces.len()
    }

    /// Finds the first place of the index whose piece does not come before
    /// `text`.
    pub fn lower_bound(&self, text: &[u8]) -> (r: usize)
        requires
            self.index_sorted(),
        ensures
            r <= self.index@.len(),
            forall|p: int| 0 <= p < r ==> lex_before(self.piece(#[trigger] self.index@[p] as int), text@),
            forall|p: int|
                r <= p < self.index@.len() ==> !lex_before(
                    self.piece(#[trigger] self.index@[p] as int),
                    text@,
                ),
    {
        let mut low: usize = 0;
        let mut high: usize = self.index.len();
        while low < high
            invariant
                self.index_sorted(),
                low <= high <= self.index@.len(),
                forall|p: int|
                    0 <= p < low ==> lex_before(self.piece(#[trigger] self.index@[p] as int), text@),
                forall|p: int|
                    high <= p < self.index@.len() ==> !lex_before(
                        self.piece(#[trigger] self.index@[p] as int),
                        text@,
                    ),
            decreases high - low,
        {
            let mid: usize = low + (high - low) / 2;
            let t: usize = self.index[mid];
            if before(self.pieces[t].as_slice(), text) {
                proof {
                    assert forall|p: int| 0 <= p < mid + 1 implies lex_before(
                        self.piece(#[trigger] self.index@[p] as int),
                        text@,
                    ) by {
                        if p < mid {
                            assert(self.entry_before(self.index@[p] as int, self.index@[mid as int] as int));
                            if self.piece(self.index@[p] as int) != self.piece(t as int) {
                                lemma_lex_transitive(
                                    self.piece(self.index@[p] as int),
                                    self.piece(t as int),
                                    text@,
                                );
                            }
                        }
                    }
                }
                low = mid + 1;
            } else {
                proof {
                    assert forall|p: int| mid <= p < self.index@.len() implies !lex_before(
                        self.piece(#[trigger] self.index@[p] as int),
                        text@,
                    ) by {
                        if p > mid {
                            assert(self.entry_before(self.index@[mid as int] as int, self.index@[p] as int));
                            if lex_before(self.piece(self.index@[p] as int), text@) {
                                if self.piece(self.index@[p] as int) != self.piece(t as int) {
                                    lemma_lex_transitive(
                                        self.piece(t as int),
                                        self.piece(self.index@[p] as int),
                                        text@,
                                    );
                                }
                            }
                        }
                    }
                }
                high = mid;
            }
        }
        low
    }

    /// Searches the index for the first token whose piece is `text`.
    pub fn find(&self, text: &[u8]) -> (r: Option<usize>)
        requires
            self.index_sorted(),
            self.index_lists(0),
        ensures
            r == self.lookup(text@),
            match r {
                Some(t) => self.first_match(text@, t as int),
                None => forall|t: int| 0 <= t < self.pieces@.len() ==> self.piece(t) != text@,
            },
    {
        let place: usize = self.lower_bound(text);
        proof {
            lemma_lex_irreflexive(text@);
        }
        if place < self.index.len() {
            let t: usize = self.index[place];
            if same_bytes(self.pieces[t].as_slice(), text) {
                proof {
                    assert forall|u: int| 0 <= u < t implies self.piece(u) != text@ by {
                        if self.piece(u) == text@ {
                            assert(self.listed(u));
                            let q: int = choose|q: int|
                                0 <= q < self.index@.len() && self.index@[q] == u;
                            if q < place {
                                assert(lex_before(self.piece(self.index@[q] as int), text@));
                            } else if q > place {
                                assert(self.entry_before(
                                    self.index@[place as int] as int,
                                    self.index@[q] as int,
                                ));
                            }
                        }
                    }
                    assert(self.first_match(text@, t as int));
                    let c: int = choose|c: int| self.first_match(text@, c);
                    self.lemma_first_match_unique(text@, c, t as int);
                }
                return Some(t);
            }
        }
        proof {
            assert forall|u: int| 0 <= u < self.pieces@.len() implies self.piece(u) != text@ by {
                if self.piece(u) == text@ {
                    assert(self.listed(u));
                    let q: int = choose|q: int| 0 <= q < self.index@.len() && self.index@[q] == u;
                    if q < place {
                        assert(lex_before(self.piece(self.index@[q] as int), text@));
                    } else if q > place {
                        assert(self.entry_before(
                            self.index@[place as int] as int,
                            self.index@[q] as int,
                        ));
                        assert(!lex_before(self.piece(self.index@[place as int] as int), text@));
                    }
                }
            }
        }
        None
    }

    /// Puts a table together from the pieces and scores of its tokens and
    /// builds its index.
    pub fn from_parts(
        pieces: Vec<Vec<u8>>,
        scores: Vec<u32>,
        max_piece_len: usize,
        byte_base: usize,
    ) -> (r: Tokenizer)
        requires
            pieces@.len() == scores@.len(),
        ensures
            r.wf(),
            r.pieces == pieces,
            r.scores == scores,
            r.max_piece_len == max_piece_len,
            r.byte_base == byte_base,
    {
        let mut t = Tokenizer { pieces, scores, max_piece_len, byte_base, index: Vec::new() };
        let mut k: usize = t.pieces.len();
        while k > 0
            invariant
                t.pieces == pieces,
                t.scores == scores,
                t.max_piece_len == max_piece_len,
                t.byte_base == byte_base,
                k <= t.pieces@.len(),
                t.index_sorted(),
                t.index_lists(k as int),
            decreases k,
        {
            k = k - 1;
            let place: usize = t.lower_bound(t.pieces[k].as_slice());
            let ghost old_t = t;
            let ghost listing: Seq<usize> = t.index@;
            t.index.insert(place, k);
            proof {
                let text = t.piece(k as int);
                assert forall|p: int, q: int| 0 <= p < q < t.index@.len() implies t.entry_before(
                    #[trigger] t.index@[p] as int,
                    #[trigger] t.index@[q] as int,
                ) by {
                    if q < place {
                        assert(old_t.entry_before(listing[p] as int, listing[q] as int));
                    } else if q == place {
                        assert(lex_before(old_t.piece(listing[p] as int), text));
                    } else if p < place {
                        assert(old_t.entry_before(listing[p] as int, listing[q - 1] as int));
                    } else if p == place {
                        assert(!lex_before(old_t.piece(listing[q - 1] as int), text));
                        lemma_lex_total(text, old_t.piece(listing[q - 1] as int));
                        assert(k < listing[q - 1]);
                    } else {
                        assert(old_t.entry_before(listing[p - 1] as int, listing[q - 1] as int));
                    }
                }
                assert forall|u: int| k <= u < t.pieces@.len() implies #[trigger] t.listed(u) by {
                    if u == k {
                        assert(t.index@[place as int] == u);
                    } else {
                        assert(old_t.listed(u));
                        let q: int = choose|q: int| 0 <= q < listing.len() && listing[q] == u;
                        if q < place {
                            assert(t.index@[q] == u);
                        } else {
                            assert(t.index@[q + 1] == u);
                        }
                    }
                }
                assert forall|p: int| 0 <= p < t.index@.len() implies k <= #[trigger] t.index@[p]
                    && t.index@[p] < t.pieces@.len() by {
                    if p < place {
                        assert(t.index@[p] == listing[p]);
                    } else if p > place {
                        assert(t.index@[p] == listing[p - 1]);
                    }
                }
            }
        }
        t
    }

    /// Reads the vocabulary of `vocab_size` tokens stored in `data`, with the
    /// byte tokens starting at `byte_base`.
    ///
    /// Fails with `Truncated` when `data` ends inside the length of the
    /// longest piece or inside a record, and with `InvalidLength` when that
    /// length or the length of a record is negative.
    pub fn parse(data: &[u8], vocab_size: usize, byte_base: usize) -> (r: Result<
        Tokenizer,
        LoadError,
    >)
        ensures
            match r {
                Ok(t) => {
                    &&& vocabulary(data@, vocab_size as nat) == Ok::<
                        Seq<Entry>,
                        LoadError,
                    >(t.entries())
                    &&& t.wf()
                    &&& t.vocab_size() == vocab_size
                    &&& t.byte_base == byte_base
                    &&& t.max_piece_len == le_i32(data@, 0)
                },
                Err(e) => vocabulary(data@, vocab_size as nat) == Err::<
                    Seq<Entry>,
                    LoadError,
                >(e),
            },
    {
        if data.len() < 4 {
            return Err(LoadError::Truncated);
        }
        let longest: i32 = read_i32(data, 0);
        if longest < 0 {
            return Err(LoadError::InvalidLength);
        }
        let mut pieces: Vec<Vec<u8>> = Vec::new();
        let mut scores: Vec<u32> = Vec::new();
        let mut at: usize = 4;
        let mut k: usize = 0;
        let ghost mut done: Seq<Entry> = Seq::empty();
        proof {
            assert(done + records(data@, 4, vocab_size as nat)->Ok_0 =~= records(
                data@,
                4,
                vocab_size as nat,
            )->Ok_0);
        }
        while k < vocab_size
            invariant
                k <= vocab_size,
                0 <= longest == le_i32(data@, 0),
                4 <= at <= data@.len(),
                pieces@.len() == k,
                scores@.len() == k,
                done.len() == k,
                forall|t: int| 0 <= t < k ==> done[t] == (scores@[t], #[trigger] pieces@[t]@),
                records(data@, 4, vocab_size as nat) == prepend(
                    done,
                    records(data@, at as int, (vocab_size - k) as nat),
                ),
            decreases vocab_size - k,
        {
            if data.len() - at < 8 {
                return Err(LoadError::Truncated);
            }
            let score: u32 = read_u32(data, at);
            let len: i32 = read_i32(data, at + 4);
            if len < 0 {
                return Err(LoadError::InvalidLength);
            }
            if data.len() - at - 8 < len as usize {
                return Err(LoadError::Truncated);
            }
            let end: usize = at + 8 + len as usize;
            let piece: Vec<u8> = copy_range(data, at + 8, end);
            proof {
                let rest = records(data@, end as int, (vocab_size - k - 1) as nat);
                let entry: Entry = (score, piece@);
                assert(records(data@, at as int, (vocab_size - k) as nat) == prepend(
                    seq![entry],
                    rest,
                ));
                if rest is Ok {
                    assert(done + (seq![entry] + rest->Ok_0) =~= done.push(entry) + rest->Ok_0);
                }
                done = done.push(entry);
            }
            pieces.push(piece);
            scores.push(score);
            at = end;
            k = k + 1;
        }
        let t = Tokenizer::from_parts(pieces, scores, longest as usize, byte_base);
        proof {
            assert(done + Seq::<Entry>::empty() =~= done);
            assert(t.entries() =~= done);
        }
        Ok(t)
    }
}

/// Tests whether two byte strings are equal.
pub fn same_bytes(a: &[u8], b: &[u8]) -> (r: bool)
    ensures
        r == (a@ == b@),
{
    if a.len() != b.len() {
        return false;
    }
    let mut i: usize = 0;
    while i < a.len()
        invariant
            a@.len() == b@.len(),
            i <= a@.len(),
            forall|j: int| 0 <= j < i ==> a@[j] == b@[j],
        decreases a@.len() - i,
    {
        if a[i] != b[i] {
            return false;
        }
        i = i + 1;
    }
    assert(a@ =~= b@);
    true
}

/// Copies the bytes of `data` from `from` up to `to`.
pub fn copy_range(data: &[u8], from: usize, to: usize) -> (r: Vec<u8>)
    requires
        from <= to <= data@.len(),
    ensures
        r@ == data@.subrange(from as int, to as int),
{
    let mut out: Vec<u8> = Vec::new();
    let mut i: usize = from;
    while i < to
        invariant
            from <= i <= to,
            to <= data@.len(),
            out@ == data@.subrange(from as int, i as int),
        decreases to - i,
    {
        out.push(data[i]);
        i = i + 1;
        assert(out@ =~= data@.subrange(from as int, i as int));
    }
    out
}

} // verus!

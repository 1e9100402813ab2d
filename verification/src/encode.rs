//! Encoding text to tokens by greedy byte-pair merging, and decoding a token
//! back to the text it displays as.

use vstd::prelude::*;
use crate::ieee::{key, order_key};
use crate::tokenizer::{copy_range, Tokenizer};

verus! {

/// The token that marks the beginning of a sequence.
pub const BOS: usize = 1;

/// The token that marks the end of a sequence.
pub const EOS: usize = 2;

/// The space that stands in front of a text's first word in the vocabulary.
pub const SPACE: u8 = 0x20;

/// Whether `b` continues a character that an earlier byte began.
pub open spec fn is_continuation(b: u8) -> bool {
    0x80 <= b < 0xC0
}

/// Number of bytes of the character that starts at `start`: the byte there
/// and the continuation bytes that follow it, four bytes at most.
pub open spec fn chunk_len(text: Seq<u8>, start: int) -> int {
    if start + 1 < text.len() && is_continuation(text[start + 1]) {
        if start + 2 < text.len() && is_continuation(text[start + 2]) {
            if start + 3 < text.len() && is_continuation(text[start + 3]) {
                4
            } else {
                3
            }
        } else {
            2
        }
    } else {
        1
    }
}

/// The text that is tokenized for `text`: where a sequence is begun with a
/// text that is not empty and does not start with a space, a space is put in
/// front of it.
pub open spec fn with_prefix(text: Seq<u8>, prepend_bos: bool) -> Seq<u8> {
    if prepend_bos && text.len() > 0 && text[0] != SPACE {
        seq![SPACE] + text
    } else {
        text
    }
}

/// Whether every token of `tokens` is a token of a vocabulary of `size`.
pub open spec fn tokens_below(tokens: Seq<usize>, size: nat) -> bool {
    forall|i: int| 0 <= i < tokens.len() ==> tokens[i] < size
}

/// The value of a hexadecimal digit, if `b` is one.
pub open spec fn hex_value(b: u8) -> Option<u8> {
    if 0x30 <= b <= 0x39 {
        Some((b - 0x30) as u8)
    } else if 0x41 <= b <= 0x46 {
        Some((b - 0x41 + 10) as u8)
    } else if 0x61 <= b <= 0x66 {
        Some((b - 0x61 + 10) as u8)
    } else {
        None
    }
}

/// The byte that a piece of the form `<0xHH>` names, if `piece` has that form.
pub open spec fn named_byte(piece: Seq<u8>) -> Option<u8> {
    if piece.len() == 6 && piece[0] == 0x3C && piece[1] == 0x30 && piece[2] == 0x78
        && hex_value(piece[3]) is Some && hex_value(piece[4]) is Some && piece[5] == 0x3E {
        Some((16 * hex_value(piece[3])->Some_0 + hex_value(piece[4])->Some_0) as u8)
    } else {
        None
    }
}

impl Tokenizer {
    /// The byte tokens of `chunk`, one for every byte.
    pub open spec fn byte_tokens(&self, chunk: Seq<u8>) -> Seq<usize> {
        Seq::new(chunk.len(), |i: int| (self.byte_base + chunk[i]) as usize)
    }

    /// The tokens that one character is first written as: its own token
    /// where the vocabulary has one, else its byte tokens.
    pub open spec fn chunk_tokens(&self, chunk: Seq<u8>) -> Seq<usize> {
        match self.lookup(chunk) {
            Some(t) => seq![t],
            None => self.byte_tokens(chunk),
        }
    }

    /// Whether the vocabulary has the byte token of `b`.
    pub open spec fn has_byte_token(&self, b: u8) -> bool {
        self.byte_base + b < self.pieces@.len()
    }

    /// Whether the character `chunk` can be written: it has a token of its
    /// own, or each of its bytes has its byte token.
    pub open spec fn writes(&self, chunk: Seq<u8>) -> bool {
        self.lookup(chunk) is Some || forall|i: int|
            0 <= i < chunk.len() ==> self.has_byte_token(#[trigger] chunk[i])
    }

    /// Whether every character of `text` from `start` on can be written.
    pub open spec fn encodable(&self, text: Seq<u8>, start: int) -> bool
        decreases text.len() - start,
    {
        if start < 0 || start >= text.len() {
            true
        } else {
            &&& self.writes(text.subrange(start, start + chunk_len(text, start)))
            &&& self.encodable(text, start + chunk_len(text, start))
        }
    }

    /// Whether `text` can be encoded: every character of it, and the space
    /// that a beginning puts in front of it, has a token or falls back to
    /// byte tokens that the vocabulary has.
    pub open spec fn can_encode(&self, text: Seq<u8>, prepend_bos: bool) -> bool {
        self.encodable(with_prefix(text, prepend_bos), 0)
    }

    /// The tokens that `text` from `start` on is first written as, character
    /// by character.
    pub open spec fn raw_tokens(&self, text: Seq<u8>, start: int) -> Seq<usize>
        decreases text.len() - start,
    {
        if start < 0 || start >= text.len() {
            Seq::empty()
        } else {
            self.chunk_tokens(text.subrange(start, start + chunk_len(text, start)))
                + self.raw_tokens(text, start + chunk_len(text, start))
        }
    }

    /// The text of the tokens at `i` and `i + 1`, one after the other.
    pub open spec fn pair_piece(&self, tokens: Seq<usize>, i: int) -> Seq<u8> {
        self.piece(tokens[i] as int) + self.piece(tokens[i + 1] as int)
    }

    /// Whether the tokens at `i` and `i + 1` can be merged: the vocabulary
    /// has a token for their joint text.
    pub open spec fn mergeable(&self, tokens: Seq<usize>, i: int) -> bool {
        &&& 0 <= i < tokens.len() - 1
        &&& self.lookup(self.pair_piece(tokens, i)) is Some
    }

    /// The token that the tokens at `i` and `i + 1` merge to.
    pub open spec fn merged(&self, tokens: Seq<usize>, i: int) -> usize {
        self.lookup(self.pair_piece(tokens, i))->Some_0
    }

    /// The place in the order of scores of the token that the pair at `i`
    /// merges to.
    pub open spec fn merge_key(&self, tokens: Seq<usize>, i: int) -> int {
        order_key(self.scores@[self.merged(tokens, i) as int])
    }

    /// Whether the pair at `i` is the one to merge next: no pair merges to a
    /// token of higher score, and no pair left of it to one of equal score.
    pub open spec fn best_merge(&self, tokens: Seq<usize>, i: int) -> bool {
        &&& self.mergeable(tokens, i)
        &&& forall|j: int| #[trigger]
            self.mergeable(tokens, j) ==> self.merge_key(tokens, j) < self.merge_key(tokens, i) || (
            self.merge_key(tokens, j) == self.merge_key(tokens, i) && i <= j)
    }

    /// `tokens` with the pair at `i` replaced by the token it merges to.
    pub open spec fn merge_at(&self, tokens: Seq<usize>, i: int) -> Seq<usize> {
        tokens.subrange(0, i).push(self.merged(tokens, i)) + tokens.subrange(
            i + 2,
            tokens.len() as int,
        )
    }

    /// What `tokens` becomes by merging the best pair again and again until
    /// no pair can be merged.
    pub open spec fn merge_all(&self, tokens: Seq<usize>) -> Seq<usize>
        decreases tokens.len(),
    {
        if exists|i: int| self.best_merge(tokens, i) {
            let i = choose|i: int| self.best_merge(tokens, i);
            self.merge_all(self.merge_at(tokens, i))
        } else {
            tokens
        }
    }

    /// The tokens of `text` without the markers of beginning and end.
    pub open spec fn content_tokens(&self, text: Seq<u8>, prepend_bos: bool) -> Seq<usize> {
        self.merge_all(self.raw_tokens(with_prefix(text, prepend_bos), 0))
    }

    /// The tokens of `text`: `BOS` if asked for, the content, `EOS` if asked
    /// for.
    pub open spec fn encoding(&self, text: Seq<u8>, prepend_bos: bool, append_eos: bool) -> Seq<
        usize,
    > {
        let begin: Seq<usize> = if prepend_bos {
            seq![BOS]
        } else {
            Seq::empty()
        };
        let end: Seq<usize> = if append_eos {
            seq![EOS]
        } else {
            Seq::empty()
        };
        begin + self.content_tokens(text, prepend_bos) + end
    }

    /// The piece of `token` as it follows `prev`: without its leading space
    /// at the beginning of a sequence.
    pub open spec fn shown_piece(&self, prev: usize, token: usize) -> Seq<u8> {
        let piece = self.piece(token as int);
        if prev == BOS && piece.len() > 0 && piece[0] == SPACE {
            piece.subrange(1, piece.len() as int)
        } else {
            piece
        }
    }

    /// The text that `token` displays as after `prev`: the byte that its
    /// piece names, or else the piece itself.
    pub open spec fn decoding(&self, prev: usize, token: usize) -> Seq<u8> {
        match named_byte(self.shown_piece(prev, token)) {
            Some(b) => seq![b],
            None => self.shown_piece(prev, token),
        }
    }

    /// The text of `tokens`: their pieces one after the other.
    pub open spec fn text_of(&self, tokens: Seq<usize>) -> Seq<u8>
        decreases tokens.len(),
    {
        if tokens.len() == 0 {
            Seq::empty()
        } else {
            self.text_of(tokens.drop_last()) + self.piece(tokens.last() as int)
        }
    }

    /// The empty text has no content: its encoding is the markers that were
    /// asked for and nothing else.
    pub proof fn lemma_encode_empty(&self, prepend_bos: bool, append_eos: bool)
        ensures
            self.content_tokens(Seq::empty(), prepend_bos) == Seq::<usize>::empty(),
            self.encoding(Seq::empty(), prepend_bos, append_eos) == (if prepend_bos {
                seq![BOS]
            } else {
                Seq::empty()
            }) + (if append_eos {
                seq![EOS]
            } else {
                Seq::empty()
            }),
    {
        let none = Seq::<usize>::empty();
        assert(with_prefix(Seq::<u8>::empty(), prepend_bos) == Seq::<u8>::empty());
        assert(self.raw_tokens(Seq::<u8>::empty(), 0) == none);
        assert(forall|i: int| !self.best_merge(none, i));
        assert(self.merge_all(none) == none);
        assert(self.encoding(Seq::empty(), prepend_bos, append_eos) =~= (if prepend_bos {
            seq![BOS]
        } else {
            Seq::empty()
        }) + (if append_eos {
            seq![EOS]
        } else {
            Seq::empty()
        }));
    }

    /// The text of two sequences of tokens joined is their texts joined.
    pub proof fn lemma_text_of_concat(&self, a: Seq<usize>, b: Seq<usize>)
        ensures
            self.text_of(a + b) == self.text_of(a) + self.text_of(b),
        decreases b.len(),
    {
        if b.len() == 0 {
            assert(a + b =~= a);
            assert(self.text_of(a) + self.text_of(b) =~= self.text_of(a));
        } else {
            self.lemma_text_of_concat(a, b.drop_last());
            assert((a + b).drop_last() =~= a + b.drop_last());
            assert((a + b).last() == b.last());
            assert(self.text_of(a) + (self.text_of(b.drop_last()) + self.piece(b.last() as int))
                =~= (self.text_of(a) + self.text_of(b.drop_last())) + self.piece(b.last() as int));
        }
    }

    /// A merge leaves the text of the tokens as it is.
    pub proof fn lemma_merge_at_keeps_text(&self, tokens: Seq<usize>, i: int)
        requires
            self.mergeable(tokens, i),
        ensures
            self.text_of(self.merge_at(tokens, i)) == self.text_of(tokens),
    {
        let left = tokens.subrange(0, i);
        let pair = tokens.subrange(i, i + 2);
        let right = tokens.subrange(i + 2, tokens.len() as int);
        let joint = seq![self.merged(tokens, i)];
        let text = self.pair_piece(tokens, i);
        let t: int = choose|t: int| self.first_match(text, t);
        assert(self.first_match(text, t));
        assert(self.pieces@.len() == self.pieces.len());
        assert(self.piece(self.merged(tokens, i) as int) == text);
        assert(tokens =~= left + pair + right);
        assert(self.merge_at(tokens, i) =~= left + joint + right);
        self.lemma_text_of_concat(left + pair, right);
        self.lemma_text_of_concat(left, pair);
        self.lemma_text_of_concat(left + joint, right);
        self.lemma_text_of_concat(left, joint);
        assert(joint.drop_last() =~= Seq::<usize>::empty());
        assert(self.text_of(joint) =~= text) by {
            assert(self.text_of(joint.drop_last()) =~= Seq::<u8>::empty());
        }
        assert(pair.drop_last() =~= seq![tokens[i]]);
        assert(pair.drop_last().drop_last() =~= Seq::<usize>::empty());
        assert(self.text_of(pair) =~= text) by {
            assert(self.text_of(pair.drop_last().drop_last()) =~= Seq::<u8>::empty());
            assert(self.text_of(pair.drop_last()) =~= self.piece(tokens[i] as int));
        }
    }

    /// Merging leaves the text of the tokens as it is.
    pub proof fn lemma_merge_all_keeps_text(&self, tokens: Seq<usize>)
        ensures
            self.text_of(self.merge_all(tokens)) == self.text_of(tokens),
        decreases tokens.len(),
    {
        if exists|i: int| self.best_merge(tokens, i) {
            let i = choose|i: int| self.best_merge(tokens, i);
            self.lemma_merge_at_keeps_text(tokens, i);
            self.lemma_merge_all_keeps_text(self.merge_at(tokens, i));
        }
    }

    /// Where one of the first `n` pairs can be merged, one of them is best
    /// among them.
    pub proof fn lemma_best_among(&self, tokens: Seq<usize>, n: int) -> (best: int)
        requires
            exists|i: int| 0 <= i < n && self.mergeable(tokens, i),
        ensures
            0 <= best < n,
            self.mergeable(tokens, best),
            forall|j: int|
                0 <= j < n && #[trigger] self.mergeable(tokens, j) ==> self.merge_key(tokens, j)
                    < self.merge_key(tokens, best) || (self.merge_key(tokens, j) == self.merge_key(
                    tokens,
                    best,
                ) && best <= j),
        decreases n,
    {
        if exists|i: int| 0 <= i < n - 1 && self.mergeable(tokens, i) {
            let before: int = self.lemma_best_among(tokens, n - 1);
            if self.mergeable(tokens, n - 1) && self.merge_key(tokens, n - 1) > self.merge_key(
                tokens,
                before,
            ) {
                n - 1
            } else {
                before
            }
        } else {
            n - 1
        }
    }

    /// Merging ends where no pair can be merged.
    pub proof fn lemma_merge_all_ends(&self, tokens: Seq<usize>)
        ensures
            forall|i: int| !self.mergeable(self.merge_all(tokens), i),
        decreases tokens.len(),
    {
        if exists|i: int| self.best_merge(tokens, i) {
            let i = choose|i: int| self.best_merge(tokens, i);
            assert(self.mergeable(tokens, i));
            self.lemma_merge_all_ends(self.merge_at(tokens, i));
            assert(self.merge_all(tokens) == self.merge_all(self.merge_at(tokens, i)));
        } else {
            assert forall|i: int| !self.mergeable(tokens, i) by {
                if self.mergeable(tokens, i) {
                    let best: int = self.lemma_best_among(tokens, tokens.len() as int);
                    assert(self.best_merge(tokens, best));
                }
            }
            assert(self.merge_all(tokens) == tokens);
        }
    }

    /// No two pairs are the best to merge.
    pub proof fn lemma_best_merge_unique(&self, tokens: Seq<usize>, i: int, j: int)
        requires
            self.best_merge(tokens, i),
            self.best_merge(tokens, j),
        ensures
            i == j,
    {
        assert(self.mergeable(tokens, i));
        assert(self.mergeable(tokens, j));
    }

    /// A merge gives tokens of the vocabulary, one fewer than before.
    pub proof fn lemma_merge_at(&self, tokens: Seq<usize>, i: int)
        requires
            self.mergeable(tokens, i),
            tokens_below(tokens, self.vocab_size()),
        ensures
            self.merge_at(tokens, i).len() == tokens.len() - 1,
            tokens_below(self.merge_at(tokens, i), self.vocab_size()),
            self.merged(tokens, i) < self.vocab_size(),
    {
        let text = self.pair_piece(tokens, i);
        let t: int = choose|t: int| self.first_match(text, t);
        assert(self.first_match(text, t));
    }
}

impl Tokenizer {
    /// Finds the pair of `tokens` to merge next, with the token it merges
    /// to, or `None` where no pair can be merged.
    pub fn next_merge(&self, tokens: &Vec<usize>) -> (r: Option<(usize, usize)>)
        requires
            self.wf(),
            tokens_below(tokens@, self.vocab_size()),
        ensures
            match r {
                Some((i, id)) => {
                    &&& self.best_merge(tokens@, i as int)
                    &&& id == self.merged(tokens@, i as int)
                    &&& id < self.vocab_size()
                },
                None => forall|j: int| !self.mergeable(tokens@, j),
            },
    {
        let mut best: Option<(usize, usize)> = None;
        let mut best_key: i64 = 0;
        let mut i: usize = 0;
        if tokens.len() < 2 {
            return None;
        }
        let last: usize = tokens.len() - 1;
        while i < last
            invariant
                self.wf(),
                tokens_below(tokens@, self.vocab_size()),
                i <= last == tokens@.len() - 1,
                match best {
                    Some((b, id)) => {
                        &&& b < i
                        &&& self.mergeable(tokens@, b as int)
                        &&& id == self.merged(tokens@, b as int)
                        &&& id < self.vocab_size()
                        &&& best_key == self.merge_key(tokens@, b as int)
                        &&& forall|j: int|
                            0 <= j < i && #[trigger] self.mergeable(tokens@, j) ==> self.merge_key(
                                tokens@,
                                j,
                            ) < best_key || (self.merge_key(tokens@, j) == best_key && b <= j)
                    },
                    None => forall|j: int| 0 <= j < i ==> !self.mergeable(tokens@, j),
                },
            decreases last - i,
        {
            let joint: Vec<u8> = join_bytes(
                self.pieces[tokens[i]].as_slice(),
                self.pieces[tokens[i + 1]].as_slice(),
            );
            assert(joint@ == self.pair_piece(tokens@, i as int));
            match self.find(joint.as_slice()) {
                Some(id) => {
                    let k: i64 = key(self.scores[id]);
                    let better: bool = match best {
                        Some(_) => k > best_key,
                        None => true,
                    };
                    if better {
                        best = Some((i, id));
                        best_key = k;
                    }
                },
                None => {},
            }
            i = i + 1;
        }
        best
    }

    /// Merges the best pair of `tokens` again and again until no pair can be
    /// merged.
    pub fn merge(&self, tokens: &mut Vec<usize>)
        requires
            self.wf(),
            tokens_below(old(tokens)@, self.vocab_size()),
        ensures
            final(tokens)@ == self.merge_all(old(tokens)@),
            forall|i: int| !self.mergeable(final(tokens)@, i),
            tokens_below(final(tokens)@, self.vocab_size()),
            final(tokens)@.len() <= old(tokens)@.len(),
    {
        loop
            invariant
                self.wf(),
                tokens_below(tokens@, self.vocab_size()),
                self.merge_all(tokens@) == self.merge_all(old(tokens)@),
                tokens@.len() <= old(tokens)@.len(),
            decreases tokens@.len(),
        {
            match self.next_merge(tokens) {
                None => {
                    return ;
                },
                Some((i, id)) => {
                    proof {
                        let c: int = choose|c: int| self.best_merge(tokens@, c);
                        self.lemma_best_merge_unique(tokens@, c, i as int);
                        self.lemma_merge_at(tokens@, i as int);
                    }
                    let ghost before: Seq<usize> = tokens@;
                    let n: usize = tokens.len();
                    assert(self.mergeable(before, i as int));
                    assert(i + 1 < n);
                    tokens.set(i, id);
                    tokens.remove(i + 1);
                    assert(tokens@ =~= self.merge_at(before, i as int));
                },
            }
        }
    }

    /// Writes `text` from its first byte on as tokens, character by
    /// character, without merging. Returns `None` where a character has no
    /// token and the vocabulary lacks the byte token of one of its bytes.
    pub fn split(&self, text: &[u8]) -> (r: Option<Vec<usize>>)
        requires
            self.wf(),
        ensures
            r is Some <==> self.encodable(text@, 0),
            r is Some ==> r->Some_0@ == self.raw_tokens(text@, 0) && tokens_below(
                r->Some_0@,
                self.vocab_size(),
            ),
    {
        let size: usize = self.pieces.len();
        let mut tokens: Vec<usize> = Vec::new();
        let mut start: usize = 0;
        assert(tokens@ + self.raw_tokens(text@, 0) =~= self.raw_tokens(text@, 0));
        while start < text.len()
            invariant
                self.wf(),
                size == self.vocab_size(),
                start <= text@.len(),
                tokens_below(tokens@, self.vocab_size()),
                self.raw_tokens(text@, 0) == tokens@ + self.raw_tokens(text@, start as int),
                self.encodable(text@, 0) == self.encodable(text@, start as int),
            decreases text@.len() - start,
        {
            let mut len: usize = 1;
            if text.len() - start > 1 && continues(text[start + 1]) {
                len = 2;
                if text.len() - start > 2 && continues(text[start + 2]) {
                    len = 3;
                    if text.len() - start > 3 && continues(text[start + 3]) {
                        len = 4;
                    }
                }
            }
            assert(len == chunk_len(text@, start as int));
            let chunk: Vec<u8> = copy_range(text, start, start + len);
            let ghost before: Seq<usize> = tokens@;
            let ghost rest: Seq<usize> = self.raw_tokens(text@, start + len);
            match self.find(chunk.as_slice()) {
                Some(t) => {
                    tokens.push(t);
                    assert(tokens@ == before + self.chunk_tokens(chunk@));
                },
                None => {
                    let mut i: usize = 0;
                    while i < len
                        invariant
                            self.wf(),
                            size == self.vocab_size(),
                            i <= len == chunk@.len(),
                            self.lookup(chunk@) is None,
                            chunk@ == text@.subrange(start as int, start + len),
                            len == chunk_len(text@, start as int),
                            start < text@.len(),
                            self.encodable(text@, 0) == self.encodable(text@, start as int),
                            tokens_below(tokens@, self.vocab_size()),
                            tokens@ == before + self.byte_tokens(chunk@).subrange(0, i as int),
                            forall|j: int| 0 <= j < i ==> self.has_byte_token(#[trigger] chunk@[j]),
                        decreases len - i,
                    {
                        let b: usize = chunk[i] as usize;
                        if self.byte_base >= size || b >= size - self.byte_base {
                            assert(!self.has_byte_token(chunk@[i as int]));
                            assert(!self.writes(chunk@));
                            return None;
                        }
                        tokens.push(self.byte_base + b);
                        i = i + 1;
                        assert(tokens@ =~= before + self.byte_tokens(chunk@).subrange(
                            0,
                            i as int,
                        ));
                    }
                    assert(self.byte_tokens(chunk@).subrange(0, len as int) == self.byte_tokens(
                        chunk@,
                    ));
                },
            }
            assert(self.writes(chunk@));
            assert(tokens@ + rest =~= before + (self.chunk_tokens(chunk@) + rest));
            start = start + len;
        }
        assert(tokens@ + Seq::<usize>::empty() =~= tokens@);
        Some(tokens)
    }

    /// Tests whether `text` can be encoded.
    pub fn encodes(&self, text: &[u8], prepend_bos: bool) -> (r: bool)
        requires
            self.wf(),
        ensures
            r == self.can_encode(text@, prepend_bos),
    {
        let padded: Vec<u8> = pad(text, prepend_bos);
        self.split(padded.as_slice()).is_some()
    }

    /// Encodes `text` to tokens.
    ///
    /// The text is split into characters, each written as its own token or,
    /// where the vocabulary has none, as one byte token per byte; then the
    /// pair of neighbours whose joint text has the highest score is merged,
    /// the leftmost of equals first, until no pair has a joint token. With
    /// `prepend_bos` the result starts with `BOS` and a text that does not
    /// start with a space is given one; with `append_eos` it ends with `EOS`.
    /// The text has to be one that can be encoded: `encodes` tests it.
    pub fn encode(&self, text: &[u8], prepend_bos: bool, append_eos: bool) -> (tokens: Vec<usize>)
        requires
            self.wf(),
            self.can_encode(text@, prepend_bos),
        ensures
            tokens@ == self.encoding(text@, prepend_bos, append_eos),
            forall|i: int| !self.mergeable(self.content_tokens(text@, prepend_bos), i),
            tokens_below(self.content_tokens(text@, prepend_bos), self.vocab_size()),
            (prepend_bos ==> BOS < self.vocab_size()) && (append_eos ==> EOS < self.vocab_size())
                ==> tokens_below(tokens@, self.vocab_size()),
            prepend_bos ==> tokens@.len() > 0 && tokens@[0] == BOS,
    {
        proof {
            self.lemma_merge_all_ends(self.raw_tokens(with_prefix(text@, prepend_bos), 0));
        }
        let padded: Vec<u8> = pad(text, prepend_bos);
        let mut content: Vec<usize> = match self.split(padded.as_slice()) {
            Some(content) => content,
            None => Vec::new(),
        };
        self.merge(&mut content);
        let mut tokens: Vec<usize> = Vec::new();
        if prepend_bos {
            tokens.push(BOS);
        }
        let ghost begin: Seq<usize> = tokens@;
        let mut j: usize = 0;
        while j < content.len()
            invariant
                j <= content@.len(),
                tokens@ == begin + content@.subrange(0, j as int),
            decreases content@.len() - j,
        {
            tokens.push(content[j]);
            j = j + 1;
            assert(tokens@ =~= begin + content@.subrange(0, j as int));
        }
        assert(content@.subrange(0, content@.len() as int) =~= content@);
        if append_eos {
            tokens.push(EOS);
        }
        assert(tokens@ =~= self.encoding(text@, prepend_bos, append_eos));
        tokens
    }

    /// Decodes `token`, which follows `prev`, to the text it displays as.
    ///
    /// That is the token's piece, without its leading space where `prev` is
    /// `BOS`; a piece of the form `<0xHH>` displays as the byte it names.
    pub fn decode(&self, prev: usize, token: usize) -> (text: Vec<u8>)
        requires
            token < self.vocab_size(),
        ensures
            text@ == self.decoding(prev, token),
    {
        let piece: &Vec<u8> = &self.pieces[token];
        let from: usize = if prev == BOS && piece.len() > 0 && piece[0] == SPACE {
            1
        } else {
            0
        };
        let shown: Vec<u8> = copy_range(piece.as_slice(), from, piece.len());
        assert(shown@ =~= self.shown_piece(prev, token));
        if shown.len() == 6 && shown[0] == 0x3C && shown[1] == 0x30 && shown[2] == 0x78
            && shown[5] == 0x3E {
            match (hex_digit(shown[3]), hex_digit(shown[4])) {
                (Some(high), Some(low)) => {
                    let mut byte: Vec<u8> = Vec::new();
                    byte.push(16 * high + low);
                    assert(byte@ =~= seq![(16 * high + low) as u8]);
                    return byte;
                },
                _ => {},
            }
        }
        shown
    }
}

/// Copies `text`, with a space in front where a sequence is begun with a
/// text that is not empty and does not start with one.
pub fn pad(text: &[u8], prepend_bos: bool) -> (padded: Vec<u8>)
    ensures
        padded@ == with_prefix(text@, prepend_bos),
{
    let mut padded: Vec<u8> = Vec::new();
    if prepend_bos && text.len() > 0 && text[0] != SPACE {
        padded.push(SPACE);
    }
    let ghost lead: Seq<u8> = padded@;
    let mut i: usize = 0;
    while i < text.len()
        invariant
            i <= text@.len(),
            padded@ == lead + text@.subrange(0, i as int),
        decreases text@.len() - i,
    {
        padded.push(text[i]);
        i = i + 1;
        assert(padded@ =~= lead + text@.subrange(0, i as int));
    }
    assert(padded@ =~= with_prefix(text@, prepend_bos)) by {
        assert(text@.subrange(0, text@.len() as int) =~= text@);
    }
    padded
}

/// Tests whether `b` continues a character.
pub fn continues(b: u8) -> (r: bool)
    ensures
        r == is_continuation(b),
{
    0x80 <= b && b < 0xC0
}

/// Computes the value of a hexadecimal digit.
pub fn hex_digit(b: u8) -> (r: Option<u8>)
    ensures
        r == hex_value(b),
        r is Some ==> r->Some_0 < 16,
{
    if 0x30 <= b && b <= 0x39 {
        Some(b - 0x30)
    } else if 0x41 <= b && b <= 0x46 {
        Some(b - 0x41 + 10)
    } else if 0x61 <= b && b <= 0x66 {
        Some(b - 0x61 + 10)
    } else {
        None
    }
}

/// Joins two byte strings.
pub fn join_bytes(a: &[u8], b: &[u8]) -> (r: Vec<u8>)
    ensures
        r@ == a@ + b@,
{
    let mut out: Vec<u8> = Vec::new();
    let mut i: usize = 0;
    while i < a.len()
        invariant
            i <= a@.len(),
            out@ == a@.subrange(0, i as int),
        decreases a@.len() - i,
    {
        out.push(a[i]);
        i = i + 1;
        assert(out@ =~= a@.subrange(0, i as int));
    }
    let mut j: usize = 0;
    assert(a@.subrange(0, a@.len() as int) =~= a@);
    assert(out@ =~= a@ + b@.subrange(0, 0));
    while j < b.len()
        invariant
            j <= b@.len(),
            out@ == a@ + b@.subrange(0, j as int),
        decreases b@.len() - j,
    {
        out.push(b[j]);
        j = j + 1;
        assert(out@ =~= a@ + b@.subrange(0, j as int));
    }
    assert(b@.subrange(0, b@.len() as int) =~= b@);
    out
}

} // verus!

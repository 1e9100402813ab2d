//! A token that comes out of encoding is found again by encoding its own
//! text.
//!
//! Merging looks at nothing but neighbours. So the merges that built one
//! token are, in their order, the merges that the stretch of text under that
//! token undergoes when it is encoded alone: whatever was merged elsewhere
//! in the meantime had no say in them. This holds of a token that was built
//! from characters with tokens of their own. A byte token, or a token that a
//! byte token was merged into, stands for text that is not its piece.

use vstd::prelude::*;
use crate::encode::{chunk_len, with_prefix, BOS};
use crate::tokenizer::Tokenizer;

verus! {

/// What becomes of the marks of the tokens when the pair at `i` is merged:
/// the merged token is marked if both of the pair were.
pub open spec fn marks_at(marks: Seq<bool>, i: int) -> Seq<bool> {
    marks.subrange(0, i).push(marks[i] && marks[i + 1]) + marks.subrange(
        i + 2,
        marks.len() as int,
    )
}

impl Tokenizer {
    /// For every token that `text` from `start` on is first written as,
    /// whether it is the token of a character and no byte token standing in
    /// for a part of one.
    pub open spec fn raw_marks(&self, text: Seq<u8>, start: int) -> Seq<bool>
        decreases text.len() - start,
    {
        if start < 0 || start >= text.len() {
            Seq::empty()
        } else {
            (if self.lookup(text.subrange(start, start + chunk_len(text, start))) is Some {
                seq![true]
            } else {
                Seq::new(chunk_len(text, start) as nat, |i: int| false)
            }) + self.raw_marks(text, start + chunk_len(text, start))
        }
    }

    /// The marks of the tokens that `tokens` merge to, where `marks` are
    /// those of `tokens`: a token is marked if all it was merged from were.
    pub open spec fn merged_marks(&self, tokens: Seq<usize>, marks: Seq<bool>) -> Seq<bool>
        decreases tokens.len(),
    {
        if exists|i: int| self.best_merge(tokens, i) {
            let i = choose|i: int| self.best_merge(tokens, i);
            self.merged_marks(self.merge_at(tokens, i), marks_at(marks, i))
        } else {
            marks
        }
    }

    /// For every token of the content of `text`, whether it was built from
    /// characters that have tokens of their own.
    pub open spec fn content_marks(&self, text: Seq<u8>, prepend_bos: bool) -> Seq<bool> {
        self.merged_marks(
            self.raw_tokens(with_prefix(text, prepend_bos), 0),
            self.raw_marks(with_prefix(text, prepend_bos), 0),
        )
    }

    /// There is a mark for every token.
    pub proof fn lemma_raw_marks_len(&self, text: Seq<u8>, start: int)
        ensures
            self.raw_marks(text, start).len() == self.raw_tokens(text, start).len(),
        decreases text.len() - start,
    {
        if 0 <= start < text.len() {
            self.lemma_raw_marks_len(text, start + chunk_len(text, start));
        }
    }

    /// The best pair of a sequence is the best pair of any stretch of the
    /// sequence that holds it, and merging it there is merging it in the
    /// whole.
    pub proof fn lemma_best_merge_in_window(&self, tokens: Seq<usize>, i: int, a: int, b: int)
        requires
            self.best_merge(tokens, i),
            0 <= a <= i,
            i + 2 <= b <= tokens.len(),
        ensures
            self.best_merge(tokens.subrange(a, b), i - a),
            self.merge_at(tokens.subrange(a, b), i - a) == self.merge_at(tokens, i).subrange(
                a,
                b - 1,
            ),
    {
        let window = tokens.subrange(a, b);
        assert(self.mergeable(tokens, i));
        assert(self.pair_piece(window, i - a) == self.pair_piece(tokens, i));
        assert forall|j: int| #[trigger] self.mergeable(window, j) implies self.merge_key(window, j)
            < self.merge_key(window, i - a) || (self.merge_key(window, j) == self.merge_key(
            window,
            i - a,
        ) && i - a <= j) by {
            assert(self.pair_piece(window, j) == self.pair_piece(tokens, j + a));
            assert(self.mergeable(tokens, j + a));
        }
        assert(self.merge_at(window, i - a) =~= self.merge_at(tokens, i).subrange(a, b - 1));
    }

    /// Every token that merging ends with is what a stretch of the tokens
    /// that merging began with merges to by itself; and if the token is
    /// marked, so is all of the stretch.
    pub proof fn lemma_span(&self, tokens: Seq<usize>, marks: Seq<bool>, j: int) -> (r: (int, int))
        requires
            marks.len() == tokens.len(),
            0 <= j < self.merge_all(tokens).len(),
        ensures
            0 <= r.0 < r.1 <= tokens.len(),
            self.merge_all(tokens.subrange(r.0, r.1)) == seq![self.merge_all(tokens)[j]],
            self.merged_marks(tokens, marks).len() == self.merge_all(tokens).len(),
            self.merged_marks(tokens, marks)[j] ==> forall|k: int| r.0 <= k < r.1 ==> marks[k],
        decreases tokens.len(),
    {
        if exists|i: int| self.best_merge(tokens, i) {
            let i = choose|i: int| self.best_merge(tokens, i);
            assert(self.mergeable(tokens, i));
            let next = self.merge_at(tokens, i);
            let next_marks = marks_at(marks, i);
            let (a, b) = self.lemma_span(next, next_marks, j);
            if i < a {
                assert(tokens.subrange(a + 1, b + 1) =~= next.subrange(a, b));
                assert forall|k: int| a + 1 <= k < b + 1 && next_marks[k - 1] implies marks[k] by {}
                (a + 1, b + 1)
            } else if i >= b {
                assert(tokens.subrange(a, b) =~= next.subrange(a, b));
                assert forall|k: int| a <= k < b && next_marks[k] implies marks[k] by {}
                (a, b)
            } else {
                let window = tokens.subrange(a, b + 1);
                self.lemma_best_merge_in_window(tokens, i, a, b + 1);
                let c = choose|c: int| self.best_merge(window, c);
                self.lemma_best_merge_unique(window, c, i - a);
                if self.merged_marks(tokens, marks)[j] {
                    assert forall|k: int| a <= k < b + 1 implies marks[k] by {
                        if k < i {
                            assert(next_marks[k]);
                        } else if k <= i + 1 {
                            assert(next_marks[i]);
                        } else {
                            assert(next_marks[k - 1]);
                        }
                    }
                }
                (a, b + 1)
            }
        } else {
            let single = tokens.subrange(j, j + 1);
            assert(forall|i: int| !self.mergeable(single, i));
            assert(single =~= seq![tokens[j]]);
            (j, j + 1)
        }
    }

    /// What is read from `start` on depends on nothing before `start`.
    pub proof fn lemma_suffix(&self, text: Seq<u8>, start: int)
        requires
            0 <= start <= text.len(),
        ensures
            self.raw_tokens(text, start) == self.raw_tokens(
                text.subrange(start, text.len() as int),
                0,
            ),
        decreases text.len() - start,
    {
        let suffix = text.subrange(start, text.len() as int);
        if start < text.len() {
            let len = chunk_len(text, start);
            assert(chunk_len(suffix, 0) == len);
            assert(suffix.subrange(0, len) =~= text.subrange(start, start + len));
            self.lemma_suffix(text, start + len);
            self.lemma_suffix(suffix, len);
            assert(suffix.subrange(len, suffix.len() as int) =~= text.subrange(
                start + len,
                text.len() as int,
            ));
        }
    }

    /// The tokens that a text is written as from `start` on, without the
    /// first `n` of them, are the tokens of the text from some place `end`
    /// on, where `n` tokens end with a character: where all tokens are
    /// left out or the first that is kept is marked.
    pub proof fn lemma_skip(&self, text: Seq<u8>, start: int, n: int) -> (end: int)
        requires
            0 <= start <= text.len(),
            0 <= n <= self.raw_tokens(text, start).len(),
            n < self.raw_tokens(text, start).len() ==> self.raw_marks(text, start)[n],
        ensures
            start <= end <= text.len(),
            self.raw_tokens(text, end) == self.raw_tokens(text, start).subrange(
                n,
                self.raw_tokens(text, start).len() as int,
            ),
            self.raw_marks(text, end) == self.raw_marks(text, start).subrange(
                n,
                self.raw_tokens(text, start).len() as int,
            ),
        decreases n,
    {
        let raw = self.raw_tokens(text, start);
        let marks = self.raw_marks(text, start);
        self.lemma_raw_marks_len(text, start);
        if n == 0 {
            assert(raw.subrange(0, raw.len() as int) =~= raw);
            assert(marks.subrange(0, raw.len() as int) =~= marks);
            start
        } else {
            let len = chunk_len(text, start);
            let chunk = text.subrange(start, start + len);
            let first = self.chunk_tokens(chunk);
            let rest = self.raw_tokens(text, start + len);
            let rest_marks = self.raw_marks(text, start + len);
            self.lemma_raw_marks_len(text, start + len);
            assert(raw == first + rest);
            if self.lookup(chunk) is Some {
                assert(marks == seq![true] + rest_marks);
                if n - 1 < rest.len() {
                    assert(marks[n] == rest_marks[n - 1]);
                }
                let end = self.lemma_skip(text, start + len, n - 1);
                assert(rest.subrange(n - 1, rest.len() as int) =~= raw.subrange(
                    n,
                    raw.len() as int,
                ));
                assert(rest_marks.subrange(n - 1, rest.len() as int) =~= marks.subrange(
                    n,
                    raw.len() as int,
                ));
                end
            } else {
                let stand_ins = Seq::new(len as nat, |i: int| false);
                assert(marks == stand_ins + rest_marks);
                assert(first.len() == len);
                if n < len {
                    assert(marks[n] == stand_ins[n]);
                    assert(false);
                }
                if n - len < rest.len() {
                    assert(marks[n] == rest_marks[n - len]);
                }
                let end = self.lemma_skip(text, start + len, n - len);
                assert(rest.subrange(n - len, rest.len() as int) =~= raw.subrange(
                    n,
                    raw.len() as int,
                ));
                assert(rest_marks.subrange(n - len, rest.len() as int) =~= marks.subrange(
                    n,
                    raw.len() as int,
                ));
                end
            }
        }
    }

    /// The first `n` tokens that a text is written as from `start` on, where
    /// they are all marked, are the tokens of the text from `start` up to
    /// some place `end`, and spell it.
    pub proof fn lemma_prefix(&self, text: Seq<u8>, start: int, n: int) -> (end: int)
        requires
            0 <= start <= text.len(),
            0 <= n <= self.raw_tokens(text, start).len(),
            forall|k: int| 0 <= k < n ==> self.raw_marks(text, start)[k],
        ensures
            start <= end <= text.len(),
            n == self.raw_tokens(text, start).len() ==> end == text.len(),
            self.raw_tokens(text.subrange(start, end), 0) == self.raw_tokens(text, start).subrange(
                0,
                n,
            ),
            self.text_of(self.raw_tokens(text, start).subrange(0, n)) == text.subrange(start, end),
        decreases n,
    {
        let raw = self.raw_tokens(text, start);
        let marks = self.raw_marks(text, start);
        if n == 0 {
            assert(text.subrange(start, start) =~= Seq::<u8>::empty());
            assert(raw.subrange(0, 0) =~= Seq::<usize>::empty());
            start
        } else {
            let len = chunk_len(text, start);
            let chunk = text.subrange(start, start + len);
            let rest = self.raw_tokens(text, start + len);
            let rest_marks = self.raw_marks(text, start + len);
            self.lemma_raw_marks_len(text, start + len);
            assert(marks[0]);
            if !(self.lookup(chunk) is Some) {
                let stand_ins = Seq::new(len as nat, |i: int| false);
                assert(marks[0] == stand_ins[0]);
                assert(false);
            }
            let first: usize = self.lookup(chunk)->Some_0;
            let t: int = choose|t: int| self.first_match(chunk, t);
            assert(self.first_match(chunk, t));
            assert(self.pieces@.len() == self.pieces.len());
            assert(self.piece(first as int) == chunk);
            assert(raw == seq![first] + rest);
            assert(marks == seq![true] + rest_marks);
            assert forall|k: int| 0 <= k < n - 1 implies rest_marks[k] by {
                assert(marks[k + 1] == rest_marks[k]);
            }
            let end = self.lemma_prefix(text, start + len, n - 1);
            let whole = text.subrange(start, end);
            let tail = text.subrange(start + len, end);
            assert(chunk_len(whole, 0) == len);
            assert(whole.subrange(0, len) =~= chunk);
            self.lemma_suffix(whole, len);
            assert(whole.subrange(len, whole.len() as int) =~= tail);
            assert(self.raw_tokens(whole, 0) == seq![first] + self.raw_tokens(tail, 0));
            assert(seq![first] + rest.subrange(0, n - 1) =~= raw.subrange(0, n));
            self.lemma_text_of_concat(seq![first], rest.subrange(0, n - 1));
            assert(self.text_of(seq![first]) =~= chunk) by {
                assert(seq![first].drop_last() =~= Seq::<usize>::empty());
                assert(self.text_of(seq![first].drop_last()) =~= Seq::<u8>::empty());
            }
            assert(chunk + tail =~= whole);
            end
        }
    }

    /// The tokens of a text spell the text, with the space that a beginning
    /// puts in front of it, where every character of it has a token of its
    /// own.
    pub proof fn lemma_tokens_spell_text(&self, text: Seq<u8>, prepend_bos: bool)
        requires
            forall|k: int|
                0 <= k < self.raw_marks(with_prefix(text, prepend_bos), 0).len()
                    ==> self.raw_marks(with_prefix(text, prepend_bos), 0)[k],
        ensures
            self.text_of(self.content_tokens(text, prepend_bos)) == with_prefix(text, prepend_bos),
    {
        let padded = with_prefix(text, prepend_bos);
        let raw = self.raw_tokens(padded, 0);
        self.lemma_raw_marks_len(padded, 0);
        let end = self.lemma_prefix(padded, 0, raw.len() as int);
        assert(raw.subrange(0, raw.len() as int) =~= raw);
        assert(padded.subrange(0, padded.len() as int) =~= padded);
        self.lemma_merge_all_keeps_text(raw);
    }

    /// Each marked token that a text merges to is what its own piece is
    /// encoded as.
    pub proof fn lemma_piece_encodes_to_token(&self, text: Seq<u8>, j: int)
        requires
            0 <= j < self.merge_all(self.raw_tokens(text, 0)).len(),
            self.merged_marks(self.raw_tokens(text, 0), self.raw_marks(text, 0))[j],
        ensures
            self.merge_all(
                self.raw_tokens(self.piece(self.merge_all(self.raw_tokens(text, 0))[j] as int), 0),
            ) == seq![self.merge_all(self.raw_tokens(text, 0))[j]],
    {
        let raw = self.raw_tokens(text, 0);
        let marks = self.raw_marks(text, 0);
        let token: usize = self.merge_all(raw)[j];
        self.lemma_raw_marks_len(text, 0);
        let (a, b) = self.lemma_span(raw, marks, j);
        let from = self.lemma_skip(text, 0, a);
        let behind = self.raw_tokens(text, from);
        assert forall|k: int| 0 <= k < b - a implies self.raw_marks(text, from)[k] by {
            assert(marks[a + k]);
        }
        let to = self.lemma_prefix(text, from, b - a);
        let window = raw.subrange(a, b);
        assert(behind.subrange(0, b - a) =~= window);
        self.lemma_merge_all_keeps_text(window);
        assert(self.text_of(seq![token]) =~= self.piece(token as int)) by {
            assert(seq![token].drop_last() =~= Seq::<usize>::empty());
            assert(self.text_of(seq![token].drop_last()) =~= Seq::<u8>::empty());
        }
    }

    /// A token that comes out of encoding, decoded after the token before
    /// it and encoded again, is the same token: for a token that was built
    /// from characters with tokens of their own, and whose display, with the
    /// space that a beginning takes away given back, is its piece.
    pub proof fn lemma_round_trip(&self, text: Seq<u8>, prepend_bos: bool, j: int, prev: usize)
        requires
            0 <= j < self.content_tokens(text, prepend_bos).len(),
            self.content_marks(text, prepend_bos)[j],
            with_prefix(
                self.decoding(prev, self.content_tokens(text, prepend_bos)[j]),
                prev == BOS,
            ) == self.piece(self.content_tokens(text, prepend_bos)[j] as int),
        ensures
            self.content_tokens(
                self.decoding(prev, self.content_tokens(text, prepend_bos)[j]),
                prev == BOS,
            ) == seq![self.content_tokens(text, prepend_bos)[j]],
    {
        self.lemma_piece_encodes_to_token(with_prefix(text, prepend_bos), j);
    }
}

} // verus!

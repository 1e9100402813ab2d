//! The generation loop: a prompt is fed to the model token by token, then
//! the model's own choices are, until the stop token comes or the budget of
//! steps is spent.

use vstd::prelude::*;
use vstd::string::*;
use crate::encode::{tokens_below, BOS};
use crate::engine::{Buffer, Engine, Op, Span};
use crate::kernel::Kernel;
use crate::sampler::Sampler;
use crate::tokenizer::Tokenizer;

verus! {

/// The token whose coming ends a generation.
pub const STOP_TOKEN: usize = 1;

/// Why a generation stopped.
#[derive(Debug, Clone, Copy, PartialEq, Eq)]
pub enum Stop {
    /// As many steps were taken as were asked for.
    Budget,
    /// The next token was the stop token.
    EndOfSequence,
    /// The kernel returned logits or weights of the wrong length.
    KernelFault,
}

/// Where a generation stands.
#[derive(Debug, Clone, Copy, PartialEq, Eq)]
pub enum Phase {
    /// The next token is given by the prompt.
    Priming,
    /// The next token is chosen by the sampler.
    Sampling,
    /// No step is left to take.
    Stopped(Stop),
}

/// The state of one generation.
#[derive(Debug, Clone, PartialEq, Eq)]
pub struct Generation {
    /// The tokens of the prompt.
    pub prompt: Vec<usize>,
    /// The budget of steps.
    pub steps: usize,
    /// Number of steps taken, which is the position to evaluate next.
    pub pos: usize,
    /// The token to evaluate next.
    pub current: usize,
    /// Where the generation stands.
    pub phase: Phase,
}

/// What a finished generation produced.
#[derive(Debug, Clone, PartialEq, Eq)]
pub struct Generated {
    /// Number of tokens produced.
    pub count: u64,
    /// The tokens produced, in order.
    pub tokens: Vec<usize>,
    /// The text of every token produced, in order.
    pub pieces: Vec<Vec<u8>>,
    /// Why the generation stopped.
    pub stop: Stop,
}

/// A model with its tokenizer and its sampler.
pub struct TransformerSystem<K: Kernel> {
    /// The kernel that holds the model's buffers and computes on them.
    pub transformer: K,
    /// The books of the model: its dimensions, its layout, its cache.
    pub engine: Engine,
    /// The tokenizer of the model's vocabulary.
    pub tokenizer: Tokenizer,
    /// The sampler that chooses tokens.
    pub sampler: Sampler,
    /// Room for the plan of a forward pass, kept from step to step.
    pub plan: Vec<Op>,
}

/// The phase of a generation that has taken `pos` of `steps` steps on a
/// prompt of `prompt_len` tokens and has not met the stop token.
pub open spec fn phase_at(prompt_len: int, steps: int, pos: int) -> Phase {
    if pos >= steps {
        Phase::Stopped(Stop::Budget)
    } else if pos + 1 < prompt_len {
        Phase::Priming
    } else {
        Phase::Sampling
    }
}

/// The token that is evaluated at position `i` when `tokens` are produced:
/// `BOS` first, then each token produced.
pub open spec fn fed(tokens: Seq<usize>, i: int) -> usize {
    if i <= 0 {
        BOS
    } else {
        tokens[i - 1]
    }
}

impl Generation {
    /// Whether the state is one that a generation over a vocabulary of
    /// `vocab_size` tokens can be in.
    pub open spec fn wf(&self, vocab_size: nat) -> bool {
        &&& self.prompt@.len() > 0
        &&& tokens_below(self.prompt@, vocab_size)
        &&& self.current < vocab_size
        &&& self.pos <= self.steps
        &&& match self.phase {
            Phase::Stopped(Stop::Budget) => self.pos == self.steps,
            Phase::Stopped(_) => self.pos < self.steps,
            _ => self.phase == phase_at(
                self.prompt@.len() as int,
                self.steps as int,
                self.pos as int,
            ),
        }
    }

    /// Whether a step is left to take.
    pub open spec fn running(&self) -> bool {
        !(self.phase is Stopped)
    }

    /// A generation on `prompt` with a budget of `steps` steps, none for a
    /// negative `steps`. It starts by evaluating the prompt's first token.
    pub fn new(prompt: Vec<usize>, steps: i32) -> (run: Generation)
        requires
            prompt@.len() > 0,
        ensures
            run.prompt == prompt,
            run.steps == if steps < 0 {
                0
            } else {
                steps as int
            },
            run.pos == 0,
            run.current == prompt@[0],
            run.phase == phase_at(prompt@.len() as int, run.steps as int, 0),
    {
        let budget: usize = if steps < 0 {
            0
        } else {
            steps as usize
        };
        let phase: Phase = if budget == 0 {
            Phase::Stopped(Stop::Budget)
        } else if prompt.len() > 1 {
            Phase::Priming
        } else {
            Phase::Sampling
        };
        let current: usize = prompt[0];
        Generation { prompt, steps: budget, pos: 0, current, phase }
    }

    /// The token that the prompt gives next, while it gives one.
    pub fn forced(&self) -> (next: Option<usize>)
        requires
            self.prompt@.len() > 0,
            self.phase is Priming ==> self.pos + 1 < self.prompt@.len(),
        ensures
            next == if self.phase is Priming {
                Some(self.prompt@[self.pos + 1])
            } else {
                None
            },
    {
        let len: usize = self.prompt.len();
        match self.phase {
            Phase::Priming => Some(self.prompt[self.pos + 1]),
            _ => None,
        }
    }

    /// Takes `next` as the token that follows the current one.
    ///
    /// The stop token ends the generation and gives no text. Any other
    /// token becomes the current one, a step is counted, and the text that
    /// the token displays as is returned.
    pub fn accept(&mut self, tokenizer: &Tokenizer, next: usize) -> (piece: Option<Vec<u8>>)
        requires
            old(self).wf(tokenizer.vocab_size()),
            old(self).running(),
            next < tokenizer.vocab_size(),
        ensures
            final(self).wf(tokenizer.vocab_size()),
            final(self).prompt == old(self).prompt,
            final(self).steps == old(self).steps,
            next == STOP_TOKEN ==> {
                &&& piece is None
                &&& final(self).phase == Phase::Stopped(Stop::EndOfSequence)
                &&& final(self).pos == old(self).pos
                &&& final(self).current == old(self).current
            },
            next != STOP_TOKEN ==> {
                &&& piece is Some
                &&& piece->Some_0@ == tokenizer.decoding(old(self).current, next)
                &&& final(self).pos == old(self).pos + 1
                &&& final(self).current == next
                &&& final(self).phase == phase_at(
                    old(self).prompt@.len() as int,
                    old(self).steps as int,
                    old(self).pos + 1,
                )
            },
    {
        if next == STOP_TOKEN {
            self.phase = Phase::Stopped(Stop::EndOfSequence);
            return None;
        }
        let piece: Vec<u8> = tokenizer.decode(self.current, next);
        self.current = next;
        self.pos = self.pos + 1;
        self.phase = if self.pos >= self.steps {
            Phase::Stopped(Stop::Budget)
        } else if self.pos + 1 < self.prompt.len() {
            Phase::Priming
        } else {
            Phase::Sampling
        };
        Some(piece)
    }

    /// Ends the generation because the kernel returned a vector of the
    /// wrong length.
    pub fn fail(&mut self)
        requires
            old(self).running(),
            old(self).pos < old(self).steps,
        ensures
            final(self).phase == Phase::Stopped(Stop::KernelFault),
            final(self).prompt == old(self).prompt,
            final(self).steps == old(self).steps,
            final(self).pos == old(self).pos,
            final(self).current == old(self).current,
    {
        self.phase = Phase::Stopped(Stop::KernelFault);
    }
}

impl<K: Kernel> TransformerSystem<K> {
    /// Whether the parts fit together: each is well formed, the model, the
    /// tokenizer and the sampler have the same tokens, and the token that
    /// begins a sequence is one of them.
    pub open spec fn wf(&self) -> bool {
        &&& self.engine.wf()
        &&& self.tokenizer.wf()
        &&& self.sampler.wf()
        &&& self.engine.config.vocab_size == self.tokenizer.vocab_size()
        &&& self.sampler.vocab_size == self.tokenizer.vocab_size()
        &&& BOS < self.tokenizer.vocab_size()
    }

    /// Whether `run` is a generation that this system can take further: its
    /// state is well formed and, while it runs, its next position is the
    /// next one of the cache and its budget fits in the cache.
    pub open spec fn drives(&self, run: &Generation) -> bool {
        &&& run.wf(self.tokenizer.vocab_size())
        &&& run.running() ==> run.pos == self.engine.cache.filled && run.steps
            <= self.engine.cache.seq_len
    }

    /// Puts a system together from its parts.
    pub fn new(transformer: K, engine: Engine, tokenizer: Tokenizer, sampler: Sampler) -> (r: Self)
        requires
            engine.wf(),
            tokenizer.wf(),
            sampler.wf(),
            engine.config.vocab_size == tokenizer.vocab_size(),
            sampler.vocab_size == tokenizer.vocab_size(),
            BOS < tokenizer.vocab_size(),
        ensures
            r.wf(),
            r.transformer == transformer,
            r.engine == engine,
            r.tokenizer == tokenizer,
            r.sampler == sampler,
    {
        TransformerSystem { transformer, engine, tokenizer, sampler, plan: Vec::new() }
    }

    /// Evaluates the model on `token` at position `pos`: plans the forward
    /// pass, has the kernel carry it out, operation by operation, and reads
    /// the logits. Returns `None` where the kernel does not hand back one
    /// logit for every token.
    pub fn forward(&mut self, token: usize, pos: usize) -> (logits: Option<Vec<u32>>)
        requires
            old(self).wf(),
            token < old(self).engine.config.vocab_size,
            old(self).engine.cache.writable(pos as int),
        ensures
            final(self).wf(),
            final(self).tokenizer == old(self).tokenizer,
            final(self).sampler == old(self).sampler,
            final(self).engine.config == old(self).engine.config,
            final(self).engine.layout == old(self).engine.layout,
            final(self).engine.cache.seq_len == old(self).engine.cache.seq_len,
            final(self).engine.cache.filled == pos + 1,
            final(self).plan@ == old(self).engine.plan(token as int, pos as int),
            final(self).engine.sound(final(self).plan@, pos as int),
            logits is Some ==> logits->Some_0@.len() == old(self).engine.config.vocab_size,
    {
        self.engine.forward(token, pos, &mut self.plan);
        let ghost plan: Seq<Op> = self.plan@;
        let ghost engine: Engine = self.engine;
        let mut i: usize = 0;
        while i < self.plan.len()
            invariant
                i <= self.plan@.len(),
                self.wf(),
                self.plan@ == plan,
                self.engine == engine,
                self.tokenizer == old(self).tokenizer,
                self.sampler == old(self).sampler,
            decreases self.plan@.len() - i,
        {
            self.transformer.run(&self.plan[i]);
            i = i + 1;
        }
        let span: Span = self.engine.all_of(Buffer::Logits);
        let logits: Vec<u32> = self.transformer.read(&span);
        if logits.len() == self.engine.config.vocab_size {
            Some(logits)
        } else {
            None
        }
    }

    /// Begins a generation of at most `steps` tokens on `prompt`.
    ///
    /// The prompt is encoded with `BOS` in front; it has to be one that the
    /// tokenizer can encode. The cache has to be unwritten and long enough
    /// for `steps` positions.
    pub fn start(&self, prompt: &str, steps: i32) -> (run: Generation)
        requires
            self.wf(),
            self.tokenizer.can_encode(prompt.spec_bytes(), true),
            self.engine.cache.filled == 0,
            steps <= self.engine.cache.seq_len,
        ensures
            self.drives(&run),
            run.prompt@ == self.tokenizer.encoding(prompt.spec_bytes(), true, false),
            run.steps == if steps < 0 {
                0
            } else {
                steps as int
            },
            run.pos == 0,
            run.current == BOS,
            run.phase == phase_at(run.prompt@.len() as int, run.steps as int, 0),
    {
        let tokens: Vec<usize> = self.tokenizer.encode(prompt.as_bytes(), true, false);
        Generation::new(tokens, steps)
    }

    /// Takes one step of `run`: evaluates the current token, takes the next
    /// one from the prompt or else from the sampler, and returns the text
    /// that it displays as. Returns `None` when the generation has stopped
    /// or stops at this step.
    pub fn step(&mut self, run: &mut Generation) -> (piece: Option<Vec<u8>>)
        requires
            old(self).wf(),
            old(self).drives(old(run)),
        ensures
            final(self).wf(),
            final(self).drives(final(run)),
            final(self).tokenizer == old(self).tokenizer,
            final(self).sampler.vocab_size == old(self).sampler.vocab_size,
            final(self).sampler.temperature == old(self).sampler.temperature,
            final(self).sampler.top_p == old(self).sampler.top_p,
            final(self).engine.config == old(self).engine.config,
            final(self).engine.layout == old(self).engine.layout,
            final(self).engine.cache.seq_len == old(self).engine.cache.seq_len,
            final(run).prompt == old(run).prompt,
            final(run).steps == old(run).steps,
            old(run).running() ==> {
                &&& final(self).plan@ == old(self).engine.plan(
                    old(run).current as int,
                    old(run).pos as int,
                )
                &&& final(self).engine.sound(final(self).plan@, old(run).pos as int)
            },
            !old(run).running() ==> {
                &&& piece is None
                &&& *final(run) == *old(run)
                &&& final(self).sampler == old(self).sampler
                &&& final(self).engine == old(self).engine
                &&& final(self).plan == old(self).plan
            },
            old(run).running() ==> final(self).engine.cache.filled == old(self).engine.cache.filled + 1,
            old(run).phase is Priming ==> {
                &&& final(self).sampler == old(self).sampler
                &&& piece is Some <==> old(run).prompt@[old(run).pos + 1] != STOP_TOKEN
                &&& piece is Some ==> final(run).current == old(run).prompt@[old(run).pos + 1]
                &&& piece is None ==> final(run).phase == Phase::Stopped(Stop::EndOfSequence)
            },
            match piece {
                Some(text) => {
                    &&& old(run).running()
                    &&& final(run).pos == old(run).pos + 1
                    &&& final(run).current != STOP_TOKEN
                    &&& final(run).current < old(self).tokenizer.vocab_size()
                    &&& text@ == old(self).tokenizer.decoding(old(run).current, final(run).current)
                    &&& final(run).phase == phase_at(
                        old(run).prompt@.len() as int,
                        old(run).steps as int,
                        old(run).pos + 1,
                    )
                },
                None => {
                    &&& final(run).phase is Stopped
                    &&& final(run).pos == old(run).pos
                    &&& final(run).current == old(run).current
                },
            },
    {
        match run.phase {
            Phase::Stopped(_) => {
                return None;
            },
            _ => {},
        }
        let logits: Option<Vec<u32>> = self.forward(run.current, run.pos);
        let next: Option<usize> = match run.forced() {
            Some(token) => Some(token),
            None => match logits {
                Some(logits) => self.sampler.sample(&mut self.transformer, &logits),
                None => None,
            },
        };
        match next {
            Some(token) => run.accept(&self.tokenizer, token),
            None => {
                run.fail();
                None
            },
        }
    }

    /// Generates at most `steps` tokens on `prompt`.
    ///
    /// The prompt is encoded with `BOS` in front and evaluated token by
    /// token from position 0; while the prompt has a next token that token
    /// is produced, afterwards the token that the sampler chooses. The
    /// generation stops before producing the stop token, after `steps`
    /// tokens, or when the kernel returns a vector of the wrong length. The
    /// cache has to be unwritten and long enough for `steps` positions.
    pub fn generate(&mut self, prompt: &str, steps: i32) -> (out: Generated)
        requires
            old(self).wf(),
            old(self).tokenizer.can_encode(prompt.spec_bytes(), true),
            old(self).engine.cache.filled == 0,
            steps <= old(self).engine.cache.seq_len,
        ensures
            final(self).wf(),
            final(self).tokenizer == old(self).tokenizer,
            final(self).engine.config == old(self).engine.config,
            final(self).engine.layout == old(self).engine.layout,
            final(self).engine.cache.seq_len == old(self).engine.cache.seq_len,
            final(self).sampler.vocab_size == old(self).sampler.vocab_size,
            final(self).sampler.temperature == old(self).sampler.temperature,
            final(self).sampler.top_p == old(self).sampler.top_p,
            out.count == out.tokens@.len() == out.pieces@.len(),
            out.count <= if steps < 0 {
                0
            } else {
                steps as int
            },
            out.stop is Budget <==> out.count == if steps < 0 {
                0
            } else {
                steps as int
            },
            tokens_below(out.tokens@, old(self).tokenizer.vocab_size()),
            forall|i: int| 0 <= i < out.count ==> out.tokens@[i] != STOP_TOKEN,
            forall|i: int|
                0 <= i < out.count ==> (#[trigger] out.pieces@[i])@ == old(
                    self,
                ).tokenizer.decoding(fed(out.tokens@, i), out.tokens@[i]),
            forall|i: int|
                0 <= i < out.count && i + 1 < old(self).tokenizer.encoding(
                    prompt.spec_bytes(),
                    true,
                    false,
                ).len() ==> #[trigger] out.tokens@[i] == old(self).tokenizer.encoding(
                    prompt.spec_bytes(),
                    true,
                    false,
                )[i + 1],
            out.count + 1 < old(self).tokenizer.encoding(prompt.spec_bytes(), true, false).len()
                || steps < old(self).tokenizer.encoding(prompt.spec_bytes(), true, false).len()
                ==> {
                &&& final(self).sampler == old(self).sampler
                &&& !(out.stop is KernelFault)
                &&& out.stop is EndOfSequence ==> old(self).tokenizer.encoding(
                    prompt.spec_bytes(),
                    true,
                    false,
                )[out.count + 1] == STOP_TOKEN
            },
            final(self).engine.cache.filled == if out.stop is Budget {
                out.count as int
            } else {
                out.count + 1
            },
            final(self).engine.cache.filled > 0 ==> final(self).plan@ == old(self).engine.plan(
                fed(out.tokens@, final(self).engine.cache.filled - 1) as int,
                final(self).engine.cache.filled - 1,
            ),
    {
        let mut run: Generation = self.start(prompt, steps);
        let mut tokens: Vec<usize> = Vec::new();
        let mut pieces: Vec<Vec<u8>> = Vec::new();
        let mut done: bool = false;
        let ghost prompt_tokens: Seq<usize> = run.prompt@;
        while !done
            invariant
                old(self).wf(),
                self.wf(),
                self.drives(&run),
                self.tokenizer == old(self).tokenizer,
                self.engine.config == old(self).engine.config,
                self.engine.layout == old(self).engine.layout,
                self.engine.cache.seq_len == old(self).engine.cache.seq_len,
                self.sampler.vocab_size == old(self).sampler.vocab_size,
                self.sampler.temperature == old(self).sampler.temperature,
                self.sampler.top_p == old(self).sampler.top_p,
                run.prompt@ == prompt_tokens,
                prompt_tokens == old(self).tokenizer.encoding(prompt.spec_bytes(), true, false),
                run.steps == if steps < 0 {
                    0
                } else {
                    steps as int
                },
                done ==> run.phase is Stopped,
                tokens@.len() == run.pos == pieces@.len(),
                run.current == fed(tokens@, run.pos as int),
                tokens_below(tokens@, self.tokenizer.vocab_size()),
                forall|i: int| 0 <= i < tokens@.len() ==> tokens@[i] != STOP_TOKEN,
                forall|i: int|
                    0 <= i < tokens@.len() ==> (#[trigger] pieces@[i])@ == self.tokenizer.decoding(
                        fed(tokens@, i),
                        tokens@[i],
                    ),
                forall|i: int|
                    0 <= i < tokens@.len() && i + 1 < prompt_tokens.len() ==> #[trigger] tokens@[i]
                        == prompt_tokens[i + 1],
                self.engine.cache.filled > 0 ==> self.plan@ == old(self).engine.plan(
                    fed(tokens@, self.engine.cache.filled - 1) as int,
                    self.engine.cache.filled - 1,
                ),
                run.pos + 1 < prompt_tokens.len() || run.steps < prompt_tokens.len() ==> {
                    &&& self.sampler == old(self).sampler
                    &&& !(run.phase == Phase::Stopped(Stop::KernelFault))
                    &&& run.phase == Phase::Stopped(Stop::EndOfSequence) ==> prompt_tokens[run.pos
                        + 1] == STOP_TOKEN
                },
                run.running() && run.pos < prompt_tokens.len() ==> self.sampler == old(
                    self,
                ).sampler,
                self.engine.cache.filled == if run.phase is Stopped && run.pos < run.steps {
                    run.pos + 1
                } else {
                    run.pos as int
                },
            decreases
                    run.steps - run.pos,
                    (if done {
                        0int
                    } else {
                        1int
                    }),
        {
            let ghost before: Seq<usize> = tokens@;
            let ghost earlier: Seq<Vec<u8>> = pieces@;
            let ghost engine: Engine = self.engine;
            let ghost token: int = run.current as int;
            let ghost pos: int = run.pos as int;
            proof {
                old(self).engine.lemma_plan_ignores_filled(engine, token, pos);
            }
            match self.step(&mut run) {
                Some(piece) => {
                    tokens.push(run.current);
                    pieces.push(piece);
                    proof {
                        assert(fed(tokens@, pos) == fed(before, pos));
                        assert forall|i: int| 0 <= i < tokens@.len() implies (#[trigger] pieces@[i])@
                            == self.tokenizer.decoding(fed(tokens@, i), tokens@[i]) by {
                            if i < before.len() {
                                assert(pieces@[i] == earlier[i]);
                                assert(fed(tokens@, i) == fed(before, i));
                            }
                        }
                    }
                },
                None => {
                    done = true;
                },
            }
        }
        let stop: Stop = match run.phase {
            Phase::Stopped(reason) => reason,
            _ => Stop::Budget,
        };
        Generated { count: run.pos as u64, tokens, pieces, stop }
    }
}

} // verus!

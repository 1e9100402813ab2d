use llama_rust::cache::KvCache;
use llama_rust::config::Config;
use llama_rust::encode::BOS;
use llama_rust::engine::{Buffer, Engine, Op, Span};
use llama_rust::generation::{Generated, Generation, Phase, Stop, TransformerSystem, STOP_TOKEN};
use llama_rust::kernel::Kernel;
use llama_rust::sampler::{Sampler, ONE};
use llama_rust::tokenizer::Tokenizer;

const VOCAB: usize = 263;
const SP: usize = 259;
const A: usize = 260;
const B: usize = 261;
const C: usize = 262;
const BYTE_A: usize = 3 + 0x41;

fn toy() -> Tokenizer {
    toy_with(b"<s>")
}

fn toy_with(second: &[u8]) -> Tokenizer {
    let mut pieces: Vec<Vec<u8>> = Vec::new();
    let mut scores: Vec<u32> = Vec::new();
    for p in ["<unk>", "<s>", "</s>"] {
        pieces.push(p.as_bytes().to_vec());
        scores.push(0.0f32.to_bits());
    }
    for b in 0..256u32 {
        pieces.push(format!("<0x{:02X}>", b).into_bytes());
        scores.push(0.0f32.to_bits());
    }
    for (p, s) in [(" ", -1.0f32), ("a", -2.0), ("b", -3.0), ("c", -4.0)] {
        pieces.push(p.as_bytes().to_vec());
        scores.push(s.to_bits());
    }
    pieces[1] = second.to_vec();
    Tokenizer::from_parts(pieces, scores, 6, 3)
}

fn dimensions() -> Config {
    Config {
        dim: 8,
        hidden_dim: 16,
        n_layers: 1,
        n_heads: 2,
        n_kv_heads: 1,
        vocab_size: VOCAB,
        seq_len: 32,
        shared_classifier: true,
    }
}

/// A kernel that favours one token after each token and records what it is
/// asked.
struct Scripted {
    follow: Vec<usize>,
    ops: usize,
    token: usize,
    pos: usize,
    calls: Vec<(usize, usize)>,
    logits_len: usize,
    weights_len: usize,
}

impl Scripted {
    fn new() -> Scripted {
        let mut follow: Vec<usize> = (0..VOCAB).map(|t| (t + 1) % VOCAB).collect();
        follow[BYTE_A] = A;
        follow[A] = B;
        follow[B] = C;
        follow[C] = STOP_TOKEN;
        Scripted {
            follow,
            ops: 0,
            token: 0,
            pos: 0,
            calls: Vec::new(),
            logits_len: VOCAB,
            weights_len: VOCAB,
        }
    }
}

impl Kernel for Scripted {
    fn run(&mut self, op: &Op) {
        self.ops += 1;
        match op {
            // The embedding table is the first tensor: its rows start at 0.
            Op::Copy { src, .. } => self.token = src.start / 8,
            Op::Rope { pos, .. } => self.pos = *pos,
            _ => {}
        }
    }

    fn read(&mut self, span: &Span) -> Vec<u32> {
        assert_eq!(*span, Span { buffer: Buffer::Logits, start: 0, len: self.follow.len() });
        self.calls.push((self.token, self.pos));
        let mut logits = vec![(-1.0f32).to_bits(); self.logits_len];
        if self.follow[self.token] < self.logits_len {
            logits[self.follow[self.token]] = 4.0f32.to_bits();
        }
        logits
    }

    fn softmax(&mut self, logits: &Vec<u32>, temperature: u32) -> Vec<u32> {
        let t = f32::from_bits(temperature);
        let scaled: Vec<f32> = logits.iter().map(|l| f32::from_bits(*l) / t).collect();
        let max = scaled.iter().cloned().fold(f32::NEG_INFINITY, f32::max);
        let exps: Vec<f32> = scaled.iter().map(|x| (x - max).exp()).collect();
        let sum: f32 = exps.iter().sum();
        let mut weights: Vec<u32> = exps.iter().map(|e| (e / sum * 16777216.0) as u32).collect();
        weights.resize(self.weights_len, 0);
        weights
    }
}

fn engine() -> Engine {
    let config = dimensions();
    let len = 28 + 4 * config.total_len(true) as usize;
    Engine {
        config,
        layout: config.layout(len).unwrap(),
        cache: KvCache::new(&config).unwrap(),
    }
}

fn system(temperature: f32, top_p: u32, seed: u64) -> TransformerSystem<Scripted> {
    let sampler = Sampler::new(VOCAB, temperature.to_bits(), top_p, seed);
    TransformerSystem::new(Scripted::new(), engine(), toy(), sampler)
}

fn text(out: &Generated) -> Vec<u8> {
    out.pieces.iter().flatten().cloned().collect()
}

#[test]
fn it_speaks() {
    let mut transformer_system = system(1.0, 13421773, 7);
    let out = transformer_system.generate("Alice is walking into a test.", /* steps */ 10);
    for x in out.pieces.iter() {
        println!("{}", String::from_utf8_lossy(x));
    }
    let token_count = out.count;
    assert_ne!(token_count, 0, "We should have generated something.");
}

#[test]
fn five_greedy_steps_on_a_one_letter_prompt() {
    let mut s = system(0.0, ONE, 1);
    let out = s.generate("A", 5);
    assert_eq!(out.count, 5);
    assert_eq!(out.tokens, vec![SP, BYTE_A, A, B, C]);
    assert_eq!(
        out.pieces,
        vec![vec![], vec![0x41], b"a".to_vec(), b"b".to_vec(), b"c".to_vec()]
    );
    assert_eq!(text(&out), b"Aabc".to_vec());
    assert_eq!(out.stop, Stop::Budget);
    assert_eq!(s.transformer.calls, vec![(BOS, 0), (SP, 1), (BYTE_A, 2), (A, 3), (B, 4)]);
    assert_eq!(s.engine.cache.filled, 5);
    // One layer of two heads: 23 operations for every position.
    assert_eq!(s.transformer.ops, 5 * 23);
    // The same system built again gives the same tokens.
    let again = system(0.0, ONE, 99).generate("A", 5);
    assert_eq!(again, out);
}

#[test]
fn forward_runs_the_plan_and_reads_the_logits() {
    let mut s = system(0.0, ONE, 1);
    let mut plan = Vec::new();
    s.engine.plan_forward(A, 0, &mut plan);
    let logits = s.forward(A, 0).unwrap();
    assert_eq!(s.transformer.ops, plan.len());
    assert_eq!(s.plan, plan);
    assert_eq!(logits.len(), VOCAB);
    assert_eq!(logits[B], 4.0f32.to_bits());
    assert_eq!(s.engine.cache.filled, 1);
    assert!(s.forward(B, 1).is_some());
    assert_eq!(s.transformer.calls, vec![(A, 0), (B, 1)]);
    assert_eq!(s.engine.cache.filled, 2);
    let mut plan = Vec::new();
    engine().plan_forward(B, 1, &mut plan);
    assert_eq!(s.plan, plan);
    // Logits of another length are handed on as none; the position counts.
    s.transformer.logits_len = VOCAB + 1;
    assert_eq!(s.forward(C, 2), None);
    assert_eq!(s.engine.cache.filled, 3);
}

#[test]
fn the_stop_token_ends_the_generation() {
    let mut s = system(0.0, ONE, 1);
    let out = s.generate("A", 10);
    assert_eq!(out.count, 5);
    assert_eq!(out.tokens, vec![SP, BYTE_A, A, B, C]);
    assert_eq!(out.stop, Stop::EndOfSequence);
    // The token after "c" was asked for and was the stop token.
    assert_eq!(s.transformer.calls.len(), 6);
    assert_eq!(s.transformer.calls[5], (C, 5));
    assert_eq!(s.engine.cache.filled, 6);
    assert_eq!(STOP_TOKEN, 1);
}

#[test]
fn positions_are_evaluated_once_each_in_order() {
    for steps in [0, 1, 3, 5, 12] {
        let mut s = system(0.0, ONE, 1);
        let out = s.generate("ab ab", steps);
        let calls = &s.transformer.calls;
        for (i, (_, pos)) in calls.iter().enumerate() {
            assert_eq!(*pos, i);
        }
        assert_eq!(s.engine.cache.filled, calls.len());
        assert!(out.count as usize <= steps as usize);
        // Each token produced is the one evaluated at the next position.
        for i in 1..calls.len() {
            assert_eq!(calls[i].0, out.tokens[i - 1]);
        }
        assert_eq!(calls.first().map(|c| c.0), if steps > 0 { Some(BOS) } else { None });
    }
}

#[test]
fn the_prompt_is_produced_before_anything_is_sampled() {
    let mut s = system(1.0, ONE / 2, 11);
    let prompt = s.tokenizer.encode(b"abc", true, false);
    assert_eq!(prompt, vec![BOS, SP, A, B, C]);
    let out = s.generate("abc", 4);
    assert_eq!(out.tokens, vec![SP, A, B, C]);
    assert_eq!(text(&out), b"abc".to_vec());
    assert_eq!(out.stop, Stop::Budget);
    // No draw was taken.
    assert_eq!(s.sampler.rng_state, 11);
    let mut s = system(1.0, ONE / 2, 11);
    let out = s.generate("abc", 2);
    assert_eq!(out.tokens, vec![SP, A]);
    assert_eq!(out.count, 2);
}

#[test]
fn no_step_for_a_budget_of_none() {
    for steps in [0, -1, i32::MIN] {
        let mut s = system(0.0, ONE, 1);
        let out = s.generate("abc", steps);
        assert_eq!(out.count, 0);
        assert_eq!(out.tokens, Vec::<usize>::new());
        assert_eq!(out.pieces, Vec::<Vec<u8>>::new());
        assert_eq!(out.stop, Stop::Budget);
        assert_eq!(s.transformer.calls, vec![]);
        assert_eq!(s.transformer.ops, 0);
        assert_eq!(s.engine.cache.filled, 0);
    }
}

#[test]
fn an_empty_prompt_is_sampled_from_the_first_step() {
    let mut s = system(0.0, ONE, 1);
    let out = s.generate("", 3);
    // After the marker of beginning the kernel favours token 2, then 3, then 4.
    assert_eq!(out.tokens, vec![2, 3, 4]);
    assert_eq!(out.pieces, vec![b"</s>".to_vec(), vec![0x00], vec![0x01]]);
    assert_eq!(s.transformer.calls, vec![(BOS, 0), (2, 1), (3, 2)]);
}

#[test]
fn sampling_with_a_seed_repeats() {
    let first = system(1.0, 15099494, 1234).generate("a", 12);
    let second = system(1.0, 15099494, 1234).generate("a", 12);
    assert_eq!(first, second);
    assert!(first.count >= 2);
    assert_eq!(first.tokens[0], SP);
    assert_eq!(first.tokens[1], A);
}

#[test]
fn a_kernel_fault_ends_the_generation() {
    let mut s = system(0.0, ONE, 1);
    s.transformer.logits_len = VOCAB - 1;
    let out = s.generate("A", 5);
    // The two tokens of the prompt are produced; the first sampled one is not.
    assert_eq!(out.tokens, vec![SP, BYTE_A]);
    assert_eq!(out.stop, Stop::KernelFault);
    assert_eq!(s.engine.cache.filled, 3);
    let mut s = system(1.0, ONE, 1);
    s.transformer.weights_len = VOCAB + 1;
    let out = s.generate("A", 5);
    assert_eq!(out.tokens, vec![SP, BYTE_A]);
    assert_eq!(out.stop, Stop::KernelFault);
    assert_eq!(s.sampler.rng_state, 1);
}

#[test]
fn a_prompt_token_that_is_the_stop_token_ends_the_generation() {
    let mut s = system(0.0, ONE, 1);
    // The piece of token 1 is "<s>": make it reachable as a single character.
    s.tokenizer = toy_with(b"a");
    assert_eq!(s.tokenizer.encode(b"ba", true, false), vec![BOS, SP, B, 1]);
    let out = s.generate("ba", 10);
    assert_eq!(out.tokens, vec![SP, B]);
    assert_eq!(out.stop, Stop::EndOfSequence);
    assert_eq!(s.engine.cache.filled, 3);
}

#[test]
fn steps_taken_one_by_one() {
    let mut s = system(0.0, ONE, 1);
    let mut run: Generation = s.start("A", 4);
    assert_eq!(run.prompt, vec![BOS, SP, BYTE_A]);
    assert_eq!((run.pos, run.current, run.steps), (0, BOS, 4));
    assert_eq!(run.phase, Phase::Priming);
    assert_eq!(run.forced(), Some(SP));
    assert_eq!(s.step(&mut run), Some(vec![]));
    assert_eq!((run.pos, run.current, run.phase), (1, SP, Phase::Priming));
    assert_eq!(s.step(&mut run), Some(vec![0x41]));
    assert_eq!((run.pos, run.current, run.phase), (2, BYTE_A, Phase::Sampling));
    assert_eq!(run.forced(), None);
    assert_eq!(s.step(&mut run), Some(b"a".to_vec()));
    assert_eq!(s.step(&mut run), Some(b"b".to_vec()));
    assert_eq!((run.pos, run.current), (4, B));
    assert_eq!(run.phase, Phase::Stopped(Stop::Budget));
    assert_eq!(s.step(&mut run), None);
    assert_eq!(s.step(&mut run), None);
    assert_eq!(s.transformer.calls.len(), 4);
    assert_eq!(s.engine.cache.filled, 4);
}

#[test]
fn accepting_tokens() {
    let t = toy();
    let mut run = Generation::new(vec![BOS, A], 3);
    assert_eq!(run.phase, Phase::Priming);
    assert_eq!(run.accept(&t, A), Some(b"a".to_vec()));
    assert_eq!((run.pos, run.current, run.phase), (1, A, Phase::Sampling));
    assert_eq!(run.accept(&t, SP), Some(b" ".to_vec()));
    assert_eq!((run.pos, run.current, run.phase), (2, SP, Phase::Sampling));
    assert_eq!(run.accept(&t, STOP_TOKEN), None);
    assert_eq!((run.pos, run.current), (2, SP));
    assert_eq!(run.phase, Phase::Stopped(Stop::EndOfSequence));
    let mut run = Generation::new(vec![BOS], 1);
    assert_eq!(run.phase, Phase::Sampling);
    assert_eq!(run.accept(&t, B), Some(b"b".to_vec()));
    assert_eq!(run.phase, Phase::Stopped(Stop::Budget));
    let mut run = Generation::new(vec![BOS], 5);
    run.fail();
    assert_eq!(run.phase, Phase::Stopped(Stop::KernelFault));
    assert_eq!((run.pos, run.current), (0, BOS));
    assert_eq!(Generation::new(vec![BOS, A], 0).phase, Phase::Stopped(Stop::Budget));
    assert_eq!(Generation::new(vec![BOS, A], -3).steps, 0);
}

/// The table of a model of 32 tokens: the markers, the space, the letters
/// from "A" on.
fn table_of_thirty_two() -> Tokenizer {
    let mut pieces: Vec<Vec<u8>> = vec![b"<unk>".to_vec(), b"<s>".to_vec(), b"</s>".to_vec()];
    pieces.push(b" ".to_vec());
    for i in 0..28u8 {
        pieces.push(vec![b'A' + i]);
    }
    let scores: Vec<u32> = vec![0; 32];
    Tokenizer::from_parts(pieces, scores, 5, 3)
}

fn system_of_thirty_two(top_p: u32, seed: u64) -> TransformerSystem<Scripted> {
    let config = Config { vocab_size: 32, ..dimensions() };
    let len = 28 + 4 * config.total_len(true) as usize;
    let engine = Engine {
        config,
        layout: config.layout(len).unwrap(),
        cache: KvCache::new(&config).unwrap(),
    };
    // After each token the kernel favours the next but one, and the stop
    // token after token 12.
    let mut kernel = Scripted::new();
    kernel.follow = (0..32).map(|t| (t + 2) % 32).collect();
    kernel.follow[12] = STOP_TOKEN;
    kernel.logits_len = 32;
    kernel.weights_len = 32;
    let sampler = Sampler::new(32, 0.0f32.to_bits(), top_p, seed);
    TransformerSystem::new(kernel, engine, table_of_thirty_two(), sampler)
}

#[test]
fn five_greedy_steps_with_thirty_two_tokens() {
    let mut s = system_of_thirty_two(ONE, 1);
    assert!(s.tokenizer.encodes(b"A", true));
    let out = s.generate("A", 5);
    // The prompt gives the space and "A"; then every second letter follows.
    assert_eq!(out.tokens, vec![3, 4, 6, 8, 10]);
    assert_eq!(text(&out), b" ACEG"[1..].to_vec());
    assert_eq!(out.count, 5);
    assert_eq!(out.stop, Stop::Budget);
    assert_eq!(s.transformer.calls, vec![(BOS, 0), (3, 1), (4, 2), (6, 3), (8, 4)]);
    // Neither the seed nor top-p has a part at temperature zero.
    let other = system_of_thirty_two(ONE / 3, 99).generate("A", 5);
    assert_eq!(other, out);
    // With a larger budget the run ends before the stop token.
    let long = system_of_thirty_two(ONE, 1).generate("A", 9);
    assert_eq!(long.tokens, vec![3, 4, 6, 8, 10, 12]);
    assert_eq!(long.stop, Stop::EndOfSequence);
    assert_eq!(long.count, 6);
}

#[test]
fn a_budget_within_the_prompt_leaves_the_generator_as_it_was() {
    // The prompt has five tokens with the marker of beginning.
    for steps in [-3, 0, 1, 3, 4] {
        let mut s = system(1.0, ONE / 2, 11);
        let out = s.generate("abc", steps);
        assert_eq!(out.count, steps.max(0) as u64);
        assert_eq!(out.stop, Stop::Budget);
        assert_eq!(s.sampler.rng_state, 11);
        assert_eq!(s.engine.cache.filled, steps.max(0) as usize);
    }
    // One step more is sampled.
    let mut s = system(1.0, ONE / 2, 11);
    s.generate("abc", 5);
    assert_ne!(s.sampler.rng_state, 11);
    // An empty prompt and no budget: nothing is evaluated, nothing drawn.
    let mut s = system(1.0, ONE / 2, 11);
    let out = s.generate("", 0);
    assert_eq!(out.count, 0);
    assert_eq!(s.sampler.rng_state, 11);
    assert_eq!(s.transformer.calls, vec![]);
}

#[test]
fn generation_changes_nothing_of_the_model_or_the_settings() {
    let mut s = system(1.0, ONE / 2, 11);
    let config = s.engine.config;
    let layout = s.engine.layout.clone();
    s.generate("ab", 8);
    assert_eq!(s.engine.config, config);
    assert_eq!(s.engine.layout, layout);
    assert_eq!(s.engine.cache.seq_len, 32);
    assert_eq!(s.sampler.vocab_size, VOCAB);
    assert_eq!(s.sampler.temperature, 1.0f32.to_bits());
    assert_eq!(s.sampler.top_p, ONE / 2);
}

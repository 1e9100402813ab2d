use llama_rust::encode::{continues, hex_digit, join_bytes, pad, BOS, EOS};
use llama_rust::tokenizer::Tokenizer;

const SP: usize = 259;
const A: usize = 260;
const B: usize = 261;
const C: usize = 262;
const AB: usize = 263;
const BC: usize = 264;
const ABC: usize = 265;
const SP_A: usize = 266;
const E_ACUTE: usize = 267;
const AA: usize = 268;
const SP_AB: usize = 269;
const LOWER_HEX: usize = 270;
const NO_HEX: usize = 271;
const SP_HEX: usize = 272;
const TWO_SP: usize = 273;

fn toy() -> Tokenizer {
    toy_with(&[])
}

fn toy_with(more: &[(&[u8], f32)]) -> Tokenizer {
    let mut pieces: Vec<Vec<u8>> = Vec::new();
    let mut scores: Vec<u32> = Vec::new();
    for p in ["<unk>", "<s>", "</s>"] {
        pieces.push(p.as_bytes().to_vec());
        scores.push(0.0f32.to_bits());
    }
    for b in 0..256u32 {
        pieces.push(format!("<0x{:02X}>", b).into_bytes());
        scores.push(0.0f32.to_bits());
    }
    let extra: Vec<(&[u8], f32)> = vec![
        (b" ", -1.0),
        (b"a", -2.0),
        (b"b", -3.0),
        (b"c", -4.0),
        (b"ab", -5.0),
        (b"bc", -4.5),
        (b"abc", -6.0),
        (b" a", -7.0),
        (&[0xC3, 0xA9], -8.0),
        (b"aa", -5.0),
        (b" ab", -9.0),
        (b"<0x0a>", -10.0),
        (b"<0xZZ>", -10.0),
        (b" <0x41>", -10.0),
        (b"  ", -11.0),
    ];
    for (p, s) in extra.iter().chain(more.iter()) {
        pieces.push(p.to_vec());
        scores.push(s.to_bits());
    }
    Tokenizer::from_parts(pieces, scores, 7, 3)
}

#[test]
fn empty_text_has_only_the_markers() {
    let t = toy();
    assert_eq!(t.encode(b"", false, false), Vec::<usize>::new());
    assert_eq!(t.encode(b"", true, false), vec![BOS]);
    assert_eq!(t.encode(b"", false, true), vec![EOS]);
    assert_eq!(t.encode(b"", true, true), vec![BOS, EOS]);
    assert_eq!(BOS, 1);
    assert_eq!(EOS, 2);
}

#[test]
fn characters_are_split_by_their_bytes() {
    let t = toy();
    assert_eq!(t.split(b""), Some(Vec::<usize>::new()));
    assert_eq!(t.split(b"abc"), Some(vec![A, B, C]));
    assert_eq!(t.split(&[0xC3, 0xA9, b'a']), Some(vec![E_ACUTE, A]));
    // A character that the vocabulary lacks becomes one token per byte.
    assert_eq!(t.split(b"z"), Some(vec![3 + 0x7A]));
    assert_eq!(t.split(&[0xE2, 0x82, 0xAC]), Some(vec![3 + 0xE2, 3 + 0x82, 3 + 0xAC]));
    assert_eq!(t.split(&[0xF0, 0x9F, 0x98, 0x80]), Some(vec![243, 162, 155, 131]));
    // A character takes three continuation bytes at most; the fourth
    // starts a character of its own.
    assert_eq!(t.split(&[b'a', 0x80, 0x80, 0x80, 0x80]), Some(vec![100, 131, 131, 131, 131]));
    assert_eq!(t.split(&[b'a', 0x80, b'a']), Some(vec![100, 131, A]));
    // 0xC0 is no continuation byte, 0xBF is one.
    assert_eq!(t.split(&[b'a', 0xC0]), Some(vec![A, 3 + 0xC0]));
    assert_eq!(t.split(&[b'a', 0xBF]), Some(vec![3 + 0x61, 3 + 0xBF]));
}

#[test]
fn the_highest_score_merges_first() {
    let t = toy();
    // "bc" scores higher than "ab", so b and c merge first, then a and bc.
    assert_eq!(t.next_merge(&vec![A, B, C]), Some((1, BC)));
    assert_eq!(t.next_merge(&vec![A, BC]), Some((0, ABC)));
    assert_eq!(t.next_merge(&vec![ABC]), None);
    assert_eq!(t.next_merge(&vec![]), None);
    assert_eq!(t.next_merge(&vec![C, A]), None);
    assert_eq!(t.encode(b"abc", false, false), vec![ABC]);
    assert_eq!(t.encode(b"ab", false, false), vec![AB]);
    assert_eq!(t.encode(b"cab", false, false), vec![C, AB]);
    assert_eq!(t.encode(b"abcabc", false, false), vec![ABC, ABC]);
}

#[test]
fn equal_scores_merge_leftmost_first() {
    let t = toy();
    assert_eq!(t.next_merge(&vec![A, A, A]), Some((0, AA)));
    assert_eq!(t.encode(b"aaa", false, false), vec![AA, A]);
    assert_eq!(t.encode(b"aaaa", false, false), vec![AA, AA]);
    // "ab" and "aa" score the same: in "aab" the left pair wins.
    assert_eq!(t.encode(b"aab", false, false), vec![AA, B]);
}

#[test]
fn merge_rescans_after_every_merge() {
    let t = toy();
    let mut tokens = vec![SP, A, B, C];
    t.merge(&mut tokens);
    // b+c, then a+bc; " abc" is no piece.
    assert_eq!(tokens, vec![SP, ABC]);
    let mut tokens = vec![SP, A, B];
    t.merge(&mut tokens);
    // a+b scores higher than " "+a, and " ab" becomes reachable afterwards.
    assert_eq!(tokens, vec![SP_AB]);
}

#[test]
fn a_sequence_begins_with_a_space() {
    let t = toy();
    assert_eq!(t.encode(b"abc", true, false), vec![BOS, SP, ABC]);
    assert_eq!(t.encode(b"ab", true, true), vec![BOS, SP_AB, EOS]);
    // A text that starts with a space is given no other.
    assert_eq!(t.encode(b" ab", true, false), vec![BOS, SP_AB]);
    assert_eq!(t.encode(b" ", true, false), vec![BOS, SP]);
    // Without the marker of beginning no space is added.
    assert_eq!(t.encode(b"ab", false, true), vec![AB, EOS]);
    assert_eq!(t.encode(b"a", true, false), vec![BOS, SP_A]);
}

#[test]
fn missing_characters_become_byte_tokens() {
    let t = toy();
    assert_eq!(t.encode(b"z", false, false), vec![3 + 0x7A]);
    assert_eq!(t.encode(b"azb", false, false), vec![A, 3 + 0x7A, B]);
    assert_eq!(
        t.encode(&[0xE2, 0x82, 0xAC], true, false),
        vec![BOS, SP, 3 + 0xE2, 3 + 0x82, 3 + 0xAC]
    );
    assert_eq!(t.encode(&[0xFF], false, false), vec![258]);
    assert_eq!(t.encode(&[0x00], false, false), vec![3]);
}

#[test]
fn byte_tokens_merge_by_their_pieces() {
    // A piece that is the text of two byte tokens in a row.
    let t = toy_with(&[(b"<0x7A><0x7A>", 1.0)]);
    assert_eq!(t.encode(b"zz", false, false), vec![274]);
}

#[test]
fn scores_are_compared_as_numbers() {
    let mut t = toy();
    // With "ab" above "bc" the other pair merges first, and "abc" is
    // reached from the other side.
    t.scores[AB] = 0.5f32.to_bits();
    assert_eq!(t.next_merge(&vec![A, B, C]), Some((0, AB)));
    assert_eq!(t.encode(b"abc", false, false), vec![ABC]);
    t.scores[ABC] = f32::NEG_INFINITY.to_bits();
    assert_eq!(t.encode(b"abc", false, false), vec![ABC]);
    t.scores[AB] = (-0.0f32).to_bits();
    t.scores[BC] = 0.0f32.to_bits();
    // Both zeros are the same score: the left pair wins.
    assert_eq!(t.next_merge(&vec![A, B, C]), Some((0, AB)));
}

#[test]
fn decode_gives_the_piece() {
    let t = toy();
    assert_eq!(t.decode(A, AB), b"ab".to_vec());
    assert_eq!(t.decode(0, SP_A), b" a".to_vec());
    assert_eq!(t.decode(EOS, SP_AB), b" ab".to_vec());
    assert_eq!(t.decode(A, E_ACUTE), vec![0xC3, 0xA9]);
    assert_eq!(t.decode(A, 0), b"<unk>".to_vec());
}

#[test]
fn decode_strips_the_space_after_the_beginning() {
    let t = toy();
    assert_eq!(t.decode(BOS, SP_A), b"a".to_vec());
    assert_eq!(t.decode(BOS, SP_AB), b"ab".to_vec());
    assert_eq!(t.decode(BOS, SP), Vec::<u8>::new());
    assert_eq!(t.decode(BOS, TWO_SP), b" ".to_vec());
    assert_eq!(t.decode(BOS, AB), b"ab".to_vec());
}

#[test]
fn decode_renders_named_bytes() {
    let t = toy();
    assert_eq!(t.decode(A, 3 + 0x41), vec![0x41]);
    assert_eq!(t.decode(A, 3), vec![0x00]);
    assert_eq!(t.decode(A, 258), vec![0xFF]);
    assert_eq!(t.decode(BOS, 3 + 0x0A), vec![0x0A]);
    assert_eq!(t.decode(A, LOWER_HEX), vec![0x0A]);
    assert_eq!(t.decode(A, NO_HEX), b"<0xZZ>".to_vec());
    // The space is stripped first, and what is left names a byte.
    assert_eq!(t.decode(BOS, SP_HEX), vec![0x41]);
    assert_eq!(t.decode(A, SP_HEX), b" <0x41>".to_vec());
}

#[test]
fn hexadecimal_digits() {
    assert_eq!(hex_digit(b'0'), Some(0));
    assert_eq!(hex_digit(b'9'), Some(9));
    assert_eq!(hex_digit(b'A'), Some(10));
    assert_eq!(hex_digit(b'F'), Some(15));
    assert_eq!(hex_digit(b'a'), Some(10));
    assert_eq!(hex_digit(b'f'), Some(15));
    assert_eq!(hex_digit(b'G'), None);
    assert_eq!(hex_digit(b'g'), None);
    assert_eq!(hex_digit(b'/'), None);
    assert_eq!(hex_digit(b':'), None);
    assert_eq!(hex_digit(b'@'), None);
    assert_eq!(hex_digit(b'`'), None);
}

#[test]
fn continuation_bytes() {
    assert!(!continues(0x7F));
    assert!(continues(0x80));
    assert!(continues(0xBF));
    assert!(!continues(0xC0));
    assert!(!continues(0xFF));
    assert!(!continues(0x00));
}

#[test]
fn joined_bytes() {
    assert_eq!(join_bytes(b"ab", b"cd"), b"abcd".to_vec());
    assert_eq!(join_bytes(b"", b"cd"), b"cd".to_vec());
    assert_eq!(join_bytes(b"ab", b""), b"ab".to_vec());
    assert_eq!(join_bytes(b"", b""), Vec::<u8>::new());
}

#[test]
fn encoded_tokens_spell_the_text() {
    let t = toy();
    for text in ["abc", " ab aaa", "cab abc", "a a a", "aabbcc"] {
        let tokens = t.encode(text.as_bytes(), false, false);
        let mut spelled: Vec<u8> = Vec::new();
        for token in tokens.iter() {
            spelled.extend_from_slice(&t.pieces[*token]);
        }
        assert_eq!(spelled, text.as_bytes().to_vec(), "{}", text);
    }
}

#[test]
fn a_token_decoded_and_encoded_again_is_the_same_token() {
    let t = toy();
    for text in ["abc", " ab aaa", "cab abc", "a a a", "aabbcc", "abc  ab"] {
        let tokens = t.encode(text.as_bytes(), true, false);
        for i in 1..tokens.len() {
            let prev = tokens[i - 1];
            let token = tokens[i];
            let shown = t.decode(prev, token);
            // The space right after the beginning displays as nothing.
            if shown.is_empty() {
                assert_eq!((prev, token), (BOS, SP));
                continue;
            }
            let again = t.encode(&shown, prev == BOS, false);
            let content: Vec<usize> = if prev == BOS { again[1..].to_vec() } else { again };
            assert_eq!(content, vec![token], "{} at {}", text, i);
        }
    }
}

/// A table of eight tokens, none of them a byte token.
fn eight() -> Tokenizer {
    let list: Vec<(&[u8], f32)> = vec![
        (b"<unk>", 0.0),
        (b"<s>", 0.0),
        (b"</s>", 0.0),
        (b" ", 0.0),
        (b"a", 0.0),
        (b"b", 0.0),
        (b" a", 1.0),
        (b"ab", 2.0),
    ];
    let pieces: Vec<Vec<u8>> = list.iter().map(|e| e.0.to_vec()).collect();
    let scores: Vec<u32> = list.iter().map(|e| e.1.to_bits()).collect();
    Tokenizer::from_parts(pieces, scores, 5, 3)
}

#[test]
fn a_table_of_eight_tokens_encodes_what_it_covers() {
    let t = eight();
    assert!(t.encodes(b"ab", true));
    // "ab" scores higher than " a" and is merged first.
    assert_eq!(t.encode(b"ab", true, false), vec![1, 3, 7]);
    assert_eq!(t.encode(b"ab", false, false), vec![7]);
    assert_eq!(t.encode(b"a", true, false), vec![1, 6]);
    assert_eq!(t.encode(b"ba b", false, true), vec![5, 4, 3, 5, 2]);
    assert_eq!(t.encode(b"", true, true), vec![1, 2]);
    assert_eq!(t.decode(1, 6), b"a".to_vec());
    assert_eq!(t.decode(3, 7), b"ab".to_vec());
}

#[test]
fn a_text_is_encodable_where_its_characters_can_be_written() {
    let t = eight();
    assert!(t.encodes(b"", true));
    assert!(t.encodes(b"", false));
    assert!(t.encodes(b" ab ba", false));
    // "c" has no token, and byte token 3 + 0x63 is beyond eight tokens.
    assert!(!t.encodes(b"c", false));
    assert!(!t.encodes(b"abc", true));
    assert_eq!(t.split(b"abc"), None);
    assert_eq!(t.split(b"ab"), Some(vec![4, 5]));
    // Bytes 0 to 4 fall back to the tokens 3 to 7.
    assert!(t.encodes(&[0x00, 0x04], false));
    assert_eq!(t.encode(&[0x00, 0x04], false, false), vec![3, 7]);
    assert!(!t.encodes(&[0x05], false));
    // With every byte token at hand every text is encodable.
    let full = toy();
    assert!(full.encodes(b"c", true));
    assert!(full.encodes(&[0xFF, 0x00, 0x80], false));
    // Without a token for the space no sequence that gets one is encodable.
    let list: Vec<Vec<u8>> = vec![b"x".to_vec(), b"a".to_vec()];
    let bare = Tokenizer::from_parts(list, vec![0, 0], 1, 2);
    assert!(bare.encodes(b"a", false));
    assert!(!bare.encodes(b"a", true));
    assert!(bare.encodes(b"", true));
}

#[test]
fn padding_of_a_text() {
    assert_eq!(pad(b"ab", true), b" ab".to_vec());
    assert_eq!(pad(b" ab", true), b" ab".to_vec());
    assert_eq!(pad(b"ab", false), b"ab".to_vec());
    assert_eq!(pad(b"", true), Vec::<u8>::new());
}

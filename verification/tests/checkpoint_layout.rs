use llama_rust::bytes::{read_i32, read_u32};
use llama_rust::cache::KvCache;
use llama_rust::config::{Config, Layout, Tensor, HEADER_LEN};
use llama_rust::error::LoadError;

fn header(fields: [i32; 7]) -> Vec<u8> {
    let mut out = Vec::new();
    for f in fields.iter() {
        out.extend_from_slice(&f.to_le_bytes());
    }
    out
}

fn tiny() -> Config {
    Config {
        dim: 8,
        hidden_dim: 16,
        n_layers: 1,
        n_heads: 2,
        n_kv_heads: 1,
        vocab_size: 32,
        seq_len: 4,
        shared_classifier: true,
    }
}

#[test]
fn little_endian_integers() {
    let data = [0x78u8, 0x56, 0x34, 0x12, 0xff, 0xff, 0xff, 0xff, 0x00, 0x00, 0x00, 0x80];
    assert_eq!(read_u32(&data, 0), 0x12345678);
    assert_eq!(read_i32(&data, 0), 0x12345678);
    assert_eq!(read_u32(&data, 4), 0xffff_ffff);
    assert_eq!(read_i32(&data, 4), -1);
    assert_eq!(read_i32(&data, 8), i32::MIN);
    assert_eq!(read_u32(&data, 1), 0xff123456);
}

#[test]
fn header_is_read_field_by_field() {
    let data = header([8, 16, 1, 2, 1, 32, 4]);
    assert_eq!(Config::parse(&data), Ok(tiny()));
}

#[test]
fn negative_vocabulary_means_own_classifier() {
    let data = header([8, 16, 1, 2, 1, -32, 4]);
    let config = Config::parse(&data).unwrap();
    assert_eq!(config.vocab_size, 32);
    assert!(!config.shared_classifier);
}

#[test]
fn short_header_is_truncated() {
    let data = header([8, 16, 1, 2, 1, 32, 4]);
    assert_eq!(Config::parse(&data[..27]), Err(LoadError::Truncated));
    assert_eq!(Config::parse(&[]), Err(LoadError::Truncated));
}

#[test]
fn bytes_after_the_header_are_not_read() {
    let mut data = header([8, 16, 1, 2, 1, 32, 4]);
    data.extend_from_slice(&[0xAA; 16]);
    assert_eq!(Config::parse(&data), Ok(tiny()));
}

#[test]
fn dimensions_that_do_not_fit_are_invalid() {
    assert_eq!(Config::parse(&header([0, 16, 1, 2, 1, 32, 4])), Err(LoadError::InvalidConfig));
    assert_eq!(Config::parse(&header([8, -16, 1, 2, 1, 32, 4])), Err(LoadError::InvalidConfig));
    assert_eq!(Config::parse(&header([8, 16, 0, 2, 1, 32, 4])), Err(LoadError::InvalidConfig));
    assert_eq!(Config::parse(&header([8, 16, 1, 0, 1, 32, 4])), Err(LoadError::InvalidConfig));
    assert_eq!(Config::parse(&header([8, 16, 1, 2, 0, 32, 4])), Err(LoadError::InvalidConfig));
    assert_eq!(Config::parse(&header([8, 16, 1, 2, 1, 0, 4])), Err(LoadError::InvalidConfig));
    assert_eq!(Config::parse(&header([8, 16, 1, 2, 1, 32, 0])), Err(LoadError::InvalidConfig));
    assert_eq!(
        Config::parse(&header([8, 16, 1, 2, 1, i32::MIN, 4])),
        Err(LoadError::InvalidConfig)
    );
    // The embedding dimension is no multiple of the number of heads.
    assert_eq!(Config::parse(&header([8, 16, 1, 3, 1, 32, 4])), Err(LoadError::InvalidConfig));
    // The number of heads is no multiple of the number of key/value heads.
    assert_eq!(Config::parse(&header([8, 16, 1, 4, 3, 32, 4])), Err(LoadError::InvalidConfig));
}

#[test]
fn head_sizes() {
    let config = tiny();
    assert_eq!(config.head_size(), 4);
    assert_eq!(config.kv_size(), 4);
    assert_eq!(config.kv_head(0), 0);
    assert_eq!(config.kv_head(1), 0);
    let grouped = Config { n_heads: 8, n_kv_heads: 2, dim: 64, ..tiny() };
    assert_eq!(grouped.head_size(), 8);
    assert_eq!(grouped.kv_size(), 16);
    assert_eq!(grouped.kv_head(3), 0);
    assert_eq!(grouped.kv_head(4), 1);
    assert_eq!(grouped.kv_head(7), 1);
}

#[test]
fn tensor_lengths() {
    let config = tiny();
    let expected: [u128; 13] = [256, 8, 64, 32, 32, 64, 8, 128, 128, 128, 8, 16, 0];
    for (rank, len) in expected.iter().enumerate() {
        assert_eq!(config.len_of(rank, true), *len, "rank {}", rank);
    }
    assert_eq!(config.len_of(11, false), 0);
    assert_eq!(config.total_len(true), 872);
    assert_eq!(config.total_len(false), 856);
    let own = Config { shared_classifier: false, ..tiny() };
    assert_eq!(own.len_of(12, true), 256);
    assert_eq!(own.total_len(true), 1128);
}

#[test]
fn layout_of_a_checkpoint_with_tables() {
    let config = tiny();
    let layout: Layout = config.layout(28 + 4 * 872).unwrap();
    assert!(layout.with_tables);
    assert_eq!(
        layout.offsets,
        vec![0, 256, 264, 328, 360, 392, 456, 464, 592, 720, 848, 856, 872, 872]
    );
    assert_eq!(layout.offset(Tensor::TokenEmbedding), 0);
    assert_eq!(layout.offset(Tensor::Query), 264);
    assert_eq!(layout.end(Tensor::Query), 328);
    assert_eq!(layout.offset(Tensor::Gate), 464);
    assert_eq!(layout.offset(Tensor::Up), 592);
    assert_eq!(layout.offset(Tensor::Down), 720);
    assert_eq!(layout.offset(Tensor::RotaryTables), 856);
    assert_eq!(layout.offset(Tensor::Classifier), 872);
    assert_eq!(layout.total(), 872);
}

#[test]
fn layout_of_a_checkpoint_without_tables() {
    let own = Config { shared_classifier: false, ..tiny() };
    let layout = own.layout(28 + 4 * (856 + 256)).unwrap();
    assert!(!layout.with_tables);
    assert_eq!(layout.offset(Tensor::RotaryTables), 856);
    assert_eq!(layout.offset(Tensor::Classifier), 856);
    assert_eq!(layout.end(Tensor::Classifier), 1112);
    assert_eq!(layout.total(), 1112);
}

#[test]
fn any_other_length_is_a_mismatch() {
    let config = tiny();
    for len in [0usize, 28, 3451, 3453, 3515, 3517, 4540] {
        assert_eq!(
            config.layout(len),
            Err(LoadError::SizeMismatch { expected: 3516, actual: len })
        );
    }
    assert!(config.layout(3452).is_ok());
    assert!(config.layout(3516).is_ok());
}

#[test]
fn tensor_ranks_follow_the_file_order() {
    let order = [
        Tensor::TokenEmbedding,
        Tensor::AttentionNorm,
        Tensor::Query,
        Tensor::Key,
        Tensor::Value,
        Tensor::Output,
        Tensor::FfnNorm,
        Tensor::Gate,
        Tensor::Up,
        Tensor::Down,
        Tensor::FinalNorm,
        Tensor::RotaryTables,
        Tensor::Classifier,
    ];
    for (rank, t) in order.iter().enumerate() {
        assert_eq!(t.index(), rank);
    }
    assert_eq!(HEADER_LEN, 28);
}

#[test]
fn cache_slots() {
    let config = Config { n_layers: 3, ..tiny() };
    let cache = KvCache::new(&config).unwrap();
    assert_eq!(cache.len(), 3 * 4 * 4);
    assert_eq!(cache.slot(0, 0), 0);
    assert_eq!(cache.slot(0, 3), 12);
    assert_eq!(cache.slot(1, 0), 16);
    assert_eq!(cache.slot(2, 3), 44);
    assert_eq!(cache.filled, 0);
}

#[test]
fn cache_positions_are_written_in_order() {
    let mut cache = KvCache::new(&tiny()).unwrap();
    for pos in 0..4 {
        assert!(cache.accepts(pos));
        assert!(!cache.accepts(pos + 1));
        if pos > 0 {
            assert!(!cache.accepts(pos - 1));
        }
        cache.advance(pos);
        assert_eq!(cache.filled, pos + 1);
        assert!(!cache.accepts(pos));
    }
    // The cache is full: no position is accepted any more.
    for pos in 0..6 {
        assert!(!cache.accepts(pos));
    }
}

#[test]
fn cache_too_large_to_address() {
    let huge = Config {
        dim: 0x7fff_ffff,
        hidden_dim: 1,
        n_layers: 0x7fff_ffff,
        n_heads: 1,
        n_kv_heads: 1,
        vocab_size: 1,
        seq_len: 0x7fff_ffff,
        shared_classifier: true,
    };
    assert_eq!(KvCache::new(&huge), None);
}

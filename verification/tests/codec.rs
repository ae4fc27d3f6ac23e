use backend_showdown_2026::codec::{
    decode_blocks, decode_vectors, decode_words, encode_blocks, encode_vectors, encode_words,
    interleave, Block,
};
use backend_showdown_2026::Vector;

fn sample_vectors(n: usize) -> Vec<Vector> {
    (0..n)
        .map(|i| {
            let mut v = [0u16; 14];
            for (d, x) in v.iter_mut().enumerate() {
                *x = ((i * 1000 + d * 37) % 65536) as u16;
            }
            v
        })
        .collect()
}

#[test]
fn decode_vectors_reads_little_endian_u16s() {
    let mut bytes = vec![0u8; 28];
    bytes[0] = 0x34;
    bytes[1] = 0x12;
    bytes[26] = 0xff;
    bytes[27] = 0xff;
    let vs = decode_vectors(&bytes);
    assert_eq!(vs.len(), 1);
    assert_eq!(vs[0][0], 0x1234);
    assert_eq!(vs[0][13], 0xffff);
    assert_eq!(vs[0][5], 0);
}

#[test]
fn decode_vectors_ignores_a_trailing_partial_vector() {
    let bytes = vec![1u8; 28 * 2 + 27];
    let vs = decode_vectors(&bytes);
    assert_eq!(vs.len(), 2);
    assert_eq!(vs[1][3], 0x0101);
    assert!(decode_vectors(&[]).is_empty());
}

#[test]
fn encode_vectors_writes_each_feature_little_endian() {
    let mut v = [0u16; 14];
    v[0] = 0xabcd;
    v[13] = 0x0102;
    let bytes = encode_vectors(&[v]);
    assert_eq!(bytes.len(), 28);
    assert_eq!(bytes[0], 0xcd);
    assert_eq!(bytes[1], 0xab);
    assert_eq!(bytes[26], 0x02);
    assert_eq!(bytes[27], 0x01);
}

#[test]
fn vectors_round_trip() {
    let vs = sample_vectors(9);
    assert_eq!(decode_vectors(&encode_vectors(&vs)), vs);
}

#[test]
fn words_round_trip() {
    let ws = vec![0u64, 1, u64::MAX, 0x0123_4567_89ab_cdef];
    let bytes = encode_words(&ws);
    assert_eq!(bytes.len(), 32);
    assert_eq!(&bytes[24..32], &[0xef, 0xcd, 0xab, 0x89, 0x67, 0x45, 0x23, 0x01]);
    assert_eq!(decode_words(&bytes), ws);
}

#[test]
fn decode_words_ignores_a_trailing_partial_word() {
    let mut bytes = vec![0u8; 13];
    bytes[0] = 2;
    assert_eq!(decode_words(&bytes), vec![2]);
}

#[test]
fn interleave_puts_vector_features_side_by_side() {
    let vs = sample_vectors(17);
    let blocks = interleave(&vs);
    assert_eq!(blocks.len(), 2);
    for i in 0..17 {
        for d in 0..14 {
            assert_eq!(blocks[i / 16][d][i % 16], vs[i][d]);
        }
    }
    for l in 1..16 {
        for d in 0..14 {
            assert_eq!(blocks[1][d][l], 0);
        }
    }
    assert!(interleave(&[]).is_empty());
}

#[test]
fn blocks_round_trip() {
    let blocks: Vec<Block> = interleave(&sample_vectors(20));
    let bytes = encode_blocks(&blocks);
    assert_eq!(bytes.len(), 2 * 448);
    assert_eq!(decode_blocks(&bytes), blocks);
}

#[test]
fn block_bytes_are_laid_out_feature_by_feature() {
    let mut block: Block = [[0u16; 16]; 14];
    block[1][2] = 0x0a0b;
    let bytes = encode_blocks(&[block]);
    assert_eq!(bytes[32 + 4], 0x0b);
    assert_eq!(bytes[32 + 5], 0x0a);
    let back = decode_blocks(&bytes[..447]);
    assert!(back.is_empty());
}

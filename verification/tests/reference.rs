use backend_showdown_2026::codec::{encode_blocks, encode_vectors, encode_words, interleave, Block};
use backend_showdown_2026::distance::distances_16;
use backend_showdown_2026::labels::pack_labels;
use backend_showdown_2026::random_simd::{BLOCK_CHOICES_O, BLOCK_SAMPLE};
use backend_showdown_2026::{RandomSIMD, Reference, ReferenceSIMD, Vector};

fn vector(first: u16, rest: u16) -> Vector {
    let mut v = [rest; 14];
    v[0] = first;
    v
}

fn reference_vectors() -> Vec<Vector> {
    vec![
        vector(10_000, 10_000),
        vector(10_500, 10_000),
        vector(9_000, 10_000),
        vector(12_000, 10_000),
        vector(10_100, 10_000),
        vector(20_000, 20_000),
        vector(10_200, 10_000),
    ]
}

#[test]
fn squared_euclidean_distance_sums_squared_differences() {
    let a = [0u16; 14];
    let mut b = [0u16; 14];
    b[0] = 3;
    b[1] = 4;
    assert_eq!(Reference::squared_euclidean_distance(&a, &b), 25);
    assert_eq!(Reference::squared_euclidean_distance(&b, &a), 25);
    let far = [20_000u16; 14];
    assert_eq!(Reference::squared_euclidean_distance(&a, &far), 14 * 400_000_000);
    assert_eq!(Reference::squared_euclidean_distance(&far, &far), 0);
}

#[test]
fn distances_16_wraps_at_32_bits() {
    let t = [65_535u16; 14];
    let mut block: Block = [[0u16; 16]; 14];
    for d in 0..14 {
        block[d][1] = 65_535;
        block[d][2] = 65_534;
    }
    let out = distances_16(&t, &block);
    assert_eq!(out[0], ((14u64 * 65_535 * 65_535) % (1u64 << 32)) as u32);
    assert_eq!(out[0], 4_293_132_302);
    assert_eq!(out[1], 0);
    assert_eq!(out[2], 14);
}

#[test]
fn reference_new_decodes_vectors_and_labels() {
    let vs = reference_vectors();
    let labels = pack_labels(&[true, false, false, true, true, false, false]);
    let r = Reference::new(&encode_vectors(&vs), &encode_words(&labels));
    assert_eq!(r.vectors, vs);
    assert_eq!(r.labels, labels);
}

#[test]
fn reference_finds_the_five_nearest_and_counts_frauds() {
    let vs = reference_vectors();
    let labels = pack_labels(&[true, false, false, true, true, false, false]);
    let r = Reference { vectors: vs, labels };
    let t = vector(10_000, 10_000);
    assert!(r.accepts_query(&t));
    let best = r.nearest(&t);
    assert_eq!(best, [(0, 0), (10_000, 4), (40_000, 6), (250_000, 1), (1_000_000, 2)]);
    assert_eq!(r.fraud_count(&t), 2);
}

#[test]
fn reference_with_few_vectors_keeps_unfilled_slots() {
    let r = Reference { vectors: vec![vector(1, 1), vector(3, 1)], labels: vec![0b1] };
    let best = r.nearest(&vector(0, 1));
    assert_eq!(best, [(1, 0), (9, 1), (u64::MAX, 0), (u64::MAX, 0), (u64::MAX, 0)]);
    assert_eq!(r.fraud_count(&vector(0, 1)), 4);
}

#[test]
fn accepts_query_rejects_differences_whose_square_overflows_i32() {
    let r = Reference { vectors: vec![[0u16; 14]], labels: vec![0] };
    assert!(r.accepts_query(&vector(46_340, 0)));
    assert!(!r.accepts_query(&vector(46_341, 0)));
}

#[test]
fn blocked_reference_agrees_with_vector_reference() {
    let vs = reference_vectors();
    let labels = pack_labels(&[true, false, false, true, true, false, false]);
    let scalar = Reference { vectors: vs.clone(), labels: labels.clone() };
    let blocked = ReferenceSIMD::new(&encode_blocks(&interleave(&vs)), &encode_words(&labels), vs.len());
    assert_eq!(blocked.len, 7);
    assert_eq!(blocked.blocks.len(), 1);
    for t in [vector(10_000, 10_000), vector(9_000, 9_000), vector(15_000, 12_000)] {
        assert_eq!(blocked.nearest(&t), scalar.nearest(&t));
        assert_eq!(blocked.fraud_count(&t), scalar.fraud_count(&t));
    }
}

#[test]
fn blocked_reference_keeps_distances_to_32_bits() {
    let vs = reference_vectors();
    let scalar = Reference { vectors: vs.clone(), labels: vec![0] };
    let blocked = ReferenceSIMD { blocks: interleave(&vs), labels: vec![0], len: vs.len() };
    let t = vector(0, 0);
    assert_eq!(scalar.nearest(&t)[0], (1_381_000_000, 2));
    assert_eq!(blocked.nearest(&t)[0], (5_600_000_000 - (1u64 << 32), 5));
}

#[test]
fn blocked_reference_searches_only_the_first_len_vectors() {
    let mut vs = reference_vectors();
    vs.push(vector(10_000, 10_000));
    let blocks = interleave(&vs);
    let blocked = ReferenceSIMD { blocks, labels: vec![0], len: 7 };
    let best = blocked.nearest(&vector(10_000, 10_000));
    assert_eq!(best[0], (0, 0));
    assert_eq!(best[1], (10_000, 4));
}

#[test]
fn blocked_reference_searches_every_lane_when_len_exceeds_the_blocks() {
    let vs = reference_vectors();
    let blocked = ReferenceSIMD { blocks: interleave(&vs), labels: vec![0], len: 100 };
    let best = blocked.nearest(&vector(0, 0));
    assert_eq!(best[0], (0, 7));
}

#[test]
fn fast_bound_scales_into_range() {
    assert_eq!(RandomSIMD::fast_bound(u64::MAX, 10), 9);
    assert_eq!(RandomSIMD::fast_bound(0, 10), 0);
    assert_eq!(RandomSIMD::fast_bound(1u64 << 63, 10), 5);
    assert_eq!(RandomSIMD::fast_bound(12345, 0), 0);
}

#[test]
fn sample_start_block_hashes_the_query() {
    assert_eq!(RandomSIMD::sample_start_block(&[0u16; 14]), 183_568);
    assert_eq!(RandomSIMD::sample_start_block(&vector(7702, 10_000)), 26);
    let s = RandomSIMD::sample_start_block(&[65_535u16; 14]);
    assert!(s < BLOCK_CHOICES_O);
}

#[test]
fn random_reference_searches_the_sampled_window() {
    let t = vector(7702, 10_000);
    let start = RandomSIMD::sample_start_block(&t);
    assert_eq!(start, 26);
    let nb = start + BLOCK_SAMPLE as usize;
    let mut blocks: Vec<Block> = vec![[[0u16; 16]; 14]; nb];
    // An exact match just before the window is never seen.
    for d in 0..14 {
        blocks[start - 1][d][0] = t[d];
        blocks[start + 5][d][3] = t[d];
        blocks[start + 100][d][0] = t[d];
    }
    blocks[start + 100][0][0] = 7703;
    let first = 16 * (start + 5) + 3;
    let second = 16 * (start + 100);
    let total = 16 * nb;
    let mut flags = vec![false; total];
    flags[first] = true;
    flags[16 * (start - 1)] = true;
    let labels = pack_labels(&flags);
    let r = RandomSIMD { blocks, labels };
    let best = r.nearest(&t);
    assert_eq!(best[0], (0, first));
    assert_eq!(best[1], (1, second));
    let zero_distance = 1_359_320_804u64;
    assert_eq!(best[2], (zero_distance, 16 * start));
    assert_eq!(best[3], (zero_distance, 16 * start + 1));
    assert_eq!(best[4], (zero_distance, 16 * start + 2));
    assert_eq!(r.fraud_count(&t), 1);
}

#[test]
fn random_reference_new_decodes_blocks_and_labels() {
    let vs = reference_vectors();
    let blocks = interleave(&vs);
    let r = RandomSIMD::new(&encode_blocks(&blocks), &encode_words(&[7, 9]));
    assert_eq!(r.blocks, blocks);
    assert_eq!(r.labels, vec![7, 9]);
}

#[test]
fn checked_counts_agree_with_unchecked_ones() {
    let vs = reference_vectors();
    let labels = pack_labels(&[true, false, false, true, true, false, false]);
    let r = Reference { vectors: vs.clone(), labels: labels.clone() };
    let t = vector(10_000, 10_000);
    assert_eq!(r.fraud_count_checked(&t), Some(r.fraud_count(&t)));
    let blocked = ReferenceSIMD { blocks: interleave(&vs), labels, len: vs.len() };
    assert_eq!(blocked.fraud_count_checked(&t), Some(2));
}

#[test]
fn checked_counts_refuse_what_the_unchecked_ones_cannot_do() {
    let r = Reference { vectors: vec![[0u16; 14]], labels: vec![0] };
    assert_eq!(r.fraud_count_checked(&vector(46_341, 0)), None);
    let unlabelled = Reference { vectors: vec![[0u16; 14]], labels: vec![] };
    assert_eq!(unlabelled.fraud_count_checked(&vector(1, 0)), None);
    let vs = reference_vectors();
    let past_len = ReferenceSIMD { blocks: interleave(&vs).repeat(3), labels: vec![0], len: 7 };
    assert_eq!(past_len.fraud_count_checked(&vector(1, 0)), None);
    let small = RandomSIMD { blocks: interleave(&vs), labels: vec![0] };
    assert_eq!(small.fraud_count_checked(&vector(7702, 10_000)), None);
}

#[test]
fn random_checked_count_matches_the_window_search() {
    let t = vector(7702, 10_000);
    let nb = 26 + BLOCK_SAMPLE as usize;
    let mut blocks: Vec<Block> = vec![[[0u16; 16]; 14]; nb];
    for d in 0..14 {
        blocks[30][d][1] = t[d];
    }
    let mut flags = vec![false; 16 * nb];
    flags[16 * 30 + 1] = true;
    let r = RandomSIMD { blocks, labels: pack_labels(&flags) };
    assert_eq!(r.fraud_count_checked(&t), Some(1));
    let short = RandomSIMD { blocks: r.blocks.clone(), labels: vec![0] };
    assert_eq!(short.fraud_count_checked(&t), None);
}

#[test]
fn padding_lanes_do_not_change_the_search() {
    let vs = reference_vectors();
    let plain = ReferenceSIMD { blocks: interleave(&vs), labels: vec![0b1001], len: 7 };
    let mut noisy_blocks = interleave(&vs);
    for d in 0..14 {
        for l in 7..16 {
            noisy_blocks[0][d][l] = 10_000;
        }
    }
    let noisy = ReferenceSIMD { blocks: noisy_blocks, labels: vec![0b1001], len: 7 };
    for t in [vector(10_000, 10_000), vector(0, 0), vector(20_000, 20_000)] {
        assert_eq!(noisy.nearest(&t), plain.nearest(&t));
        assert_eq!(noisy.fraud_count(&t), plain.fraud_count(&t));
    }
}

#[test]
fn prepared_blocks_read_back_with_zero_padding() {
    let vs = reference_vectors();
    let flags = [true, false, false, true, true, false, false];
    let r = ReferenceSIMD::new(
        &encode_blocks(&interleave(&vs)),
        &encode_words(&pack_labels(&flags)),
        vs.len(),
    );
    assert_eq!(r.blocks.len(), 1);
    for k in 0..7 {
        for d in 0..14 {
            assert_eq!(r.blocks[k / 16][d][k % 16], vs[k][d]);
        }
        assert_eq!((r.labels[k >> 6] >> (k & 63)) & 1 == 1, flags[k]);
    }
    for l in 7..16 {
        for d in 0..14 {
            assert_eq!(r.blocks[0][d][l], 0);
        }
        assert_eq!((r.labels[0] >> l) & 1, 0);
    }
}

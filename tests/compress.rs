use preprocessor::compress::compress;

/// Reads a token stream back, copying back-references byte by byte.
fn decode(c: &[u8]) -> Vec<u8> {
    let mut out: Vec<u8> = Vec::new();
    let mut k = 0;
    while k < c.len() {
        if c[k] != 0xFF {
            out.push(c[k]);
            k += 1;
        } else if c[k + 1] == 0 {
            out.push(0xFF);
            k += 2;
        } else {
            let len = (c[k + 1] & 63) as usize;
            let offset = (((c[k + 1] as usize) >> 6) << 8) | c[k + 2] as usize;
            for _ in 0..len {
                let b = out[out.len() - offset - 1];
                out.push(b);
            }
            k += 3;
        }
    }
    out
}

fn pseudo_random(n: usize, seed: u32) -> Vec<u8> {
    let mut x = seed;
    (0..n)
        .map(|_| {
            x = x.wrapping_mul(1103515245).wrapping_add(12345);
            (x >> 16) as u8
        })
        .collect()
}

#[test]
fn empty_input_compresses_to_nothing() {
    assert_eq!(compress(vec![]), Vec::<u8>::new());
}

#[test]
fn flag_byte_is_escaped() {
    assert_eq!(compress(vec![0xFF]), vec![0xFF, 0x00]);
}

#[test]
fn single_literal() {
    assert_eq!(compress(vec![0x41]), vec![0x41]);
}

#[test]
fn short_repeat_stays_literal() {
    assert_eq!(compress(vec![7, 7, 7]), vec![7, 7, 7]);
}

#[test]
fn run_becomes_back_reference() {
    assert_eq!(compress(vec![7, 7, 7, 7, 7]), vec![7, 0xFF, 4, 0]);
    assert_eq!(compress(vec![0; 10]), vec![0, 0xFF, 9, 0]);
}

#[test]
fn repeated_pattern_overlaps_itself() {
    assert_eq!(
        compress(vec![1, 2, 3, 1, 2, 3, 1, 2, 3]),
        vec![1, 2, 3, 0xFF, 6, 2]
    );
}

#[test]
fn flag_bytes_count_double_in_cost() {
    assert_eq!(compress(vec![0xFF, 0xFF, 0xFF]), vec![0xFF, 0x00, 0xFF, 2, 0]);
}

#[test]
fn ties_go_to_the_earliest_match() {
    let src = vec![1, 2, 3, 4, 9, 1, 2, 3, 4, 8, 1, 2, 3, 4, 7];
    assert_eq!(
        compress(src),
        vec![1, 2, 3, 4, 9, 0xFF, 4, 4, 8, 0xFF, 4, 9, 7]
    );
}

#[test]
fn long_match_is_capped_and_far_offset_uses_high_bits() {
    let mut src = vec![1, 2, 3, 4];
    src.extend(std::iter::repeat(0u8).take(300));
    src.extend([1, 2, 3, 4]);
    assert_eq!(
        compress(src),
        vec![
            1, 2, 3, 4, 0, 0xFF, 63, 0, 0xFF, 63, 63, 0xFF, 63, 126, 0xFF, 63, 189, 0xFF, 47,
            252, 0xFF, 68, 47
        ]
    );
}

#[test]
fn round_trip_all_zero() {
    let src = vec![0u8; 4096];
    let c = compress(src.clone());
    assert!(c.len() < 300);
    assert_eq!(decode(&c), src);
}

#[test]
fn round_trip_all_flag() {
    let src = vec![0xFFu8; 4096];
    assert_eq!(decode(&compress(src.clone())), src);
}

#[test]
fn round_trip_random() {
    for (n, seed) in [(0, 1), (1, 2), (17, 3), (1000, 4), (4096, 5)] {
        let src = pseudo_random(n, seed);
        let c = compress(src.clone());
        assert!(c.len() <= 2 * n);
        assert_eq!(decode(&c), src);
    }
}

#[test]
fn round_trip_small_alphabet() {
    let src: Vec<u8> = pseudo_random(4096, 9).iter().map(|b| [0xFF, 0, 1][(*b % 3) as usize]).collect();
    assert_eq!(decode(&compress(src.clone())), src);
}

#[test]
fn round_trip_beyond_window() {
    let mut src = pseudo_random(1500, 11);
    let head = src[..100].to_vec();
    src.extend(head);
    src.extend(pseudo_random(600, 12));
    assert_eq!(decode(&compress(src.clone())), src);
}

use witchbooru::score::total_order_key;
use witchbooru::select::top_k;

fn bits(values: &[f32]) -> Vec<u32> {
    values.iter().map(|v| v.to_bits()).collect()
}

fn sigmoid(x: f32) -> f32 {
    1.0 / (1.0 + f32::exp(-x))
}

#[test]
fn selects_the_highest_scores_highest_first() {
    let scores = bits(&[0.1, 0.9, 0.4, 0.7, 0.3]);
    assert_eq!(top_k(&scores, false, 3), vec![1, 3, 2]);
}

#[test]
fn returns_every_candidate_where_there_are_fewer_than_k() {
    let scores = bits(&[0.1, 0.9, 0.4]);
    assert_eq!(top_k(&scores, false, 10), vec![1, 2, 0]);
    assert_eq!(top_k(&scores, false, 3), vec![1, 2, 0]);
}

#[test]
fn selects_nothing_for_k_zero() {
    let scores = bits(&[0.1, 0.9, 0.4]);
    assert_eq!(top_k(&scores, false, 0), Vec::<usize>::new());
    assert_eq!(top_k(&scores, true, 0), Vec::<usize>::new());
}

#[test]
fn selects_nothing_from_nothing() {
    assert_eq!(top_k(&Vec::new(), false, 4), Vec::<usize>::new());
}

#[test]
fn selects_the_single_highest_for_k_one() {
    let scores = bits(&[0.1, 0.9, 0.4, 0.95, 0.3]);
    assert_eq!(top_k(&scores, false, 1), vec![3]);
}

#[test]
fn threshold_leaves_out_what_is_not_above_one_half() {
    let scores = bits(&[0.9, 0.4, 0.6, 0.5, 0.50000006, f32::NAN, -1.0, f32::INFINITY]);
    assert_eq!(top_k(&scores, true, 10), vec![7, 0, 2, 4]);
    assert_eq!(top_k(&scores, true, 2), vec![7, 0]);
}

#[test]
fn without_a_threshold_every_position_is_a_candidate() {
    let scores = bits(&[0.9, -0.4, 0.6, -3.0]);
    assert_eq!(top_k(&scores, false, 4), vec![0, 2, 1, 3]);
}

#[test]
fn equal_scores_keep_their_order() {
    let scores = bits(&[0.7, 0.9, 0.7, 0.9, 0.7]);
    assert_eq!(top_k(&scores, false, 5), vec![1, 3, 0, 2, 4]);
    assert_eq!(top_k(&scores, false, 3), vec![1, 3, 0]);
}

#[test]
fn zeros_and_what_is_no_number_have_their_place() {
    let scores = vec![
        0.0f32.to_bits(),
        (-0.0f32).to_bits(),
        0x7FC0_0000,
        0xFFC0_0000,
        f32::INFINITY.to_bits(),
        f32::NEG_INFINITY.to_bits(),
    ];
    assert_eq!(top_k(&scores, false, 6), vec![2, 4, 0, 1, 5, 3]);
}

#[test]
fn selection_is_the_same_each_time() {
    let scores = bits(&[0.3, 0.8, 0.8, 0.1, 0.55, 0.8, 0.2]);
    let first = top_k(&scores, true, 3);
    let second = top_k(&scores, true, 3);
    assert_eq!(first, second);
    assert_eq!(first, vec![1, 2, 5]);
}

#[test]
fn selected_scores_descend_and_stay_within_k() {
    let scores = bits(&[0.51, 0.2, 0.99, 0.75, 0.6, 0.5, 0.8, 0.7]);
    for k in 0..10 {
        let picked = top_k(&scores, true, k);
        assert_eq!(picked.len(), k.min(6));
        for pair in picked.windows(2) {
            assert!(total_order_key(scores[pair[0]]) >= total_order_key(scores[pair[1]]));
        }
        for at in &picked {
            assert!(f32::from_bits(scores[*at]) > 0.5);
        }
    }
}

#[test]
fn ranking_by_logit_is_ranking_by_logistic_value() {
    let logits = [-2.5f32, 0.0, 3.0, -0.75, 1.25, 0.5, -4.0, 2.0];
    let transformed: Vec<f32> = logits.iter().map(|l| sigmoid(*l)).collect();
    for k in 0..10 {
        assert_eq!(top_k(&bits(&logits), false, k), top_k(&bits(&transformed), false, k));
    }
}

#[test]
fn no_candidate_that_was_left_out_ranks_above_one_that_was_taken() {
    let scores = bits(&[0.6, 0.95, 0.7, 0.65, 0.9, 0.8]);
    let picked = top_k(&scores, true, 3);
    assert_eq!(picked, vec![1, 4, 5]);
    let lowest = total_order_key(scores[*picked.last().unwrap()]);
    for at in 0..scores.len() {
        if !picked.contains(&at) {
            assert!(total_order_key(scores[at]) <= lowest);
        }
    }
}

/// A sequence of numbers that looks irregular and is the same each time.
fn irregular(seed: &mut u64) -> u32 {
    *seed = seed.wrapping_mul(6364136223846793005).wrapping_add(1442695040888963407);
    (*seed >> 32) as u32
}

#[test]
fn selection_is_what_sorting_and_taking_the_first_gives() {
    let mut seed = 2021;
    for round in 0..200 {
        let len = (irregular(&mut seed) % 40) as usize;
        let scores: Vec<u32> = (0..len)
            .map(|_| {
                let bits = irregular(&mut seed);
                // a few values only in some rounds, so that scores repeat
                if round % 2 == 0 { (bits % 7) << 28 } else { bits }
            })
            .collect();
        for thresholded in [false, true] {
            let mut ranked: Vec<usize> = (0..len)
                .filter(|at| !thresholded || f32::from_bits(scores[*at]) > 0.5)
                .collect();
            ranked.sort_by(|a, b| {
                f32::from_bits(scores[*b]).total_cmp(&f32::from_bits(scores[*a])).then(a.cmp(b))
            });
            for k in [0, 1, 2, 5, len, len + 3] {
                let expected: Vec<usize> = ranked.iter().copied().take(k).collect();
                assert_eq!(top_k(&scores, thresholded, k), expected);
            }
        }
    }
}

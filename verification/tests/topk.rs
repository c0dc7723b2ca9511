use witchbooru::topk::{IteratorExt, TopK};

fn drain(mut top: TopK<i32>) -> Vec<i32> {
    let mut out = Vec::new();
    while let Some(item) = top.next() {
        out.push(item);
    }
    out
}

#[test]
fn works() {
    let x = vec![5, 2, 9, 6, 4];
    assert!(x.clone().topk(0).next().is_none());
    assert_eq!(x.clone().topk(3).collect(), &[9, 6, 5]);
    assert_eq!(x.clone().topk(10).collect(), &[9, 6, 5, 4, 2]);
}

#[test]
fn stops_after_k_items() {
    let mut top = vec![3, 1, 2].topk(2);
    assert_eq!(top.size_hint(), (2, Some(2)));
    assert_eq!(top.next(), Some(3));
    assert_eq!(top.size_hint(), (1, Some(1)));
    assert_eq!(top.next(), Some(2));
    assert_eq!(top.size_hint(), (0, Some(0)));
    assert_eq!(top.next(), None);
    assert_eq!(top.next(), None);
}

#[test]
fn runs_out_of_items_before_k() {
    let mut top = vec![7].topk(3);
    assert_eq!(top.size_hint(), (1, Some(1)));
    assert_eq!(top.next(), Some(7));
    assert_eq!(top.size_hint(), (0, Some(0)));
    assert_eq!(top.next(), None);
    assert_eq!(top.next(), None);
    assert_eq!(top.next(), None);
}

#[test]
fn hands_out_equal_items_as_often_as_they_occur() {
    assert_eq!(drain(vec![4, 9, 4, 9, 1, 4].topk(5)), &[9, 9, 4, 4, 4]);
}

#[test]
fn hands_out_nothing_of_an_empty_collection() {
    assert_eq!(drain(Vec::new().topk(4)), Vec::<i32>::new());
}

#[test]
fn orders_pairs_by_their_first_item_then_by_their_second() {
    let mut top = vec![(1, 5), (2, 0), (1, 7), (2, 1)].topk(3);
    assert_eq!(top.next(), Some((2, 1)));
    assert_eq!(top.next(), Some((2, 0)));
    assert_eq!(top.next(), Some((1, 7)));
    assert_eq!(top.next(), None);
}

#[test]
fn collecting_gives_what_asking_one_by_one_gives() {
    let items = vec![12, -3, 7, 7, 0, 44, 5];
    for k in 0..9 {
        assert_eq!(items.clone().topk(k).collect(), drain(items.clone().topk(k)));
    }
    assert_eq!(items.clone().topk(4).collect(), &[44, 12, 7, 7]);
}

#[test]
fn collecting_takes_up_after_what_was_handed_out() {
    let mut top = vec![1, 2, 3, 4, 5].topk(4);
    assert_eq!(top.next(), Some(5));
    assert_eq!(top.collect(), &[4, 3, 2]);
}

#[test]
fn hands_out_what_sorting_gives() {
    let mut seed: u64 = 7;
    for _ in 0..100 {
        let mut items = Vec::new();
        seed = seed.wrapping_mul(6364136223846793005).wrapping_add(1442695040888963407);
        let len = (seed >> 60) as usize;
        for _ in 0..len {
            seed = seed.wrapping_mul(6364136223846793005).wrapping_add(1442695040888963407);
            items.push((seed >> 59) as i32 - 16);
        }
        let mut sorted = items.clone();
        sorted.sort();
        sorted.reverse();
        for k in 0..len + 2 {
            let expected: Vec<i32> = sorted.iter().copied().take(k).collect();
            assert_eq!(items.clone().topk(k).collect(), expected);
        }
    }
}

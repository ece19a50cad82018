use puppies::topk::{select_top_k, Candidate, TopK};

fn key(score: f64) -> u64 {
    // Scores in these tests are non-negative, whose bit patterns order as they do.
    score.to_bits()
}

#[test]
fn topk() {
    const K: usize = 3;

    let items = [
        (1, 0.5),
        (2, 1.5),
        (3, 0.3),
        (4, 3.5),
        (5, 2.5),
    ];
    let candidates: Vec<Candidate> =
        items.iter().map(|&(item, score)| Candidate { item, score: key(score) }).collect();

    let top_k = select_top_k(&candidates, K);

    assert_eq!(top_k.len(), 3);

    assert_eq!(top_k[0].item, 4);
    assert_eq!(f64::from_bits(top_k[0].score), 3.5);

    assert_eq!(top_k[1].item, 5);
    assert_eq!(f64::from_bits(top_k[1].score), 2.5);

    assert_eq!(top_k[2].item, 2);
    assert_eq!(f64::from_bits(top_k[2].score), 1.5);
}

#[test]
fn topk_keeps_all_when_fewer_than_k() {
    let candidates = vec![
        Candidate { item: 7, score: 2 },
        Candidate { item: 8, score: 9 },
    ];
    let top = select_top_k(&candidates, 5);
    assert_eq!(top, vec![Candidate { item: 8, score: 9 }, Candidate { item: 7, score: 2 }]);
}

#[test]
fn topk_equal_score_does_not_replace() {
    let candidates = vec![
        Candidate { item: 1, score: 5 },
        Candidate { item: 2, score: 3 },
        Candidate { item: 3, score: 3 },
    ];
    let top = select_top_k(&candidates, 2);
    assert_eq!(top, vec![Candidate { item: 1, score: 5 }, Candidate { item: 2, score: 3 }]);
}

#[test]
fn topk_empty_input_with_zero_k() {
    let top = select_top_k(&Vec::new(), 0);
    assert!(top.is_empty());
}

#[test]
fn topk_offer_replaces_lowest() {
    let mut sel = TopK::new(2);
    sel.offer(Candidate { item: 1, score: 4 });
    sel.offer(Candidate { item: 2, score: 6 });
    sel.offer(Candidate { item: 3, score: 5 });
    sel.offer(Candidate { item: 4, score: 1 });
    assert_eq!(
        sel.into_sorted_vec(),
        vec![Candidate { item: 2, score: 6 }, Candidate { item: 3, score: 5 }]
    );
}

#[test]
fn topk_result_is_the_k_highest() {
    let scores = [13u64, 2, 99, 42, 42, 7, 0, 64, 5, 42];
    let candidates: Vec<Candidate> = scores
        .iter()
        .enumerate()
        .map(|(i, &s)| Candidate { item: i as u32, score: s })
        .collect();
    let top = select_top_k(&candidates, 4);
    let got: Vec<u64> = top.iter().map(|c| c.score).collect();
    assert_eq!(got, vec![99, 64, 42, 42]);
}

#[test]
fn topk_keeps_the_earliest_of_equal_scores() {
    let candidates = vec![
        Candidate { item: 1, score: 5 },
        Candidate { item: 2, score: 5 },
        Candidate { item: 3, score: 6 },
        Candidate { item: 4, score: 5 },
    ];
    let top = select_top_k(&candidates, 2);
    assert_eq!(top, vec![Candidate { item: 3, score: 6 }, Candidate { item: 1, score: 5 }]);
    let top = select_top_k(&candidates, 3);
    assert_eq!(
        top,
        vec![Candidate { item: 3, score: 6 }, Candidate { item: 1, score: 5 }, Candidate { item: 2, score: 5 }]
    );
}

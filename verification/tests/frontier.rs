use graph_ds::frontier::{Frontier, Scored};

fn entry(score: u128, id: usize) -> Scored {
    Scored { score, id }
}

#[test]
fn an_empty_frontier_hands_out_nothing() {
    let mut f = Frontier::new();
    assert!(f.is_empty());
    assert_eq!(f.len(), 0);
    assert_eq!(f.pop(), None);
    assert!(f.is_empty());
}

#[test]
fn the_lowest_score_comes_first() {
    let mut f = Frontier::new();
    for (i, s) in [7u128, 3, 9, 1, 8, 3, 0, 12, 5, 5, 2].into_iter().enumerate() {
        f.push(entry(s, i));
    }
    assert_eq!(f.len(), 11);
    let mut scores = vec![];
    let mut ids = vec![];
    while let Some(e) = f.pop() {
        scores.push(e.score);
        ids.push(e.id);
    }
    assert_eq!(scores, vec![0, 1, 2, 3, 3, 5, 5, 7, 8, 9, 12]);
    ids.sort();
    assert_eq!(ids, (0..11).collect::<Vec<_>>());
    assert!(f.is_empty());
}

#[test]
fn entries_may_come_and_go_in_turn() {
    let mut f = Frontier::new();
    f.push(entry(5, 1));
    f.push(entry(2, 2));
    assert_eq!(f.pop(), Some(entry(2, 2)));
    f.push(entry(1, 3));
    f.push(entry(9, 4));
    f.push(entry(u128::MAX, 5));
    assert_eq!(f.pop(), Some(entry(1, 3)));
    assert_eq!(f.pop(), Some(entry(5, 1)));
    assert_eq!(f.len(), 2);
    assert_eq!(f.pop(), Some(entry(9, 4)));
    assert_eq!(f.pop(), Some(entry(u128::MAX, 5)));
    assert_eq!(f.pop(), None);
}

#[test]
fn many_entries_come_out_in_order() {
    let mut f = Frontier::new();
    let mut x: u64 = 12345;
    let mut all = vec![];
    for i in 0..5000usize {
        x = x.wrapping_mul(6364136223846793005).wrapping_add(1442695040888963407);
        let score = (x >> 40) as u128;
        all.push(score);
        f.push(entry(score, i));
    }
    all.sort();
    let mut out = vec![];
    while let Some(e) = f.pop() {
        out.push(e.score);
    }
    assert_eq!(out, all);
}

use miso::freq_map::FreqMap;

#[test]
fn freq_map_basic_ordering() {
    let ids = [1, 2, 1, 3, 2, 1];
    let fm = FreqMap::from_token_ids(&ids);

    assert_eq!(fm.map_token(1), Some(0));
    assert_eq!(fm.map_token(2), Some(1));
    assert_eq!(fm.map_token(3), Some(2));

    assert_eq!(fm.unmap_token(0), Some(1));
    assert_eq!(fm.unmap_token(1), Some(2));
    assert_eq!(fm.unmap_token(2), Some(3));

    assert_eq!(fm.unmap_token(3), None);

    assert_eq!(fm.ordered_tokens(), &[1, 2, 3]);
}

#[test]
fn freq_map_tie_break_on_token_id() {
    let ids = [10, 20, 5];
    let fm = FreqMap::from_token_ids(&ids);

    assert_eq!(fm.map_token(5), Some(0));
    assert_eq!(fm.map_token(10), Some(1));
    assert_eq!(fm.map_token(20), Some(2));
    assert_eq!(fm.ordered_tokens(), &[5, 10, 20]);
}

#[test]
fn freq_map_of_nothing() {
    let fm = FreqMap::from_token_ids(&[]);
    assert!(fm.ordered_tokens().is_empty());
    assert_eq!(fm.map_token(0), None);
    assert_eq!(fm.unmap_token(0), None);
    assert_eq!(fm.unmap_token(-1), None);
}

#[test]
fn freq_map_unknown_token_and_bad_ranks() {
    let fm = FreqMap::from_token_ids(&[4, 4, 8]);
    assert_eq!(fm.map_token(5), None);
    assert_eq!(fm.unmap_token(-1), None);
    assert_eq!(fm.unmap_token(i32::MIN), None);
    assert_eq!(fm.unmap_token(2), None);
    assert_eq!(fm.unmap_token(i32::MAX), None);
}

#[test]
fn freq_map_count_beats_token_order() {
    let fm = FreqMap::from_token_ids(&[1, 9, 9, 5, 5, 5, 1, 9, 5]);
    assert_eq!(fm.ordered_tokens(), &[5, 9, 1]);
    let fm = FreqMap::from_token_ids(&[3, 2, 3, 2, 1]);
    assert_eq!(fm.ordered_tokens(), &[2, 3, 1]);
}

#[test]
fn freq_map_negative_and_extreme_tokens() {
    let fm = FreqMap::from_token_ids(&[i32::MAX, -1, i32::MIN, 0]);
    assert_eq!(fm.ordered_tokens(), &[i32::MIN, -1, 0, i32::MAX]);
    assert_eq!(fm.map_token(i32::MIN), Some(0));
    assert_eq!(fm.map_token(i32::MAX), Some(3));
}

#[test]
fn freq_map_does_not_depend_on_input_order() {
    let a = FreqMap::from_token_ids(&[7, 7, 3, 3, 9, 1, 1, 1]);
    let b = FreqMap::from_token_ids(&[1, 9, 3, 7, 1, 3, 7, 1]);
    assert_eq!(a.ordered_tokens(), b.ordered_tokens());
    assert_eq!(a.ordered_tokens(), &[1, 3, 7, 9]);
}

#[test]
fn freq_map_ranks_and_tokens_invert_each_other() {
    let ids: Vec<i32> = (0..500).map(|i| (i * 37) % 91 - 40).collect();
    let fm = FreqMap::from_token_ids(&ids);
    let tokens = fm.ordered_tokens();
    for (rank, &token) in tokens.iter().enumerate() {
        assert_eq!(fm.map_token(token), Some(rank as i32));
        assert_eq!(fm.unmap_token(rank as i32), Some(token));
    }
    for &id in &ids {
        let rank = fm.map_token(id).unwrap();
        assert_eq!(fm.unmap_token(rank), Some(id));
    }
    assert_eq!(fm.unmap_token(tokens.len() as i32), None);
}

#[test]
fn freq_map_clone_keeps_the_ranks() {
    let fm = FreqMap::from_token_ids(&[2, 2, 1]);
    let copy = fm.clone();
    assert_eq!(copy.ordered_tokens(), &[2, 1]);
    assert_eq!(copy.map_token(1), Some(1));
}

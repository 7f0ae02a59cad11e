use xa_promote::message::MessageSpace;

fn space(n: usize) -> MessageSpace<usize> {
    MessageSpace::from((0..n).map(|i| 100 + i).collect::<Vec<usize>>())
}

#[test]
fn seq_size_is_power() {
    assert_eq!(space(3).seq_size(2), 9);
    assert_eq!(space(3).seq_size(0), 1);
    assert_eq!(space(16).seq_size(15), 1u64 << 60);
    assert_eq!(space(0).seq_size(3), 0);
}

#[test]
fn seq_by_index_reads_base_digits() {
    let s = space(3);
    // 5 = 1 * 3 + 2: digits least significant first are [2, 1].
    let (msgs, code) = s.seq_by_index(5, 2);
    assert_eq!(msgs, vec![&101, &102]);
    assert_eq!(code, "21");
    assert_eq!(s.index_to_string(5, 2), "21");
}

#[test]
fn seq_by_index_pads_with_zero_digits() {
    let s = space(4);
    let (msgs, code) = s.seq_by_index(7, 3);
    // 7 = 1 * 4 + 3: digits [3, 1, 0].
    assert_eq!(msgs, vec![&100, &101, &103]);
    assert_eq!(code, "310");
}

#[test]
fn seq_by_index_uses_lower_case_hex() {
    let s = space(16);
    let (msgs, code) = s.seq_by_index(0xab, 2);
    assert_eq!(msgs, vec![&110, &111]);
    assert_eq!(code, "ba");
    assert_eq!(s.index_to_string(0xf0, 2), "0f");
}

#[test]
fn seq_by_index_with_no_rounds() {
    let s = space(2);
    let (msgs, code) = s.seq_by_index(3, 0);
    assert!(msgs.is_empty());
    assert_eq!(code, "");
}

#[test]
fn enumeration_visits_every_sequence_once() {
    let s = space(3);
    let n = s.seq_size(3);
    let mut seen: Vec<Vec<usize>> = Vec::new();
    for i in 0..n {
        let (msgs, _) = s.seq_by_index(i, 3);
        let ids: Vec<usize> = msgs.into_iter().map(|m| *m - 100).collect();
        assert!(!seen.contains(&ids));
        seen.push(ids);
    }
    assert_eq!(seen.len(), 27);
}

#[test]
fn messages_and_len() {
    let s = space(5);
    assert_eq!(s.len(), 5);
    assert_eq!(s.messages()[4], 104);
}

#[test]
fn sequence_code_only_depends_on_the_index_modulo_the_number_of_sequences() {
    let s = space(2);
    assert_eq!(s.index_to_string(5, 2), s.index_to_string(1, 2));
    assert_eq!(s.index_to_string(4 * 7 + 3, 2), s.index_to_string(3, 2));
}

#[test]
fn no_rounds_accept_a_large_space() {
    let s = space(20);
    assert_eq!(s.index_to_string(123, 0), "");
    let (msgs, code) = s.seq_by_index(0, 0);
    assert!(msgs.is_empty());
    assert_eq!(code, "");
}

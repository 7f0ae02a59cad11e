use xa_promote::decision::{DecisionAny, DecisionOnce};

#[test]
fn decision_any_follows_each_update() {
    let mut d = DecisionAny::new();
    assert!(!d.decided());
    d.update(true);
    assert!(d.decided());
    d.update(false);
    assert!(!d.decided());
    d.update(true);
    assert!(d.decided());
}

#[test]
fn decision_once_fires_only_on_first_positive_update() {
    let mut d = DecisionOnce::new();
    let inner = [false, false, true, true, false, true];
    let fired: Vec<bool> = inner
        .iter()
        .map(|&b| {
            d.update(b);
            d.decided()
        })
        .collect();
    assert_eq!(fired, vec![false, false, true, false, false, false]);
}

#[test]
fn decision_once_never_fires_without_positive_update() {
    let mut d = DecisionOnce::new();
    for _ in 0..5 {
        d.update(false);
        assert!(!d.decided());
    }
}

use redusa::score::Score;

/// Scores are sorted in the following order:
///     score (DESC)
///     timestamp (ASC)
///     user_id (DESC)
#[test]
fn test_score_sort_order() {
    let mut high_score = Score::new(String::from("1"), 2);
    let mut low_score = Score::new(String::from("1"), 2);
    // high_score was registered before low_score.
    assert!(high_score > low_score);

    // high_score has a higher score than low_score.
    low_score = Score::new(String::from("1"), 1);
    high_score = Score::new(String::from("1"), 2);
    assert!(high_score > low_score);

    // high_score user_id has a higher ordering than low_score user_id.
    low_score = Score::with_timestamp(String::from("1"), 1, 1);
    high_score = Score::with_timestamp(String::from("2"), 1, 1);
    assert!(high_score > low_score);
}

/// A score object is equal to itself,
/// or to another score object with exactly the same parameters.
#[test]
fn test_score_equivalence() {
    let mut score = Score::new(String::from("1"), 2);

    // Self equivalence.
    assert!(score == score);

    score = Score::with_timestamp(String::from("1"), 1, 1);
    let other_score = Score::with_timestamp(String::from("1"), 1, 1);

    // Field equivalence.
    assert!(score == other_score);
}

#[test]
fn more_points_rank_above_earlier_registration() {
    let late = Score::with_timestamp(String::from("a"), 10, 99);
    let early = Score::with_timestamp(String::from("b"), 9, 1);
    assert!(late.outranks(&early));
    assert!(!early.outranks(&late));
    assert!(late > early);
    assert!(early < late);
}

#[test]
fn earlier_registration_wins_a_tie_on_points() {
    let first = Score::with_timestamp(String::from("a"), 5, 3);
    let second = Score::with_timestamp(String::from("z"), 5, 4);
    assert!(first.outranks(&second));
    assert!(!second.outranks(&first));
}

#[test]
fn greater_user_id_wins_a_full_tie() {
    let a = Score::with_timestamp(String::from("a"), 5, 3);
    let b = Score::with_timestamp(String::from("b"), 5, 3);
    assert!(b.outranks(&a));
    assert!(!a.outranks(&b));
    let short = Score::with_timestamp(String::from("ab"), 5, 3);
    let long = Score::with_timestamp(String::from("abc"), 5, 3);
    assert!(long.outranks(&short));
    assert!(!short.outranks(&long));
    let accented = Score::with_timestamp(String::from("\u{e9}"), 5, 3);
    let plain = Score::with_timestamp(String::from("z"), 5, 3);
    assert!(accented.outranks(&plain));
}

#[test]
fn identical_scores_do_not_outrank_each_other() {
    let a = Score::with_timestamp(String::from("a"), 5, 3);
    let b = Score::with_timestamp(String::from("a"), 5, 3);
    assert!(!a.outranks(&b));
    assert_eq!(a.partial_cmp(&b), Some(std::cmp::Ordering::Equal));
    let c = Score::with_timestamp(String::from("a"), 5, 4);
    assert!(a != c);
}

#[test]
fn new_score_keeps_user_and_points() {
    let s = Score::new(String::from("7"), 42);
    assert_eq!(s.user_id, "7");
    assert_eq!(s.score, 42);
    assert_eq!(s.points(), 42);
    assert_eq!(s.user(), "7");
    assert!(s.belongs_to(&String::from("7")));
    assert!(!s.belongs_to(&String::from("8")));
    let copy = s.clone();
    assert!(copy == s);
}

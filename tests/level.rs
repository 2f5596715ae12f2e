use redusa::level::{Level, LevelRepository};
use redusa::score::Score;
use redusa::table::HIGHSCORE_LIST_SIZE;

fn users(scores: &[Score]) -> Vec<String> {
    scores.iter().map(|s| s.user_id.clone()).collect()
}

#[test]
fn test_add_score_repository() {
    let mut repo = LevelRepository::new();
    assert!(repo.add_score(1, "1".to_string(), 1));
    assert!(repo.get_level_high_scores(1).unwrap().len() == 1);
}

#[test]
fn test_get_user_id() {
    let mut level = Level::new();
    level.add_score("1".to_string(), 2);
    level.add_score("2".to_string(), 3);
    assert_eq!(level.get_user_score("3".to_string()), None);
    assert!(level.get_user_score("1".to_string()).is_some());
    assert_eq!(level.get_user_score("2".to_string()).unwrap().score, 3);
}

#[test]
fn test_get_score() {
    let mut level = Level::new();
    level.add_score("1".to_string(), 2);
    level.add_score("2".to_string(), 3);
    assert_eq!(level.get_score(4), None);
    assert!(level.get_score(2).is_some());
    assert_eq!(level.get_score(2).unwrap().len(), 1);
    assert_eq!(level.get_score(2).unwrap().iter().last().unwrap().user_id, "1".to_string());
}

#[test]
fn test_size_limit() {
    let mut level = Level::new();
    for i in 0..HIGHSCORE_LIST_SIZE {
        level.add_score(i.to_string(), i as u64);
    }

    assert_eq!(level.len(), 15);
    level.add_score("200".to_string(), 200);
    assert_eq!(level.len(), 15);
}

#[test]
fn full_table_evicts_the_worst_entry() {
    let mut level = Level::new();
    for i in 0..15u64 {
        assert!(level.add_score(i.to_string(), i));
    }
    assert_eq!(level.len(), 15);
    assert!(level.add_score("200".to_string(), 200));
    assert_eq!(level.len(), 15);
    assert_eq!(level.get_user_score("0".to_string()), None);
    let top = level.get_high_scores();
    assert_eq!(top[0].user_id, "200");
    assert_eq!(top[14].user_id, "1");
}

#[test]
fn full_table_rejects_a_score_not_above_the_worst() {
    let mut level = Level::new();
    for i in 0..15u64 {
        assert!(level.submit(Score::with_timestamp(i.to_string(), i + 10, i + 1)));
    }
    let before = users(&level.get_high_scores());
    // Same points as the worst entry, registered later: ranks below it.
    assert!(!level.submit(Score::with_timestamp("new".to_string(), 10, 100)));
    assert!(!level.submit(Score::with_timestamp("low".to_string(), 3, 0)));
    assert_eq!(users(&level.get_high_scores()), before);
    assert_eq!(level.len(), 15);
    // Same points as the worst entry, registered earlier: ranks above it.
    assert!(level.submit(Score::with_timestamp("early".to_string(), 10, 0)));
    assert_eq!(level.get_user_score("0".to_string()), None);
    assert_eq!(level.len(), 15);
}

#[test]
fn new_user_is_admitted_while_there_is_room() {
    let mut level = Level::new();
    for i in 0..14u64 {
        assert!(level.add_score(i.to_string(), 100 - i));
    }
    assert!(level.add_score("last".to_string(), 0));
    assert_eq!(level.len(), 15);
    assert_eq!(level.get_high_scores()[14].user_id, "last");
}

#[test]
fn lower_or_equal_score_does_not_replace_a_better_one() {
    let mut level = Level::new();
    assert!(level.submit(Score::with_timestamp("1".to_string(), 5, 10)));
    assert!(!level.submit(Score::with_timestamp("1".to_string(), 3, 20)));
    assert!(!level.submit(Score::with_timestamp("1".to_string(), 5, 20)));
    let kept = level.get_user_score("1".to_string()).unwrap();
    assert!(*kept == Score::with_timestamp("1".to_string(), 5, 10));
    assert_eq!(level.len(), 1);
}

#[test]
fn better_score_replaces_the_users_entry() {
    let mut level = Level::new();
    assert!(level.add_score("1".to_string(), 5));
    assert!(level.add_score("2".to_string(), 6));
    assert!(level.add_score("1".to_string(), 7));
    assert_eq!(level.len(), 2);
    assert_eq!(level.get_user_score("1".to_string()).unwrap().score, 7);
    assert_eq!(users(&level.get_high_scores()), vec!["1".to_string(), "2".to_string()]);
    assert_eq!(level.get_score(5), None);
}

#[test]
fn high_scores_come_best_first() {
    let mut level = Level::new();
    level.submit(Score::with_timestamp("a".to_string(), 1, 1));
    level.submit(Score::with_timestamp("b".to_string(), 9, 2));
    level.submit(Score::with_timestamp("c".to_string(), 5, 3));
    level.submit(Score::with_timestamp("d".to_string(), 5, 1));
    level.submit(Score::with_timestamp("e".to_string(), 5, 1));
    assert_eq!(users(&level.get_high_scores()), vec!["b", "e", "d", "c", "a"]);
    let fives = level.get_score(5).unwrap();
    assert_eq!(users(&fives), vec!["e", "d", "c"]);
}

#[test]
fn snapshot_is_not_changed_by_later_submissions() {
    let mut level = Level::new();
    level.add_score("1".to_string(), 2);
    let snapshot = level.get_high_scores();
    level.add_score("2".to_string(), 3);
    level.add_score("1".to_string(), 9);
    assert_eq!(snapshot.len(), 1);
    assert_eq!(snapshot[0].user_id, "1");
    assert_eq!(snapshot[0].score, 2);
    assert_eq!(level.len(), 2);
}

#[test]
fn level_reset_empties_the_table() {
    let mut level = Level::new();
    level.add_score("1".to_string(), 2);
    level.reset();
    assert_eq!(level.len(), 0);
    assert!(level.get_high_scores().is_empty());
    assert!(level.add_score("1".to_string(), 1));
}

#[test]
fn untouched_level_has_no_table() {
    let repo = LevelRepository::new();
    assert!(repo.get_level_high_scores(1).is_none());
}

#[test]
fn first_submissions_to_a_level_share_one_table() {
    let mut repo = LevelRepository::new();
    assert!(repo.add_score(7, "a".to_string(), 1));
    assert!(repo.add_score(7, "b".to_string(), 2));
    let table = repo.get_level_high_scores(7).unwrap();
    assert_eq!(users(&table), vec!["b", "a"]);
    assert!(repo.get_level_high_scores(8).is_none());
}

#[test]
fn levels_are_independent() {
    let mut repo = LevelRepository::new();
    assert!(repo.submit(1, Score::with_timestamp("a".to_string(), 3, 1)));
    assert!(repo.submit(2, Score::with_timestamp("a".to_string(), 1, 2)));
    assert!(!repo.submit(1, Score::with_timestamp("a".to_string(), 2, 3)));
    assert_eq!(repo.get_level_high_scores(1).unwrap()[0].score, 3);
    assert_eq!(repo.get_level_high_scores(2).unwrap()[0].score, 1);
}

#[test]
fn repository_reset_drops_every_level() {
    let mut repo = LevelRepository::new();
    repo.add_score(1, "a".to_string(), 1);
    repo.add_score(2, "b".to_string(), 1);
    repo.reset();
    assert!(repo.get_level_high_scores(1).is_none());
    assert!(repo.get_level_high_scores(2).is_none());
}

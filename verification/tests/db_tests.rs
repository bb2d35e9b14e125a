use icfp2024::db::BestScores;
use icfp2024::db::Problems;
use icfp2024::db::Userboard;

#[test]
fn db_test() {
    let mut db = BestScores::new();
    db.update_score(1, 100);
    assert_eq!(db.score(1).unwrap(), 100);
    assert_eq!(db.score(10000), None);
}

#[test]
fn update_replaces_existing_score() {
    let mut db = BestScores::new();
    assert_eq!(db.update_score(7, 50), 1);
    assert_eq!(db.update_score(7, 75), 1);
    assert_eq!(db.score(7), Some(75));
    assert_eq!(db.score(8), None);
}

#[test]
fn board_lookup_and_total() {
    let board = Userboard {
        success: Problems { problems: vec![Some(10), None, Some(-3)] },
    };
    assert_eq!(board.best_score(1), Some(10));
    assert_eq!(board.best_score(2), None);
    assert_eq!(board.best_score(3), Some(-3));
    assert_eq!(board.total_score(), 7);
}

#[test]
fn empty_board_total_is_zero() {
    let board = Userboard { success: Problems { problems: vec![] } };
    assert_eq!(board.total_score(), 0);
}

use r6r6::pipeline::{grade_of, honor_roll, Grade, User};

fn user(id: i32, name: &str, score: i32) -> User {
    User { id, name: name.to_string(), score }
}

#[test]
fn honor_roll_keeps_high_scores_graded() {
    let users = vec![
        user(1, "Alice", 85),
        user(2, "Bob", 92),
        user(3, "Charlie", 78),
        user(4, "Diana", 96),
        user(5, "Eve", 88),
    ];
    let roll = honor_roll(users);
    let got: Vec<(String, char, i32)> =
        roll.iter().map(|s| (s.name.clone(), s.grade.letter(), s.score)).collect();
    assert_eq!(
        got,
        vec![
            ("Alice".to_string(), 'B', 85),
            ("Bob".to_string(), 'A', 92),
            ("Diana".to_string(), 'A', 96),
            ("Eve".to_string(), 'B', 88),
        ]
    );
}

#[test]
fn grade_boundaries() {
    assert_eq!(grade_of(84), None);
    assert_eq!(grade_of(85), Some(Grade::B));
    assert_eq!(grade_of(89), Some(Grade::B));
    assert_eq!(grade_of(90), Some(Grade::A));
    assert_eq!(grade_of(i32::MIN), None);
    assert!(honor_roll(vec![]).is_empty());
}

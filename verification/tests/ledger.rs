use rankforum::generate_unique_address;
use rankforum::ledger::apply_vote;
use rankforum::ledger::Ledger;
use rankforum::score::Score;
use rankforum::textual_integer::TextualInteger;

#[test]
fn test_upvote_on_post() {
    let mut db = Ledger::new();
    let user_address = generate_unique_address();
    let post_address = generate_unique_address();
    let field_address = generate_unique_address();
    db.upvote(&user_address, &post_address, TextualInteger::new("1"), &field_address)
        .unwrap();
    let score = db.select_score(&post_address, &field_address);
    assert_eq!(score.score, TextualInteger::new("1"));
}

#[test]
fn test_downvote_on_post() {
    let mut db = Ledger::new();
    let user_address = generate_unique_address();
    let post_address = generate_unique_address();
    let field_address = generate_unique_address();
    db.downvote(&user_address, &post_address, TextualInteger::new("-1"), &field_address)
        .unwrap();
    let score = db.select_score(&post_address, &field_address);
    assert_eq!(score.score, TextualInteger::new("-1"));
}

#[test]
fn test_upvote_on_comment() {
    let mut db = Ledger::new();
    let user_address = generate_unique_address();
    let comment_address = generate_unique_address();
    let field_address = generate_unique_address();
    db.upvote(&user_address, &comment_address, TextualInteger::new("1"), &field_address)
        .unwrap();
    let score = db.select_score(&comment_address, &field_address);
    assert_eq!(score.score, TextualInteger::new("1"));
}

#[test]
fn test_downvote_on_comment() {
    let mut db = Ledger::new();
    let user_address = generate_unique_address();
    let comment_address = generate_unique_address();
    let field_address = generate_unique_address();
    db.downvote(&user_address, &comment_address, TextualInteger::new("-1"), &field_address)
        .unwrap();
    let score = db.select_score(&comment_address, &field_address);
    assert_eq!(score.score, TextualInteger::new("-1"));
}

#[test]
fn test_score_down_cross_zero() {
    let mut db = Ledger::new();
    let user_address = generate_unique_address();
    let comment_address = generate_unique_address();
    let field_address = generate_unique_address();

    db.upvote(&user_address, &comment_address, TextualInteger::new("1"), &field_address)
        .unwrap();
    let score = db.select_score(&comment_address, &field_address);
    assert_eq!(score.score, TextualInteger::new("1"));

    db.downvote(&user_address, &comment_address, TextualInteger::new("-1"), &field_address)
        .unwrap();
    let score = db.select_score(&comment_address, &field_address);
    assert_eq!(score.score, TextualInteger::new("-1"));

    let result = db.downvote(&user_address, &comment_address, TextualInteger::new("-1"), &field_address);
    assert!(result.is_err());

    let score = db.select_score(&comment_address, &field_address);
    assert_eq!(score.score, TextualInteger::new("-1"));
}

#[test]
fn test_double_vote() {
    let mut db = Ledger::new();
    let user_address = generate_unique_address();
    let field_address = generate_unique_address();

    // post
    let post_address = generate_unique_address();
    db.upvote(&user_address, &post_address, TextualInteger::new("1"), &field_address)
        .unwrap();
    let score = db.select_score(&post_address, &field_address);
    assert_eq!(score.score, TextualInteger::new("1"));

    let result = db.upvote(&user_address, &post_address, TextualInteger::new("1"), &field_address);
    assert!(result.is_err());
    let score = db.select_score(&post_address, &field_address);
    assert_eq!(score.score, TextualInteger::new("1"));

    db.upvote(&user_address, &post_address, TextualInteger::new("-1"), &field_address)
        .unwrap();
    let score = db.select_score(&post_address, &field_address);
    assert_eq!(score.score, TextualInteger::new("-1"));

    // comment
    let comment_address = generate_unique_address();
    db.upvote(&user_address, &comment_address, TextualInteger::new("1"), &field_address)
        .unwrap();
    let score = db.select_score(&comment_address, &field_address);
    assert_eq!(score.score, TextualInteger::new("1"));

    let result = db.upvote(&user_address, &comment_address, TextualInteger::new("1"), &field_address);
    assert!(result.is_err());
    let score = db.select_score(&comment_address, &field_address);
    assert_eq!(score.score, TextualInteger::new("1"));

    db.upvote(&user_address, &comment_address, TextualInteger::new("-1"), &field_address)
        .unwrap();
    let score = db.select_score(&comment_address, &field_address);
    assert_eq!(score.score, TextualInteger::new("-1"));
}

#[test]
fn test_fresh_target_first_vote_counts() {
    // A fresh target: one upvote of weight 1 gives score 1, upvote 1, downvote 0.
    let mut db = Ledger::new();
    let voter = String::from("voter-a");
    let target = String::from("target-1");
    let field = String::from("field-1");
    db.vote(&voter, &target, TextualInteger::new("1"), &field).unwrap();
    let score = db.select_score(&target, &field);
    assert_eq!(score.score, TextualInteger::new("1"));
    assert_eq!(score.upvote, 1);
    assert_eq!(score.downvote, 0);
}

#[test]
fn test_flip_then_repeat() {
    // Continuing the first-vote scenario: a flip to -1 moves the counts and
    // the score; repeating -1 is rejected and changes nothing.
    let mut db = Ledger::new();
    let voter = String::from("voter-a");
    let target = String::from("target-1");
    let field = String::from("field-1");
    db.vote(&voter, &target, TextualInteger::new("1"), &field).unwrap();

    db.vote(&voter, &target, TextualInteger::new("-1"), &field).unwrap();
    let score = db.select_score(&target, &field);
    assert_eq!(score.score, TextualInteger::new("-1"));
    assert_eq!(score.upvote, 0);
    assert_eq!(score.downvote, 1);

    let result = db.vote(&voter, &target, TextualInteger::new("-1"), &field);
    assert_eq!(result, Err("Already voted".to_string()));
    let score = db.select_score(&target, &field);
    assert_eq!(score.score, TextualInteger::new("-1"));
    assert_eq!(score.upvote, 0);
    assert_eq!(score.downvote, 1);
}

#[test]
fn test_flip_with_different_weights() {
    // Flip correctness with unequal weights: cast +5, then flip to -3; the
    // score ends at -3, the upvote count returns to 0, downvote becomes 1.
    let mut db = Ledger::new();
    let voter = String::from("voter-b");
    let target = String::from("target-2");
    let field = String::from("field-1");
    db.vote(&voter, &target, TextualInteger::new("5"), &field).unwrap();
    let score = db.select_score(&target, &field);
    assert_eq!(score.score, TextualInteger::new("5"));
    assert_eq!(score.upvote, 1);

    db.vote(&voter, &target, TextualInteger::new("-3"), &field).unwrap();
    let score = db.select_score(&target, &field);
    assert_eq!(score.score, TextualInteger::new("-3"));
    assert_eq!(score.upvote, 0);
    assert_eq!(score.downvote, 1);
}

#[test]
fn test_two_voters_accumulate() {
    // Two distinct voters both count; the aggregate sums their weights.
    let mut db = Ledger::new();
    let target = String::from("target-3");
    let field = String::from("field-1");
    db.vote(&String::from("voter-c"), &target, TextualInteger::new("100"), &field)
        .unwrap();
    db.vote(&String::from("voter-d"), &target, TextualInteger::new("-1"), &field)
        .unwrap();
    let score = db.select_score(&target, &field);
    assert_eq!(score.score, TextualInteger::new("99"));
    assert_eq!(score.upvote, 1);
    assert_eq!(score.downvote, 1);
}

#[test]
fn test_select_score_defaults_to_zero() {
    // Reading a target nobody voted on returns a zero aggregate, not an error.
    let db = Ledger::new();
    let score = db.select_score("nobody", "nowhere");
    assert_eq!(score.score, TextualInteger::new("0"));
    assert_eq!(score.upvote, 0);
    assert_eq!(score.downvote, 0);
    assert_eq!(score.address, "nobody");
    assert_eq!(score.field_address, "nowhere");
}

#[test]
fn test_apply_vote_first_and_flip() {
    let start = Score {
        address: "t".to_string(),
        field_address: "f".to_string(),
        score: TextualInteger::new("0"),
        upvote: 0,
        downvote: 0,
    };
    let after_first = apply_vote(None, &start, &TextualInteger::new("7")).unwrap();
    assert_eq!(after_first.score, TextualInteger::new("7"));
    assert_eq!(after_first.upvote, 1);
    assert_eq!(after_first.downvote, 0);

    let prior = TextualInteger::new("7");
    let flipped = apply_vote(Some(&prior), &after_first, &TextualInteger::new("-2")).unwrap();
    assert_eq!(flipped.score, TextualInteger::new("-2"));
    assert_eq!(flipped.upvote, 0);
    assert_eq!(flipped.downvote, 1);

    let repeat = apply_vote(Some(&TextualInteger::new("-2")), &flipped, &TextualInteger::new("-5"));
    assert!(repeat.is_err());
    assert_eq!(repeat.err().unwrap(), "Already voted");
}

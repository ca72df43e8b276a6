use rankforum::field::Field;
use rankforum::generate_unique_address;
use rankforum::generate_unique_name;
use rankforum::ledger::Ledger;
use rankforum::post::Comment;
use rankforum::post::Post;
use rankforum::textual_integer::TextualInteger;
use rankforum::user::User;

fn new_post(field_address: &str) -> Post {
    Post::new(
        generate_unique_address(),
        field_address.to_string(),
        "test".to_string(),
        "test".to_string(),
    )
}

#[test]
fn test_comment_upvote() {
    let field = Field::new(generate_unique_name(), generate_unique_address());
    let post = new_post(&field.address);
    let mut ledger = Ledger::new();
    let mut comment = Comment::new(
        generate_unique_address(),
        post.address.clone(),
        "test".to_string(),
        field.address.clone(),
    );

    // first voter
    assert!(comment.upvote(&mut ledger, &generate_unique_address()).is_ok());
    assert_eq!(comment.score, TextualInteger::new("1"));

    // second voter
    let user = User::new(generate_unique_address(), generate_unique_name());
    assert_eq!(comment.upvote(&mut ledger, &user.address), Ok(()));
    assert_eq!(comment.score, TextualInteger::new("2"));
}

#[test]
fn test_comment_downvote() {
    let field = Field::new(generate_unique_name(), generate_unique_address());
    let post = new_post(&field.address);
    let mut ledger = Ledger::new();
    let mut comment = Comment::new(
        generate_unique_address(),
        post.address.clone(),
        "test".to_string(),
        field.address.clone(),
    );

    // first voter
    assert!(comment.downvote(&mut ledger, &generate_unique_address()).is_ok());
    assert_eq!(comment.score, TextualInteger::new("-1"));

    // second voter
    let user = User::new(generate_unique_address(), generate_unique_name());
    assert_eq!(comment.downvote(&mut ledger, &user.address), Ok(()));
    assert_eq!(comment.score, TextualInteger::new("-2"));
}

#[test]
fn test_post_upvote() {
    let field = Field::new(generate_unique_name(), generate_unique_address());
    let mut ledger = Ledger::new();
    let mut post = new_post(&field.address);

    assert!(post.upvote(&mut ledger, &generate_unique_address()).is_ok());
    assert_eq!(post.score, TextualInteger::new("1"));

    let user = User::new(generate_unique_address(), generate_unique_name());
    assert_eq!(post.upvote(&mut ledger, &user.address), Ok(()));
    assert_eq!(post.score, TextualInteger::new("2"));
}

#[test]
fn test_post_downvote() {
    let field = Field::new(generate_unique_name(), generate_unique_address());
    let mut ledger = Ledger::new();
    let mut post = new_post(&field.address);

    assert!(post.downvote(&mut ledger, &generate_unique_address()).is_ok());
    assert_eq!(post.score, TextualInteger::new("-1"));

    let user = User::new(generate_unique_address(), generate_unique_name());
    assert_eq!(post.downvote(&mut ledger, &user.address), Ok(()));
    assert_eq!(post.score, TextualInteger::new("-2"));
}

#[test]
fn test_same_voter_repeat_upvote_rejected() {
    // The same voter repeating an upvote is rejected: the ledger aggregate
    // and the post's local mirror both stay exactly where they were.
    let field = Field::new(generate_unique_name(), generate_unique_address());
    let mut ledger = Ledger::new();
    let mut post = new_post(&field.address);
    let voter = generate_unique_address();

    assert!(post.upvote(&mut ledger, &voter).is_ok());
    let result = post.upvote(&mut ledger, &voter);
    assert_eq!(result, Err("Already voted".to_string()));
    assert_eq!(post.score, TextualInteger::new("1"));
    assert_eq!(post.upvote, 1);
    assert_eq!(post.downvote, 0);
    let agg = ledger.select_score(&post.address, &field.address);
    assert_eq!(agg.score, TextualInteger::new("1"));
    assert_eq!(agg.upvote, 1);
    assert_eq!(agg.downvote, 0);
}

#[test]
fn test_voter_level_caps_weight() {
    // A voter far above the target's level is capped at ten times the
    // target's tier floor: a level-5 voter on a level-0 post adds 10.
    let field = Field::new(generate_unique_name(), generate_unique_address());
    let mut ledger = Ledger::new();
    let mut post = new_post(&field.address);
    let strong_voter = generate_unique_address();

    // Seed the voter's own reputation at level 5 (score 100^5) with one big
    // vote cast onto the voter's own address.
    let fan = generate_unique_address();
    ledger
        .vote(&fan, &strong_voter, TextualInteger::new("10000000000"), &field.address)
        .unwrap();

    assert!(post.upvote(&mut ledger, &strong_voter).is_ok());
    assert_eq!(post.score, TextualInteger::new("10"));
    let agg = ledger.select_score(&post.address, &field.address);
    assert_eq!(agg.score, TextualInteger::new("10"));
}

#[test]
fn test_user_rename() {
    let mut user = User::new(generate_unique_address(), "old-name".to_string());
    assert_eq!(user.rename("new-name".to_string()), Ok(()));
    assert_eq!(user.name, "new-name");
}

#[test]
fn test_field_new() {
    let field = Field::new("general".to_string(), "addr-1".to_string());
    assert_eq!(field.name, "general");
    assert_eq!(field.address, "addr-1");
}

#[test]
fn test_post_new_starts_at_zero() {
    let post = new_post("field-x");
    assert_eq!(post.score, TextualInteger::new("0"));
    assert_eq!(post.upvote, 0);
    assert_eq!(post.downvote, 0);
    assert_eq!(post.to, "field-x");
    assert!(post.comments.is_empty());
}

#[test]
fn test_post_comment_attaches() {
    let mut post = new_post("field-y");
    let author = generate_unique_address();
    post.comment(&"first!".to_string(), &author);
    assert_eq!(post.comments.len(), 1);
    assert_eq!(post.comments[0].from, author);
    assert_eq!(post.comments[0].to, post.address);
    assert_eq!(post.comments[0].content, "first!");
    assert_eq!(post.comments[0].field_address, "field-y");
}

#[test]
fn test_post_comment_on_comment_attaches() {
    let mut post = new_post("field-z");
    let author = generate_unique_address();
    post.comment(&"parent".to_string(), &author);
    let parent_address = post.comments[0].address.clone();
    let replier = generate_unique_address();
    post.comment_on_comment(&"reply".to_string(), &replier, &parent_address);
    assert_eq!(post.comments.len(), 2);
    assert_eq!(post.comments[1].from, replier);
    assert_eq!(post.comments[1].to, parent_address);
    assert_eq!(post.comments[1].content, "reply");
}

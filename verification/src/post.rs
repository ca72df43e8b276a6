//! Posts and comments: the vote targets. Their `upvote` and `downvote`
//! methods compute the vote's weight from the target's and the voter's
//! reputation levels and hand it to the vote ledger; the direction is
//! carried by the sign of the weight.
use crate::generate_unique_address;
use crate::ledger::vote_step;
use crate::ledger::Ledger;
use crate::score::calculate_vote_score;
use crate::score::level;
use crate::score::level_of_int;
use crate::score::vote_weight_spec;
use crate::score::zero_string;
use crate::decimal::is_digit;
use crate::decimal::lemma_canon_int_len;
use crate::decimal::pow10;
use crate::score::lemma_level_int;
use crate::textual_integer::TextualInteger;
use crate::Address;
use vstd::prelude::*;
use vstd::string::*;

verus! {

/// Relies on chrono::Utc::now: the current Unix timestamp in seconds. The
/// result depends on the clock, so nothing is stated about it.
#[verifier::external_body]
fn now_timestamp() -> i64 {
    chrono::Utc::now().timestamp()
}

/// The weight of one vote, from the target's and the voter's score values.
pub open spec fn vote_weight_of(target_score: int, voter_score: int) -> int {
    vote_weight_spec(level_of_int(target_score), level_of_int(voter_score))
}

/// A comment on a post or on another comment. The score and the vote counts
/// mirror the aggregate the ledger keeps for this comment's address.
#[derive(Debug)]
pub struct Comment {
    pub address: Address,
    pub from: Address,
    pub to: Address,
    pub score: TextualInteger,
    pub upvote: u64,
    pub downvote: u64,
    pub content: String,
    pub timestamp: i64,
    pub field_address: Address,
    pub comments: Vec<Comment>,
}

/// A post in a field. The score and the vote counts mirror the aggregate the
/// ledger keeps for this post's address.
#[derive(Debug)]
pub struct Post {
    pub address: Address,
    pub from: Address,
    pub to: Address,
    pub title: String,
    pub content: String,
    pub score: TextualInteger,
    pub upvote: u64,
    pub downvote: u64,
    pub timestamp: i64,
    pub comments: Vec<Comment>,
}

/// Computes the signed weight of a vote on a target with score string
/// `target_score` cast by `voter`, whose own score is read from the ledger.
fn weigh_vote(
    target_score: &TextualInteger,
    ledger: &Ledger,
    voter: &Address,
    field_address: &Address,
) -> (r: TextualInteger)
    requires
        target_score.wf(),
        -pow10(511) < target_score.as_int() < pow10(511),
        ledger.wf(),
        -pow10(511) < ledger.aggregate_at(voter@, field_address@).score < pow10(511),
    ensures
        r.wf(),
        r.as_int() == vote_weight_of(
            target_score.as_int(),
            ledger.aggregate_at(voter@, field_address@).score,
        ),
        r.as_int() > 0,
{
    let voter_score = ledger.select_score(voter.as_str(), field_address.as_str());
    proof {
        lemma_canon_int_len(voter_score.score@, 511);
        lemma_level_int(voter_score.score@);
        lemma_canon_int_len(target_score@, 511);
        lemma_level_int(target_score@);
    }
    let voter_str = voter_score.score.to_string();
    let target_str = target_score.to_string();
    let voter_level = level(voter_str.as_str());
    let target_level = level(target_str.as_str());
    let weight = calculate_vote_score(target_level, voter_level);
    proof {
        assert(is_digit(weight@[0]));
        assert(weight@[0] != '-');
    }
    TextualInteger::new(weight.as_str())
}

impl Comment {
    /// Builds a fresh comment with a new unique address, the current time,
    /// and a zero score.
    pub fn new(from: Address, to: Address, content: String, field_address: Address) -> (r: Comment)
        ensures
            r.from@ == from@,
            r.to@ == to@,
            r.content@ == content@,
            r.field_address@ == field_address@,
            r.score.wf(),
            r.score.as_int() == 0,
            r.upvote == 0,
            r.downvote == 0,
            r.comments@.len() == 0,
    {
        let zero = zero_string();
        Comment {
            from,
            to,
            score: TextualInteger::new(zero.as_str()),
            upvote: 0,
            downvote: 0,
            content,
            timestamp: now_timestamp(),
            address: generate_unique_address(),
            field_address,
            comments: Vec::new(),
        }
    }

    /// Casts an upvote by `upvoter` on this comment: the weight is the
    /// voter's worth against this comment's level, and the ledger applies
    /// the vote state machine. On success the local score mirror and upvote
    /// count follow the ledger; a rejected vote leaves the comment unchanged.
    pub fn upvote(&mut self, ledger: &mut Ledger, upvoter: &Address) -> (r: Result<(), String>)
        requires
            old(self).score.wf(),
            -pow10(511) < old(self).score.as_int() < pow10(511),
            old(ledger).wf(),
            old(ledger).vote_count() < 0xffffffffffffffff,
            -pow10(511) < old(ledger).aggregate_at(upvoter@, old(self).field_address@).score
                < pow10(511),
            match old(ledger).vote_state(upvoter@, old(self).address@) {
                Some(p) => p.field == old(self).field_address@,
                None => true,
            },
            old(self).upvote < 0xffffffffffffffff,
        ensures
            final(ledger).wf(),
            vote_step(
                *old(ledger),
                *final(ledger),
                upvoter@,
                old(self).address@,
                old(self).field_address@,
                vote_weight_of(
                    old(self).score.as_int(),
                    old(ledger).aggregate_at(upvoter@, old(self).field_address@).score,
                ),
                r is Ok,
            ),
            final(ledger).vote_count() <= old(ledger).vote_count() + 1,
            r is Ok ==> final(self).score.wf() && final(self).score.as_int() == old(
                self,
            ).score.as_int() + vote_weight_of(
                old(self).score.as_int(),
                old(ledger).aggregate_at(upvoter@, old(self).field_address@).score,
            ) && final(self).upvote == old(self).upvote + 1 && final(self).downvote == old(
                self,
            ).downvote && final(self).address == old(self).address && final(self).from == old(
                self,
            ).from && final(self).to == old(self).to && final(self).content == old(self).content
                && final(self).timestamp == old(self).timestamp && final(self).field_address == old(
                self,
            ).field_address && final(self).comments == old(self).comments,
            !(r is Ok) ==> *final(self) == *old(self),
            r matches Err(e) ==> e@ == "Already voted"@,
    {
        let vote_score = weigh_vote(&self.score, ledger, upvoter, &self.field_address);
        let result = ledger.vote(
            upvoter,
            &self.address,
            vote_score.clone(),
            self.field_address.as_str(),
        );
        if result.is_ok() {
            self.score = self.score.add(&vote_score);
            self.upvote = self.upvote + 1;
        }
        result
    }

    /// Casts a downvote by `downvoter` on this comment: the same weight as an
    /// upvote, negated before it reaches the ledger. On success the local
    /// score mirror and downvote count follow the ledger; a rejected vote
    /// leaves the comment unchanged.
    pub fn downvote(&mut self, ledger: &mut Ledger, downvoter: &Address) -> (r: Result<(), String>)
        requires
            old(self).score.wf(),
            -pow10(511) < old(self).score.as_int() < pow10(511),
            old(ledger).wf(),
            old(ledger).vote_count() < 0xffffffffffffffff,
            -pow10(511) < old(ledger).aggregate_at(downvoter@, old(self).field_address@).score
                < pow10(511),
            match old(ledger).vote_state(downvoter@, old(self).address@) {
                Some(p) => p.field == old(self).field_address@,
                None => true,
            },
            old(self).downvote < 0xffffffffffffffff,
        ensures
            final(ledger).wf(),
            vote_step(
                *old(ledger),
                *final(ledger),
                downvoter@,
                old(self).address@,
                old(self).field_address@,
                -vote_weight_of(
                    old(self).score.as_int(),
                    old(ledger).aggregate_at(downvoter@, old(self).field_address@).score,
                ),
                r is Ok,
            ),
            final(ledger).vote_count() <= old(ledger).vote_count() + 1,
            r is Ok ==> final(self).score.wf() && final(self).score.as_int() == old(
                self,
            ).score.as_int() - vote_weight_of(
                old(self).score.as_int(),
                old(ledger).aggregate_at(downvoter@, old(self).field_address@).score,
            ) && final(self).downvote == old(self).downvote + 1 && final(self).upvote == old(
                self,
            ).upvote && final(self).address == old(self).address && final(self).from == old(
                self,
            ).from && final(self).to == old(self).to && final(self).content == old(self).content
                && final(self).timestamp == old(self).timestamp && final(self).field_address == old(
                self,
            ).field_address && final(self).comments == old(self).comments,
            !(r is Ok) ==> *final(self) == *old(self),
            r matches Err(e) ==> e@ == "Already voted"@,
    {
        let vote_score = weigh_vote(&self.score, ledger, downvoter, &self.field_address);
        let zero = zero_string();
        let negative_vote_score = TextualInteger::new(zero.as_str()).sub(&vote_score);
        let result = ledger.vote(
            downvoter,
            &self.address,
            negative_vote_score,
            self.field_address.as_str(),
        );
        if result.is_ok() {
            self.score = self.score.sub(&vote_score);
            self.downvote = self.downvote + 1;
        }
        result
    }
}

impl Post {
    /// Builds a fresh post with a new unique address, the current time, and
    /// a zero score; `field_address` is the field it is posted to.
    pub fn new(from: Address, field_address: Address, title: String, content: String) -> (r: Post)
        ensures
            r.from@ == from@,
            r.to@ == field_address@,
            r.title@ == title@,
            r.content@ == content@,
            r.score.wf(),
            r.score.as_int() == 0,
            r.upvote == 0,
            r.downvote == 0,
            r.comments@.len() == 0,
    {
        let zero = zero_string();
        Post {
            address: generate_unique_address(),
            from,
            to: field_address,
            title,
            content,
            score: TextualInteger::new(zero.as_str()),
            upvote: 0,
            downvote: 0,
            timestamp: now_timestamp(),
            comments: Vec::new(),
        }
    }

    /// Casts an upvote by `upvoter` on this post; the field is the one the
    /// post was made to. On success the local score mirror and upvote count
    /// follow the ledger; a rejected vote leaves the post unchanged.
    pub fn upvote(&mut self, ledger: &mut Ledger, upvoter: &Address) -> (r: Result<(), String>)
        requires
            old(self).score.wf(),
            -pow10(511) < old(self).score.as_int() < pow10(511),
            old(ledger).wf(),
            old(ledger).vote_count() < 0xffffffffffffffff,
            -pow10(511) < old(ledger).aggregate_at(upvoter@, old(self).to@).score < pow10(511),
            match old(ledger).vote_state(upvoter@, old(self).address@) {
                Some(p) => p.field == old(self).to@,
                None => true,
            },
            old(self).upvote < 0xffffffffffffffff,
        ensures
            final(ledger).wf(),
            vote_step(
                *old(ledger),
                *final(ledger),
                upvoter@,
                old(self).address@,
                old(self).to@,
                vote_weight_of(
                    old(self).score.as_int(),
                    old(ledger).aggregate_at(upvoter@, old(self).to@).score,
                ),
                r is Ok,
            ),
            final(ledger).vote_count() <= old(ledger).vote_count() + 1,
            r is Ok ==> final(self).score.wf() && final(self).score.as_int() == old(
                self,
            ).score.as_int() + vote_weight_of(
                old(self).score.as_int(),
                old(ledger).aggregate_at(upvoter@, old(self).to@).score,
            ) && final(self).upvote == old(self).upvote + 1 && final(self).downvote == old(
                self,
            ).downvote && final(self).address == old(self).address && final(self).from == old(
                self,
            ).from && final(self).to == old(self).to && final(self).title == old(self).title
                && final(self).content == old(self).content && final(self).timestamp == old(
                self,
            ).timestamp && final(self).comments == old(self).comments,
            !(r is Ok) ==> *final(self) == *old(self),
            r matches Err(e) ==> e@ == "Already voted"@,
    {
        let vote_score = weigh_vote(&self.score, ledger, upvoter, &self.to);
        let result = ledger.vote(upvoter, &self.address, vote_score.clone(), self.to.as_str());
        if result.is_ok() {
            self.score = self.score.add(&vote_score);
            self.upvote = self.upvote + 1;
        }
        result
    }

    /// Attaches a new comment with the given text, written by `from`, directly
    /// to this post.
    pub fn comment(&mut self, comment: &String, from: &Address)
        ensures
            final(self).comments@.len() == old(self).comments@.len() + 1,
            final(self).comments@.last().from@ == from@,
            final(self).comments@.last().to@ == old(self).address@,
            final(self).comments@.last().content@ == comment@,
            final(self).comments@.last().field_address@ == old(self).to@,
            final(self).comments@.last().score.as_int() == 0,
            forall|i: int|
                0 <= i < old(self).comments@.len() ==> final(self).comments@[i] == old(
                    self,
                ).comments@[i],
            final(self).address == old(self).address,
            final(self).score == old(self).score,
    {
        let c = Comment::new(from.clone(), self.address.clone(), comment.clone(), self.to.clone());
        self.comments.push(c);
    }

    /// Attaches a new comment with the given text, written by `from`, as a
    /// reply to the comment at address `to` under this post.
    pub fn comment_on_comment(&mut self, comment: &String, from: &Address, to: &Address)
        ensures
            final(self).comments@.len() == old(self).comments@.len() + 1,
            final(self).comments@.last().from@ == from@,
            final(self).comments@.last().to@ == to@,
            final(self).comments@.last().content@ == comment@,
            final(self).comments@.last().field_address@ == old(self).to@,
            final(self).comments@.last().score.as_int() == 0,
            forall|i: int|
                0 <= i < old(self).comments@.len() ==> final(self).comments@[i] == old(
                    self,
                ).comments@[i],
            final(self).address == old(self).address,
            final(self).score == old(self).score,
    {
        let c = Comment::new(from.clone(), to.clone(), comment.clone(), self.to.clone());
        self.comments.push(c);
    }

    /// Casts a downvote by `downvoter` on this post: the upvote's weight,
    /// negated before it reaches the ledger. On success the local score
    /// mirror and downvote count follow the ledger; a rejected vote leaves
    /// the post unchanged.
    pub fn downvote(&mut self, ledger: &mut Ledger, downvoter: &Address) -> (r: Result<(), String>)
        requires
            old(self).score.wf(),
            -pow10(511) < old(self).score.as_int() < pow10(511),
            old(ledger).wf(),
            old(ledger).vote_count() < 0xffffffffffffffff,
            -pow10(511) < old(ledger).aggregate_at(downvoter@, old(self).to@).score < pow10(511),
            match old(ledger).vote_state(downvoter@, old(self).address@) {
                Some(p) => p.field == old(self).to@,
                None => true,
            },
            old(self).downvote < 0xffffffffffffffff,
        ensures
            final(ledger).wf(),
            vote_step(
                *old(ledger),
                *final(ledger),
                downvoter@,
                old(self).address@,
                old(self).to@,
                -vote_weight_of(
                    old(self).score.as_int(),
                    old(ledger).aggregate_at(downvoter@, old(self).to@).score,
                ),
                r is Ok,
            ),
            final(ledger).vote_count() <= old(ledger).vote_count() + 1,
            r is Ok ==> final(self).score.wf() && final(self).score.as_int() == old(
                self,
            ).score.as_int() - vote_weight_of(
                old(self).score.as_int(),
                old(ledger).aggregate_at(downvoter@, old(self).to@).score,
            ) && final(self).downvote == old(self).downvote + 1 && final(self).upvote == old(
                self,
            ).upvote && final(self).address == old(self).address && final(self).from == old(
                self,
            ).from && final(self).to == old(self).to && final(self).title == old(self).title
                && final(self).content == old(self).content && final(self).timestamp == old(
                self,
            ).timestamp && final(self).comments == old(self).comments,
            !(r is Ok) ==> *final(self) == *old(self),
            r matches Err(e) ==> e@ == "Already voted"@,
    {
        let vote_score = weigh_vote(&self.score, ledger, downvoter, &self.to);
        let zero = zero_string();
        let negative_vote_score = TextualInteger::new(zero.as_str()).sub(&vote_score);
        let result = ledger.vote(downvoter, &self.address, negative_vote_score, self.to.as_str());
        if result.is_ok() {
            self.score = self.score.sub(&vote_score);
            self.downvote = self.downvote + 1;
        }
        result
    }
}

} // verus!

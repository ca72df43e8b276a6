//! The vote ledger: one active vote per (voter, target) pair, with per-field
//! score aggregates kept consistent with the vote records.
//!
//! The ledger enforces the vote state machine: a first vote inserts a record
//! and bumps the matching counter, a same-direction repeat is rejected
//! unchanged, and an opposite-direction vote flips the record and moves one
//! count from the old direction to the new while adjusting the score by the
//! difference of the weights.
use crate::score::Score;
use crate::textual_integer::TextualInteger;
use crate::Address;
use vstd::prelude::*;
use vstd::string::*;

verus! {

/// One vote record: the active vote of one voter on one target, with the
/// field the vote was cast in.
#[derive(Debug)]
pub struct VoteRecord {
    pub from_address: Address,
    pub to_address: Address,
    pub field_address: Address,
    pub voted_score: TextualInteger,
}

impl Clone for VoteRecord {
    /// Clones preserve every field exactly.
    fn clone(&self) -> (r: Self)
        ensures
            r == *self,
    {
        VoteRecord {
            from_address: self.from_address.clone(),
            to_address: self.to_address.clone(),
            field_address: self.field_address.clone(),
            voted_score: self.voted_score.clone(),
        }
    }
}

/// The mathematical content of one aggregate row.
pub struct AggModel {
    pub score: int,
    pub upvote: nat,
    pub downvote: nat,
}

/// The mathematical content of one vote record.
pub struct VoteModel {
    pub field: Seq<char>,
    pub weight: int,
}

/// The key of an aggregate row: target address and field address.
pub open spec fn score_key(s: Score) -> (Seq<char>, Seq<char>) {
    (s.address@, s.field_address@)
}

/// The model of an aggregate row.
pub open spec fn agg_of(s: Score) -> AggModel {
    AggModel { score: s.score.as_int(), upvote: s.upvote as nat, downvote: s.downvote as nat }
}

/// The aggregate of a target nobody has voted on yet.
pub open spec fn zero_agg() -> AggModel {
    AggModel { score: 0, upvote: 0, downvote: 0 }
}

/// The key of a vote record: voter address and target address.
pub open spec fn vote_key(r: VoteRecord) -> (Seq<char>, Seq<char>) {
    (r.from_address@, r.to_address@)
}

/// The model of a vote record.
pub open spec fn vote_model(r: VoteRecord) -> VoteModel {
    VoteModel { field: r.field_address@, weight: r.voted_score.as_int() }
}

/// The aggregate stored for target `a` in field `f`, or the zero aggregate
/// if no row exists.
pub open spec fn agg_at(s: Seq<Score>, a: Seq<char>, f: Seq<char>) -> AggModel
    decreases s.len(),
{
    if s.len() == 0 {
        zero_agg()
    } else if score_key(s.last()) == (a, f) {
        agg_of(s.last())
    } else {
        agg_at(s.drop_last(), a, f)
    }
}

/// The active vote of voter `from` on target `to`, if any.
pub open spec fn vote_at(v: Seq<VoteRecord>, from: Seq<char>, to: Seq<char>) -> Option<VoteModel>
    decreases v.len(),
{
    if v.len() == 0 {
        None
    } else if vote_key(v.last()) == (from, to) {
        Some(vote_model(v.last()))
    } else {
        vote_at(v.drop_last(), from, to)
    }
}

/// The record is a vote on target `a` in field `f`.
pub open spec fn vote_on(r: VoteRecord, a: Seq<char>, f: Seq<char>) -> bool {
    r.to_address@ == a && r.field_address@ == f
}

/// This record's contribution to the up or down count of `(a, f)`.
pub open spec fn count_contrib(r: VoteRecord, a: Seq<char>, f: Seq<char>, up: bool) -> nat {
    if vote_on(r, a, f) && ((vote_model(r).weight >= 0) == up) {
        1
    } else {
        0
    }
}

/// This record's contribution to the score of `(a, f)`.
pub open spec fn sum_contrib(r: VoteRecord, a: Seq<char>, f: Seq<char>) -> int {
    if vote_on(r, a, f) {
        vote_model(r).weight
    } else {
        0
    }
}

/// How many active votes on target `a` in field `f` point in direction `up`.
pub open spec fn count_votes(v: Seq<VoteRecord>, a: Seq<char>, f: Seq<char>, up: bool) -> nat
    decreases v.len(),
{
    if v.len() == 0 {
        0
    } else {
        count_votes(v.drop_last(), a, f, up) + count_contrib(v.last(), a, f, up)
    }
}

/// The signed sum of the active vote weights on target `a` in field `f`.
pub open spec fn sum_votes(v: Seq<VoteRecord>, a: Seq<char>, f: Seq<char>) -> int
    decreases v.len(),
{
    if v.len() == 0 {
        0
    } else {
        sum_votes(v.drop_last(), a, f) + sum_contrib(v.last(), a, f)
    }
}

/// No two aggregate rows share a key.
pub open spec fn score_keys_unique(s: Seq<Score>) -> bool {
    forall|i: int, j: int|
        0 <= i < j < s.len() ==> score_key(#[trigger] s[i]) != score_key(#[trigger] s[j])
}

/// No two vote records share a key.
pub open spec fn vote_keys_unique(v: Seq<VoteRecord>) -> bool {
    forall|i: int, j: int|
        0 <= i < j < v.len() ==> vote_key(#[trigger] v[i]) != vote_key(#[trigger] v[j])
}

/// The row at index `i` is the one `agg_at` reads for its key.
proof fn lemma_agg_at_index(s: Seq<Score>, i: int)
    requires
        score_keys_unique(s),
        0 <= i < s.len(),
    ensures
        agg_at(s, s[i].address@, s[i].field_address@) == agg_of(s[i]),
    decreases s.len(),
{
    if i == s.len() - 1 {
    } else {
        assert(score_key(s[i]) != score_key(s.last()));
        assert(s.drop_last()[i] == s[i]);
        lemma_agg_at_index(s.drop_last(), i);
    }
}

/// Where no row matches, the aggregate reads as zero.
proof fn lemma_agg_at_absent(s: Seq<Score>, a: Seq<char>, f: Seq<char>)
    requires
        forall|i: int| 0 <= i < s.len() ==> score_key(#[trigger] s[i]) != (a, f),
    ensures
        agg_at(s, a, f) == zero_agg(),
    decreases s.len(),
{
    if s.len() > 0 {
        assert(forall|i: int|
            0 <= i < s.drop_last().len() ==> #[trigger] s.drop_last()[i] == s[i]);
        lemma_agg_at_absent(s.drop_last(), a, f);
    }
}

/// Replacing the row at index `i` by one with the same key changes the
/// aggregate at that key and nothing else.
proof fn lemma_agg_at_update(s: Seq<Score>, i: int, r: Score)
    requires
        score_keys_unique(s),
        0 <= i < s.len(),
        score_key(r) == score_key(s[i]),
    ensures
        score_keys_unique(s.update(i, r)),
        forall|a: Seq<char>, f: Seq<char>|
            #[trigger] agg_at(s.update(i, r), a, f) == if score_key(s[i]) == (a, f) {
                agg_of(r)
            } else {
                agg_at(s, a, f)
            },
    decreases s.len(),
{
    let t = s.update(i, r);
    assert(forall|k: int| 0 <= k < s.len() && k != i ==> #[trigger] t[k] == s[k]);
    assert(score_keys_unique(t));
    if i == s.len() - 1 {
        assert(t.drop_last() =~= s.drop_last());
        assert(t.last() == r);
        assert forall|a: Seq<char>, f: Seq<char>|
            #[trigger] agg_at(t, a, f) == if score_key(s[i]) == (a, f) {
                agg_of(r)
            } else {
                agg_at(s, a, f)
            } by {
            if score_key(s[i]) == (a, f) {
            } else {
            }
        }
    } else {
        assert(s.drop_last()[i] == s[i]);
        assert(score_keys_unique(s.drop_last())) by {
            assert(forall|k: int|
                0 <= k < s.drop_last().len() ==> #[trigger] s.drop_last()[k] == s[k]);
        }
        lemma_agg_at_update(s.drop_last(), i, r);
        assert(t.drop_last() =~= s.drop_last().update(i, r));
        assert(t.last() == s.last());
        assert forall|a: Seq<char>, f: Seq<char>|
            #[trigger] agg_at(t, a, f) == if score_key(s[i]) == (a, f) {
                agg_of(r)
            } else {
                agg_at(s, a, f)
            } by {
            if score_key(s.last()) == (a, f) {
                assert(score_key(s[i]) != score_key(s.last()));
            } else {
                assert(agg_at(t, a, f) == agg_at(t.drop_last(), a, f));
                assert(agg_at(s, a, f) == agg_at(s.drop_last(), a, f));
            }
        }
    }
}

/// Appending a row reads as that row at its key and leaves other keys alone.
proof fn lemma_agg_at_push(s: Seq<Score>, r: Score)
    ensures
        forall|a: Seq<char>, f: Seq<char>|
            #[trigger] agg_at(s.push(r), a, f) == if score_key(r) == (a, f) {
                agg_of(r)
            } else {
                agg_at(s, a, f)
            },
{
    assert(s.push(r).drop_last() =~= s);
    assert(s.push(r).last() == r);
}

/// The record at index `i` is the one `vote_at` reads for its key.
proof fn lemma_vote_at_index(v: Seq<VoteRecord>, i: int)
    requires
        vote_keys_unique(v),
        0 <= i < v.len(),
    ensures
        vote_at(v, v[i].from_address@, v[i].to_address@) == Some(vote_model(v[i])),
    decreases v.len(),
{
    if i == v.len() - 1 {
    } else {
        assert(vote_key(v[i]) != vote_key(v.last()));
        assert(v.drop_last()[i] == v[i]);
        assert(vote_keys_unique(v.drop_last())) by {
            assert(forall|k: int|
                0 <= k < v.drop_last().len() ==> #[trigger] v.drop_last()[k] == v[k]);
        }
        lemma_vote_at_index(v.drop_last(), i);
    }
}

/// Where no record matches, no vote is read.
proof fn lemma_vote_at_absent(v: Seq<VoteRecord>, from: Seq<char>, to: Seq<char>)
    requires
        forall|i: int| 0 <= i < v.len() ==> vote_key(#[trigger] v[i]) != (from, to),
    ensures
        vote_at(v, from, to) is None,
    decreases v.len(),
{
    if v.len() > 0 {
        assert(forall|i: int|
            0 <= i < v.drop_last().len() ==> #[trigger] v.drop_last()[i] == v[i]);
        lemma_vote_at_absent(v.drop_last(), from, to);
    }
}

/// Where no vote is read, no record matches.
proof fn lemma_vote_at_none(v: Seq<VoteRecord>, from: Seq<char>, to: Seq<char>)
    requires
        vote_at(v, from, to) is None,
    ensures
        forall|i: int| 0 <= i < v.len() ==> vote_key(#[trigger] v[i]) != (from, to),
    decreases v.len(),
{
    if v.len() > 0 {
        lemma_vote_at_none(v.drop_last(), from, to);
        assert forall|i: int| 0 <= i < v.len() implies vote_key(#[trigger] v[i]) != (from, to) by {
            if i < v.len() - 1 {
                assert(v.drop_last()[i] == v[i]);
                assert(vote_key(v.drop_last()[i]) != (from, to));
            }
        }
    }
}

/// Replacing the record at index `i` by one with the same key changes the
/// vote read at that key and nothing else.
proof fn lemma_vote_at_update(v: Seq<VoteRecord>, i: int, r: VoteRecord)
    requires
        vote_keys_unique(v),
        0 <= i < v.len(),
        vote_key(r) == vote_key(v[i]),
    ensures
        vote_keys_unique(v.update(i, r)),
        forall|x: Seq<char>, y: Seq<char>|
            #[trigger] vote_at(v.update(i, r), x, y) == if vote_key(v[i]) == (x, y) {
                Some(vote_model(r))
            } else {
                vote_at(v, x, y)
            },
    decreases v.len(),
{
    let t = v.update(i, r);
    assert(forall|k: int| 0 <= k < v.len() && k != i ==> #[trigger] t[k] == v[k]);
    assert(vote_keys_unique(t));
    if i == v.len() - 1 {
        assert(t.drop_last() =~= v.drop_last());
        assert(t.last() == r);
        assert forall|x: Seq<char>, y: Seq<char>|
            #[trigger] vote_at(t, x, y) == if vote_key(v[i]) == (x, y) {
                Some(vote_model(r))
            } else {
                vote_at(v, x, y)
            } by {}
    } else {
        assert(v.drop_last()[i] == v[i]);
        assert(vote_keys_unique(v.drop_last())) by {
            assert(forall|k: int|
                0 <= k < v.drop_last().len() ==> #[trigger] v.drop_last()[k] == v[k]);
        }
        lemma_vote_at_update(v.drop_last(), i, r);
        assert(t.drop_last() =~= v.drop_last().update(i, r));
        assert(t.last() == v.last());
        assert forall|x: Seq<char>, y: Seq<char>|
            #[trigger] vote_at(t, x, y) == if vote_key(v[i]) == (x, y) {
                Some(vote_model(r))
            } else {
                vote_at(v, x, y)
            } by {
            if vote_key(v.last()) == (x, y) {
                assert(vote_key(v[i]) != vote_key(v.last()));
            } else {
                assert(vote_at(t, x, y) == vote_at(t.drop_last(), x, y));
                assert(vote_at(v, x, y) == vote_at(v.drop_last(), x, y));
            }
        }
    }
}

/// Appending a record reads as that record at its key and leaves other keys alone.
proof fn lemma_vote_at_push(v: Seq<VoteRecord>, r: VoteRecord)
    ensures
        forall|x: Seq<char>, y: Seq<char>|
            #[trigger] vote_at(v.push(r), x, y) == if vote_key(r) == (x, y) {
                Some(vote_model(r))
            } else {
                vote_at(v, x, y)
            },
{
    assert(v.push(r).drop_last() =~= v);
    assert(v.push(r).last() == r);
}

/// Replacing the record at index `i` moves its contributions to counts and
/// sums from the old record to the new one, at every key.
proof fn lemma_counts_update(v: Seq<VoteRecord>, i: int, r: VoteRecord)
    requires
        0 <= i < v.len(),
    ensures
        forall|a: Seq<char>, f: Seq<char>, up: bool|
            #[trigger] count_votes(v.update(i, r), a, f, up) + count_contrib(v[i], a, f, up)
                == count_votes(v, a, f, up) + count_contrib(r, a, f, up),
        forall|a: Seq<char>, f: Seq<char>|
            #[trigger] sum_votes(v.update(i, r), a, f) == sum_votes(v, a, f) - sum_contrib(
                v[i],
                a,
                f,
            ) + sum_contrib(r, a, f),
    decreases v.len(),
{
    let t = v.update(i, r);
    if i == v.len() - 1 {
        assert(t.drop_last() =~= v.drop_last());
        assert(t.last() == r);
    } else {
        assert(v.drop_last()[i] == v[i]);
        lemma_counts_update(v.drop_last(), i, r);
        assert(t.drop_last() =~= v.drop_last().update(i, r));
        assert(t.last() == v.last());
        assert forall|a: Seq<char>, f: Seq<char>, up: bool|
            #[trigger] count_votes(t, a, f, up) + count_contrib(v[i], a, f, up) == count_votes(
            v,
            a,
            f,
            up,
        ) + count_contrib(r, a, f, up) by {
            assert(count_votes(v.drop_last().update(i, r), a, f, up) + count_contrib(v[i], a, f, up)
                == count_votes(v.drop_last(), a, f, up) + count_contrib(r, a, f, up));
            assert(count_votes(t, a, f, up) == count_votes(t.drop_last(), a, f, up)
                + count_contrib(t.last(), a, f, up));
            assert(count_votes(v, a, f, up) == count_votes(v.drop_last(), a, f, up)
                + count_contrib(v.last(), a, f, up));
        }
        assert forall|a: Seq<char>, f: Seq<char>|
            #[trigger] sum_votes(t, a, f) == sum_votes(v, a, f) - sum_contrib(v[i], a, f)
                + sum_contrib(r, a, f) by {
            assert(sum_votes(v.drop_last().update(i, r), a, f) == sum_votes(v.drop_last(), a, f)
                - sum_contrib(v[i], a, f) + sum_contrib(r, a, f));
            assert(sum_votes(t, a, f) == sum_votes(t.drop_last(), a, f) + sum_contrib(
                t.last(),
                a,
                f,
            ));
            assert(sum_votes(v, a, f) == sum_votes(v.drop_last(), a, f) + sum_contrib(
                v.last(),
                a,
                f,
            ));
        }
    }
}

/// Appending a record adds its contributions to counts and sums, at every key.
proof fn lemma_counts_push(v: Seq<VoteRecord>, r: VoteRecord)
    ensures
        forall|a: Seq<char>, f: Seq<char>, up: bool|
            #[trigger] count_votes(v.push(r), a, f, up) == count_votes(v, a, f, up)
                + count_contrib(r, a, f, up),
        forall|a: Seq<char>, f: Seq<char>|
            #[trigger] sum_votes(v.push(r), a, f) == sum_votes(v, a, f) + sum_contrib(r, a, f),
{
    assert(v.push(r).drop_last() =~= v);
    assert(v.push(r).last() == r);
}

/// A count never exceeds the number of records.
proof fn lemma_count_le_len(v: Seq<VoteRecord>, a: Seq<char>, f: Seq<char>, up: bool)
    ensures
        count_votes(v, a, f, up) <= v.len(),
    decreases v.len(),
{
    if v.len() > 0 {
        lemma_count_le_len(v.drop_last(), a, f, up);
    }
}

/// A record that matches a key and direction makes that count at least one.
proof fn lemma_count_at_least_one(
    v: Seq<VoteRecord>,
    i: int,
    a: Seq<char>,
    f: Seq<char>,
    up: bool,
)
    requires
        0 <= i < v.len(),
        count_contrib(v[i], a, f, up) == 1,
    ensures
        count_votes(v, a, f, up) >= 1,
    decreases v.len(),
{
    if i == v.len() - 1 {
    } else {
        assert(v.drop_last()[i] == v[i]);
        lemma_count_at_least_one(v.drop_last(), i, a, f, up);
    }
}


/// Character-by-character string equality.
fn str_eq(a: &str, b: &str) -> (r: bool)
    ensures
        r == (a@ == b@),
{
    let na = a.unicode_len();
    let nb = b.unicode_len();
    if na != nb {
        return false;
    }
    let mut k: usize = 0;
    while k < na
        invariant
            na == a@.len(),
            nb == b@.len(),
            na == nb,
            0 <= k <= na,
            forall|j: int| 0 <= j < k ==> a@[j] == b@[j],
        decreases na - k,
    {
        if a.get_char(k) != b.get_char(k) {
            return false;
        }
        k = k + 1;
    }
    proof {
        assert(a@ =~= b@);
    }
    true
}

/// The aggregate after a first vote of weight `w` on a target.
pub open spec fn first_vote_agg(a: AggModel, w: int) -> AggModel {
    AggModel {
        score: a.score + w,
        upvote: a.upvote + if w >= 0 {
            1nat
        } else {
            0nat
        },
        downvote: a.downvote + if w >= 0 {
            0nat
        } else {
            1nat
        },
    }
}

/// The aggregate after a flip from a prior vote of weight `prior` to a new
/// vote of weight `w` in the opposite direction.
pub open spec fn flip_vote_agg(a: AggModel, prior: int, w: int) -> AggModel {
    AggModel {
        score: a.score + w - prior,
        upvote: if w >= 0 {
            a.upvote + 1
        } else {
            (a.upvote - 1) as nat
        },
        downvote: if w >= 0 {
            (a.downvote - 1) as nat
        } else {
            a.downvote + 1
        },
    }
}

/// The vote state machine: how one call of `vote` with weight `w` from
/// `from` on `to` in field `f` relates the ledger before (`pre`) to the
/// ledger after (`post`), and whether it succeeds (`ok`).
pub open spec fn vote_step(
    pre: Ledger,
    post: Ledger,
    from: Seq<char>,
    to: Seq<char>,
    f: Seq<char>,
    w: int,
    ok: bool,
) -> bool {
    match pre.vote_state(from, to) {
        Some(prior) => {
            if (prior.weight >= 0) == (w >= 0) {
                // Same direction again: rejected, nothing changes.
                &&& !ok
                &&& forall|x: Seq<char>, y: Seq<char>|
                    #[trigger] post.vote_state(x, y) == pre.vote_state(x, y)
                &&& forall|a: Seq<char>, b: Seq<char>|
                    #[trigger] post.aggregate_at(a, b) == pre.aggregate_at(a, b)
            } else {
                // Flip: the record changes direction, one count moves over,
                // and the score moves by the difference of the weights.
                &&& ok
                &&& post.vote_state(from, to) == Some(VoteModel { field: f, weight: w })
                &&& forall|x: Seq<char>, y: Seq<char>|
                    (x, y) != (from, to) ==> #[trigger] post.vote_state(x, y) == pre.vote_state(
                        x,
                        y,
                    )
                &&& post.aggregate_at(to, f) == flip_vote_agg(
                    pre.aggregate_at(to, f),
                    prior.weight,
                    w,
                )
                &&& forall|a: Seq<char>, b: Seq<char>|
                    (a, b) != (to, f) ==> #[trigger] post.aggregate_at(a, b) == pre.aggregate_at(
                        a,
                        b,
                    )
            }
        },
        None => {
            // First vote: the record is inserted and the matching count grows.
            &&& ok
            &&& post.vote_state(from, to) == Some(VoteModel { field: f, weight: w })
            &&& forall|x: Seq<char>, y: Seq<char>|
                (x, y) != (from, to) ==> #[trigger] post.vote_state(x, y) == pre.vote_state(x, y)
            &&& post.aggregate_at(to, f) == first_vote_agg(pre.aggregate_at(to, f), w)
            &&& forall|a: Seq<char>, b: Seq<char>|
                (a, b) != (to, f) ==> #[trigger] post.aggregate_at(a, b) == pre.aggregate_at(a, b)
        },
    }
}

/// The score aggregate store and the vote record table, mutated only by
/// `vote`, so that every aggregate equals the counts and the signed sum of
/// the active votes on its key.
pub struct Ledger {
    scores: Vec<Score>,
    votes: Vec<VoteRecord>,
}

impl Ledger {
    /// The aggregate recorded for target `a` in field `f` (zero when absent).
    pub closed spec fn aggregate_at(self, a: Seq<char>, f: Seq<char>) -> AggModel {
        agg_at(self.scores@, a, f)
    }

    /// The active vote of voter `from` on target `to`, if any.
    pub closed spec fn vote_state(self, from: Seq<char>, to: Seq<char>) -> Option<VoteModel> {
        vote_at(self.votes@, from, to)
    }

    /// How many vote records the ledger holds.
    pub closed spec fn vote_count(self) -> nat {
        self.votes@.len()
    }

    /// The ledger invariant: keys are unique, stored values are canonical and
    /// non-zero, and every aggregate equals the counts and the signed sum of
    /// the active vote weights on its key.
    pub closed spec fn wf(self) -> bool {
        &&& score_keys_unique(self.scores@)
        &&& vote_keys_unique(self.votes@)
        &&& forall|i: int|
            0 <= i < self.scores@.len() ==> (#[trigger] self.scores@[i]).score.wf()
        &&& forall|i: int|
            0 <= i < self.votes@.len() ==> (#[trigger] self.votes@[i]).voted_score.wf()
                && self.votes@[i].voted_score.as_int() != 0
        &&& forall|a: Seq<char>, f: Seq<char>|
            {
                &&& (#[trigger] agg_at(self.scores@, a, f)).upvote == count_votes(
                    self.votes@,
                    a,
                    f,
                    true,
                )
                &&& agg_at(self.scores@, a, f).downvote == count_votes(self.votes@, a, f, false)
                &&& agg_at(self.scores@, a, f).score == sum_votes(self.votes@, a, f)
            }
    }

    /// A fresh ledger: no votes, every aggregate zero.
    pub fn new() -> (r: Ledger)
        ensures
            r.wf(),
            forall|a: Seq<char>, f: Seq<char>| #[trigger] r.aggregate_at(a, f) == zero_agg(),
            forall|x: Seq<char>, y: Seq<char>| #[trigger] r.vote_state(x, y) is None,
            r.vote_count() == 0,
    {
        Ledger { scores: Vec::new(), votes: Vec::new() }
    }

    /// Finds the vote record of `from` on `to`, if one exists.
    fn find_vote(&self, from: &str, to: &str) -> (r: Option<usize>)
        requires
            self.wf(),
        ensures
            match r {
                Some(i) => i < self.votes@.len() && vote_key(self.votes@[i as int]) == (
                    from@,
                    to@,
                ) && self.vote_state(from@, to@) == Some(vote_model(self.votes@[i as int])),
                None => self.vote_state(from@, to@) is None,
            },
    {
        let n = self.votes.len();
        let mut i: usize = 0;
        while i < n
            invariant
                self.wf(),
                n == self.votes@.len(),
                0 <= i <= n,
                forall|j: int| 0 <= j < i ==> vote_key(#[trigger] self.votes@[j]) != (from@, to@),
            decreases n - i,
        {
            if str_eq(self.votes[i].from_address.as_str(), from) && str_eq(
                self.votes[i].to_address.as_str(),
                to,
            ) {
                proof {
                    lemma_vote_at_index(self.votes@, i as int);
                }
                return Some(i);
            }
            i = i + 1;
        }
        proof {
            lemma_vote_at_absent(self.votes@, from@, to@);
        }
        None
    }

    /// Finds the aggregate row of target `address` in `field_address`, if one
    /// exists.
    fn find_score(&self, address: &str, field_address: &str) -> (r: Option<usize>)
        requires
            score_keys_unique(self.scores@),
        ensures
            match r {
                Some(i) => i < self.scores@.len() && score_key(self.scores@[i as int]) == (
                    address@,
                    field_address@,
                ) && self.aggregate_at(address@, field_address@) == agg_of(
                    self.scores@[i as int],
                ),
                None => {
                    &&& forall|i: int|
                        0 <= i < self.scores@.len() ==> score_key(#[trigger] self.scores@[i]) != (
                            address@,
                            field_address@,
                        )
                    &&& self.aggregate_at(address@, field_address@) == zero_agg()
                },
            },
    {
        let n = self.scores.len();
        let mut i: usize = 0;
        while i < n
            invariant
                score_keys_unique(self.scores@),
                n == self.scores@.len(),
                0 <= i <= n,
                forall|j: int|
                    0 <= j < i ==> score_key(#[trigger] self.scores@[j]) != (
                        address@,
                        field_address@,
                    ),
            decreases n - i,
        {
            if str_eq(self.scores[i].address.as_str(), address) && str_eq(
                self.scores[i].field_address.as_str(),
                field_address,
            ) {
                proof {
                    lemma_agg_at_index(self.scores@, i as int);
                }
                return Some(i);
            }
            i = i + 1;
        }
        proof {
            lemma_agg_at_absent(self.scores@, address@, field_address@);
        }
        None
    }

    /// Reads the aggregate of `(address, field_address)`, or a zero-valued
    /// aggregate if no row exists yet; never an error.
    pub fn select_score(&self, address: &str, field_address: &str) -> (r: Score)
        requires
            self.wf(),
        ensures
            r.address@ == address@,
            r.field_address@ == field_address@,
            r.score.wf(),
            agg_of(r) == self.aggregate_at(address@, field_address@),
    {
        match self.find_score(address, field_address) {
            Some(i) => {
                let row = &self.scores[i];
                Score {
                    address: address.to_owned(),
                    field_address: field_address.to_owned(),
                    score: row.score.clone(),
                    upvote: row.upvote,
                    downvote: row.downvote,
                }
            },
            None => {
                let zero = crate::score::zero_string();
                Score {
                    address: address.to_owned(),
                    field_address: field_address.to_owned(),
                    score: TextualInteger::new(zero.as_str()),
                    upvote: 0,
                    downvote: 0,
                }
            },
        }
    }
}


impl Ledger {
    /// Applies one vote of signed weight `voted_score` from `from` to `to`
    /// in field `field_address`, by the vote state machine: first vote,
    /// rejected repeat, or flip. Up- and downvotes are the same operation;
    /// the direction is the sign of the weight.
    pub fn vote(
        &mut self,
        from: &Address,
        to: &Address,
        voted_score: TextualInteger,
        field_address: &str,
    ) -> (r: Result<(), String>)
        requires
            old(self).wf(),
            voted_score.wf(),
            voted_score.as_int() != 0,
            old(self).vote_count() < 0xffffffffffffffff,
            match old(self).vote_state(from@, to@) {
                Some(prior) => prior.field == field_address@,
                None => true,
            },
        ensures
            final(self).wf(),
            vote_step(
                *old(self),
                *final(self),
                from@,
                to@,
                field_address@,
                voted_score.as_int(),
                r is Ok,
            ),
            final(self).vote_count() <= old(self).vote_count() + 1,
            r matches Err(e) ==> e@ == "Already voted"@,
    {
        let ghost w = voted_score.as_int();
        let w_pos = voted_score.is_positive();
        match self.find_vote(from.as_str(), to.as_str()) {
            Some(i) => {
                let prior_pos = self.votes[i].voted_score.is_positive();
                if prior_pos == w_pos {
                    return Err("Already voted".to_owned());
                }
                let ghost old_votes = self.votes@;
                let ghost old_scores = self.scores@;
                let prior = self.votes[i].voted_score.clone();
                let new_rec = VoteRecord {
                    from_address: from.clone(),
                    to_address: to.clone(),
                    field_address: field_address.to_owned(),
                    voted_score: voted_score.clone(),
                };
                proof {
                    lemma_vote_at_update(old_votes, i as int, new_rec);
                    lemma_counts_update(old_votes, i as int, new_rec);
                }
                self.votes.set(i, new_rec);
                proof {
                    assert forall|k: int|
                        0 <= k < self.votes@.len() implies (#[trigger] self.votes@[k]).voted_score.wf()
                        && self.votes@[k].voted_score.as_int() != 0 by {
                        if k != i {
                            assert(self.votes@[k] == old_votes[k]);
                        }
                    }
                }
                match self.find_score(to.as_str(), field_address) {
                    Some(j) => {
                        proof {
                            // The prior vote makes its direction's count at
                            // least one, so the decrement cannot underflow;
                            // the other count is bounded by the record count.
                            assert(count_contrib(old_votes[i as int], to@, field_address@, prior_pos)
                                == 1);
                            lemma_count_at_least_one(
                                old_votes,
                                i as int,
                                to@,
                                field_address@,
                                prior_pos,
                            );
                            lemma_count_le_len(old_votes, to@, field_address@, w_pos);
                            assert(agg_at(old_scores, to@, field_address@) == agg_of(
                                old_scores[j as int],
                            ));
                        }
                        let new_score_val = self.scores[j].score.add(&voted_score).sub(&prior);
                        let row = &self.scores[j];
                        let new_upvote: u64 = if w_pos {
                            row.upvote + 1
                        } else {
                            row.upvote - 1
                        };
                        let new_downvote: u64 = if w_pos {
                            row.downvote - 1
                        } else {
                            row.downvote + 1
                        };
                        let new_row = Score {
                            address: row.address.clone(),
                            field_address: row.field_address.clone(),
                            score: new_score_val,
                            upvote: new_upvote,
                            downvote: new_downvote,
                        };
                        proof {
                            lemma_agg_at_update(old_scores, j as int, new_row);
                        }
                        self.scores.set(j, new_row);
                        proof {
                            assert forall|k: int|
                                0 <= k < self.scores@.len() implies (
                            #[trigger] self.scores@[k]).score.wf() by {
                                if k != j {
                                    assert(self.scores@[k] == old_scores[k]);
                                }
                            }
                            assert forall|a: Seq<char>, f: Seq<char>|
                                (#[trigger] agg_at(self.scores@, a, f)).upvote == count_votes(
                                self.votes@,
                                a,
                                f,
                                true,
                            ) && agg_at(self.scores@, a, f).downvote == count_votes(
                                self.votes@,
                                a,
                                f,
                                false,
                            ) && agg_at(self.scores@, a, f).score == sum_votes(
                                self.votes@,
                                a,
                                f,
                            ) by {
                                assert(agg_at(old_scores, a, f).upvote == count_votes(
                                    old_votes,
                                    a,
                                    f,
                                    true,
                                ));
                                assert(count_votes(self.votes@, a, f, true) + count_contrib(
                                    old_votes[i as int],
                                    a,
                                    f,
                                    true,
                                ) == count_votes(old_votes, a, f, true) + count_contrib(
                                    new_rec,
                                    a,
                                    f,
                                    true,
                                ));
                                assert(count_votes(self.votes@, a, f, false) + count_contrib(
                                    old_votes[i as int],
                                    a,
                                    f,
                                    false,
                                ) == count_votes(old_votes, a, f, false) + count_contrib(
                                    new_rec,
                                    a,
                                    f,
                                    false,
                                ));
                                assert(sum_votes(self.votes@, a, f) == sum_votes(old_votes, a, f)
                                    - sum_contrib(old_votes[i as int], a, f) + sum_contrib(
                                    new_rec,
                                    a,
                                    f,
                                ));
                            }
                        }
                        Ok(())
                    },
                    None => {
                        proof {
                            // Impossible: the prior vote on this target and
                            // field makes its count positive, while an absent
                            // row reads as zero.
                            assert(count_contrib(old_votes[i as int], to@, field_address@, prior_pos)
                                == 1);
                            lemma_count_at_least_one(
                                old_votes,
                                i as int,
                                to@,
                                field_address@,
                                prior_pos,
                            );
                            assert(agg_at(old_scores, to@, field_address@).upvote == count_votes(
                                old_votes,
                                to@,
                                field_address@,
                                true,
                            ));
                            assert(false);
                        }
                        Err(String::new())
                    },
                }
            },
            None => {
                let ghost old_votes = self.votes@;
                let ghost old_scores = self.scores@;
                let new_rec = VoteRecord {
                    from_address: from.clone(),
                    to_address: to.clone(),
                    field_address: field_address.to_owned(),
                    voted_score: voted_score.clone(),
                };
                proof {
                    lemma_vote_at_none(old_votes, from@, to@);
                    lemma_vote_at_push(old_votes, new_rec);
                    lemma_counts_push(old_votes, new_rec);
                    lemma_count_le_len(old_votes, to@, field_address@, w_pos);
                }
                self.votes.push(new_rec);
                proof {
                    assert(vote_keys_unique(self.votes@)) by {
                        assert(forall|k: int|
                            0 <= k < old_votes.len() ==> #[trigger] self.votes@[k] == old_votes[k]);
                    }
                    assert forall|k: int|
                        0 <= k < self.votes@.len() implies (#[trigger] self.votes@[k]).voted_score.wf()
                        && self.votes@[k].voted_score.as_int() != 0 by {
                        if k < old_votes.len() {
                            assert(self.votes@[k] == old_votes[k]);
                        }
                    }
                }
                match self.find_score(to.as_str(), field_address) {
                    Some(j) => {
                        proof {
                            assert(agg_at(old_scores, to@, field_address@) == agg_of(
                                old_scores[j as int],
                            ));
                        }
                        let new_score_val = self.scores[j].score.add(&voted_score);
                        let row = &self.scores[j];
                        let new_upvote: u64 = if w_pos {
                            row.upvote + 1
                        } else {
                            row.upvote
                        };
                        let new_downvote: u64 = if w_pos {
                            row.downvote
                        } else {
                            row.downvote + 1
                        };
                        let new_row = Score {
                            address: row.address.clone(),
                            field_address: row.field_address.clone(),
                            score: new_score_val,
                            upvote: new_upvote,
                            downvote: new_downvote,
                        };
                        proof {
                            lemma_agg_at_update(old_scores, j as int, new_row);
                        }
                        self.scores.set(j, new_row);
                        proof {
                            assert forall|k: int|
                                0 <= k < self.scores@.len() implies (
                            #[trigger] self.scores@[k]).score.wf() by {
                                if k != j {
                                    assert(self.scores@[k] == old_scores[k]);
                                }
                            }
                            assert forall|a: Seq<char>, f: Seq<char>|
                                (#[trigger] agg_at(self.scores@, a, f)).upvote == count_votes(
                                self.votes@,
                                a,
                                f,
                                true,
                            ) && agg_at(self.scores@, a, f).downvote == count_votes(
                                self.votes@,
                                a,
                                f,
                                false,
                            ) && agg_at(self.scores@, a, f).score == sum_votes(
                                self.votes@,
                                a,
                                f,
                            ) by {
                                assert(agg_at(old_scores, a, f).upvote == count_votes(
                                    old_votes,
                                    a,
                                    f,
                                    true,
                                ));
                                assert(count_votes(self.votes@, a, f, true) == count_votes(
                                    old_votes,
                                    a,
                                    f,
                                    true,
                                ) + count_contrib(new_rec, a, f, true));
                                assert(count_votes(self.votes@, a, f, false) == count_votes(
                                    old_votes,
                                    a,
                                    f,
                                    false,
                                ) + count_contrib(new_rec, a, f, false));
                                assert(sum_votes(self.votes@, a, f) == sum_votes(old_votes, a, f)
                                    + sum_contrib(new_rec, a, f));
                            }
                        }
                        Ok(())
                    },
                    None => {
                        let zero = crate::score::zero_string();
                        let zero_val = TextualInteger::new(zero.as_str());
                        let new_score_val = zero_val.add(&voted_score);
                        let new_row = Score {
                            address: to.clone(),
                            field_address: field_address.to_owned(),
                            score: new_score_val,
                            upvote: if w_pos {
                                1
                            } else {
                                0
                            },
                            downvote: if w_pos {
                                0
                            } else {
                                1
                            },
                        };
                        proof {
                            lemma_agg_at_push(old_scores, new_row);
                        }
                        self.scores.push(new_row);
                        proof {
                            assert(score_keys_unique(self.scores@)) by {
                                assert(forall|k: int|
                                    0 <= k < old_scores.len() ==> #[trigger] self.scores@[k]
                                        == old_scores[k]);
                            }
                            assert forall|k: int|
                                0 <= k < self.scores@.len() implies (
                            #[trigger] self.scores@[k]).score.wf() by {
                                if k < old_scores.len() {
                                    assert(self.scores@[k] == old_scores[k]);
                                }
                            }
                            assert forall|a: Seq<char>, f: Seq<char>|
                                (#[trigger] agg_at(self.scores@, a, f)).upvote == count_votes(
                                self.votes@,
                                a,
                                f,
                                true,
                            ) && agg_at(self.scores@, a, f).downvote == count_votes(
                                self.votes@,
                                a,
                                f,
                                false,
                            ) && agg_at(self.scores@, a, f).score == sum_votes(
                                self.votes@,
                                a,
                                f,
                            ) by {
                                assert(agg_at(old_scores, a, f).upvote == count_votes(
                                    old_votes,
                                    a,
                                    f,
                                    true,
                                ));
                                assert(count_votes(self.votes@, a, f, true) == count_votes(
                                    old_votes,
                                    a,
                                    f,
                                    true,
                                ) + count_contrib(new_rec, a, f, true));
                                assert(count_votes(self.votes@, a, f, false) == count_votes(
                                    old_votes,
                                    a,
                                    f,
                                    false,
                                ) + count_contrib(new_rec, a, f, false));
                                assert(sum_votes(self.votes@, a, f) == sum_votes(old_votes, a, f)
                                    + sum_contrib(new_rec, a, f));
                            }
                        }
                        Ok(())
                    },
                }
            },
        }
    }

    /// Casts an upvote; the weight carries the direction as its sign, so this
    /// is the same operation as `vote`.
    pub fn upvote(
        &mut self,
        from: &Address,
        to: &Address,
        voted_score: TextualInteger,
        field_address: &str,
    ) -> (r: Result<(), String>)
        requires
            old(self).wf(),
            voted_score.wf(),
            voted_score.as_int() != 0,
            old(self).vote_count() < 0xffffffffffffffff,
            match old(self).vote_state(from@, to@) {
                Some(prior) => prior.field == field_address@,
                None => true,
            },
        ensures
            final(self).wf(),
            vote_step(
                *old(self),
                *final(self),
                from@,
                to@,
                field_address@,
                voted_score.as_int(),
                r is Ok,
            ),
            final(self).vote_count() <= old(self).vote_count() + 1,
            r matches Err(e) ==> e@ == "Already voted"@,
    {
        self.vote(from, to, voted_score, field_address)
    }

    /// Casts a downvote; the caller hands in a negative weight, so this is
    /// the same operation as `vote`.
    pub fn downvote(
        &mut self,
        from: &Address,
        to: &Address,
        voted_score: TextualInteger,
        field_address: &str,
    ) -> (r: Result<(), String>)
        requires
            old(self).wf(),
            voted_score.wf(),
            voted_score.as_int() != 0,
            old(self).vote_count() < 0xffffffffffffffff,
            match old(self).vote_state(from@, to@) {
                Some(prior) => prior.field == field_address@,
                None => true,
            },
        ensures
            final(self).wf(),
            vote_step(
                *old(self),
                *final(self),
                from@,
                to@,
                field_address@,
                voted_score.as_int(),
                r is Ok,
            ),
            final(self).vote_count() <= old(self).vote_count() + 1,
            r matches Err(e) ==> e@ == "Already voted"@,
    {
        self.vote(from, to, voted_score, field_address)
    }
}

/// The vote decision alone, for callers that keep the rows in storage of
/// their own: from the prior vote (if any), the target's current aggregate
/// and the proposed weight, to the updated aggregate, or to the rejection of
/// a same-direction repeat.
pub fn apply_vote(
    prior: Option<&TextualInteger>,
    score: &Score,
    voted: &TextualInteger,
) -> (r: Result<Score, String>)
    requires
        score.score.wf(),
        voted.wf(),
        voted.as_int() != 0,
        match prior {
            Some(p) => p.wf() && ((p.as_int() >= 0 ==> score.upvote >= 1) && (p.as_int() < 0
                ==> score.downvote >= 1)),
            None => true,
        },
        score.upvote < 0xffffffffffffffff,
        score.downvote < 0xffffffffffffffff,
    ensures
        match prior {
            Some(p) => {
                if (p.as_int() >= 0) == (voted.as_int() >= 0) {
                    r is Err
                } else {
                    r matches Ok(s) && agg_of(s) == flip_vote_agg(
                        agg_of(*score),
                        p.as_int(),
                        voted.as_int(),
                    ) && s.address == score.address && s.field_address == score.field_address
                        && s.score.wf()
                }
            },
            None => r matches Ok(s) && agg_of(s) == first_vote_agg(agg_of(*score), voted.as_int())
                && s.address == score.address && s.field_address == score.field_address
                && s.score.wf(),
        },
        r matches Err(e) ==> e@ == "Already voted"@,
{
    let voted_pos = voted.is_positive();
    match prior {
        Some(history) => {
            let history_pos = history.is_positive();
            if history_pos == voted_pos {
                Err("Already voted".to_owned())
            } else {
                Ok(
                    Score {
                        address: score.address.clone(),
                        field_address: score.field_address.clone(),
                        score: score.score.add(voted).sub(history),
                        upvote: if voted_pos {
                            score.upvote + 1
                        } else {
                            score.upvote - 1
                        },
                        downvote: if voted_pos {
                            score.downvote - 1
                        } else {
                            score.downvote + 1
                        },
                    },
                )
            }
        },
        None => Ok(
            Score {
                address: score.address.clone(),
                field_address: score.field_address.clone(),
                score: score.score.add(voted),
                upvote: if voted_pos {
                    score.upvote + 1
                } else {
                    score.upvote
                },
                downvote: if voted_pos {
                    score.downvote
                } else {
                    score.downvote + 1
                },
            },
        ),
    }
}

/// Law: casting a same-direction vote again, from the same voter on the same
/// target, is rejected and leaves every vote and every aggregate unchanged.
pub proof fn lemma_vote_repeat_rejected(
    pre: Ledger,
    mid: Ledger,
    post: Ledger,
    from: Seq<char>,
    to: Seq<char>,
    f: Seq<char>,
    w1: int,
    w2: int,
    ok2: bool,
)
    requires
        (w1 >= 0) == (w2 >= 0),
        vote_step(pre, mid, from, to, f, w1, true),
        vote_step(mid, post, from, to, f, w2, ok2),
    ensures
        !ok2,
        forall|a: Seq<char>, b: Seq<char>|
            #[trigger] post.aggregate_at(a, b) == mid.aggregate_at(a, b),
        forall|x: Seq<char>, y: Seq<char>| #[trigger] post.vote_state(x, y) == mid.vote_state(x, y),
{
    assert(mid.vote_state(from, to) == Some(VoteModel { field: f, weight: w1 }));
}

/// Law (flip correctness): a first vote of weight `w1` followed by a flip to
/// weight `w2` in the other direction leaves the target's score at its
/// starting value plus `w2`, restores the first direction's count, and grows
/// the other count by one.
pub proof fn lemma_vote_flip(
    pre: Ledger,
    mid: Ledger,
    post: Ledger,
    from: Seq<char>,
    to: Seq<char>,
    f: Seq<char>,
    w1: int,
    w2: int,
)
    requires
        pre.vote_state(from, to) is None,
        w1 >= 0,
        w2 < 0,
        vote_step(pre, mid, from, to, f, w1, true),
        vote_step(mid, post, from, to, f, w2, true),
    ensures
        post.aggregate_at(to, f).score == pre.aggregate_at(to, f).score + w2,
        post.aggregate_at(to, f).upvote == pre.aggregate_at(to, f).upvote,
        post.aggregate_at(to, f).downvote == pre.aggregate_at(to, f).downvote + 1,
        post.vote_state(from, to) == Some(VoteModel { field: f, weight: w2 }),
{
    assert(mid.vote_state(from, to) == Some(VoteModel { field: f, weight: w1 }));
    assert(mid.aggregate_at(to, f) == first_vote_agg(pre.aggregate_at(to, f), w1));
    assert(post.aggregate_at(to, f) == flip_vote_agg(mid.aggregate_at(to, f), w1, w2));
}

} // verus!

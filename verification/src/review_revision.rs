//! Revising a review decision: decisions are staged per target while the
//! user reviewing goes through the objects, and the whole revision is sent with the
//! final decision on the full image.
use vstd::prelude::*;

use crate::assignment::{Timestamp, UserId};
use crate::contributors::{Review, ReviewDecision, ReviewId, ReviewTarget};

verus! {

/// Where in the review a decision is made.
#[derive(Clone, Copy, Debug, PartialEq, Eq, Structural)]
pub enum ReviewPhase {
    /// On one object of the image.
    Object,
    /// On the full image.
    FullImage,
}

/// The staged decisions of a revision, the revision being sent (if any), and
/// where the review stands in the image.
pub struct ReviewRevision {
    pub staged: Vec<Review>,
    /// The decisions sent as one revision, kept until the server accepts them.
    pub commit: Option<Vec<Review>>,
    pub review_index: usize,
    pub migration_review_index: usize,
    /// An object was rejected, so the review goes to its end.
    pub rejected: bool,
}

/// What staging a decision led to.
pub enum RevisionStep {
    /// Nothing was sent; the message says why.
    Refused(&'static str),
    /// The decision is staged and the review moved on.
    Staged,
    /// Send `review` as the final decision, with the whole `revision`.
    Send { review: Review, revision: Vec<Review> },
}

/// The message when a decision other than the pending one is chosen.
pub open spec fn retry_message() -> Seq<char> {
    "Retry the pending revised decision before changing it."@
}

/// The message when an approval is chosen while an object stays rejected.
pub open spec fn rejection_message() -> Seq<char> {
    "A staged object rejection requires sending this review back."@
}

/// `s` without the decisions on `target`.
pub open spec fn without_target(s: Seq<Review>, target: ReviewTarget) -> Seq<Review>
    decreases s.len(),
{
    if s.len() == 0 {
        s
    } else {
        let rest = without_target(s.drop_last(), target);
        if s.last().target == target {
            rest
        } else {
            rest.push(s.last())
        }
    }
}

/// Some decision of `s` rejects.
pub open spec fn has_rejection(s: Seq<Review>) -> bool {
    exists|i: int| 0 <= i < s.len() && #[trigger] s[i].decision == ReviewDecision::Rejected
}

/// `i` is the last position of `s` deciding on `target`.
pub open spec fn last_on(s: Seq<Review>, target: ReviewTarget, i: int) -> bool {
    &&& 0 <= i < s.len()
    &&& s[i].target == target
    &&& forall|j: int| i < j < s.len() ==> #[trigger] s[j].target != target
}

/// No two decisions of `s` concern the same target.
pub open spec fn targets_distinct(s: Seq<Review>) -> bool {
    forall|i: int, j: int| 0 <= i < j < s.len() ==> #[trigger] s[i].target != #[trigger] s[j].target
}

/// Dropping the decisions on `target` leaves none on it, keeps only decisions
/// that were there, and keeps targets distinct.
proof fn lemma_without_target(s: Seq<Review>, target: ReviewTarget)
    ensures
        forall|q: int| 0 <= q < without_target(s, target).len() ==> (#[trigger] without_target(s, target)[q]).target != target
            && exists|i: int| 0 <= i < s.len() && s[i] == without_target(s, target)[q],
        targets_distinct(s) ==> targets_distinct(without_target(s, target)),
    decreases s.len(),
{
    if s.len() > 0 {
        let init = s.drop_last();
        lemma_without_target(init, target);
        let rest = without_target(init, target);
        let w = without_target(s, target);
        assert forall|q: int| 0 <= q < w.len() implies (#[trigger] w[q]).target != target
            && exists|i: int| 0 <= i < s.len() && s[i] == w[q] by {
            if q < rest.len() {
                assert(w[q] == rest[q]);
                let i = choose|i: int| 0 <= i < init.len() && init[i] == rest[q];
                assert(s[i] == w[q]);
            } else {
                assert(s[s.len() - 1] == w[q]);
            }
        }
        if targets_distinct(s) {
            assert(targets_distinct(init)) by {
                assert forall|a: int, b: int| 0 <= a < b < init.len() implies #[trigger] init[a].target
                    != #[trigger] init[b].target by {
                    assert(s[a].target != s[b].target);
                }
            }
            if s.last().target != target {
                assert forall|a: int, b: int| 0 <= a < b < w.len() implies #[trigger] w[a].target
                    != #[trigger] w[b].target by {
                    if b == rest.len() {
                        assert(w[a] == rest[a]);
                        let i = choose|i: int| 0 <= i < init.len() && init[i] == rest[a];
                        assert(s[i].target != s[s.len() - 1].target);
                    } else {
                        assert(rest[a].target != rest[b].target);
                    }
                }
            }
        }
    }
}

/// Staging a decision keeps one decision per target: when no two staged
/// decisions concern the same target, none do afterwards, so the new decision
/// is the only one on its target.
pub proof fn staging_keeps_one_decision_per_target(staged: Seq<Review>, review: Review)
    requires
        targets_distinct(staged),
    ensures
        targets_distinct(without_target(staged, review.target).push(review)),
{
    lemma_without_target(staged, review.target);
    let w = without_target(staged, review.target);
    let n = w.push(review);
    assert forall|a: int, b: int| 0 <= a < b < n.len() implies #[trigger] n[a].target != #[trigger] n[b].target by {
        if b == w.len() {
            assert(n[a] == w[a]);
        } else {
            assert(w[a].target != w[b].target);
        }
    }
}

/// Where the review stands after rejecting an object of an image with
/// `targets` targets: at its last target.
pub open spec fn end_index(targets: Option<usize>) -> usize {
    match targets {
        Some(n) => if n > 0 {
            (n - 1) as usize
        } else {
            0
        },
        None => 0,
    }
}

/// The decisions of `staged` other than those on `target`.
fn drop_target(staged: Vec<Review>, target: ReviewTarget) -> (r: Vec<Review>)
    ensures
        r@ == without_target(staged@, target),
{
    let ghost all = staged@;
    let count: usize = staged.len();
    let mut rest = staged;
    let mut kept: Vec<Review> = Vec::new();
    let mut j: usize = 0;
    proof {
        assert(rest@ =~= all.subrange(0, all.len() as int));
        assert(all.take(0) =~= Seq::<Review>::empty());
    }
    while rest.len() > 0
        invariant
            count == all.len(),
            j + rest@.len() == all.len(),
            rest@ == all.subrange(j as int, all.len() as int),
            kept@ == without_target(all.take(j as int), target),
        decreases rest@.len(),
    {
        let e = rest.remove(0);
        proof {
            assert(e == all[j as int]);
            assert(rest@ =~= all.subrange(j as int + 1, all.len() as int));
            assert(all.take(j as int + 1).drop_last() =~= all.take(j as int));
            assert(all.take(j as int + 1).last() == e);
        }
        if e.target != target {
            kept.push(e);
        }
        j += 1;
    }
    proof {
        assert(all.take(all.len() as int) =~= all);
    }
    kept
}

/// Whether some decision of `s` rejects.
fn any_rejection(s: &Vec<Review>) -> (r: bool)
    ensures
        r == has_rejection(s@),
{
    let mut i: usize = 0;
    while i < s.len()
        invariant
            i <= s@.len(),
            forall|j: int| 0 <= j < i ==> #[trigger] s@[j].decision != ReviewDecision::Rejected,
        decreases s@.len() - i,
    {
        if s[i].decision == ReviewDecision::Rejected {
            return true;
        }
        i += 1;
    }
    false
}

/// A copy of `s`.
fn copy_reviews(s: &Vec<Review>) -> (r: Vec<Review>)
    ensures
        r@ == s@,
{
    let mut r: Vec<Review> = Vec::new();
    let mut i: usize = 0;
    while i < s.len()
        invariant
            i <= s@.len(),
            r@ == s@.take(i as int),
        decreases s@.len() - i,
    {
        r.push(s[i]);
        proof {
            assert(s@.take(i as int + 1) =~= s@.take(i as int).push(s@[i as int]));
        }
        i += 1;
    }
    proof {
        assert(s@.take(s@.len() as int) =~= s@);
    }
    r
}

impl ReviewRevision {
    /// No staged decision, nothing being sent, at the first target.
    pub fn new() -> (r: ReviewRevision)
        ensures
            r.staged@.len() == 0,
            r.commit is None,
            r.review_index == 0,
            r.migration_review_index == 0,
            !r.rejected,
    {
        ReviewRevision { staged: Vec::new(), commit: None, review_index: 0, migration_review_index: 0, rejected: false }
    }

    /// The staged decision on `target`, while a revision is `active`: the last
    /// one staged.
    pub fn staged_review_decision(&self, active: bool, target: ReviewTarget) -> (r: Option<Review>)
        ensures
            match r {
                Some(rev) => active && exists|i: int| #[trigger] last_on(self.staged@, target, i) && self.staged@[i] == rev,
                None => !active || forall|i: int| 0 <= i < self.staged@.len() ==> #[trigger] self.staged@[i].target != target,
            },
    {
        if !active {
            return None;
        }
        let n = self.staged.len();
        let mut k: usize = n;
        while k > 0
            invariant
                active,
                k <= n,
                n == self.staged@.len(),
                forall|j: int| k <= j < n ==> #[trigger] self.staged@[j].target != target,
            decreases k,
        {
            if self.staged[k - 1].target == target {
                proof {
                    assert(last_on(self.staged@, target, k - 1));
                }
                return Some(self.staged[k - 1]);
            }
            k -= 1;
        }
        None
    }

    /// Stages `decision` on `target`, made in `phase` at `now` under the fresh
    /// id `review_id` by the user who reviews, for an image with `targets`
    /// targets.
    ///
    /// While a revision is being sent, only its own final decision may be
    /// chosen again, which sends it again. Otherwise the decision replaces any
    /// staged one on the same target: an approved object moves the review to
    /// the next target, a rejected object to the last one; on the full image an
    /// approval is refused while an object stays rejected (the new decision is
    /// dropped again), and any other decision sends the staged decisions as the
    /// revision.
    pub fn stage_revision_review(
        &mut self,
        target: ReviewTarget,
        decision: ReviewDecision,
        phase: ReviewPhase,
        review_id: ReviewId,
        reviewer: UserId,
        now: Timestamp,
        targets: Option<usize>,
    ) -> (r: RevisionStep)
        requires
            old(self).commit is None && phase == ReviewPhase::Object && decision == ReviewDecision::Approved ==> old(
                self,
            ).review_index < usize::MAX && old(self).migration_review_index < usize::MAX,
        ensures
            match old(self).commit {
                Some(c) => {
                    &&& final(self).staged@ == old(self).staged@
                    &&& final(self).commit == old(self).commit
                    &&& final(self).review_index == old(self).review_index
                    &&& final(self).migration_review_index == old(self).migration_review_index
                    &&& final(self).rejected == old(self).rejected
                    &&& if c@.len() == 0 || c@.last().decision != decision {
                        r matches RevisionStep::Refused(m) && m@ == retry_message()
                    } else {
                        r matches RevisionStep::Send { review, revision } && review == c@.last() && revision@ == c@
                    }
                },
                None => {
                    let review = Review { review_id, reviewer, target, decision, timestamp: now };
                    let staged = without_target(old(self).staged@, target).push(review);
                    if phase == ReviewPhase::Object && decision == ReviewDecision::Approved {
                        &&& r is Staged
                        &&& final(self).staged@ == staged
                        &&& final(self).commit is None
                        &&& final(self).review_index == old(self).review_index + 1
                        &&& final(self).migration_review_index == old(self).migration_review_index + 1
                        &&& final(self).rejected == old(self).rejected
                    } else if phase == ReviewPhase::Object {
                        &&& r is Staged
                        &&& final(self).staged@ == staged
                        &&& final(self).commit is None
                        &&& final(self).review_index == end_index(targets)
                        &&& final(self).migration_review_index == end_index(targets)
                        &&& final(self).rejected
                    } else if decision == ReviewDecision::Approved && has_rejection(staged) {
                        &&& (r matches RevisionStep::Refused(m) && m@ == rejection_message())
                        &&& final(self).staged@ == without_target(old(self).staged@, target)
                        &&& final(self).commit is None
                        &&& final(self).review_index == old(self).review_index
                        &&& final(self).migration_review_index == old(self).migration_review_index
                        &&& final(self).rejected == old(self).rejected
                    } else {
                        &&& (r matches RevisionStep::Send { review: sent, revision } && sent == review && revision@ == staged)
                        &&& final(self).staged@ == staged
                        &&& (final(self).commit matches Some(c) && c@ == staged)
                        &&& final(self).review_index == old(self).review_index
                        &&& final(self).migration_review_index == old(self).migration_review_index
                        &&& final(self).rejected == old(self).rejected
                    }
                },
            },
    {
        match &self.commit {
            Some(c) => {
                let n = c.len();
                if n == 0 || c[n - 1].decision != decision {
                    return RevisionStep::Refused("Retry the pending revised decision before changing it.");
                }
                let review = c[n - 1];
                let revision = copy_reviews(c);
                return RevisionStep::Send { review, revision };
            },
            None => {},
        }
        let review = Review { review_id, reviewer, target, decision, timestamp: now };
        let mut staged: Vec<Review> = Vec::new();
        std::mem::swap(&mut staged, &mut self.staged);
        let mut staged = drop_target(staged, target);
        staged.push(review);
        self.staged = staged;
        if phase == ReviewPhase::Object && decision == ReviewDecision::Approved {
            self.review_index = self.review_index + 1;
            self.migration_review_index = self.migration_review_index + 1;
            return RevisionStep::Staged;
        }
        if phase == ReviewPhase::Object {
            self.rejected = true;
            let count = match targets {
                Some(n) => if n > 0 {
                    n - 1
                } else {
                    0
                },
                None => 0,
            };
            self.review_index = count;
            self.migration_review_index = count;
            return RevisionStep::Staged;
        }
        if decision == ReviewDecision::Approved && any_rejection(&self.staged) {
            self.staged.pop();
            return RevisionStep::Refused("A staged object rejection requires sending this review back.");
        }
        let revision = copy_reviews(&self.staged);
        self.commit = Some(copy_reviews(&self.staged));
        RevisionStep::Send { review, revision }
    }
}

} // verus!

//! Going through the objects of a review: which objects count as decided,
//! where the review goes next, and when the current object may be approved or
//! sent back.
use vstd::prelude::*;

use crate::contributors::ReviewTarget;

verus! {

/// The objects of the image under review, those finished here or
/// marked for another look, and the position (one past the last object is the
/// overview of the whole image).
pub struct ReviewProgress {
    pub targets: Vec<ReviewTarget>,
    pub reviewed: Vec<ReviewTarget>,
    pub needs_review: Vec<ReviewTarget>,
    pub position: usize,
}

/// `s` without `x`.
pub open spec fn without(s: Seq<ReviewTarget>, x: ReviewTarget) -> Seq<ReviewTarget>
    decreases s.len(),
{
    if s.len() == 0 {
        s
    } else {
        let rest = without(s.drop_last(), x);
        if s.last() == x {
            rest
        } else {
            rest.push(s.last())
        }
    }
}

/// `s` with `x` added at the end unless it holds it already.
pub open spec fn with(s: Seq<ReviewTarget>, x: ReviewTarget) -> Seq<ReviewTarget> {
    if s.contains(x) {
        s
    } else {
        s.push(x)
    }
}

/// Object `i` counts as decided: a correction concerns it (`changed[i]`), or
/// it is not marked for another look and was finished here or already has a
/// decision (`prior[i]`: a staged decision while revising, else an approval).
pub open spec fn decided_at(
    targets: Seq<ReviewTarget>,
    reviewed: Seq<ReviewTarget>,
    needs_review: Seq<ReviewTarget>,
    changed: Seq<bool>,
    prior: Seq<bool>,
    i: int,
) -> bool {
    changed[i] || (!needs_review.contains(targets[i]) && (reviewed.contains(targets[i]) || prior[i]))
}

/// The first object not decided, or the overview when all are.
pub open spec fn next_position(
    targets: Seq<ReviewTarget>,
    reviewed: Seq<ReviewTarget>,
    needs_review: Seq<ReviewTarget>,
    changed: Seq<bool>,
    prior: Seq<bool>,
) -> int {
    if exists|i: int| 0 <= i < targets.len() && !#[trigger] decided_at(targets, reviewed, needs_review, changed, prior, i) {
        choose|i: int|
            0 <= i < targets.len() && !#[trigger] decided_at(targets, reviewed, needs_review, changed, prior, i)
                && forall|j: int| 0 <= j < i ==> #[trigger] decided_at(targets, reviewed, needs_review, changed, prior, j)
    } else {
        targets.len() as int
    }
}

/// The current object may be approved: nothing of it changed, the editor holds
/// a valid annotation, on the overview every object is decided, and no
/// submission is under way.
pub open spec fn can_approve(changed: bool, editor_valid: bool, overview: bool, all_decided: bool, submitting: bool) -> bool {
    !changed && editor_valid && (!overview || all_decided) && !submitting
}

/// The current object may be sent back: it changed, the editor holds a valid
/// annotation, and on the overview every object is decided.
pub open spec fn can_reject(changed: bool, editor_valid: bool, overview: bool, all_decided: bool) -> bool {
    changed && editor_valid && (!overview || all_decided)
}

/// Whether the current object may be approved.
pub fn review_can_approve(changed: bool, editor_valid: bool, overview: bool, all_decided: bool, submitting: bool) -> (r: bool)
    ensures
        r == can_approve(changed, editor_valid, overview, all_decided, submitting),
{
    !changed && editor_valid && (!overview || all_decided) && !submitting
}

/// Whether the current object may be sent back.
pub fn review_can_reject(changed: bool, editor_valid: bool, overview: bool, all_decided: bool) -> (r: bool)
    ensures
        r == can_reject(changed, editor_valid, overview, all_decided),
{
    changed && editor_valid && (!overview || all_decided)
}

/// An object is never both approvable and rejectable.
pub proof fn never_both_approvable_and_rejectable(
    changed: bool,
    editor_valid: bool,
    overview: bool,
    all_decided: bool,
    submitting: bool,
)
    ensures
        !(can_approve(changed, editor_valid, overview, all_decided, submitting) && can_reject(
            changed,
            editor_valid,
            overview,
            all_decided,
        )),
{
}

/// A decision needs a valid editor, and on the overview every object decided:
/// otherwise the object can be neither approved nor sent back. Once those
/// hold and no submission is under way, exactly one of the two is possible:
/// approving an unchanged object, or sending back a changed one. A submission
/// under way blocks approving.
pub proof fn decisions_wait_for_a_valid_editor_and_a_decided_overview(
    changed: bool,
    editor_valid: bool,
    overview: bool,
    all_decided: bool,
    submitting: bool,
)
    ensures
        !editor_valid ==> !can_approve(changed, editor_valid, overview, all_decided, submitting) && !can_reject(
            changed,
            editor_valid,
            overview,
            all_decided,
        ),
        overview && !all_decided ==> !can_approve(changed, editor_valid, overview, all_decided, submitting)
            && !can_reject(changed, editor_valid, overview, all_decided),
        submitting ==> !can_approve(changed, editor_valid, overview, all_decided, submitting),
        editor_valid && (!overview || all_decided) ==> (can_reject(changed, editor_valid, overview, all_decided)
            <==> changed),
        editor_valid && (!overview || all_decided) && !submitting ==> (can_approve(
            changed,
            editor_valid,
            overview,
            all_decided,
            submitting,
        ) <==> !changed),
{
}

/// An object with a correction counts as decided. Without one, an object
/// marked for another look counts as undecided, and any other counts as
/// decided exactly when it was finished here or already has a decision.
/// The review moves on to the first undecided object: every object before
/// it is decided, and it is the overview only when all are.
pub proof fn what_counts_as_decided(
    targets: Seq<ReviewTarget>,
    reviewed: Seq<ReviewTarget>,
    needs_review: Seq<ReviewTarget>,
    changed: Seq<bool>,
    prior: Seq<bool>,
    i: int,
)
    requires
        0 <= i < targets.len(),
    ensures
        changed[i] ==> decided_at(targets, reviewed, needs_review, changed, prior, i),
        !changed[i] && needs_review.contains(targets[i]) ==> !decided_at(targets, reviewed, needs_review, changed, prior, i),
        !changed[i] && !needs_review.contains(targets[i]) ==> (decided_at(targets, reviewed, needs_review, changed, prior, i)
            <==> reviewed.contains(targets[i]) || prior[i]),
        ({
            let n = next_position(targets, reviewed, needs_review, changed, prior);
            &&& 0 <= n <= targets.len()
            &&& forall|j: int| 0 <= j < n ==> #[trigger] decided_at(targets, reviewed, needs_review, changed, prior, j)
            &&& n < targets.len() ==> !decided_at(targets, reviewed, needs_review, changed, prior, n)
            &&& (n == targets.len() <==> forall|j: int|
                0 <= j < targets.len() ==> #[trigger] decided_at(targets, reviewed, needs_review, changed, prior, j))
        }),
{
    if exists|k: int| 0 <= k < targets.len() && !#[trigger] decided_at(targets, reviewed, needs_review, changed, prior, k) {
        let k = choose|k: int| 0 <= k < targets.len() && !#[trigger] decided_at(targets, reviewed, needs_review, changed, prior, k);
        lemma_first_undecided_exists(targets, reviewed, needs_review, changed, prior, k);
    }
}

/// Where some object is undecided, a first undecided object exists.
proof fn lemma_first_undecided_exists(
    targets: Seq<ReviewTarget>,
    reviewed: Seq<ReviewTarget>,
    needs_review: Seq<ReviewTarget>,
    changed: Seq<bool>,
    prior: Seq<bool>,
    k: int,
)
    requires
        0 <= k < targets.len(),
        !decided_at(targets, reviewed, needs_review, changed, prior, k),
    ensures
        exists|i: int|
            0 <= i < targets.len() && !#[trigger] decided_at(targets, reviewed, needs_review, changed, prior, i)
                && forall|j: int| 0 <= j < i ==> #[trigger] decided_at(targets, reviewed, needs_review, changed, prior, j),
    decreases k,
{
    if exists|j: int| 0 <= j < k && !#[trigger] decided_at(targets, reviewed, needs_review, changed, prior, j) {
        let j = choose|j: int| 0 <= j < k && !#[trigger] decided_at(targets, reviewed, needs_review, changed, prior, j);
        lemma_first_undecided_exists(targets, reviewed, needs_review, changed, prior, j);
    } else {
        assert(forall|j: int| 0 <= j < k ==> #[trigger] decided_at(targets, reviewed, needs_review, changed, prior, j));
    }
}

/// `without(s, x)` no longer holds `x`.
proof fn lemma_without_drops(s: Seq<ReviewTarget>, x: ReviewTarget)
    ensures
        !without(s, x).contains(x),
    decreases s.len(),
{
    if s.len() > 0 {
        lemma_without_drops(s.drop_last(), x);
        let rest = without(s.drop_last(), x);
        if s.last() != x {
            if rest.push(s.last()).contains(x) {
                let k = choose|k: int| 0 <= k < rest.push(s.last()).len() && rest.push(s.last())[k] == x;
                assert(rest[k] == x);
            }
        }
    }
}

/// Finishing an object makes it count as decided.
pub proof fn finished_object_counts_as_decided(
    targets: Seq<ReviewTarget>,
    reviewed: Seq<ReviewTarget>,
    needs_review: Seq<ReviewTarget>,
    changed: Seq<bool>,
    prior: Seq<bool>,
    i: int,
)
    requires
        0 <= i < targets.len(),
    ensures
        decided_at(targets, with(reviewed, targets[i]), without(needs_review, targets[i]), changed, prior, i),
{
    lemma_without_drops(needs_review, targets[i]);
    if !reviewed.contains(targets[i]) {
        assert(reviewed.push(targets[i])[reviewed.len() as int] == targets[i]);
    }
}

fn contains_target(s: &Vec<ReviewTarget>, x: ReviewTarget) -> (r: bool)
    ensures
        r == s@.contains(x),
{
    let mut i: usize = 0;
    while i < s.len()
        invariant
            i <= s@.len(),
            forall|j: int| 0 <= j < i ==> s@[j] != x,
        decreases s@.len() - i,
    {
        if s[i] == x {
            return true;
        }
        i += 1;
    }
    false
}

fn remove_target(s: &Vec<ReviewTarget>, x: ReviewTarget) -> (r: Vec<ReviewTarget>)
    ensures
        r@ == without(s@, x),
{
    let mut r: Vec<ReviewTarget> = Vec::new();
    let mut i: usize = 0;
    while i < s.len()
        invariant
            i <= s@.len(),
            r@ == without(s@.take(i as int), x),
        decreases s@.len() - i,
    {
        proof {
            assert(s@.take(i as int + 1).drop_last() =~= s@.take(i as int));
            assert(s@.take(i as int + 1).last() == s@[i as int]);
        }
        if s[i] != x {
            r.push(s[i]);
        }
        i += 1;
    }
    proof {
        assert(s@.take(s@.len() as int) =~= s@);
    }
    r
}

impl ReviewProgress {
    /// The review is on the overview of the whole image.
    pub fn review_overview(&self) -> (r: bool)
        ensures
            r == (self.position == self.targets@.len()),
    {
        self.position == self.targets.len()
    }

    /// The object under review, if the review is on an object.
    pub fn focused_review_target(&self) -> (r: Option<ReviewTarget>)
        ensures
            r == if self.position < self.targets@.len() {
                Some(self.targets@[self.position as int])
            } else {
                None
            },
    {
        if self.position < self.targets.len() {
            Some(self.targets[self.position])
        } else {
            None
        }
    }

    /// Whether object `i` counts as decided.
    pub fn review_target_decided(&self, changed: &Vec<bool>, prior: &Vec<bool>, i: usize) -> (r: bool)
        requires
            i < self.targets@.len(),
            changed@.len() == self.targets@.len(),
            prior@.len() == self.targets@.len(),
        ensures
            r == decided_at(self.targets@, self.reviewed@, self.needs_review@, changed@, prior@, i as int),
    {
        let t = self.targets[i];
        changed[i] || (!contains_target(&self.needs_review, t) && (contains_target(&self.reviewed, t) || prior[i]))
    }

    /// The first object not decided, or the overview when all are.
    pub fn next_review_position(&self, changed: &Vec<bool>, prior: &Vec<bool>) -> (r: usize)
        requires
            changed@.len() == self.targets@.len(),
            prior@.len() == self.targets@.len(),
        ensures
            r == next_position(self.targets@, self.reviewed@, self.needs_review@, changed@, prior@),
    {
        let mut i: usize = 0;
        while i < self.targets.len()
            invariant
                i <= self.targets@.len(),
                changed@.len() == self.targets@.len(),
                prior@.len() == self.targets@.len(),
                forall|j: int| 0 <= j < i ==> #[trigger] decided_at(self.targets@, self.reviewed@, self.needs_review@, changed@, prior@, j),
            decreases self.targets@.len() - i,
        {
            if !self.review_target_decided(changed, prior, i) {
                proof {
                    let c = choose|c: int|
                        0 <= c < self.targets@.len() && !#[trigger] decided_at(self.targets@, self.reviewed@, self.needs_review@, changed@, prior@, c)
                            && forall|j: int| 0 <= j < c ==> #[trigger] decided_at(self.targets@, self.reviewed@, self.needs_review@, changed@, prior@, j);
                    if c < i {
                        assert(decided_at(self.targets@, self.reviewed@, self.needs_review@, changed@, prior@, c));
                    } else if i < c {
                        assert(decided_at(self.targets@, self.reviewed@, self.needs_review@, changed@, prior@, i as int));
                    }
                }
                return i;
            }
            i += 1;
        }
        i
    }

    /// Every object counts as decided.
    pub fn all_review_items_decided(&self, changed: &Vec<bool>, prior: &Vec<bool>) -> (r: bool)
        requires
            changed@.len() == self.targets@.len(),
            prior@.len() == self.targets@.len(),
        ensures
            r == forall|i: int| 0 <= i < self.targets@.len() ==> #[trigger] decided_at(self.targets@, self.reviewed@, self.needs_review@, changed@, prior@, i),
    {
        let mut i: usize = 0;
        while i < self.targets.len()
            invariant
                i <= self.targets@.len(),
                changed@.len() == self.targets@.len(),
                prior@.len() == self.targets@.len(),
                forall|j: int| 0 <= j < i ==> #[trigger] decided_at(self.targets@, self.reviewed@, self.needs_review@, changed@, prior@, j),
            decreases self.targets@.len() - i,
        {
            if !self.review_target_decided(changed, prior, i) {
                return false;
            }
            i += 1;
        }
        true
    }

    /// Moves to `position`, at most the overview.
    pub fn navigate_review_item(&mut self, position: usize)
        ensures
            final(self).position == if position < old(self).targets@.len() {
                position
            } else {
                old(self).targets@.len() as usize
            },
            final(self).targets@ == old(self).targets@,
            final(self).reviewed@ == old(self).reviewed@,
            final(self).needs_review@ == old(self).needs_review@,
    {
        self.position = if position < self.targets.len() {
            position
        } else {
            self.targets.len()
        };
    }

    /// Moves `delta` objects on, stopping at the first object and at the
    /// overview.
    pub fn cycle_review_item(&mut self, delta: isize)
        ensures
            final(self).position == ({
                let p = old(self).position + delta;
                let p = if p < 0 {
                    0
                } else if p > usize::MAX {
                    usize::MAX as int
                } else {
                    p
                };
                if p < old(self).targets@.len() {
                    p
                } else {
                    old(self).targets@.len() as int
                }
            }),
            final(self).targets@ == old(self).targets@,
            final(self).reviewed@ == old(self).reviewed@,
            final(self).needs_review@ == old(self).needs_review@,
    {
        let target: usize = if delta >= 0 {
            let d = delta as usize;
            if self.position > usize::MAX - d {
                usize::MAX
            } else {
                self.position + d
            }
        } else {
            let d = (0i128 - delta as i128) as usize;
            if self.position < d {
                0
            } else {
                self.position - d
            }
        };
        self.navigate_review_item(target);
    }

    /// Finishes the current object: it is no longer marked for another look,
    /// counts as finished here, and the review moves to the first object not
    /// decided.
    pub fn finish_local_review_item(&mut self, changed: &Vec<bool>, prior: &Vec<bool>)
        requires
            changed@.len() == old(self).targets@.len(),
            prior@.len() == old(self).targets@.len(),
        ensures
            final(self).targets@ == old(self).targets@,
            old(self).position < old(self).targets@.len() ==> ({
                let t = old(self).targets@[old(self).position as int];
                &&& final(self).needs_review@ == without(old(self).needs_review@, t)
                &&& final(self).reviewed@ == with(old(self).reviewed@, t)
            }),
            old(self).position >= old(self).targets@.len() ==> final(self).needs_review@ == old(self).needs_review@
                && final(self).reviewed@ == old(self).reviewed@,
            final(self).position == next_position(final(self).targets@, final(self).reviewed@, final(self).needs_review@, changed@, prior@),
    {
        if self.position < self.targets.len() {
            let t = self.targets[self.position];
            self.needs_review = remove_target(&self.needs_review, t);
            if !contains_target(&self.reviewed, t) {
                self.reviewed.push(t);
            }
        }
        let next = self.next_review_position(changed, prior);
        self.position = next;
    }

    /// Marks the current object for another look: it no longer counts as
    /// finished here and is marked; the caller drops its corrections and staged
    /// decision.
    pub fn reset_review_target(&mut self)
        ensures
            final(self).targets@ == old(self).targets@,
            final(self).position == old(self).position,
            old(self).position < old(self).targets@.len() ==> ({
                let t = old(self).targets@[old(self).position as int];
                &&& final(self).reviewed@ == without(old(self).reviewed@, t)
                &&& final(self).needs_review@ == with(old(self).needs_review@, t)
            }),
            old(self).position >= old(self).targets@.len() ==> final(self).needs_review@ == old(self).needs_review@
                && final(self).reviewed@ == old(self).reviewed@,
    {
        if self.position < self.targets.len() {
            let t = self.targets[self.position];
            self.reviewed = remove_target(&self.reviewed, t);
            if !contains_target(&self.needs_review, t) {
                self.needs_review.push(t);
            }
        }
    }
}

} // verus!

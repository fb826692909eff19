//! Model suggestions under review while annotating: each visible suggestion is
//! shown as an editable object until the annotator confirms or dismisses it.
use vstd::prelude::*;
use vstd::arithmetic::div_mod::{lemma_add_mod_noop_right, lemma_mod_add_multiples_vanish, lemma_mod_bound, lemma_small_mod, lemma_sub_mod_noop_right};

use crate::review_context::{decimal, decimal_text};

verus! {

/// A suggestion of the model and the annotation that stands for it while it is
/// reviewed. `S` holds the suggestion's data, `A` the annotation's.
pub struct PrelabelObject<S, A> {
    pub suggestion_id: u64,
    pub suggestion: S,
    pub annotation_id: u64,
    pub annotation: A,
}

/// The objects under review, whether any was edited, and whether a review was
/// started for the current image.
pub struct PrelabelReview<S, A> {
    pub objects: Vec<PrelabelObject<S, A>>,
    pub changed: bool,
    pub started: bool,
}

/// What the primary button does while suggestions are shown.
#[derive(Clone, Copy, Debug, PartialEq, Eq, Structural)]
pub enum PrelabelPrimaryAction {
    /// Confirm the selected suggestion.
    Confirm,
    /// Select the first suggestion still waiting.
    Focus,
    /// Submit the image.
    Submit,
}

/// What a step of the review did: whether it applied, the object it took out of
/// the review, the selected annotation afterwards, and whether the view should
/// be fitted to the image again.
pub struct ReviewStep<S, A> {
    pub handled: bool,
    pub object: Option<PrelabelObject<S, A>>,
    pub selected: Option<u64>,
    pub fit_view: bool,
}

/// No suggestion is reviewed twice.
pub open spec fn suggestions_unique<S, A>(objs: Seq<PrelabelObject<S, A>>) -> bool {
    forall|i: int, j: int|
        0 <= i < j < objs.len() ==> #[trigger] objs[i].suggestion_id != #[trigger] objs[j].suggestion_id
}

/// Some object reviews suggestion `sid`.
pub open spec fn holds_suggestion<S, A>(objs: Seq<PrelabelObject<S, A>>, sid: u64) -> bool {
    exists|i: int| 0 <= i < objs.len() && #[trigger] objs[i].suggestion_id == sid
}

/// The position of the object reviewing suggestion `sid`.
pub open spec fn index_of_suggestion<S, A>(objs: Seq<PrelabelObject<S, A>>, sid: u64) -> int {
    choose|i: int| 0 <= i < objs.len() && #[trigger] objs[i].suggestion_id == sid
}

/// Some object stands for annotation `aid`.
pub open spec fn holds_annotation<S, A>(objs: Seq<PrelabelObject<S, A>>, aid: u64) -> bool {
    exists|i: int| 0 <= i < objs.len() && #[trigger] objs[i].annotation_id == aid
}

/// The objects waiting for a decision: those of the visible suggestions, in the
/// order in which the suggestions are shown.
pub open spec fn pending_of<S, A>(objs: Seq<PrelabelObject<S, A>>, visible: Seq<u64>) -> Seq<PrelabelObject<S, A>>
    decreases visible.len(),
{
    if visible.len() == 0 {
        Seq::empty()
    } else {
        let rest = pending_of(objs, visible.drop_last());
        if holds_suggestion(objs, visible.last()) {
            rest.push(objs[index_of_suggestion(objs, visible.last())])
        } else {
            rest
        }
    }
}

/// `i` is the first position of `p` that stands for annotation `aid`.
pub open spec fn first_for_annotation<S, A>(p: Seq<PrelabelObject<S, A>>, aid: u64, i: int) -> bool {
    &&& 0 <= i < p.len()
    &&& p[i].annotation_id == aid
    &&& forall|j: int| 0 <= j < i ==> #[trigger] p[j].annotation_id != aid
}

/// Where the selected annotation stands among `p`, if it does.
pub open spec fn selected_position<S, A>(p: Seq<PrelabelObject<S, A>>, selected: Option<u64>) -> Option<int> {
    match selected {
        Some(aid) => if holds_annotation(p, aid) {
            Some(choose|i: int| first_for_annotation(p, aid, i))
        } else {
            None
        },
        None => None,
    }
}

/// The primary action while `p` is waiting and `selected` is selected.
pub open spec fn primary_action_of<S, A>(p: Seq<PrelabelObject<S, A>>, selected: Option<u64>) -> PrelabelPrimaryAction {
    if selected_position(p, selected) is Some {
        PrelabelPrimaryAction::Confirm
    } else if p.len() > 0 {
        PrelabelPrimaryAction::Focus
    } else {
        PrelabelPrimaryAction::Submit
    }
}

/// The selection after moving `direction` steps through `p`, wrapping around;
/// from no waiting selection, a step back selects the last object and any other
/// step the first. Nothing changes when nothing is waiting.
pub open spec fn cycled<S, A>(p: Seq<PrelabelObject<S, A>>, selected: Option<u64>, direction: int) -> Option<u64> {
    if p.len() == 0 {
        selected
    } else {
        match selected_position(p, selected) {
            Some(i) => Some(p[(i + direction) % (p.len() as int)].annotation_id),
            None => if direction < 0 {
                Some(p.last().annotation_id)
            } else {
                Some(p[0].annotation_id)
            },
        }
    }
}

/// The first object waiting, which a finished step selects.
pub open spec fn first_waiting<S, A>(p: Seq<PrelabelObject<S, A>>) -> Option<u64> {
    if p.len() > 0 {
        Some(p[0].annotation_id)
    } else {
        None
    }
}

/// The suggestion ids of `hints`, in order.
pub open spec fn hint_ids<S, A>(hints: Seq<PrelabelObject<S, A>>) -> Seq<u64> {
    hints.map_values(|h: PrelabelObject<S, A>| h.suggestion_id)
}

/// The objects after showing `hints`: a suggestion already under review gets
/// the hint's fresh data and keeps its annotation; any other hint is added.
pub open spec fn synced<S, A>(objs: Seq<PrelabelObject<S, A>>, hints: Seq<PrelabelObject<S, A>>) -> Seq<PrelabelObject<S, A>>
    decreases hints.len(),
{
    if hints.len() == 0 {
        objs
    } else {
        let o = synced(objs, hints.drop_last());
        let h = hints.last();
        if holds_suggestion(o, h.suggestion_id) {
            let i = index_of_suggestion(o, h.suggestion_id);
            o.update(
                i,
                PrelabelObject {
                    suggestion_id: o[i].suggestion_id,
                    suggestion: h.suggestion,
                    annotation_id: o[i].annotation_id,
                    annotation: o[i].annotation,
                },
            )
        } else {
            o.push(h)
        }
    }
}

/// The selection after showing the suggestions, and whether to fit the view:
/// with nothing selected, or when the selected object was under review
/// (`before`) and is no longer waiting, the first waiting object is selected;
/// the view is fitted when that left nothing waiting.
pub open spec fn sync_outcome<S, A>(before: Seq<PrelabelObject<S, A>>, p: Seq<PrelabelObject<S, A>>, selected: Option<u64>) -> (Option<u64>, bool) {
    let was = (selected matches Some(aid) && holds_annotation(before, aid));
    if selected is None || (was && selected_position(p, selected) is None) {
        (first_waiting(p), was && p.len() == 0)
    } else {
        (selected, false)
    }
}

/// `objs` without the objects standing for annotation `aid`.
pub open spec fn without_annotation<S, A>(objs: Seq<PrelabelObject<S, A>>, aid: u64) -> Seq<PrelabelObject<S, A>>
    decreases objs.len(),
{
    if objs.len() == 0 {
        objs
    } else {
        let rest = without_annotation(objs.drop_last(), aid);
        if objs.last().annotation_id == aid {
            rest
        } else {
            rest.push(objs.last())
        }
    }
}

/// `i` is the first position of `s` holding `x`.
pub open spec fn first_at(s: Seq<u64>, x: u64, i: int) -> bool {
    &&& 0 <= i < s.len()
    &&& s[i] == x
    &&& forall|j: int| 0 <= j < i ==> #[trigger] s[j] != x
}

/// The progress shown while suggestions are reviewed, given the waiting
/// objects `p` and the image's `annotations` listed before them.
pub open spec fn progress_text<S, A>(p: Seq<PrelabelObject<S, A>>, selected: Option<u64>, annotations: Seq<u64>) -> Seq<char> {
    let all = annotations + p.map_values(|o: PrelabelObject<S, A>| o.annotation_id);
    if p.len() == 0 {
        "Image overview"@
    } else if selected matches Some(aid) && all.contains(aid) {
        let i = choose|i: int| first_at(all, selected->0, i);
        "Object "@ + decimal((i + 1) as nat) + " of "@ + decimal(all.len())
    } else {
        decimal(p.len()) + " to confirm"@
    }
}

/// Dismissing or taking an object removes exactly the objects of its
/// annotation: an object stays exactly when it stood for another annotation.
pub proof fn dismissing_removes_exactly_its_objects<S, A>(objs: Seq<PrelabelObject<S, A>>, aid: u64, x: PrelabelObject<S, A>)
    ensures
        without_annotation(objs, aid).contains(x) <==> objs.contains(x) && x.annotation_id != aid,
        without_annotation(objs, aid).len() <= objs.len(),
    decreases objs.len(),
{
    if objs.len() > 0 {
        let init = objs.drop_last();
        dismissing_removes_exactly_its_objects(init, aid, x);
        let rest = without_annotation(init, aid);
        let out = without_annotation(objs, aid);
        let last = objs.last();
        if last.annotation_id != aid {
            assert(out == rest.push(last));
        } else {
            assert(out == rest);
        }
        if rest.contains(x) {
            let k = choose|k: int| 0 <= k < rest.len() && rest[k] == x;
            assert(out[k] == x);
        }
        if init.contains(x) {
            let j = choose|j: int| 0 <= j < init.len() && init[j] == x;
            assert(objs[j] == x);
        }
        if objs.contains(x) && x.annotation_id != aid {
            let i = choose|i: int| 0 <= i < objs.len() && objs[i] == x;
            if i < objs.len() - 1 {
                assert(init[i] == x);
            } else {
                assert(out[rest.len() as int] == x);
            }
        }
        if out.contains(x) {
            let i = choose|i: int| 0 <= i < out.len() && out[i] == x;
            if i < rest.len() {
                assert(rest[i] == x);
            } else {
                assert(x == last);
                assert(objs[objs.len() - 1] == x);
            }
        }
    }
}

/// Taking out the objects of one annotation keeps suggestions distinct, and
/// keeps only suggestions that were there.
proof fn lemma_without_unique<S, A>(objs: Seq<PrelabelObject<S, A>>, aid: u64)
    requires
        suggestions_unique(objs),
    ensures
        suggestions_unique(without_annotation(objs, aid)),
        forall|q: int| 0 <= q < without_annotation(objs, aid).len() ==> holds_suggestion(objs, #[trigger] without_annotation(objs, aid)[q].suggestion_id),
    decreases objs.len(),
{
    if objs.len() > 0 {
        let init = objs.drop_last();
        assert(suggestions_unique(init)) by {
            assert forall|a: int, b: int| 0 <= a < b < init.len() implies #[trigger] init[a].suggestion_id
                != #[trigger] init[b].suggestion_id by {
                assert(objs[a].suggestion_id != objs[b].suggestion_id);
            }
        }
        lemma_without_unique(init, aid);
        let rest = without_annotation(init, aid);
        let w = without_annotation(objs, aid);
        let last = objs.last();
        assert forall|q: int| 0 <= q < rest.len() implies #[trigger] rest[q].suggestion_id != last.suggestion_id by {
            assert(holds_suggestion(init, rest[q].suggestion_id));
            let t = choose|t: int| 0 <= t < init.len() && #[trigger] init[t].suggestion_id == rest[q].suggestion_id;
            assert(objs[t].suggestion_id != objs[objs.len() - 1].suggestion_id);
        }
        assert forall|q: int| 0 <= q < w.len() implies holds_suggestion(objs, #[trigger] w[q].suggestion_id) by {
            if q < rest.len() {
                assert(w[q] == rest[q]);
                assert(holds_suggestion(init, rest[q].suggestion_id));
                let t = choose|t: int| 0 <= t < init.len() && #[trigger] init[t].suggestion_id == rest[q].suggestion_id;
                assert(objs[t].suggestion_id == w[q].suggestion_id);
            } else {
                assert(objs[objs.len() - 1].suggestion_id == w[q].suggestion_id);
            }
        }
        if last.annotation_id != aid {
            assert forall|a: int, b: int| 0 <= a < b < w.len() implies #[trigger] w[a].suggestion_id
                != #[trigger] w[b].suggestion_id by {
                if b == rest.len() {
                    assert(w[a] == rest[a]);
                } else {
                    assert(rest[a].suggestion_id != rest[b].suggestion_id);
                }
            }
        }
    }
}

/// The first position of `p` that stands for `aid` is unique.
proof fn lemma_first_unique<S, A>(p: Seq<PrelabelObject<S, A>>, aid: u64, i: int, k: int)
    requires
        first_for_annotation(p, aid, i),
        first_for_annotation(p, aid, k),
    ensures
        i == k,
{
    if i < k {
        assert(p[i].annotation_id != aid);
    } else if k < i {
        assert(p[k].annotation_id != aid);
    }
}

/// The first position found is the one `selected_position` names.
proof fn lemma_selected_at<S, A>(p: Seq<PrelabelObject<S, A>>, aid: u64, i: int)
    requires
        first_for_annotation(p, aid, i),
    ensures
        selected_position(p, Some(aid)) == Some(i),
{
    assert(p[i].annotation_id == aid);
    assert(holds_annotation(p, aid));
    let k = choose|k: int| first_for_annotation(p, aid, k);
    lemma_first_unique(p, aid, i, k);
}

/// With distinct suggestions, the object at `i` is what its suggestion finds.
proof fn lemma_index_at<S, A>(objs: Seq<PrelabelObject<S, A>>, i: int)
    requires
        suggestions_unique(objs),
        0 <= i < objs.len(),
    ensures
        holds_suggestion(objs, objs[i].suggestion_id),
        index_of_suggestion(objs, objs[i].suggestion_id) == i,
{
    let sid = objs[i].suggestion_id;
    assert(objs[i].suggestion_id == sid);
    let k = index_of_suggestion(objs, sid);
    if k < i {
        assert(objs[k].suggestion_id != objs[i].suggestion_id);
    } else if i < k {
        assert(objs[i].suggestion_id != objs[k].suggestion_id);
    }
}

/// The position in `objs` of the object reviewing suggestion `sid`.
fn find_suggestion<S, A>(objs: &Vec<PrelabelObject<S, A>>, sid: u64) -> (r: Option<usize>)
    requires
        suggestions_unique(objs@),
    ensures
        match r {
            Some(i) => i < objs@.len() && holds_suggestion(objs@, sid) && index_of_suggestion(objs@, sid) == i,
            None => !holds_suggestion(objs@, sid),
        },
{
    let mut i: usize = 0;
    while i < objs.len()
        invariant
            i <= objs@.len(),
            suggestions_unique(objs@),
            forall|j: int| 0 <= j < i ==> #[trigger] objs@[j].suggestion_id != sid,
        decreases objs@.len() - i,
    {
        if objs[i].suggestion_id == sid {
            proof {
                lemma_index_at(objs@, i as int);
            }
            return Some(i);
        }
        i += 1;
    }
    None
}

/// The first position of `p` that stands for `aid`, where `p` is given as
/// positions `pos` into `objs`.
fn find_annotation_among<S, A>(objs: &Vec<PrelabelObject<S, A>>, pos: &Vec<usize>, aid: u64) -> (r: Option<usize>)
    requires
        forall|k: int| 0 <= k < pos@.len() ==> #[trigger] pos@[k] < objs@.len(),
    ensures
        match r {
            Some(k) => first_for_annotation(pos@.map_values(|i: usize| objs@[i as int]), aid, k as int),
            None => !holds_annotation(pos@.map_values(|i: usize| objs@[i as int]), aid),
        },
{
    let ghost p = pos@.map_values(|i: usize| objs@[i as int]);
    let mut k: usize = 0;
    while k < pos.len()
        invariant
            k <= pos@.len(),
            p == pos@.map_values(|i: usize| objs@[i as int]),
            forall|q: int| 0 <= q < pos@.len() ==> #[trigger] pos@[q] < objs@.len(),
            forall|j: int| 0 <= j < k ==> #[trigger] p[j].annotation_id != aid,
        decreases pos@.len() - k,
    {
        if objs[pos[k]].annotation_id == aid {
            return Some(k);
        }
        k += 1;
    }
    proof {
        if holds_annotation(p, aid) {
            let j = choose|j: int| 0 <= j < p.len() && #[trigger] p[j].annotation_id == aid;
            assert(p[j].annotation_id != aid);
        }
    }
    None
}

/// Whether some object of `objs` stands for annotation `aid`.
fn any_annotation<S, A>(objs: &Vec<PrelabelObject<S, A>>, aid: u64) -> (r: bool)
    ensures
        r == holds_annotation(objs@, aid),
{
    let mut i: usize = 0;
    while i < objs.len()
        invariant
            i <= objs@.len(),
            forall|j: int| 0 <= j < i ==> #[trigger] objs@[j].annotation_id != aid,
        decreases objs@.len() - i,
    {
        if objs[i].annotation_id == aid {
            return true;
        }
        i += 1;
    }
    false
}

/// The suggestion ids of `hints`.
fn ids_of<S, A>(hints: &Vec<PrelabelObject<S, A>>) -> (r: Vec<u64>)
    ensures
        r@ == hint_ids(hints@),
{
    let mut r: Vec<u64> = Vec::new();
    let mut i: usize = 0;
    while i < hints.len()
        invariant
            i <= hints@.len(),
            r@ == hint_ids(hints@.take(i as int)),
        decreases hints@.len() - i,
    {
        r.push(hints[i].suggestion_id);
        proof {
            assert(hint_ids(hints@.take(i as int + 1)) =~= hint_ids(hints@.take(i as int)).push(hints@[i as int].suggestion_id));
        }
        i += 1;
    }
    proof {
        assert(hints@.take(hints@.len() as int) =~= hints@);
    }
    r
}

/// The annotations of `p` are distinct.
pub open spec fn annotations_distinct<S, A>(p: Seq<PrelabelObject<S, A>>) -> bool {
    forall|i: int, j: int| 0 <= i < j < p.len() ==> #[trigger] p[i].annotation_id != #[trigger] p[j].annotation_id
}

/// The data of the last of `hints` for suggestion `sid`, if any.
pub open spec fn last_hint_for<S, A>(hints: Seq<PrelabelObject<S, A>>, sid: u64) -> Option<S>
    decreases hints.len(),
{
    if hints.len() == 0 {
        None
    } else if hints.last().suggestion_id == sid {
        Some(hints.last().suggestion)
    } else {
        last_hint_for(hints.drop_last(), sid)
    }
}

/// With distinct annotations, position `i` is the first for its annotation.
proof fn lemma_first_distinct<S, A>(p: Seq<PrelabelObject<S, A>>, i: int)
    requires
        annotations_distinct(p),
        0 <= i < p.len(),
    ensures
        selected_position(p, Some(p[i].annotation_id)) == Some(i),
{
    assert forall|j: int| 0 <= j < i implies #[trigger] p[j].annotation_id != p[i].annotation_id by {
        assert(p[j].annotation_id != p[i].annotation_id);
    }
    lemma_selected_at(p, p[i].annotation_id, i);
}

/// Stepping `direction` steps through the waiting objects and then as many
/// steps back selects again the object that was selected (annotations of the
/// waiting objects being distinct).
pub proof fn cycling_back_returns<S, A>(p: Seq<PrelabelObject<S, A>>, k: int, direction: int)
    requires
        annotations_distinct(p),
        0 <= k < p.len(),
    ensures
        cycled(p, cycled(p, Some(p[k].annotation_id), direction), -direction) == Some(p[k].annotation_id),
{
    let n = p.len() as int;
    lemma_first_distinct(p, k);
    let j = (k + direction) % n;
    lemma_mod_bound(k + direction, n);
    lemma_first_distinct(p, j);
    assert(cycled(p, Some(p[k].annotation_id), direction) == Some(p[j].annotation_id));
    vstd::arithmetic::div_mod::lemma_add_mod_noop(k + direction, -direction, n);
    lemma_add_mod_noop_right(j, -direction, n);
    lemma_small_mod(k as nat, n as nat);
    assert((j + (-direction)) % n == k);
}

/// A step forward selects the next waiting object, and from the last one the
/// first; a step back selects the previous one, and from the first the last.
/// Without a waiting selection a step forward selects the first object and a
/// step back the last; with nothing waiting the selection stays.
pub proof fn cycling_steps_to_neighbours<S, A>(p: Seq<PrelabelObject<S, A>>, k: int, selected: Option<u64>)
    requires
        annotations_distinct(p),
    ensures
        0 <= k < p.len() ==> cycled(p, Some(p[k].annotation_id), 1) == Some(
            p[if k + 1 < p.len() {
                k + 1
            } else {
                0
            }].annotation_id,
        ),
        0 <= k < p.len() ==> cycled(p, Some(p[k].annotation_id), -1) == Some(
            p[if k > 0 {
                k - 1
            } else {
                p.len() - 1
            }].annotation_id,
        ),
        p.len() > 0 && !(exists|i: int| 0 <= i < p.len() && Some(#[trigger] p[i].annotation_id) == selected) ==> {
            &&& cycled(p, selected, 1) == Some(p[0].annotation_id)
            &&& cycled(p, selected, -1) == Some(p[p.len() - 1].annotation_id)
        },
        p.len() == 0 ==> cycled(p, selected, 1) == selected && cycled(p, selected, -1) == selected,
{
    let n = p.len() as int;
    if 0 <= k < n {
        lemma_first_distinct(p, k);
        if k + 1 < n {
            lemma_small_mod((k + 1) as nat, n as nat);
        } else {
            assert(k + 1 == n);
            lemma_mod_add_multiples_vanish(0, n);
            lemma_small_mod(0, n as nat);
        }
        if k > 0 {
            lemma_small_mod((k - 1) as nat, n as nat);
        } else {
            lemma_mod_add_multiples_vanish(-1, n);
            lemma_small_mod((n - 1) as nat, n as nat);
        }
    }
    if n > 0 && !(exists|i: int| 0 <= i < p.len() && Some(#[trigger] p[i].annotation_id) == selected) {
        if let Some(aid) = selected {
            if holds_annotation(p, aid) {
                let i = choose|i: int| 0 <= i < p.len() && #[trigger] p[i].annotation_id == aid;
                assert(Some(p[i].annotation_id) == selected);
            }
        }
    }
}

/// Showing hints keeps suggestions distinct and never drops an object.
proof fn lemma_synced_unique<S, A>(objs: Seq<PrelabelObject<S, A>>, hints: Seq<PrelabelObject<S, A>>)
    requires
        suggestions_unique(objs),
    ensures
        suggestions_unique(synced(objs, hints)),
        synced(objs, hints).len() >= objs.len(),
        forall|k: int| 0 <= k < hints.len() ==> holds_suggestion(synced(objs, hints), #[trigger] hints[k].suggestion_id),
    decreases hints.len(),
{
    if hints.len() > 0 {
        let init = hints.drop_last();
        lemma_synced_unique(objs, init);
        let o = synced(objs, init);
        let h = hints.last();
        let r = synced(objs, hints);
        if holds_suggestion(o, h.suggestion_id) {
            let i = index_of_suggestion(o, h.suggestion_id);
            assert forall|t: int| 0 <= t < o.len() implies #[trigger] r[t].suggestion_id == o[t].suggestion_id by {}
            assert forall|a: int, b: int| 0 <= a < b < r.len() implies #[trigger] r[a].suggestion_id
                != #[trigger] r[b].suggestion_id by {
                assert(r[a].suggestion_id == o[a].suggestion_id);
                assert(r[b].suggestion_id == o[b].suggestion_id);
            }
            assert forall|k: int| 0 <= k < hints.len() implies holds_suggestion(r, #[trigger] hints[k].suggestion_id) by {
                if k < init.len() {
                    assert(init[k] == hints[k]);
                    assert(holds_suggestion(o, init[k].suggestion_id));
                    let t = choose|t: int| 0 <= t < o.len() && #[trigger] o[t].suggestion_id == init[k].suggestion_id;
                    assert(r[t].suggestion_id == o[t].suggestion_id);
                } else {
                    assert(r[i].suggestion_id == h.suggestion_id);
                }
            }
        } else {
            assert forall|a: int, b: int| 0 <= a < b < r.len() implies #[trigger] r[a].suggestion_id
                != #[trigger] r[b].suggestion_id by {
                if b == o.len() {
                    assert(r[a] == o[a]);
                    assert(o[a].suggestion_id != h.suggestion_id);
                } else {
                    assert(o[a].suggestion_id != o[b].suggestion_id);
                }
            }
            assert forall|k: int| 0 <= k < hints.len() implies holds_suggestion(r, #[trigger] hints[k].suggestion_id) by {
                if k < init.len() {
                    assert(init[k] == hints[k]);
                    assert(holds_suggestion(o, init[k].suggestion_id));
                    let t = choose|t: int| 0 <= t < o.len() && #[trigger] o[t].suggestion_id == init[k].suggestion_id;
                    assert(r[t] == o[t]);
                } else {
                    assert(r[o.len() as int] == h);
                }
            }
        }
    }
}

/// After showing hints, each object of a shown suggestion holds the data of the
/// last hint for it.
proof fn lemma_synced_latest<S, A>(objs: Seq<PrelabelObject<S, A>>, hints: Seq<PrelabelObject<S, A>>)
    requires
        suggestions_unique(objs),
    ensures
        forall|t: int| 0 <= t < synced(objs, hints).len() ==> (last_hint_for(hints, #[trigger] synced(objs, hints)[t].suggestion_id) matches Some(d)
            ==> synced(objs, hints)[t].suggestion == d),
    decreases hints.len(),
{
    if hints.len() > 0 {
        let init = hints.drop_last();
        lemma_synced_latest(objs, init);
        lemma_synced_unique(objs, init);
        let o = synced(objs, init);
        let h = hints.last();
        let r = synced(objs, hints);
        if holds_suggestion(o, h.suggestion_id) {
            let i = index_of_suggestion(o, h.suggestion_id);
            assert forall|t: int| 0 <= t < r.len() implies (last_hint_for(hints, #[trigger] r[t].suggestion_id) matches Some(d) ==> r[t].suggestion == d) by {
                if t != i {
                    assert(r[t] == o[t]);
                    if t < i {
                        assert(o[t].suggestion_id != o[i].suggestion_id);
                    } else {
                        assert(o[i].suggestion_id != o[t].suggestion_id);
                    }
                }
            }
        } else {
            assert forall|t: int| 0 <= t < r.len() implies (last_hint_for(hints, #[trigger] r[t].suggestion_id) matches Some(d) ==> r[t].suggestion == d) by {
                if t < o.len() {
                    assert(r[t] == o[t]);
                    assert(o[t].suggestion_id != h.suggestion_id);
                }
            }
        }
    }
}

/// Object `o` with the data of the last of `hints` for its suggestion.
pub open spec fn refreshed<S, A>(o: PrelabelObject<S, A>, hints: Seq<PrelabelObject<S, A>>) -> PrelabelObject<S, A> {
    PrelabelObject {
        suggestion_id: o.suggestion_id,
        suggestion: match last_hint_for(hints, o.suggestion_id) {
            Some(d) => d,
            None => o.suggestion,
        },
        annotation_id: o.annotation_id,
        annotation: o.annotation,
    }
}

/// Showing hints whose suggestions are all under review only refreshes their
/// data: each object gets the data of the last hint for its suggestion.
proof fn lemma_synced_refresh<S, A>(objs: Seq<PrelabelObject<S, A>>, hints: Seq<PrelabelObject<S, A>>)
    requires
        suggestions_unique(objs),
        forall|k: int| 0 <= k < hints.len() ==> holds_suggestion(objs, #[trigger] hints[k].suggestion_id),
    ensures
        synced(objs, hints).len() == objs.len(),
        forall|t: int| 0 <= t < objs.len() ==> #[trigger] synced(objs, hints)[t] == refreshed(objs[t], hints),
    decreases hints.len(),
{
    if hints.len() > 0 {
        let init = hints.drop_last();
        assert forall|k: int| 0 <= k < init.len() implies holds_suggestion(objs, #[trigger] init[k].suggestion_id) by {
            assert(init[k] == hints[k]);
        }
        lemma_synced_refresh(objs, init);
        lemma_synced_unique(objs, init);
        let o = synced(objs, init);
        let h = hints.last();
        let r = synced(objs, hints);
        assert(holds_suggestion(objs, hints[hints.len() - 1].suggestion_id));
        let t0 = choose|t: int| 0 <= t < objs.len() && #[trigger] objs[t].suggestion_id == h.suggestion_id;
        assert(o[t0].suggestion_id == objs[t0].suggestion_id);
        assert(holds_suggestion(o, h.suggestion_id));
        let i = index_of_suggestion(o, h.suggestion_id);
        assert forall|t: int| 0 <= t < objs.len() implies #[trigger] r[t] == refreshed(objs[t], hints) by {
            assert(o[t].suggestion_id == objs[t].suggestion_id);
            if t != i {
                assert(r[t] == o[t]);
                if t < i {
                    assert(o[t].suggestion_id != o[i].suggestion_id);
                } else {
                    assert(o[i].suggestion_id != o[t].suggestion_id);
                }
            }
        }
    }
}

/// Showing the same hints a second time changes nothing: no object is added
/// and every object keeps its data.
pub proof fn showing_again_changes_nothing<S, A>(objs: Seq<PrelabelObject<S, A>>, hints: Seq<PrelabelObject<S, A>>)
    requires
        suggestions_unique(objs),
    ensures
        synced(synced(objs, hints), hints) == synced(objs, hints),
{
    let o1 = synced(objs, hints);
    lemma_synced_unique(objs, hints);
    lemma_synced_latest(objs, hints);
    lemma_synced_refresh(o1, hints);
    let o2 = synced(o1, hints);
    assert forall|t: int| 0 <= t < o1.len() implies #[trigger] o2[t] == o1[t] by {
        assert(last_hint_for(hints, o1[t].suggestion_id) matches Some(d) ==> o1[t].suggestion == d);
    }
    assert(o2 =~= o1);
}

/// Every object left after taking out annotation `aid` was there before and
/// stands for another annotation.
proof fn lemma_without_members<S, A>(objs: Seq<PrelabelObject<S, A>>, aid: u64)
    ensures
        forall|q: int| 0 <= q < without_annotation(objs, aid).len() ==> (#[trigger] without_annotation(objs, aid)[q]).annotation_id != aid
            && exists|t: int| 0 <= t < objs.len() && objs[t] == without_annotation(objs, aid)[q],
    decreases objs.len(),
{
    if objs.len() > 0 {
        let init = objs.drop_last();
        lemma_without_members(init, aid);
        let rest = without_annotation(init, aid);
        let w = without_annotation(objs, aid);
        assert forall|q: int| 0 <= q < w.len() implies (#[trigger] w[q]).annotation_id != aid
            && exists|t: int| 0 <= t < objs.len() && objs[t] == w[q] by {
            if q < rest.len() {
                assert(w[q] == rest[q]);
                let t = choose|t: int| 0 <= t < init.len() && init[t] == rest[q];
                assert(objs[t] == w[q]);
            } else {
                assert(objs[objs.len() - 1] == w[q]);
            }
        }
    }
}

/// Once the object at `k` is taken out of the review (confirmed or
/// dismissed), its suggestion is no longer under review.
pub proof fn taken_suggestion_leaves_review<S, A>(objs: Seq<PrelabelObject<S, A>>, k: int)
    requires
        suggestions_unique(objs),
        0 <= k < objs.len(),
    ensures
        !holds_suggestion(without_annotation(objs, objs[k].annotation_id), objs[k].suggestion_id),
{
    let aid = objs[k].annotation_id;
    let w = without_annotation(objs, aid);
    lemma_without_members(objs, aid);
    if holds_suggestion(w, objs[k].suggestion_id) {
        let q = choose|q: int| 0 <= q < w.len() && #[trigger] w[q].suggestion_id == objs[k].suggestion_id;
        assert(w[q].annotation_id != aid);
        let t = choose|t: int| 0 <= t < objs.len() && objs[t] == w[q];
        if t < k {
            assert(objs[t].suggestion_id != objs[k].suggestion_id);
        } else if k < t {
            assert(objs[k].suggestion_id != objs[t].suggestion_id);
        }
    }
}

/// The first position of `x` in `v`.
fn find_id(v: &Vec<u64>, x: u64) -> (r: Option<usize>)
    ensures
        match r {
            Some(i) => first_at(v@, x, i as int),
            None => !v@.contains(x),
        },
{
    let mut i: usize = 0;
    while i < v.len()
        invariant
            i <= v@.len(),
            forall|j: int| 0 <= j < i ==> #[trigger] v@[j] != x,
        decreases v@.len() - i,
    {
        if v[i] == x {
            return Some(i);
        }
        i += 1;
    }
    proof {
        if v@.contains(x) {
            let j = choose|j: int| 0 <= j < v@.len() && v@[j] == x;
            assert(v@[j] != x);
        }
    }
    None
}

/// At most one object waits per visible suggestion, and each is under review.
proof fn lemma_pending_len<S, A>(objs: Seq<PrelabelObject<S, A>>, visible: Seq<u64>)
    ensures
        pending_of(objs, visible).len() <= visible.len(),
    decreases visible.len(),
{
    if visible.len() > 0 {
        lemma_pending_len(objs, visible.drop_last());
    }
}

/// Position `k` moved `direction` steps among `n` positions, wrapping around.
fn step_index(k: usize, n: usize, direction: isize) -> (r: usize)
    requires
        k < n,
    ensures
        r < n,
        r as int == (k + direction) % (n as int),
{
    let m = n as u128;
    let r: u128 = if direction >= 0 {
        let d = (direction as u128) % m;
        proof {
            lemma_add_mod_noop_right(k as int, direction as int, n as int);
        }
        (k as u128 + d) % m
    } else {
        let e: u128 = (0i128 - direction as i128) as u128;
        let d = e % m;
        proof {
            lemma_mod_bound(e as int, n as int);
            lemma_mod_add_multiples_vanish(k - d, n as int);
            lemma_sub_mod_noop_right(k as int, e as int, n as int);
        }
        (k as u128 + (m - d)) % m
    };
    r as usize
}

impl<S, A> PrelabelReview<S, A> {
    /// No suggestion is reviewed twice.
    pub open spec fn wf(self) -> bool {
        suggestions_unique(self.objects@)
    }

    /// Nothing under review.
    pub fn new() -> (r: Self)
        ensures
            r.wf(),
            r.objects@.len() == 0,
            !r.changed,
            !r.started,
    {
        PrelabelReview { objects: Vec::new(), changed: false, started: false }
    }

    /// The positions in `objects` of the objects waiting, in the order of the
    /// `visible` suggestions.
    pub fn pending_prelabel_objects(&self, visible: &Vec<u64>) -> (r: Vec<usize>)
        requires
            self.wf(),
        ensures
            forall|k: int| 0 <= k < r@.len() ==> #[trigger] r@[k] < self.objects@.len(),
            r@.map_values(|i: usize| self.objects@[i as int]) == pending_of(self.objects@, visible@),
    {
        let ghost objs = self.objects@;
        let mut r: Vec<usize> = Vec::new();
        let mut k: usize = 0;
        while k < visible.len()
            invariant
                objs == self.objects@,
                suggestions_unique(objs),
                k <= visible@.len(),
                forall|q: int| 0 <= q < r@.len() ==> #[trigger] r@[q] < objs.len(),
                r@.map_values(|i: usize| objs[i as int]) == pending_of(objs, visible@.take(k as int)),
            decreases visible@.len() - k,
        {
            let found = find_suggestion(&self.objects, visible[k]);
            proof {
                assert(visible@.take(k as int + 1).drop_last() =~= visible@.take(k as int));
                assert(visible@.take(k as int + 1).last() == visible@[k as int]);
            }
            match found {
                Some(i) => {
                    let ghost before = r@;
                    r.push(i);
                    proof {
                        assert(r@.map_values(|i: usize| objs[i as int]) =~= before.map_values(
                            |i: usize| objs[i as int],
                        ).push(objs[i as int]));
                    }
                },
                None => {},
            }
            k += 1;
        }
        proof {
            assert(visible@.take(visible@.len() as int) =~= visible@);
        }
        r
    }

    /// The position in `objects` of the selected object, if it is waiting.
    pub fn selected_prelabel_object(&self, visible: &Vec<u64>, selected: Option<u64>) -> (r: Option<usize>)
        requires
            self.wf(),
        ensures
            match r {
                Some(i) => i < self.objects@.len() && (selected_position(pending_of(self.objects@, visible@), selected) matches Some(k)
                    && self.objects@[i as int] == pending_of(self.objects@, visible@)[k]),
                None => selected_position(pending_of(self.objects@, visible@), selected) is None,
            },
    {
        let pos = self.pending_prelabel_objects(visible);
        match selected {
            Some(aid) => match find_annotation_among(&self.objects, &pos, aid) {
                Some(k) => {
                    proof {
                        lemma_selected_at(pos@.map_values(|i: usize| self.objects@[i as int]), aid, k as int);
                    }
                    Some(pos[k])
                },
                None => None,
            },
            None => None,
        }
    }

    /// What the primary button does.
    pub fn prelabel_primary_action(&self, visible: &Vec<u64>, selected: Option<u64>) -> (r: PrelabelPrimaryAction)
        requires
            self.wf(),
        ensures
            r == primary_action_of(pending_of(self.objects@, visible@), selected),
    {
        if self.selected_prelabel_object(visible, selected).is_some() {
            PrelabelPrimaryAction::Confirm
        } else if self.pending_prelabel_objects(visible).len() > 0 {
            PrelabelPrimaryAction::Focus
        } else {
            PrelabelPrimaryAction::Submit
        }
    }

    /// The selection after moving `direction` steps through the waiting objects.
    pub fn cycle_prelabel_object(&self, visible: &Vec<u64>, selected: Option<u64>, direction: isize) -> (r: Option<u64>)
        requires
            self.wf(),
        ensures
            r == cycled(pending_of(self.objects@, visible@), selected, direction as int),
    {
        let pos = self.pending_prelabel_objects(visible);
        let ghost p = pos@.map_values(|i: usize| self.objects@[i as int]);
        let n = pos.len();
        if n == 0 {
            return selected;
        }
        let current = match selected {
            Some(aid) => find_annotation_among(&self.objects, &pos, aid),
            None => None,
        };
        match current {
            Some(k) => {
                proof {
                    lemma_selected_at(p, selected.unwrap(), k as int);
                }
                let next = step_index(k, n, direction);
                Some(self.objects[pos[next]].annotation_id)
            },
            None => {
                proof {
                    if let Some(aid) = selected {
                        assert(!holds_annotation(p, aid));
                    }
                }
                if direction < 0 {
                    Some(self.objects[pos[n - 1]].annotation_id)
                } else {
                    Some(self.objects[pos[0]].annotation_id)
                }
            },
        }
    }

    /// Shows `hints` (the visible suggestions, each with the annotation that
    /// would stand for it): updates the objects as [`synced`] says, marks the
    /// review started when an object was added, and returns the selection and
    /// whether to fit the view, as [`sync_outcome`] says.
    pub fn sync_prelabel_review(&mut self, hints: Vec<PrelabelObject<S, A>>, selected: Option<u64>) -> (r: (Option<u64>, bool))
        requires
            old(self).wf(),
        ensures
            final(self).wf(),
            final(self).objects@ == synced(old(self).objects@, hints@),
            final(self).started == (old(self).started || final(self).objects@.len() > old(self).objects@.len()),
            final(self).changed == old(self).changed,
            r == sync_outcome(old(self).objects@, pending_of(final(self).objects@, hint_ids(hints@)), selected),
    {
        let ghost all = hints@;
        let ghost start = self.objects@;
        let ghost started = self.started;
        let visible = ids_of(&hints);
        let was_pending = match selected {
            Some(aid) => any_annotation(&self.objects, aid),
            None => false,
        };
        let mut rest = hints;
        let count: usize = rest.len();
        let mut i: usize = 0;
        proof {
            assert(count == all.len());
            assert(rest@ =~= all.subrange(0, all.len() as int));
            assert(all.take(0) =~= Seq::<PrelabelObject<S, A>>::empty());
        }
        while rest.len() > 0
            invariant
                i + rest@.len() == all.len(),
                all.len() <= usize::MAX,
                rest@ == all.subrange(i as int, all.len() as int),
                self.objects@ == synced(start, all.take(i as int)),
                suggestions_unique(self.objects@),
                self.started == (started || self.objects@.len() > start.len()),
                self.changed == old(self).changed,
                self.objects@.len() >= start.len(),
            decreases rest@.len(),
        {
            let h = rest.remove(0);
            let ghost o = self.objects@;
            proof {
                assert(h == all[i as int]);
                assert(rest@ =~= all.subrange(i as int + 1, all.len() as int));
                assert(all.take(i as int + 1).drop_last() =~= all.take(i as int));
                assert(all.take(i as int + 1).last() == h);
            }
            match find_suggestion(&self.objects, h.suggestion_id) {
                Some(j) => {
                    let old_obj = self.objects.remove(j);
                    let updated = PrelabelObject {
                        suggestion_id: old_obj.suggestion_id,
                        suggestion: h.suggestion,
                        annotation_id: old_obj.annotation_id,
                        annotation: old_obj.annotation,
                    };
                    self.objects.insert(j, updated);
                    proof {
                        assert(self.objects@ =~= o.update(j as int, updated));
                        assert forall|a: int, b: int| 0 <= a < b < self.objects@.len() implies #[trigger] self.objects@[a].suggestion_id
                            != #[trigger] self.objects@[b].suggestion_id by {
                            assert(self.objects@[a].suggestion_id == o[a].suggestion_id);
                            assert(self.objects@[b].suggestion_id == o[b].suggestion_id);
                        }
                    }
                },
                None => {
                    self.started = true;
                    self.objects.push(h);
                    proof {
                        assert forall|a: int, b: int| 0 <= a < b < self.objects@.len() implies #[trigger] self.objects@[a].suggestion_id
                            != #[trigger] self.objects@[b].suggestion_id by {
                            if b == o.len() {
                                assert(self.objects@[a] == o[a]);
                                assert(o[a].suggestion_id != h.suggestion_id);
                            } else {
                                assert(o[a].suggestion_id != o[b].suggestion_id);
                            }
                        }
                    }
                },
            }
            i += 1;
        }
        proof {
            assert(all.take(all.len() as int) =~= all);
        }
        let pos = self.pending_prelabel_objects(&visible);
        let ghost p = pos@.map_values(|k: usize| self.objects@[k as int]);
        let empty = pos.len() == 0;
        let shown = match selected {
            Some(aid) => match find_annotation_among(&self.objects, &pos, aid) {
                Some(k) => {
                    proof {
                        lemma_selected_at(p, aid, k as int);
                    }
                    true
                },
                None => false,
            },
            None => false,
        };
        if selected.is_none() || (was_pending && !shown) {
            let first = if empty {
                None
            } else {
                Some(self.objects[pos[0]].annotation_id)
            };
            (first, was_pending && empty)
        } else {
            (selected, false)
        }
    }

    /// Takes the selected object out of the review when it is waiting: every
    /// object standing for its annotation leaves, the review counts as changed,
    /// and the first object still waiting is selected.
    pub fn delete_prelabel_object(&mut self, visible: &Vec<u64>, selected: Option<u64>) -> (r: ReviewStep<S, A>)
        requires
            old(self).wf(),
        ensures
            final(self).wf(),
            final(self).started == old(self).started,
            match selected_position(pending_of(old(self).objects@, visible@), selected) {
                None => {
                    &&& final(self).objects@ == old(self).objects@
                    &&& final(self).changed == old(self).changed
                    &&& !r.handled
                    &&& r.object is None
                    &&& r.selected == selected
                    &&& !r.fit_view
                },
                Some(k) => {
                    let item = pending_of(old(self).objects@, visible@)[k];
                    &&& final(self).objects@ == without_annotation(old(self).objects@, item.annotation_id)
                    &&& final(self).changed
                    &&& r.handled
                    &&& r.object == Some(item)
                    &&& r.selected == first_waiting(pending_of(final(self).objects@, visible@))
                    &&& r.fit_view == (r.selected is None)
                },
            },
    {
        let found = self.selected_prelabel_object(visible, selected);
        let i = match found {
            Some(i) => i,
            None => {
                return ReviewStep { handled: false, object: None, selected, fit_view: false };
            },
        };
        let aid = self.objects[i].annotation_id;
        let ghost all = self.objects@;
        let mut rest: Vec<PrelabelObject<S, A>> = Vec::new();
        std::mem::swap(&mut rest, &mut self.objects);
        let count: usize = rest.len();
        let mut kept: Vec<PrelabelObject<S, A>> = Vec::new();
        let mut taken: Option<PrelabelObject<S, A>> = None;
        let mut j: usize = 0;
        proof {
            assert(rest@ =~= all.subrange(0, all.len() as int));
            assert(all.take(0) =~= Seq::<PrelabelObject<S, A>>::empty());
        }
        while rest.len() > 0
            invariant
                count == all.len(),
                j + rest@.len() == all.len(),
                i < all.len(),
                all[i as int].annotation_id == aid,
                rest@ == all.subrange(j as int, all.len() as int),
                kept@ == without_annotation(all.take(j as int), aid),
                taken == if j > i { Some(all[i as int]) } else { None::<PrelabelObject<S, A>> },
            decreases rest@.len(),
        {
            let e = rest.remove(0);
            proof {
                assert(e == all[j as int]);
                assert(rest@ =~= all.subrange(j as int + 1, all.len() as int));
                assert(all.take(j as int + 1).drop_last() =~= all.take(j as int));
                assert(all.take(j as int + 1).last() == e);
            }
            if j == i {
                taken = Some(e);
            } else if e.annotation_id != aid {
                kept.push(e);
            }
            j += 1;
        }
        proof {
            assert(all.take(all.len() as int) =~= all);
            lemma_without_unique(all, aid);
        }
        self.objects = kept;
        self.changed = true;
        let next = self.advance_prelabel_object(visible);
        ReviewStep { handled: true, object: taken, selected: next, fit_view: next.is_none() }
    }

    /// Confirms the selected suggestion after showing `hints` (see [`sync_prelabel_review`]):
    /// when a waiting object is selected it is taken out as [`delete_prelabel_object`]
    /// says, for the caller to keep its annotation; otherwise the first waiting
    /// object is selected, if there is one.
    pub fn confirm_prelabel_object(&mut self, hints: Vec<PrelabelObject<S, A>>, selected: Option<u64>) -> (r: ReviewStep<S, A>)
        requires
            old(self).wf(),
        ensures
            final(self).wf(),
            ({
                let o1 = synced(old(self).objects@, hints@);
                let p1 = pending_of(o1, hint_ids(hints@));
                let (s1, f1) = sync_outcome(old(self).objects@, p1, selected);
                &&& final(self).started == (old(self).started || o1.len() > old(self).objects@.len())
                &&& match selected_position(p1, s1) {
                    None => {
                        &&& final(self).objects@ == o1
                        &&& final(self).changed == old(self).changed
                        &&& r.handled == (p1.len() > 0)
                        &&& r.object is None
                        &&& r.selected == (if p1.len() > 0 { first_waiting(p1) } else { s1 })
                        &&& r.fit_view == f1
                    },
                    Some(k) => {
                        &&& final(self).objects@ == without_annotation(o1, p1[k].annotation_id)
                        &&& final(self).changed
                        &&& r.handled
                        &&& r.object == Some(p1[k])
                        &&& r.selected == first_waiting(pending_of(final(self).objects@, hint_ids(hints@)))
                        &&& r.fit_view == (f1 || r.selected is None)
                    },
                }
            }),
    {
        let visible = ids_of(&hints);
        let (selected, fit) = self.sync_prelabel_review(hints, selected);
        if self.selected_prelabel_object(&visible, selected).is_none() {
            let next = self.advance_prelabel_object(&visible);
            if next.is_some() {
                return ReviewStep { handled: true, object: None, selected: next, fit_view: fit };
            }
            return ReviewStep { handled: false, object: None, selected, fit_view: fit };
        }
        let step = self.delete_prelabel_object(&visible, selected);
        ReviewStep { handled: step.handled, object: step.object, selected: step.selected, fit_view: fit || step.fit_view }
    }

    /// The progress text, shown once a review started and while the task has
    /// suggestions (`eligible`); `annotations` are the image's annotations
    /// listed before the waiting objects.
    pub fn prelabel_progress(&self, visible: &Vec<u64>, selected: Option<u64>, eligible: bool, annotations: &Vec<u64>) -> (r: Option<String>)
        requires
            self.wf(),
            annotations@.len() + visible@.len() <= usize::MAX,
        ensures
            match r {
                Some(t) => self.started && eligible && t@ == progress_text(pending_of(self.objects@, visible@), selected, annotations@),
                None => !self.started || !eligible,
            },
    {
        if !self.started || !eligible {
            return None;
        }
        let pos = self.pending_prelabel_objects(visible);
        let ghost p = pos@.map_values(|k: usize| self.objects@[k as int]);
        let ghost ids = p.map_values(|o: PrelabelObject<S, A>| o.annotation_id);
        let ghost all = annotations@ + ids;
        if pos.len() == 0 {
            return Some(String::from_str("Image overview"));
        }
        proof {
            lemma_pending_len(self.objects@, visible@);
            assert(pos@.len() == p.len());
        }
        let total = annotations.len() + pos.len();
        let position: Option<usize> = match selected {
            Some(aid) => match find_id(annotations, aid) {
                Some(i) => {
                    proof {
                        assert(all[i as int] == annotations@[i as int]);
                        assert(first_at(all, aid, i as int));
                    }
                    Some(i)
                },
                None => match find_annotation_among(&self.objects, &pos, aid) {
                    Some(k) => {
                        proof {
                            assert(all[annotations@.len() + k] == p[k as int].annotation_id);
                            assert forall|j: int| 0 <= j < annotations@.len() + k implies #[trigger] all[j] != aid by {
                                if j < annotations@.len() {
                                    assert(all[j] == annotations@[j]);
                                } else {
                                    assert(all[j] == p[j - annotations@.len()].annotation_id);
                                }
                            }
                            assert(first_at(all, aid, annotations@.len() + k));
                        }
                        Some(annotations.len() + k)
                    },
                    None => {
                        proof {
                            assert(!all.contains(aid)) by {
                                if all.contains(aid) {
                                    let j = choose|j: int| 0 <= j < all.len() && all[j] == aid;
                                    if j < annotations@.len() {
                                        assert(annotations@[j] == aid);
                                    } else {
                                        assert(p[j - annotations@.len()].annotation_id == aid);
                                    }
                                }
                            }
                        }
                        None
                    },
                },
            },
            None => None,
        };
        match position {
            Some(i) => {
                proof {
                    let aid = selected->0;
                    assert(all.contains(aid));
                    let c = choose|c: int| first_at(all, aid, c);
                    if c < i {
                        assert(all[c] != aid);
                    } else if i < c {
                        assert(all[i as int] != aid);
                    }
                }
                let mut t = String::from_str("Object ");
                let n = decimal_text((i + 1) as u64);
                t.append(n.as_str());
                t.append(" of ");
                let m = decimal_text(total as u64);
                t.append(m.as_str());
                Some(t)
            },
            None => {
                let mut t = decimal_text(pos.len() as u64);
                t.append(" to confirm");
                Some(t)
            },
        }
    }

    /// The position of the first object standing for annotation `aid`.
    pub fn position_of_annotation(&self, aid: u64) -> (r: Option<usize>)
        ensures
            match r {
                Some(i) => i < self.objects@.len() && self.objects@[i as int].annotation_id == aid
                    && forall|j: int| 0 <= j < i ==> #[trigger] self.objects@[j].annotation_id != aid,
                None => !holds_annotation(self.objects@, aid),
            },
    {
        let mut i: usize = 0;
        while i < self.objects.len()
            invariant
                i <= self.objects@.len(),
                forall|j: int| 0 <= j < i ==> #[trigger] self.objects@[j].annotation_id != aid,
            decreases self.objects@.len() - i,
        {
            if self.objects[i].annotation_id == aid {
                return Some(i);
            }
            i += 1;
        }
        None
    }

    /// Replaces the annotation of the object at `i` after an edit of its
    /// geometry; the review counts as changed.
    pub fn replace_annotation(&mut self, i: usize, annotation: A)
        requires
            old(self).wf(),
            i < old(self).objects@.len(),
        ensures
            final(self).wf(),
            final(self).objects@.len() == old(self).objects@.len(),
            forall|j: int| 0 <= j < old(self).objects@.len() && j != i ==> #[trigger] final(self).objects@[j] == old(self).objects@[j],
            final(self).objects@[i as int].suggestion_id == old(self).objects@[i as int].suggestion_id,
            final(self).objects@[i as int].suggestion == old(self).objects@[i as int].suggestion,
            final(self).objects@[i as int].annotation_id == old(self).objects@[i as int].annotation_id,
            final(self).objects@[i as int].annotation == annotation,
            final(self).changed,
            final(self).started == old(self).started,
    {
        let ghost o = self.objects@;
        let old_obj = self.objects.remove(i);
        let updated = PrelabelObject {
            suggestion_id: old_obj.suggestion_id,
            suggestion: old_obj.suggestion,
            annotation_id: old_obj.annotation_id,
            annotation,
        };
        self.objects.insert(i, updated);
        proof {
            assert(self.objects@ =~= o.update(i as int, updated));
            assert forall|a: int, b: int| 0 <= a < b < self.objects@.len() implies #[trigger] self.objects@[a].suggestion_id
                != #[trigger] self.objects@[b].suggestion_id by {
                assert(self.objects@[a].suggestion_id == o[a].suggestion_id);
                assert(self.objects@[b].suggestion_id == o[b].suggestion_id);
            }
        }
        self.changed = true;
    }

    /// The annotation a finished step selects: the first object waiting.
    pub fn advance_prelabel_object(&self, visible: &Vec<u64>) -> (r: Option<u64>)
        requires
            self.wf(),
        ensures
            r == first_waiting(pending_of(self.objects@, visible@)),
    {
        let pos = self.pending_prelabel_objects(visible);
        if pos.len() > 0 {
            Some(self.objects[pos[0]].annotation_id)
        } else {
            None
        }
    }
}

} // verus!

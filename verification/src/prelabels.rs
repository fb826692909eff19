//! Model hints (prelabels) while annotating: which hints are kept, which request
//! to make next, and what a reply changes.
use vstd::prelude::*;

use crate::assignment::{ImageId, TaskId};
use crate::keyed::{has_key, keys_unique, lemma_lookup_at, lemma_lookup_push, lemma_lookup_update, lookup};
use crate::queue::PrelabelSuggestion;

verus! {

/// Identifies a prelabel configuration (a model and its settings).
pub type ConfigId = u64;

/// Hints are for one image, one task and one configuration.
#[derive(Clone, Copy, Debug, PartialEq, Eq, Structural)]
pub struct HintKey {
    pub image: ImageId,
    pub task: TaskId,
    pub config: ConfigId,
}

/// The server's generation of hints: replaced when hints are reset, and paused
/// when hints were removed.
#[derive(Clone, Copy, Debug, PartialEq, Eq, Structural)]
pub struct Generation {
    pub id: u64,
    pub paused: bool,
}

/// Where hints were computed.
#[derive(Clone, Copy, Debug, PartialEq, Eq, Structural)]
pub enum ExecutionKind {
    BrowserWebGpu,
    BrowserCpu,
    Server,
}

/// What is known of the hints for one key.
#[derive(Clone, Debug)]
pub struct HintStatus {
    pub generation: Option<Generation>,
    pub error: Option<String>,
    pub from_batch: bool,
    pub execution: Option<ExecutionKind>,
    /// When the hints were last loaded or checked, on the app's clock (milliseconds).
    pub checked_at: u64,
}

/// A request for hints: load them, or check whether their generation changed.
#[derive(Clone, Copy, Debug, PartialEq, Eq, Structural)]
pub enum HintAction {
    Load(HintKey),
    Check(HintKey),
}

/// What a hint request returned.
#[derive(Clone, Debug)]
pub enum HintReply {
    Hints {
        suggestions: Vec<PrelabelSuggestion>,
        execution: Option<ExecutionKind>,
        generation: Generation,
        from_batch: bool,
    },
    Generation(Generation),
}

/// What a reply asks of the images being annotated.
#[derive(Clone, Debug)]
pub enum HintEffect {
    Nothing,
    /// Show these suggestions on `image`.
    SetSuggestions { image: ImageId, suggestions: Vec<PrelabelSuggestion> },
    /// The hint generation changed: drop every suggestion shown.
    ClearAll,
}

/// How long hints are trusted before their generation is checked again.
pub const CHECK_AFTER_MILLIS: u64 = 2_000;

/// The hints known while annotating, and the hint request in flight.
pub struct PrelabelWork {
    pending: Option<(u64, HintAction)>,
    hints: Vec<(HintKey, HintStatus)>,
}

/// The key that action `a` is for.
pub open spec fn action_key(a: HintAction) -> HintKey {
    match a {
        HintAction::Load(k) => k,
        HintAction::Check(k) => k,
    }
}

/// The status kept after an error `e`.
pub open spec fn error_text(e: Seq<char>) -> Seq<char> {
    "Hints unavailable: "@ + e + ". Manual annotation is still available."@
}

/// No hints are kept for image `images[i]`.
pub open spec fn hint_missing(hints: Seq<(HintKey, HintStatus)>, images: Seq<ImageId>, task: TaskId, config: ConfigId, i: int) -> bool {
    !has_key(hints, HintKey { image: images[i], task, config })
}

/// The next request for task `task` with configuration `config`, for `images`
/// (the current image first, then the prepared ones), given the kept `hints`:
/// load the hints of the first image without any, else check the current
/// image's hints once they are [`CHECK_AFTER_MILLIS`] old.
pub open spec fn next_request(
    hints: Seq<(HintKey, HintStatus)>,
    images: Seq<ImageId>,
    task: TaskId,
    config: ConfigId,
    now: u64,
) -> Option<HintAction> {
    if exists|i: int| 0 <= i < images.len() && #[trigger] hint_missing(hints, images, task, config, i) {
        let i = choose|i: int|
            0 <= i < images.len() && #[trigger] hint_missing(hints, images, task, config, i) && forall|j: int|
                0 <= j < i ==> !#[trigger] hint_missing(hints, images, task, config, j);
        Some(HintAction::Load(HintKey { image: images[i], task, config }))
    } else if images.len() > 0 && (lookup(hints, HintKey { image: images[0], task, config }) matches Some(
        s,
    ) && now >= s.checked_at + CHECK_AFTER_MILLIS) {
        Some(HintAction::Check(HintKey { image: images[0], task, config }))
    } else {
        None
    }
}

fn find_hint(v: &Vec<(HintKey, HintStatus)>, k: HintKey) -> (r: Option<usize>)
    ensures
        match r {
            Some(i) => i < v@.len() && v@[i as int].0 == k,
            None => !has_key(v@, k),
        },
{
    let mut i: usize = 0;
    while i < v.len()
        invariant
            i <= v@.len(),
            forall|j: int| 0 <= j < i ==> #[trigger] v@[j].0 != k,
        decreases v@.len() - i,
    {
        if v[i].0 == k {
            return Some(i);
        }
        i += 1;
    }
    None
}

fn contains_image(images: &Vec<ImageId>, image: ImageId) -> (r: bool)
    ensures
        r == images@.contains(image),
{
    let mut i: usize = 0;
    while i < images.len()
        invariant
            i <= images@.len(),
            forall|j: int| 0 <= j < i ==> images@[j] != image,
        decreases images@.len() - i,
    {
        if images[i] == image {
            return true;
        }
        i += 1;
    }
    false
}

impl PrelabelWork {
    /// The request in flight: its id and what it asks.
    pub closed spec fn pending(self) -> Option<(u64, HintAction)> {
        self.pending
    }

    /// The request in flight: its id and what it asks.
    pub fn in_flight(&self) -> (r: Option<(u64, HintAction)>)
        ensures
            r == self.pending(),
    {
        self.pending
    }

    /// The kept hints.
    pub closed spec fn hints(self) -> Seq<(HintKey, HintStatus)> {
        self.hints@
    }

    /// Each key is kept once.
    pub closed spec fn wf(self) -> bool {
        keys_unique(self.hints@)
    }

    /// No hints and no request.
    pub fn new() -> (w: PrelabelWork)
        ensures
            w.wf(),
            w.pending() is None,
            w.hints().len() == 0,
    {
        PrelabelWork { pending: None, hints: Vec::new() }
    }

    /// The hints kept for `key`.
    pub fn status(&self, key: HintKey) -> (r: Option<&HintStatus>)
        requires
            self.wf(),
        ensures
            match r {
                Some(s) => lookup(self.hints(), key) == Some(*s),
                None => lookup(self.hints(), key) is None,
            },
    {
        match find_hint(&self.hints, key) {
            Some(i) => {
                proof {
                    lemma_lookup_at(self.hints@, i as int);
                }
                Some(&self.hints[i].1)
            },
            None => None,
        }
    }

    /// Forgets every hint (the configuration changed or hints were reset).
    pub fn clear_hints(&mut self)
        ensures
            final(self).wf(),
            final(self).hints().len() == 0,
            final(self).pending() == old(self).pending(),
    {
        self.hints = Vec::new();
    }

    /// Forgets the hints for `key`, so that they are loaded again.
    pub fn forget(&mut self, key: HintKey)
        requires
            old(self).wf(),
        ensures
            final(self).wf(),
            forall|k: HintKey| #[trigger]
                lookup(final(self).hints(), k) == if k == key {
                    None
                } else {
                    lookup(old(self).hints(), k)
                },
            final(self).pending() == old(self).pending(),
    {
        let ghost before = self.hints@;
        match find_hint(&self.hints, key) {
            Some(i) => {
                self.hints.remove(i);
                proof {
                    let after = self.hints@;
                    assert(after == before.remove(i as int));
                    assert forall|a: int, b: int| 0 <= a < b < after.len() implies #[trigger] after[a].0
                        != #[trigger] after[b].0 by {
                        let a0 = if a < i { a } else { a + 1 };
                        let b0 = if b < i { b } else { b + 1 };
                        assert(after[a] == before[a0] && after[b] == before[b0]);
                        assert(before[a0].0 != before[b0].0);
                    }
                    assert forall|k: HintKey| #[trigger]
                        lookup(after, k) == if k == key {
                            None
                        } else {
                            lookup(before, k)
                        } by {
                        if has_key(after, k) {
                            let j = choose|j: int| 0 <= j < after.len() && #[trigger] after[j].0 == k;
                            let j0 = if j < i { j } else { j + 1 };
                            assert(after[j] == before[j0]);
                            lemma_lookup_at(after, j);
                            lemma_lookup_at(before, j0);
                            if k == key {
                                assert(before[j0].0 != before[i as int].0 || j0 == i);
                            }
                        } else if has_key(before, k) && k != key {
                            let j = choose|j: int| 0 <= j < before.len() && #[trigger] before[j].0 == k;
                            assert(j != i);
                            let j1 = if j < i { j } else { j - 1 };
                            assert(after[j1] == before[j]);
                        }
                    }
                }
            },
            None => {},
        }
    }

    /// Registers request `request_id` for `action`.
    pub fn start(&mut self, request_id: u64, action: HintAction)
        ensures
            final(self).pending() == Some((request_id, action)),
            final(self).hints() == old(self).hints(),
    {
        self.pending = Some((request_id, action));
    }

    /// Cancels the request in flight; its id, if there was one.
    pub fn cancel_load(&mut self) -> (cancelled: Option<u64>)
        ensures
            final(self).pending() is None,
            final(self).hints() == old(self).hints(),
            cancelled == match old(self).pending() {
                Some((id, _)) => Some(id),
                None => None,
            },
    {
        match self.pending.take() {
            Some((id, _)) => Some(id),
            None => None,
        }
    }

    /// Keeps only the hints for `images`.
    fn retain_images(&mut self, images: &Vec<ImageId>)
        requires
            old(self).wf(),
        ensures
            final(self).wf(),
            final(self).pending() == old(self).pending(),
            forall|k: HintKey| #[trigger]
                lookup(final(self).hints(), k) == if images@.contains(k.image) {
                    lookup(old(self).hints(), k)
                } else {
                    None
                },
    {
        let ghost all = self.hints@;
        let count = self.hints.len();
        let mut rest: Vec<(HintKey, HintStatus)> = Vec::new();
        std::mem::swap(&mut rest, &mut self.hints);
        let mut kept: Vec<(HintKey, HintStatus)> = Vec::new();
        let mut i: usize = 0;
        assert(rest@ =~= all.subrange(0, all.len() as int));
        while rest.len() > 0
            invariant
                keys_unique(all),
                i + rest@.len() == all.len(),
                all.len() == count,
                rest@ == all.subrange(i as int, all.len() as int),
                keys_unique(kept@),
                forall|k: HintKey| #[trigger]
                    lookup(kept@, k) == if images@.contains(k.image) {
                        lookup(all.take(i as int), k)
                    } else {
                        None
                    },
            decreases rest@.len(),
        {
            let e = rest.remove(0);
            let ghost before = kept@;
            proof {
                assert(e == all[i as int]);
                assert(rest@ =~= all.subrange(i as int + 1, all.len() as int));
                assert(all.take(i as int + 1) =~= all.take(i as int).push(e));
                assert(keys_unique(all.take(i as int))) by {
                    assert forall|a: int, b: int| 0 <= a < b < all.take(i as int).len() implies #[trigger] all.take(i as int)[a].0
                        != #[trigger] all.take(i as int)[b].0 by {
                        assert(all[a].0 != all[b].0);
                    }
                }
                assert(!has_key(all.take(i as int), e.0)) by {
                    if has_key(all.take(i as int), e.0) {
                        let j = choose|j: int| 0 <= j < all.take(i as int).len() && #[trigger] all.take(i as int)[j].0 == e.0;
                        assert(all[j].0 != all[i as int].0);
                    }
                }
                lemma_lookup_push(all.take(i as int), e.0, e.1);
            }
            if contains_image(images, e.0.image) {
                proof {
                    assert(!has_key(before, e.0)) by {
                        if has_key(before, e.0) {
                            let j = choose|j: int| 0 <= j < before.len() && #[trigger] before[j].0 == e.0;
                            lemma_lookup_at(before, j);
                        }
                    }
                    lemma_lookup_push(before, e.0, e.1);
                }
                kept.push(e);
            }
            i += 1;
        }
        proof {
            assert(all.take(all.len() as int) =~= all);
        }
        self.hints = kept;
    }

    /// The first of `images` without hints for `task` and `config`.
    fn first_without_hints(&self, images: &Vec<ImageId>, task: TaskId, config: ConfigId) -> (r: Option<usize>)
        requires
            self.wf(),
        ensures
            match r {
                Some(i) => i < images@.len() && hint_missing(self.hints@, images@, task, config, i as int)
                    && forall|j: int| 0 <= j < i ==> !#[trigger] hint_missing(self.hints@, images@, task, config, j),
                None => forall|j: int| 0 <= j < images@.len() ==> !#[trigger] hint_missing(self.hints@, images@, task, config, j),
            },
    {
        let mut i: usize = 0;
        while i < images.len()
            invariant
                i <= images@.len(),
                forall|j: int| 0 <= j < i ==> !#[trigger] hint_missing(self.hints@, images@, task, config, j),
            decreases images@.len() - i,
        {
            if find_hint(&self.hints, HintKey { image: images[i], task, config }).is_none() {
                return Some(i);
            }
            i += 1;
        }
        None
    }

    /// Brings the hints up to date for task `task` with configuration `config`,
    /// while `images` (the current image first, then the prepared ones) are
    /// shown, at app time `now`: hints of other images are dropped; a request in
    /// flight that no longer helps is cancelled (handed back); then, with no
    /// request in flight, the next request to make is handed back.
    pub fn refresh(&mut self, task: TaskId, config: ConfigId, images: &Vec<ImageId>, now: u64) -> (r: (
        Option<u64>,
        Option<HintAction>,
    ))
        requires
            old(self).wf(),
            now < u64::MAX - CHECK_AFTER_MILLIS,
        ensures
            final(self).wf(),
            forall|k: HintKey| #[trigger]
                lookup(final(self).hints(), k) == if images@.contains(k.image) {
                    lookup(old(self).hints(), k)
                } else {
                    None
                },
            ({
                let first_missing = images@.len() > 0 && !has_key(
                    final(self).hints(),
                    HintKey { image: images@[0], task, config },
                );
                let obsolete = match old(self).pending() {
                    Some((_, a)) => {
                        let q = action_key(a);
                        q.task != task || q.config != config || !images@.contains(q.image) || (
                        first_missing && images@[0] != q.image)
                    },
                    None => false,
                };
                &&& r.0 == if obsolete {
                    match old(self).pending() {
                        Some((id, _)) => Some(id),
                        None => None,
                    }
                } else {
                    None
                }
                &&& final(self).pending() == if obsolete {
                    None
                } else {
                    old(self).pending()
                }
                &&& r.1 == if final(self).pending() is Some {
                    None
                } else {
                    next_request(final(self).hints(), images@, task, config, now)
                }
            }),
    {
        self.retain_images(images);
        let first_missing = images.len() > 0 && find_hint(&self.hints, HintKey { image: images[0], task, config }).is_none();
        let obsolete = match self.pending {
            Some((_, action)) => {
                let q = match action {
                    HintAction::Load(k) => k,
                    HintAction::Check(k) => k,
                };
                q.task != task || q.config != config || !contains_image(images, q.image) || (first_missing
                    && images[0] != q.image)
            },
            None => false,
        };
        let cancelled = if obsolete {
            self.cancel_load()
        } else {
            None
        };
        if self.pending.is_some() {
            return (cancelled, None);
        }
        match self.first_without_hints(images, task, config) {
            Some(i) => {
                proof {
                    let hints = self.hints@;
                    let f = choose|f: int|
                        0 <= f < images@.len() && #[trigger] hint_missing(hints, images@, task, config, f) && forall|j: int|
                            0 <= j < f ==> !#[trigger] hint_missing(hints, images@, task, config, j);
                    if f < i {
                        assert(!hint_missing(hints, images@, task, config, f));
                    } else if f > i {
                        assert(!hint_missing(hints, images@, task, config, i as int));
                    }
                }
                return (cancelled, Some(HintAction::Load(HintKey { image: images[i], task, config })));
            },
            None => {},
        }
        if images.len() > 0 {
            let key = HintKey { image: images[0], task, config };
            match find_hint(&self.hints, key) {
                Some(j) => {
                    proof {
                        lemma_lookup_at(self.hints@, j as int);
                    }
                    if now >= self.hints[j].1.checked_at && now - self.hints[j].1.checked_at >= CHECK_AFTER_MILLIS {
                        return (cancelled, Some(HintAction::Check(key)));
                    }
                },
                None => {},
            }
        }
        (cancelled, None)
    }

    /// Keeps `status` for `key`, replacing what was kept.
    fn keep(&mut self, key: HintKey, status: HintStatus)
        requires
            old(self).wf(),
        ensures
            final(self).wf(),
            final(self).pending() == old(self).pending(),
            forall|k: HintKey| #[trigger]
                lookup(final(self).hints(), k) == if k == key {
                    Some(status)
                } else {
                    lookup(old(self).hints(), k)
                },
    {
        let ghost before = self.hints@;
        match find_hint(&self.hints, key) {
            Some(i) => {
                self.hints.set(i, (key, status));
                proof {
                    lemma_lookup_update(before, i as int, status);
                }
            },
            None => {
                self.hints.push((key, status));
                proof {
                    lemma_lookup_push(before, key, status);
                }
            },
        }
    }

    /// Takes in the result of hint request `request_id` at app time `now`, while
    /// `choice` is the configuration chosen for the request's task. Results of
    /// another request change nothing; a result for a configuration no longer
    /// chosen only ends the request. Hints are kept and shown; a changed
    /// generation drops every hint (keeping only the paused one, which explains
    /// itself); a check that finds the same generation restarts its clock; an
    /// error is kept with an explanation until an explicit retry.
    pub fn accept(&mut self, request_id: u64, result: Result<HintReply, String>, choice: Option<ConfigId>, now: u64) -> (effect: HintEffect)
        requires
            old(self).wf(),
        ensures
            final(self).wf(),
            match old(self).pending() {
                Some((id, action)) if id == request_id => {
                    let key = action_key(action);
                    &&& final(self).pending() is None
                    &&& if choice != Some(key.config) {
                        final(self).hints() == old(self).hints() && effect is Nothing
                    } else {
                        match result {
                            Ok(HintReply::Hints { suggestions, execution, generation, from_batch }) => {
                                &&& (effect matches HintEffect::SetSuggestions { image, suggestions: shown } && image
                                    == key.image && shown@ == suggestions@)
                                &&& forall|k: HintKey| #[trigger]
                                    lookup(final(self).hints(), k) == if k == key {
                                        Some(
                                            HintStatus {
                                                generation: Some(generation),
                                                error: None,
                                                from_batch,
                                                execution,
                                                checked_at: now,
                                            },
                                        )
                                    } else {
                                        lookup(old(self).hints(), k)
                                    }
                            },
                            Ok(HintReply::Generation(g)) => {
                                let changed = (lookup(old(self).hints(), key) matches Some(s) && (s.generation matches Some(
                                    previous,
                                ) && previous != g));
                                if changed {
                                    &&& effect is ClearAll
                                    &&& forall|k: HintKey| #[trigger]
                                        lookup(final(self).hints(), k) == if g.paused && k == key {
                                            Some(
                                                HintStatus {
                                                    generation: Some(g),
                                                    error: None,
                                                    from_batch: false,
                                                    execution: None,
                                                    checked_at: now,
                                                },
                                            )
                                        } else {
                                            None
                                        }
                                } else {
                                    &&& effect is Nothing
                                    &&& forall|k: HintKey| #[trigger]
                                        lookup(final(self).hints(), k) == if k == key && lookup(
                                            old(self).hints(),
                                            key,
                                        ) is Some {
                                            Some(
                                                HintStatus {
                                                    generation: lookup(old(self).hints(), key)->0.generation,
                                                    error: lookup(old(self).hints(), key)->0.error,
                                                    from_batch: lookup(old(self).hints(), key)->0.from_batch,
                                                    execution: lookup(old(self).hints(), key)->0.execution,
                                                    checked_at: now,
                                                },
                                            )
                                        } else {
                                            lookup(old(self).hints(), k)
                                        }
                                }
                            },
                            Err(e) => {
                                &&& effect is Nothing
                                &&& (lookup(final(self).hints(), key) matches Some(st) && st.generation is None
                                    && (st.error matches Some(t) && t@ == error_text(e@)) && !st.from_batch
                                    && st.execution is None && st.checked_at == now)
                                &&& forall|k: HintKey| k != key ==> #[trigger] lookup(final(self).hints(), k) == lookup(old(self).hints(), k)
                            },
                        }
                    }
                },
                _ => final(self).pending() == old(self).pending() && final(self).hints() == old(self).hints() && effect is Nothing,
            },
    {
        let action = match self.pending {
            Some((id, action)) => if id == request_id {
                action
            } else {
                return HintEffect::Nothing;
            },
            None => {
                return HintEffect::Nothing;
            },
        };
        self.pending = None;
        let key = match action {
            HintAction::Load(k) => k,
            HintAction::Check(k) => k,
        };
        let chosen = match choice {
            Some(c) => c == key.config,
            None => false,
        };
        if !chosen {
            return HintEffect::Nothing;
        }
        match result {
            Ok(HintReply::Hints { suggestions, execution, generation, from_batch }) => {
                self.keep(key, HintStatus { generation: Some(generation), error: None, from_batch, execution, checked_at: now });
                HintEffect::SetSuggestions { image: key.image, suggestions }
            },
            Ok(HintReply::Generation(g)) => {
                let found = find_hint(&self.hints, key);
                let changed = match found {
                    Some(i) => {
                        proof {
                            lemma_lookup_at(self.hints@, i as int);
                        }
                        match self.hints[i].1.generation {
                            Some(previous) => previous != g,
                            None => false,
                        }
                    },
                    None => false,
                };
                if changed {
                    self.clear_hints();
                    if g.paused {
                        self.keep(key, HintStatus { generation: Some(g), error: None, from_batch: false, execution: None, checked_at: now });
                    }
                    HintEffect::ClearAll
                } else {
                    match found {
                        Some(i) => {
                            let ghost before = self.hints@;
                            let old_status = self.hints.remove(i);
                            let refreshed = HintStatus {
                                generation: old_status.1.generation,
                                error: old_status.1.error,
                                from_batch: old_status.1.from_batch,
                                execution: old_status.1.execution,
                                checked_at: now,
                            };
                            self.hints.insert(i, (key, refreshed));
                            proof {
                                assert(self.hints@ == before.update(i as int, (key, refreshed))) by {
                                    assert(self.hints@ =~= before.update(i as int, (key, refreshed)));
                                }
                                lemma_lookup_update(before, i as int, refreshed);
                            }
                        },
                        None => {},
                    }
                    HintEffect::Nothing
                }
            },
            Err(error) => {
                let mut text = String::from_str("Hints unavailable: ");
                text.append(error.as_str());
                text.append(". Manual annotation is still available.");
                self.keep(key, HintStatus { generation: None, error: Some(text), from_batch: false, execution: None, checked_at: now });
                HintEffect::Nothing
            },
        }
    }
}

/// The configuration chosen for hints on a task: the one the user picked for
/// it while it is still offered, none where the user picked none or it is no
/// longer offered; without a pick, the first one offered. `available` lists
/// the configurations offered for the task (to annotators and valid for it),
/// in the dataset's order; nothing is chosen for a task the dataset lacks.
pub open spec fn chosen_config(task_known: bool, picked: Option<Option<ConfigId>>, available: Seq<ConfigId>) -> Option<ConfigId> {
    if !task_known {
        None
    } else {
        match picked {
            Some(Some(id)) => if available.contains(id) {
                Some(id)
            } else {
                None
            },
            Some(None) => None,
            None => if available.len() > 0 {
                Some(available[0])
            } else {
                None
            },
        }
    }
}

/// The configuration chosen for hints on a task, as [`chosen_config`] states.
pub fn prelabel_choice(task_known: bool, picked: Option<Option<ConfigId>>, available: &Vec<ConfigId>) -> (r: Option<ConfigId>)
    ensures
        r == chosen_config(task_known, picked, available@),
{
    if !task_known {
        return None;
    }
    match picked {
        Some(Some(id)) => {
            let mut i: usize = 0;
            while i < available.len()
                invariant
                    task_known,
                    picked == Some(Some(id)),
                    i <= available@.len(),
                    forall|j: int| 0 <= j < i ==> available@[j] != id,
                decreases available@.len() - i,
            {
                if available[i] == id {
                    proof {
                        assert(available@[i as int] == id);
                        assert(available@.contains(id));
                    }
                    return Some(id);
                }
                i += 1;
            }
            None
        },
        Some(None) => None,
        None => if available.len() > 0 {
            Some(available[0])
        } else {
            None
        },
    }
}

} // verus!

//! Small decisions of the workspace: why a workflow card is marked, what a
//! shortcut button says, and when the bars above and below the image keep
//! what they show.
use vstd::prelude::*;

use crate::assignment::TaskId;
use crate::export::DatasetId;

verus! {

/// Why no work of a workflow can be taken.
#[derive(Clone, Copy, Debug, PartialEq, Eq, Structural)]
pub enum WorkflowUnavailableReason {
    BalanceLimit,
    ReviewDisabled,
    EmptyDataset,
    AnnotationFinished,
    NothingAwaitingReview,
    ClaimedByOthers,
    ReviewRevision,
    ImportExcluded,
    ReviewFinalized,
    Unavailable,
}

/// Why a workflow card is marked rather than offered.
#[derive(Clone, Copy, Debug, PartialEq, Eq, Structural)]
pub enum WorkflowMarkerReason {
    Saving,
    ImageLoading,
    Transition,
    Checking,
    CheckFailed,
    Unavailable(WorkflowUnavailableReason),
}

/// The label of marker reason `r`.
pub open spec fn marker_label(r: WorkflowMarkerReason) -> Seq<char> {
    match r {
        WorkflowMarkerReason::Saving => "Saving changes"@,
        WorkflowMarkerReason::ImageLoading => "Loading image"@,
        WorkflowMarkerReason::Transition => "Finish or cancel the current transition"@,
        WorkflowMarkerReason::Checking => "Checking for available work"@,
        WorkflowMarkerReason::CheckFailed => "Availability unknown. You can still try selecting this workflow"@,
        WorkflowMarkerReason::Unavailable(reason) => match reason {
            WorkflowUnavailableReason::BalanceLimit => "Other workflows need to catch up"@,
            WorkflowUnavailableReason::ReviewDisabled => "Review is disabled for this workflow"@,
            WorkflowUnavailableReason::EmptyDataset => "This dataset has no images"@,
            WorkflowUnavailableReason::AnnotationFinished => "No annotation work remaining"@,
            WorkflowUnavailableReason::NothingAwaitingReview => "No work awaiting review"@,
            WorkflowUnavailableReason::ClaimedByOthers => "Available work is assigned to others"@,
            WorkflowUnavailableReason::ReviewRevision => "Work is locked for review revision"@,
            WorkflowUnavailableReason::ImportExcluded => "Imported images are excluded from annotation"@,
            WorkflowUnavailableReason::ReviewFinalized => "Review is already complete"@,
            WorkflowUnavailableReason::Unavailable => "No assignments available"@,
        },
    }
}

impl WorkflowMarkerReason {
    /// What the marker says.
    pub fn label(self) -> (r: &'static str)
        ensures
            r@ == marker_label(self),
    {
        match self {
            WorkflowMarkerReason::Saving => "Saving changes",
            WorkflowMarkerReason::ImageLoading => "Loading image",
            WorkflowMarkerReason::Transition => "Finish or cancel the current transition",
            WorkflowMarkerReason::Checking => "Checking for available work",
            WorkflowMarkerReason::CheckFailed => "Availability unknown. You can still try selecting this workflow",
            WorkflowMarkerReason::Unavailable(reason) => match reason {
                WorkflowUnavailableReason::BalanceLimit => "Other workflows need to catch up",
                WorkflowUnavailableReason::ReviewDisabled => "Review is disabled for this workflow",
                WorkflowUnavailableReason::EmptyDataset => "This dataset has no images",
                WorkflowUnavailableReason::AnnotationFinished => "No annotation work remaining",
                WorkflowUnavailableReason::NothingAwaitingReview => "No work awaiting review",
                WorkflowUnavailableReason::ClaimedByOthers => "Available work is assigned to others",
                WorkflowUnavailableReason::ReviewRevision => "Work is locked for review revision",
                WorkflowUnavailableReason::ImportExcluded => "Imported images are excluded from annotation",
                WorkflowUnavailableReason::ReviewFinalized => "Review is already complete",
                WorkflowUnavailableReason::Unavailable => "No assignments available",
            },
        }
    }
}

/// What the workspace knows when it marks a workflow card.
#[derive(Clone, Copy, Debug, PartialEq, Eq, Structural)]
pub struct MarkerInputs {
    pub saving: bool,
    pub image_loading: bool,
    pub transition_pending: bool,
    /// The kind of work is known and the availability was checked for the
    /// current dataset and that kind.
    pub availability_current: bool,
    pub availability_failed: bool,
    /// The card is shown as unavailable, and why, if the server said.
    pub shown_unavailable: bool,
    pub reason: Option<WorkflowUnavailableReason>,
    pub availability_loading: bool,
}

/// Why a workflow card is marked: saving, loading an image or a transition in
/// progress come first; then, for a check of the current dataset and kind, a
/// failed check, a known unavailability (unspecified when no reason was given),
/// or a check in progress; otherwise the card is not marked.
pub fn marker_reason(i: MarkerInputs) -> (r: Option<WorkflowMarkerReason>)
    ensures
        r == if i.saving {
            Some(WorkflowMarkerReason::Saving)
        } else if i.image_loading {
            Some(WorkflowMarkerReason::ImageLoading)
        } else if i.transition_pending {
            Some(WorkflowMarkerReason::Transition)
        } else if !i.availability_current {
            None
        } else if i.availability_failed {
            Some(WorkflowMarkerReason::CheckFailed)
        } else if i.shown_unavailable {
            Some(
                WorkflowMarkerReason::Unavailable(
                    match i.reason {
                        Some(reason) => reason,
                        None => WorkflowUnavailableReason::Unavailable,
                    },
                ),
            )
        } else if i.availability_loading {
            Some(WorkflowMarkerReason::Checking)
        } else {
            None
        },
{
    if i.saving {
        return Some(WorkflowMarkerReason::Saving);
    }
    if i.image_loading {
        return Some(WorkflowMarkerReason::ImageLoading);
    }
    if i.transition_pending {
        return Some(WorkflowMarkerReason::Transition);
    }
    if !i.availability_current {
        return None;
    }
    if i.availability_failed {
        return Some(WorkflowMarkerReason::CheckFailed);
    }
    if i.shown_unavailable {
        return Some(
            WorkflowMarkerReason::Unavailable(
                match i.reason {
                    Some(reason) => reason,
                    None => WorkflowUnavailableReason::Unavailable,
                },
            ),
        );
    }
    if i.availability_loading {
        Some(WorkflowMarkerReason::Checking)
    } else {
        None
    }
}

/// The label of a shortcut button: the shortcut, or `fallback` when it has none.
pub fn shortcut_button_label(shortcut: &str, fallback: &str) -> (r: String)
    ensures
        r@ == if shortcut@.len() == 0 {
            fallback@
        } else {
            shortcut@
        },
{
    if shortcut.unicode_len() == 0 {
        String::from_str(fallback)
    } else {
        String::from_str(shortcut)
    }
}

/// What the workspace bars belong to: the sign-in and workspace epochs, the
/// view (by its number), the dataset and the selected task.
#[derive(Clone, Copy, Debug, PartialEq, Eq, Structural)]
pub struct BarScope {
    pub auth_epoch: u64,
    pub workspace_epoch: u64,
    pub view: u64,
    pub dataset: DatasetId,
    pub task: Option<TaskId>,
}

/// What the workspace bars show, kept while the next image loads so that the
/// bars do not flicker; a new scope clears it.
pub struct WorkspaceBars<P> {
    scope: Option<BarScope>,
    presentation: Option<P>,
}

impl<P> WorkspaceBars<P> {
    /// The scope the bars belong to.
    pub closed spec fn scope(self) -> Option<BarScope> {
        self.scope
    }

    /// What the bars show, if anything.
    pub closed spec fn shown(self) -> Option<P> {
        self.presentation
    }

    /// Bars of no scope, showing nothing.
    pub fn new() -> (r: Self)
        ensures
            r.scope() is None,
            r.shown() is None,
    {
        WorkspaceBars { scope: None, presentation: None }
    }

    /// Brings the bars up to date in `scope` as [`shown_after`] says, given
    /// what the workspace is doing (`inputs`) and `current`, the presentation of
    /// the current image, if there is one.
    pub fn sync_workspace_bars(&mut self, scope: BarScope, inputs: BarInputs, current: Option<P>)
        ensures
            final(self).scope() == Some(scope),
            final(self).shown() == shown_after(old(self).scope(), old(self).shown(), scope, inputs, current),
    {
        let same = match self.scope {
            Some(s) => s == scope,
            None => false,
        };
        let kept = inputs.work_view && !inputs.session_loading && !inputs.logout_loading;
        if !same || !kept {
            self.scope = Some(scope);
            self.presentation = None;
        }
        if workspace_bars_loading(inputs, current.is_some()) {
            return;
        }
        self.presentation = if !inputs.api_available || inputs.has_assignment {
            current
        } else {
            None
        };
    }

    /// The bars are blank: loading (see [`bars_loading`], with a current
    /// image or not) with nothing kept to show.
    pub fn workspace_bars_blank(&self, inputs: BarInputs, has_current: bool) -> (r: bool)
        ensures
            r == (bars_loading(inputs, has_current) && self.shown() is None),
    {
        workspace_bars_loading(inputs, has_current) && self.presentation.is_none()
    }

    /// What the bars show, if anything.
    pub fn presentation(&self) -> (r: Option<&P>)
        ensures
            match r {
                Some(p) => self.shown() == Some(*p),
                None => self.shown() is None,
            },
    {
        match &self.presentation {
            Some(p) => Some(p),
            None => None,
        }
    }
}

/// What the workspace is doing, as far as the workspace bars read it.
#[derive(Clone, Copy, Debug, PartialEq, Eq, Structural)]
pub struct BarInputs {
    /// A work view (annotating or reviewing) is shown.
    pub work_view: bool,
    pub session_loading: bool,
    pub dataset_loading: bool,
    pub image_loading: bool,
    pub logout_loading: bool,
    /// Available work is being checked, and an image is to load once known.
    pub availability_loading: bool,
    pub load_after_resolution: bool,
    /// A server is configured.
    pub api_available: bool,
    /// An assignment is held.
    pub has_assignment: bool,
}

/// The bars are loading: a session, dataset, image or sign-out is loading, or,
/// without a current image, the available work is checked to load one.
pub open spec fn bars_loading(i: BarInputs, has_current: bool) -> bool {
    i.session_loading || i.dataset_loading || i.image_loading || i.logout_loading || (!has_current
        && i.availability_loading && i.load_after_resolution)
}

/// Whether the bars are loading, as [`bars_loading`] says.
pub fn workspace_bars_loading(inputs: BarInputs, has_current: bool) -> (r: bool)
    ensures
        r == bars_loading(inputs, has_current),
{
    inputs.session_loading || inputs.dataset_loading || inputs.image_loading || inputs.logout_loading || (!has_current
        && inputs.availability_loading && inputs.load_after_resolution)
}

/// What the bars show after an update in `scope` (see
/// [`WorkspaceBars::sync_workspace_bars`]), from what they belonged to and
/// showed before: they are cleared when the scope changed, no work view is
/// shown, or a session or sign-out is loading; while loading they keep what is
/// left; otherwise they show the current image's presentation when there is no
/// server or an assignment is held, and nothing else.
pub open spec fn shown_after<P>(
    scope_before: Option<BarScope>,
    shown_before: Option<P>,
    scope: BarScope,
    inputs: BarInputs,
    current: Option<P>,
) -> Option<P> {
    let kept = inputs.work_view && !inputs.session_loading && !inputs.logout_loading;
    if bars_loading(inputs, current is Some) {
        if scope_before == Some(scope) && kept {
            shown_before
        } else {
            None
        }
    } else if !inputs.api_available || inputs.has_assignment {
        current
    } else {
        None
    }
}

/// What the bars show survives loading the next image in the same scope and
/// work view, and nothing survives a change of scope while loading.
pub proof fn presentation_survives_image_transitions<P>(
    scope_before: Option<BarScope>,
    shown_before: Option<P>,
    scope: BarScope,
    inputs: BarInputs,
    current: Option<P>,
)
    requires
        inputs.image_loading,
    ensures
        inputs.work_view && !inputs.session_loading && !inputs.logout_loading && scope_before == Some(scope)
            ==> shown_after(scope_before, shown_before, scope, inputs, current) == shown_before,
        scope_before != Some(scope) ==> shown_after(scope_before, shown_before, scope, inputs, current) is None,
{
}

/// The review bar's primary button: submit a changed object, else approve.
pub fn review_primary_label(changed: bool) -> (r: &'static str)
    ensures
        r@ == if changed {
            "Submit correction"@
        } else {
            "Approve"@
        },
{
    if changed {
        "Submit correction"
    } else {
        "Approve"
    }
}

/// The review bar's next button: the overview after the last of `targets`
/// objects, else the next object.
pub fn review_next_label(position: usize, targets: usize) -> (r: &'static str)
    ensures
        r@ == if position + 1 == targets {
            "Overview"@
        } else {
            "Next object"@
        },
{
    if targets > 0 && position == targets - 1 {
        "Overview"
    } else {
        "Next object"
    }
}

} // verus!

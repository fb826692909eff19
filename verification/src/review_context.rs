//! What a review shows about itself: the workflow, the class, the position in the
//! review and the decisions so far, as lines of text.
use vstd::prelude::*;

use crate::contributors::ReviewDecision;

verus! {

/// The decimal digit `d` (below ten).
pub open spec fn digit_char(d: nat) -> char {
    if d == 0 {
        '0'
    } else if d == 1 {
        '1'
    } else if d == 2 {
        '2'
    } else if d == 3 {
        '3'
    } else if d == 4 {
        '4'
    } else if d == 5 {
        '5'
    } else if d == 6 {
        '6'
    } else if d == 7 {
        '7'
    } else if d == 8 {
        '8'
    } else {
        '9'
    }
}

/// `n` written in decimal, without leading zeros.
pub open spec fn decimal(n: nat) -> Seq<char>
    decreases n,
{
    if n < 10 {
        seq![digit_char(n)]
    } else {
        decimal(n / 10).push(digit_char(n % 10))
    }
}

fn digit_text(d: u64) -> (r: &'static str)
    requires
        d < 10,
    ensures
        r@ == seq![digit_char(d as nat)],
{
    proof {
        reveal_strlit("0");
        reveal_strlit("1");
        reveal_strlit("2");
        reveal_strlit("3");
        reveal_strlit("4");
        reveal_strlit("5");
        reveal_strlit("6");
        reveal_strlit("7");
        reveal_strlit("8");
        reveal_strlit("9");
    }
    if d == 0 {
        "0"
    } else if d == 1 {
        "1"
    } else if d == 2 {
        "2"
    } else if d == 3 {
        "3"
    } else if d == 4 {
        "4"
    } else if d == 5 {
        "5"
    } else if d == 6 {
        "6"
    } else if d == 7 {
        "7"
    } else if d == 8 {
        "8"
    } else {
        "9"
    }
}

/// `n` written in decimal.
pub fn decimal_text(n: u64) -> (r: String)
    ensures
        r@ == decimal(n as nat),
    decreases n,
{
    if n < 10 {
        String::from_str(digit_text(n))
    } else {
        let mut r = decimal_text(n / 10);
        r.append(digit_text(n % 10));
        r
    }
}

/// What the reviewed annotations are.
#[derive(Clone, Copy, Debug, PartialEq, Eq, Structural)]
pub enum AnnotationType {
    BoundingBox,
    Skeleton,
}

/// What one reviewed object is.
#[derive(Clone, Copy, Debug, PartialEq, Eq, Structural)]
pub enum TargetKind {
    AnnotationReview,
    MigrationAnnotatedSkeleton,
    MigrationExcludedObject,
    MigrationDiscoveredSkeleton,
}

/// Where the review stands.
#[derive(Clone, Copy, Debug, PartialEq, Eq, Structural)]
pub enum ReviewContextPhase {
    /// Object `number` of `total`.
    Object {
        number: u64,
        total: u64,
        kind: TargetKind,
        annotation_version: Option<u32>,
        disposition_version: Option<u32>,
    },
    /// The final check of the whole image.
    FullImage { migration: bool },
}

/// A correction in progress.
#[derive(Clone, Copy, Debug, PartialEq, Eq, Structural)]
pub struct CorrectionContext {
    pub base_version: u32,
    pub unsaved_input: bool,
}

/// What a review shows about itself.
#[derive(Clone, Debug)]
pub struct ReviewContext {
    pub workflow_name: String,
    pub class_name: String,
    pub annotation_type: AnnotationType,
    pub phase: ReviewContextPhase,
    pub decision: Option<ReviewDecision>,
    pub revision_mode: bool,
    pub staged_decision: Option<ReviewDecision>,
    pub correction: Option<CorrectionContext>,
    pub preview_unavailable: bool,
}

/// The label of target kind `k`.
pub open spec fn kind_label(k: TargetKind) -> Seq<char> {
    match k {
        TargetKind::AnnotationReview => "Annotation review"@,
        TargetKind::MigrationAnnotatedSkeleton => "Migration: Annotated skeleton"@,
        TargetKind::MigrationExcludedObject => "Migration: Excluded object"@,
        TargetKind::MigrationDiscoveredSkeleton => "Migration: Discovered skeleton"@,
    }
}

/// The label of annotation type `t`.
pub open spec fn type_label_of(t: AnnotationType) -> Seq<char> {
    match t {
        AnnotationType::BoundingBox => "Bounding boxes"@,
        AnnotationType::Skeleton => "Skeletons"@,
    }
}

/// The label of the review position `p`.
pub open spec fn phase_label_of(p: ReviewContextPhase) -> Seq<char> {
    match p {
        ReviewContextPhase::Object { number, total, .. } => "Object "@ + decimal(number as nat)
            + " of "@ + decimal(total as nat),
        ReviewContextPhase::FullImage { .. } => "Final check / Full image"@,
    }
}

/// The name of decision `d`.
pub open spec fn decision_name(d: ReviewDecision) -> Seq<char> {
    match d {
        ReviewDecision::Approved => "Approved"@,
        ReviewDecision::Rejected => "Rejected"@,
    }
}

/// The lines that describe the review position, past the first three lines.
pub open spec fn phase_lines(c: ReviewContext) -> Seq<Seq<char>> {
    match c.phase {
        ReviewContextPhase::Object { kind, annotation_version, disposition_version, .. } => {
            let target = if kind != TargetKind::AnnotationReview {
                seq!["Target: "@ + kind_label(kind)]
            } else {
                Seq::empty()
            };
            let version = match annotation_version {
                Some(v) => match c.correction {
                    Some(k) => seq!["Base persisted version "@ + decimal(k.base_version as nat)],
                    None => seq!["Persisted version "@ + decimal(v as nat)],
                },
                None => Seq::empty(),
            };
            let disposition = match disposition_version {
                Some(v) => seq!["Disposition version "@ + decimal(v as nat)],
                None => Seq::empty(),
            };
            target + version + disposition
        },
        ReviewContextPhase::FullImage { migration } => if migration {
            seq!["Migration full-image confirmation"@]
        } else {
            Seq::empty()
        },
    }
}

/// The lines that describe the correction and the decisions.
pub open spec fn decision_lines(c: ReviewContext) -> Seq<Seq<char>> {
    let correction = match c.correction {
        Some(k) => seq![
            "Mode: Correction mode"@,
            if k.unsaved_input {
                "Unsaved correction input"@
            } else {
                "No correction changes yet"@
            },
        ],
        None => Seq::empty(),
    };
    let revision = if c.revision_mode {
        seq!["Decision revision mode"@]
    } else {
        Seq::empty()
    };
    let current = (if c.revision_mode {
        "Effective"@
    } else {
        "Current"@
    }) + " decision: "@ + match c.decision {
        Some(d) => decision_name(d),
        None => "Not reviewed"@,
    };
    let staged = match c.staged_decision {
        Some(d) => seq!["Staged decision: "@ + decision_name(d) + " (not committed)"@],
        None => Seq::empty(),
    };
    correction + revision + seq![current] + staged
}

/// All lines that describe the review, in order.
pub open spec fn details_of(c: ReviewContext) -> Seq<Seq<char>> {
    seq![
        "Workflow: "@ + c.workflow_name@,
        "Class: "@ + c.class_name@ + " · Type: "@ + type_label_of(c.annotation_type),
        "Review position: "@ + phase_label_of(c.phase),
    ] + phase_lines(c) + decision_lines(c)
}

/// `lines` joined with `sep` between each two.
pub open spec fn joined(lines: Seq<Seq<char>>, sep: Seq<char>) -> Seq<char>
    decreases lines.len(),
{
    if lines.len() == 0 {
        Seq::empty()
    } else if lines.len() == 1 {
        lines[0]
    } else {
        joined(lines.drop_last(), sep) + sep + lines.last()
    }
}

fn decision_text(d: ReviewDecision) -> (r: &'static str)
    ensures
        r@ == decision_name(d),
{
    match d {
        ReviewDecision::Approved => "Approved",
        ReviewDecision::Rejected => "Rejected",
    }
}

fn kind_text(k: TargetKind) -> (r: &'static str)
    ensures
        r@ == kind_label(k),
{
    match k {
        TargetKind::AnnotationReview => "Annotation review",
        TargetKind::MigrationAnnotatedSkeleton => "Migration: Annotated skeleton",
        TargetKind::MigrationExcludedObject => "Migration: Excluded object",
        TargetKind::MigrationDiscoveredSkeleton => "Migration: Discovered skeleton",
    }
}

/// `prefix` followed by `rest`.
fn text(prefix: &str, rest: &str) -> (r: String)
    ensures
        r@ == prefix@ + rest@,
{
    let mut r = String::from_str(prefix);
    r.append(rest);
    r
}

/// The text of each line of `v`.
pub open spec fn views(v: Seq<String>) -> Seq<Seq<char>> {
    v.map_values(|l: String| l@)
}

/// Adds the line `l`.
fn push_line(lines: &mut Vec<String>, l: String)
    ensures
        views(final(lines)@) == views(old(lines)@).push(l@),
{
    let ghost before = lines@;
    lines.push(l);
    assert(views(lines@) =~= views(before).push(l@));
}

impl ReviewContext {
    /// The label of the annotation type.
    pub fn type_label(&self) -> (r: &'static str)
        ensures
            r@ == type_label_of(self.annotation_type),
    {
        match self.annotation_type {
            AnnotationType::BoundingBox => "Bounding boxes",
            AnnotationType::Skeleton => "Skeletons",
        }
    }

    /// The label of the review position.
    pub fn phase_label(&self) -> (r: String)
        ensures
            r@ == phase_label_of(self.phase),
    {
        match self.phase {
            ReviewContextPhase::Object { number, total, .. } => {
                let mut r = String::from_str("Object ");
                let n = decimal_text(number);
                r.append(n.as_str());
                r.append(" of ");
                let t = decimal_text(total);
                r.append(t.as_str());
                r
            },
            ReviewContextPhase::FullImage { .. } => String::from_str("Final check / Full image"),
        }
    }

    /// The lines that describe the review position, past the first three.
    fn push_phase_lines(&self, lines: &mut Vec<String>)
        ensures
            views(final(lines)@) == views(old(lines)@) + phase_lines(*self),
    {
        let ghost start = views(lines@);
        match self.phase {
            ReviewContextPhase::Object { kind, annotation_version, disposition_version, .. } => {
                let ghost target: Seq<Seq<char>> = if kind != TargetKind::AnnotationReview {
                    seq!["Target: "@ + kind_label(kind)]
                } else {
                    Seq::empty()
                };
                match kind {
                    TargetKind::AnnotationReview => {},
                    _ => push_line(lines, text("Target: ", kind_text(kind))),
                }
                assert(views(lines@) =~= start + target);
                match annotation_version {
                    Some(v) => match self.correction {
                        Some(k) => {
                            let n = decimal_text(k.base_version as u64);
                            push_line(lines, text("Base persisted version ", n.as_str()));
                        },
                        None => {
                            let n = decimal_text(v as u64);
                            push_line(lines, text("Persisted version ", n.as_str()));
                        },
                    },
                    None => {},
                }
                match disposition_version {
                    Some(v) => {
                        let n = decimal_text(v as u64);
                        push_line(lines, text("Disposition version ", n.as_str()));
                    },
                    None => {},
                }
                assert(views(lines@) =~= start + phase_lines(*self));
            },
            ReviewContextPhase::FullImage { migration } => {
                if migration {
                    push_line(lines, String::from_str("Migration full-image confirmation"));
                }
                assert(views(lines@) =~= start + phase_lines(*self));
            },
        }
    }

    /// The lines that describe the correction and the decisions.
    fn push_decision_lines(&self, lines: &mut Vec<String>)
        ensures
            views(final(lines)@) == views(old(lines)@) + decision_lines(*self),
    {
        let ghost start = views(lines@);
        match self.correction {
            Some(k) => {
                push_line(lines, String::from_str("Mode: Correction mode"));
                if k.unsaved_input {
                    push_line(lines, String::from_str("Unsaved correction input"));
                } else {
                    push_line(lines, String::from_str("No correction changes yet"));
                }
            },
            None => {},
        }
        if self.revision_mode {
            push_line(lines, String::from_str("Decision revision mode"));
        }
        let mut current = if self.revision_mode {
            String::from_str("Effective")
        } else {
            String::from_str("Current")
        };
        current.append(" decision: ");
        match self.decision {
            Some(d) => current.append(decision_text(d)),
            None => current.append("Not reviewed"),
        }
        push_line(lines, current);
        match self.staged_decision {
            Some(d) => {
                let mut staged = text("Staged decision: ", decision_text(d));
                staged.append(" (not committed)");
                push_line(lines, staged);
            },
            None => {},
        }
        assert(views(lines@) =~= start + decision_lines(*self));
    }

    /// The lines that describe the review, in order.
    pub fn details(&self) -> (lines: Vec<String>)
        ensures
            views(lines@) == details_of(*self),
    {
        let mut lines: Vec<String> = Vec::new();
        push_line(&mut lines, text("Workflow: ", self.workflow_name.as_str()));
        let mut class = text("Class: ", self.class_name.as_str());
        class.append(" · Type: ");
        class.append(self.type_label());
        push_line(&mut lines, class);
        let position = self.phase_label();
        push_line(&mut lines, text("Review position: ", position.as_str()));
        let ghost head = views(lines@);
        assert(head =~= seq![
            "Workflow: "@ + self.workflow_name@,
            "Class: "@ + self.class_name@ + " · Type: "@ + type_label_of(self.annotation_type),
            "Review position: "@ + phase_label_of(self.phase),
        ]);
        self.push_phase_lines(&mut lines);
        self.push_decision_lines(&mut lines);
        assert(views(lines@) =~= details_of(*self));
        lines
    }

    /// The lines that describe the review, joined by ". ".
    pub fn accessible_summary(&self) -> (r: String)
        ensures
            r@ == joined(details_of(*self), ". "@),
    {
        let lines = self.details();
        let ghost vs = views(lines@);
        let mut r = String::new();
        let mut i: usize = 0;
        while i < lines.len()
            invariant
                i <= lines@.len(),
                vs == views(lines@),
                r@ == joined(vs.take(i as int), ". "@),
            decreases lines@.len() - i,
        {
            proof {
                assert(vs.take(i as int + 1).drop_last() =~= vs.take(i as int));
                if i == 0 {
                    assert(vs.take(1) =~= seq![vs[0]]);
                }
            }
            if i > 0 {
                r.append(". ");
            }
            r.append(lines[i].as_str());
            i += 1;
        }
        proof {
            assert(vs.take(lines@.len() as int) =~= vs);
        }
        r
    }
}

/// What the review bar above the image shows: a first line, then the
/// workflow and the annotation type when a review is open, and the text read
/// out to assistive technology.
#[derive(Clone, Debug)]
pub struct ReviewBarContent {
    pub identity: String,
    pub type_and_phase: Option<(String, String)>,
    pub accessible: String,
}

/// The workflow and class of a review, marked while revising.
pub open spec fn bar_identity(c: ReviewContext) -> Seq<char> {
    let base = if c.workflow_name@ == c.class_name@ {
        c.workflow_name@
    } else {
        c.workflow_name@ + " · "@ + c.class_name@
    };
    if c.revision_mode {
        "Revising · "@ + base
    } else {
        base
    }
}

/// Where the review stands, with the corrections not yet submitted.
pub open spec fn bar_phase(c: ReviewContext, unsaved: u64) -> Seq<char> {
    let p = match c.phase {
        ReviewContextPhase::Object { number, total, .. } => "Item "@ + decimal(number as nat) + " / "@ + decimal(
            total as nat,
        ),
        ReviewContextPhase::FullImage { .. } => "Image overview"@,
    };
    if unsaved > 0 {
        p + " · "@ + decimal(unsaved as nat) + if unsaved == 1 {
            " correction"@
        } else {
            " corrections"@
        }
    } else {
        p
    }
}

/// What the review bar says without an open review.
pub open spec fn bar_message(opening_previous: bool, loading: bool, has_assignment: bool) -> Seq<char> {
    if opening_previous {
        "Opening previous review…"@
    } else if loading {
        "Loading review target…"@
    } else if !has_assignment {
        "No active review assignment"@
    } else {
        "Review target unavailable"@
    }
}

/// The review bar for `context` with `unsaved` corrections not yet submitted;
/// without a review, a message: the previous review opening, the target
/// `loading`, or no assignment or no target.
pub fn review_bar_content(
    context: Option<&ReviewContext>,
    unsaved: u64,
    opening_previous: bool,
    loading: bool,
    has_assignment: bool,
) -> (r: ReviewBarContent)
    ensures
        match context {
            Some(c) => {
                &&& r.identity@ == bar_phase(*c, unsaved)
                &&& (r.type_and_phase matches Some((identity, kind)) && identity@ == bar_identity(*c) && kind@ == type_label_of(c.annotation_type))
                &&& r.accessible@ == "Review details: "@ + joined(details_of(*c), ". "@) + ". Toggle Inspector."@
            },
            None => {
                &&& r.identity@ == bar_message(opening_previous, loading, has_assignment)
                &&& r.type_and_phase is None
                &&& r.accessible@ == bar_message(opening_previous, loading, has_assignment)
            },
        },
{
    match context {
        Some(c) => {
            let mut identity = if c.workflow_name == c.class_name {
                c.workflow_name.clone()
            } else {
                let mut t = c.workflow_name.clone();
                t.append(" · ");
                t.append(c.class_name.as_str());
                t
            };
            if c.revision_mode {
                identity = text("Revising · ", identity.as_str());
            }
            let mut phase = match c.phase {
                ReviewContextPhase::Object { number, total, .. } => {
                    let mut t = String::from_str("Item ");
                    let n = decimal_text(number);
                    t.append(n.as_str());
                    t.append(" / ");
                    let m = decimal_text(total);
                    t.append(m.as_str());
                    t
                },
                ReviewContextPhase::FullImage { .. } => String::from_str("Image overview"),
            };
            if unsaved > 0 {
                phase.append(" · ");
                let k = decimal_text(unsaved);
                phase.append(k.as_str());
                if unsaved == 1 {
                    phase.append(" correction");
                } else {
                    phase.append(" corrections");
                }
            }
            let summary = c.accessible_summary();
            let mut accessible = text("Review details: ", summary.as_str());
            accessible.append(". Toggle Inspector.");
            ReviewBarContent {
                identity: phase,
                type_and_phase: Some((identity, String::from_str(c.type_label()))),
                accessible,
            }
        },
        None => {
            let message = if opening_previous {
                "Opening previous review…"
            } else if loading {
                "Loading review target…"
            } else if !has_assignment {
                "No active review assignment"
            } else {
                "Review target unavailable"
            };
            ReviewBarContent {
                identity: String::from_str(message),
                type_and_phase: None,
                accessible: String::from_str(message),
            }
        },
    }
}

/// The review position shown in the inspector panel: object `index` (from 0)
/// of `total` objects, or the final check once past them; as a title, a
/// position and a hint.
pub fn review_phase(index: usize, total: usize) -> (r: (&'static str, String, &'static str))
    ensures
        index < total ==> r.0@ == "Object review"@ && r.1@ == decimal((index + 1) as nat) + " of "@ + decimal(total as nat)
            && r.2@ == "The active object is highlighted on the canvas."@,
        index >= total ==> r.0@ == "Final check"@ && r.1@ == "Full image"@
            && r.2@ == "Check for missed objects before completing this review."@,
{
    if index < total {
        let mut position = decimal_text((index + 1) as u64);
        position.append(" of ");
        let t = decimal_text(total as u64);
        position.append(t.as_str());
        ("Object review", position, "The active object is highlighted on the canvas.")
    } else {
        ("Final check", String::from_str("Full image"), "Check for missed objects before completing this review.")
    }
}

/// The review bar that is shown: the one the bars hold while an image loads;
/// else, while the bars are blank, an empty two-line placeholder that keeps
/// their height; else `live`, the bar of the current review.
pub fn displayed_review_bar(held: Option<ReviewBarContent>, blank: bool, live: ReviewBarContent) -> (r: ReviewBarContent)
    ensures
        match held {
            Some(h) => r == h,
            None => if blank {
                &&& r.identity@ == " "@
                &&& (r.type_and_phase matches Some((identity, kind)) && identity@ == " "@ && kind@ == " "@)
                &&& r.accessible@.len() == 0
            } else {
                r == live
            },
        },
{
    match held {
        Some(h) => h,
        None => if blank {
            ReviewBarContent {
                identity: String::from_str(" "),
                type_and_phase: Some((String::from_str(" "), String::from_str(" "))),
                accessible: String::new(),
            }
        } else {
            live
        },
    }
}

} // verus!

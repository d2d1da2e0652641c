//! The dialogs that create a symlink or a hardlink to the entry under the
//! cursor.

use crate::dialog_job::{
    immediate_job, no_state_dir, no_state_dir_text, outcome_text, report_job_outcome, run_now,
    DialogJob, Notice, NoticeLevel, PlanOutcome,
};
use crate::jobs::JobKind;
use crate::vpath::VPath;
use vstd::prelude::*;

verus! {

#[derive(Clone, Copy, Debug, PartialEq, Eq, Structural)]
pub enum LinkKind {
    Symlink,
    Hardlink,
}

pub open spec fn noun_text(kind: LinkKind) -> Seq<char> {
    match kind {
        LinkKind::Symlink => "symlink"@,
        LinkKind::Hardlink => "hardlink"@,
    }
}

pub open spec fn link_job(kind: LinkKind) -> JobKind {
    match kind {
        LinkKind::Symlink => JobKind::CreateSymlink,
        LinkKind::Hardlink => JobKind::CreateHardlink,
    }
}

impl LinkKind {
    pub fn noun(self) -> (noun: &'static str)
        ensures
            noun@ == noun_text(self),
    {
        match self {
            LinkKind::Symlink => "symlink",
            LinkKind::Hardlink => "hardlink",
        }
    }

    pub fn job_kind(self) -> (kind: JobKind)
        ensures
            kind == link_job(self),
    {
        match self {
            LinkKind::Symlink => JobKind::CreateSymlink,
            LinkKind::Hardlink => JobKind::CreateHardlink,
        }
    }
}

#[derive(Debug, PartialEq, Eq)]
pub struct LinkDialogState {
    pub kind: LinkKind,
    pub source: VPath,
    pub source_name: String,
    /// The field's text: where the link goes.
    pub link_path: String,
    pub planning_in_progress: bool,
    pub state_dir: Option<String>,
}

/// A plan that is to be made.
#[derive(Debug, PartialEq, Eq)]
pub enum LinkPlan {
    /// A link that holds the target's text as it stands.
    Symlink { target: String, link: VPath },
    Hardlink { source: VPath, link: VPath },
}

/// What Enter leads to.
#[derive(Debug, PartialEq, Eq)]
pub enum LinkAnswer {
    Busy,
    Refused(Notice),
    Plan { job: JobKind, plan: LinkPlan },
}

pub open spec fn link_refusal(text: Seq<char>) -> Seq<char> {
    "\u{201c}"@ + text + "\u{201d} isn't a valid path for the new link."@
}

/// Whether `plan` makes a link of the given kind to `source`: a symlink holds
/// the source's plain, absolute path.
pub open spec fn links_to(plan: LinkPlan, kind: LinkKind, source: VPath, path: VPath) -> bool {
    match plan {
        LinkPlan::Symlink { target, link } => kind == LinkKind::Symlink && target@ == source.path@
            && link == path,
        LinkPlan::Hardlink { source: from, link } => kind == LinkKind::Hardlink && from == source
            && link == path,
    }
}

impl LinkDialogState {
    pub fn new(
        kind: LinkKind,
        source: VPath,
        source_name: String,
        initial_link_path: String,
        state_dir: Option<String>,
    ) -> (state: Self)
        ensures
            state == (LinkDialogState {
                kind,
                source,
                source_name,
                link_path: initial_link_path,
                planning_in_progress: false,
                state_dir,
            }),
    {
        LinkDialogState {
            kind,
            source,
            source_name,
            link_path: initial_link_path,
            planning_in_progress: false,
            state_dir,
        }
    }

    /// Enter, with the path of the field's text where that is one.
    pub fn confirm(&mut self, link: Option<VPath>) -> (answer: LinkAnswer)
        ensures
            match answer {
                LinkAnswer::Busy => old(self).planning_in_progress && *final(self) == *old(self),
                LinkAnswer::Refused(notice) => {
                    &&& !old(self).planning_in_progress
                    &&& notice.level == NoticeLevel::Error
                    &&& *final(self) == *old(self)
                    &&& if link is None {
                        notice.message@ == link_refusal(old(self).link_path@)
                    } else {
                        old(self).state_dir is None && notice.message@ == no_state_dir_text()
                    }
                },
                LinkAnswer::Plan { job, plan } => {
                    &&& !old(self).planning_in_progress
                    &&& link is Some
                    &&& old(self).state_dir is Some
                    &&& job == link_job(old(self).kind)
                    &&& links_to(plan, old(self).kind, old(self).source, link->0)
                    &&& *final(self) == (LinkDialogState {
                        planning_in_progress: true,
                        ..*old(self)
                    })
                },
            },
    {
        if self.planning_in_progress {
            return LinkAnswer::Busy;
        }
        let link = match link {
            Some(link) => link,
            None => {
                let mut message = "\u{201c}".to_owned();
                message.append(self.link_path.as_str());
                message.append("\u{201d} isn't a valid path for the new link.");
                return LinkAnswer::Refused(Notice { level: NoticeLevel::Error, message });
            },
        };
        if self.state_dir.is_none() {
            return LinkAnswer::Refused(no_state_dir(NoticeLevel::Error));
        }
        self.planning_in_progress = true;
        let plan = match self.kind {
            LinkKind::Symlink => LinkPlan::Symlink { target: self.source.path.clone(), link },
            LinkKind::Hardlink => LinkPlan::Hardlink { source: self.source.clone(), link },
        };
        LinkAnswer::Plan { job: self.kind.job_kind(), plan }
    }

    /// The job that the plan is queued as.
    pub fn job(&self) -> (job: DialogJob)
        ensures
            job == immediate_job(link_job(self.kind), true),
    {
        run_now(self.kind.job_kind(), true)
    }

    /// The planning run came to its end. Returns whether the dialog closes,
    /// and the notice that is raised where it does not.
    pub fn planning_ended(&mut self, outcome: &PlanOutcome) -> (r: (bool, Option<Notice>))
        ensures
            *final(self) == (LinkDialogState { planning_in_progress: false, ..*old(self) }),
            r.0 == (outcome is Enqueued),
            match r.1 {
                Some(notice) => outcome_text(*outcome) == Some(notice.message@) && notice.level
                    == NoticeLevel::Error,
                None => outcome_text(*outcome) is None,
            },
    {
        self.planning_in_progress = false;
        report_job_outcome(outcome)
    }

    /// The dialog's headline.
    pub fn title(&self) -> (text: String)
        ensures
            text@ == link_title(self.kind, self.source_name@),
    {
        let mut text = "Create ".to_owned();
        text.append(self.kind.noun());
        text.append(" to \u{201c}");
        text.append(self.source_name.as_str());
        text.append("\u{201d} at:");
        text
    }

    /// The line that says what the link leads to.
    pub fn detail(&self) -> (text: String)
        ensures
            text@ == link_detail(self.kind, self.source.path@),
    {
        let mut text = match self.kind {
            LinkKind::Symlink => "Target: ".to_owned(),
            LinkKind::Hardlink => "Same inode as: ".to_owned(),
        };
        text.append(self.source.path.as_str());
        text
    }

    /// The dialog as it is shown.
    pub fn render(&self) -> (view: LinkView)
        ensures
            view.title@ == link_title(self.kind, self.source_name@),
            view.link_path == self.link_path,
            view.detail@ == link_detail(self.kind, self.source.path@),
            view.hint@ == "Enter to confirm, Esc to cancel"@,
    {
        LinkView {
            title: self.title(),
            link_path: self.link_path.clone(),
            detail: self.detail(),
            hint: "Enter to confirm, Esc to cancel",
        }
    }
}

/// The dialog as it is shown.
#[derive(Debug, PartialEq, Eq)]
pub struct LinkView {
    pub title: String,
    pub link_path: String,
    pub detail: String,
    pub hint: &'static str,
}

/// The dialog's headline for a source of this name.
pub open spec fn link_title(kind: LinkKind, name: Seq<char>) -> Seq<char> {
    "Create "@ + noun_text(kind) + " to \u{201c}"@ + name + "\u{201d} at:"@
}

/// The line that says what the link leads to.
pub open spec fn link_detail(kind: LinkKind, path: Seq<char>) -> Seq<char> {
    (match kind {
        LinkKind::Symlink => "Target: "@,
        LinkKind::Hardlink => "Same inode as: "@,
    }) + path
}

/// A link of each kind is queued as a job of its own, and its plan leads from the
/// path that was given to the source: a symlink by the source's path, a hardlink
/// by the source itself.
pub proof fn lemma_link_leads_to_its_source(
    plan: LinkPlan,
    kind: LinkKind,
    source: VPath,
    path: VPath,
)
    requires
        links_to(plan, kind, source, path),
    ensures
        match plan {
            LinkPlan::Symlink { target, link } => target@ == source.path@ && link == path
                && link_job(kind) == JobKind::CreateSymlink,
            LinkPlan::Hardlink { source: from, link } => from == source && link == path && link_job(
                kind,
            ) == JobKind::CreateHardlink,
        },
        plan is Symlink <==> kind == LinkKind::Symlink,
{
}

/// The headline names the kind of the link and its source; the line below it
/// shows where the source is.
pub proof fn lemma_link_is_described(kind: LinkKind, name: Seq<char>, path: Seq<char>)
    ensures
        kind == LinkKind::Symlink ==> "Create symlink to "@.is_prefix_of(link_title(kind, name)),
        kind == LinkKind::Hardlink ==> "Create hardlink to "@.is_prefix_of(link_title(kind, name)),
        (seq!['\u{201c}'] + name + seq!['\u{201d}'] + " at:"@).is_suffix_of(link_title(kind, name)),
        path.is_suffix_of(link_detail(kind, path)),
        kind == LinkKind::Symlink ==> "Target: "@.is_prefix_of(link_detail(kind, path)),
        kind == LinkKind::Hardlink ==> "Same inode as: "@.is_prefix_of(link_detail(kind, path)),
        link_detail(kind, path).len() == path.len() + (match kind {
            LinkKind::Symlink => 8int,
            LinkKind::Hardlink => 15,
        }),
{
    reveal_strlit("Create ");
    reveal_strlit("symlink");
    reveal_strlit("hardlink");
    reveal_strlit(" to \u{201c}");
    reveal_strlit("\u{201d} at:");
    reveal_strlit(" at:");
    reveal_strlit("Create symlink to ");
    reveal_strlit("Create hardlink to ");
    reveal_strlit("Target: ");
    reveal_strlit("Same inode as: ");
    let title = link_title(kind, name);
    let head = match kind {
        LinkKind::Symlink => "Create symlink to "@,
        LinkKind::Hardlink => "Create hardlink to "@,
    };
    assert(title.take(head.len() as int) =~= head);
    let tail = seq!['\u{201c}'] + name + seq!['\u{201d}'] + " at:"@;
    assert(title.skip(title.len() - tail.len()) =~= tail);
    let detail = link_detail(kind, path);
    assert(detail.skip(detail.len() - path.len()) =~= path);
    let begin = match kind {
        LinkKind::Symlink => "Target: "@,
        LinkKind::Hardlink => "Same inode as: "@,
    };
    assert(detail.take(begin.len() as int) =~= begin);
}

/// A path that is refused is named in the refusal.
pub proof fn lemma_refusal_names_the_link(text: Seq<char>)
    ensures
        (seq!['\u{201c}'] + text + seq!['\u{201d}']).is_prefix_of(link_refusal(text)),
{
    reveal_strlit("\u{201c}");
    reveal_strlit("\u{201d} isn't a valid path for the new link.");
    let head = seq!['\u{201c}'] + text + seq!['\u{201d}'];
    assert(link_refusal(text).take(head.len() as int) =~= head);
}

} // verus!

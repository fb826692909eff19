//! Build information of the web app and the server: loading the server's
//! identity, detecting a mismatch, and copying both for problem reports.
use vstd::prelude::*;

verus! {

/// The release tag and source commit a build was made from.
#[derive(Clone, Debug)]
pub struct BuildIdentity {
    pub release_tag: Option<String>,
    pub source_commit: Option<String>,
}

/// The text of an optional string.
pub open spec fn text_of(s: Option<String>) -> Option<Seq<char>> {
    match s {
        Some(v) => Some(v@),
        None => None,
    }
}

fn same_text(a: &Option<String>, b: &Option<String>) -> (r: bool)
    ensures
        r == (text_of(*a) == text_of(*b)),
{
    match (a, b) {
        (Some(x), Some(y)) => *x == *y,
        (None, None) => true,
        _ => false,
    }
}

impl BuildIdentity {
    /// A usable identity: a present release tag is not empty and a present
    /// source commit has at least the twelve characters shown abbreviated.
    pub open spec fn valid(self) -> bool {
        &&& (self.release_tag matches Some(t) ==> t@.len() > 0)
        &&& (self.source_commit matches Some(c) ==> c@.len() >= 12)
    }

    /// Two identities differ in release tag or in source commit.
    pub open spec fn differs(self, other: BuildIdentity) -> bool {
        text_of(self.release_tag) != text_of(other.release_tag) || text_of(self.source_commit)
            != text_of(other.source_commit)
    }

    /// Executable form of [`BuildIdentity::valid`].
    pub fn is_valid(&self) -> (r: bool)
        ensures
            r == self.valid(),
    {
        let tag_ok = match &self.release_tag {
            Some(t) => t.unicode_len() > 0,
            None => true,
        };
        let commit_ok = match &self.source_commit {
            Some(c) => c.unicode_len() >= 12,
            None => true,
        };
        tag_ok && commit_ok
    }

    /// Executable form of [`BuildIdentity::differs`].
    pub fn differs_from(&self, other: &BuildIdentity) -> (r: bool)
        ensures
            r == self.differs(*other),
    {
        !same_text(&self.release_tag, &other.release_tag) || !same_text(
            &self.source_commit,
            &other.source_commit,
        )
    }
}

/// Feedback after an attempt to copy the build information.
#[derive(Clone, Copy, Debug, PartialEq, Eq, Structural)]
pub enum CopyFeedback {
    Copied,
    CopyFailed,
    CopyUnavailable,
}

/// A command for the effect runner, identified by its request.
#[derive(Clone, Debug)]
pub enum UiCommand {
    /// Load the server's build identity.
    BuildInformation { request_id: u64 },
    /// Write `text` to the clipboard with the browser's clipboard writer, at
    /// once, while the click that asked for it is still being handled.
    CopyBuildInformation { request_id: u64, text: String },
}

/// A message from the effect runner.
#[derive(Debug)]
pub enum UiMessage {
    /// The browser tab regained focus: refresh the server identity.
    BuildRefreshRequested,
    /// The server identity arrived (or failed).
    BuildInformationLoaded { request_id: u64, result: Result<BuildIdentity, String> },
    /// The clipboard write finished.
    BuildInformationCopied { request_id: u64, succeeded: bool },
    /// A message for another part of the application.
    Other { kind: u64 },
}

/// Build information shown under Setup > About.
pub struct BuildInformationState<W> {
    pub web: BuildIdentity,
    pub server: Option<BuildIdentity>,
    pub checked: bool,
    pub loading: bool,
    pub pending_request_id: Option<u64>,
    pub clipboard: Option<W>,
    pub copying: bool,
    pub copy_feedback: Option<CopyFeedback>,
    pub reveal_manual_copy: bool,
}

/// The application state that the build information logic reads and changes.
/// `W` is the clipboard writer supplied by the browser host.
pub struct LabelloApp<W> {
    pub builds: BuildInformationState<W>,
    /// Whether a server is configured.
    pub api_available: bool,
    /// The next request id to hand out.
    pub next_request_id: u64,
    /// Requests whose replies are still awaited.
    pub active_requests: Vec<u64>,
    /// Commands queued for the effect runner, oldest first.
    pub commands: Vec<UiCommand>,
}

impl<W> LabelloApp<W> {
    /// An application with no server identity yet.
    pub fn new(web: BuildIdentity, api_available: bool) -> (app: LabelloApp<W>)
        ensures
            app.builds.web == web,
            app.builds.server is None,
            !app.builds.checked && !app.builds.loading && !app.builds.copying,
            app.builds.pending_request_id is None,
            app.builds.clipboard is None,
            app.builds.copy_feedback is None,
            !app.builds.reveal_manual_copy,
            app.api_available == api_available,
            app.next_request_id == 0,
            app.active_requests@.len() == 0,
            app.commands@.len() == 0,
    {
        LabelloApp {
            builds: BuildInformationState {
                web,
                server: None,
                checked: false,
                loading: false,
                pending_request_id: None,
                clipboard: None,
                copying: false,
                copy_feedback: None,
                reveal_manual_copy: false,
            },
            api_available,
            next_request_id: 0,
            active_requests: Vec::new(),
            commands: Vec::new(),
        }
    }

    /// Installs the browser's clipboard writer.
    pub fn set_build_clipboard_writer(&mut self, writer: W)
        ensures
            final(self).builds.clipboard == Some(writer),
            final(self).builds.web == old(self).builds.web,
            final(self).builds.server == old(self).builds.server,
            final(self).builds.checked == old(self).builds.checked,
            final(self).builds.loading == old(self).builds.loading,
            final(self).builds.pending_request_id == old(self).builds.pending_request_id,
            final(self).builds.copying == old(self).builds.copying,
            final(self).builds.copy_feedback == old(self).builds.copy_feedback,
            final(self).builds.reveal_manual_copy == old(self).builds.reveal_manual_copy,
            final(self).api_available == old(self).api_available,
            final(self).next_request_id == old(self).next_request_id,
            final(self).active_requests@ == old(self).active_requests@,
            final(self).commands@ == old(self).commands@,
    {
        self.builds.clipboard = Some(writer);
    }

    /// A fresh request id.
    fn request_identity(&mut self) -> (id: u64)
        requires
            old(self).next_request_id < u64::MAX,
        ensures
            id == old(self).next_request_id,
            final(self).next_request_id == old(self).next_request_id + 1,
            final(self).builds == old(self).builds,
            final(self).api_available == old(self).api_available,
            final(self).active_requests@ == old(self).active_requests@,
            final(self).commands@ == old(self).commands@,
    {
        let id = self.next_request_id;
        self.next_request_id = self.next_request_id + 1;
        id
    }

    /// Requests the server's build identity, unless a request is in flight.
    /// Without a server the identity is marked checked and stays unavailable.
    pub fn request_build_information(&mut self)
        requires
            old(self).next_request_id < u64::MAX,
        ensures
            old(self).builds.loading ==> final(self).builds == old(self).builds
                && final(self).next_request_id == old(self).next_request_id
                && final(self).active_requests@ == old(self).active_requests@
                && final(self).commands@ == old(self).commands@,
            !old(self).builds.loading ==> {
                &&& final(self).builds.server is None
                &&& final(self).builds.copy_feedback is None
                &&& final(self).builds.checked
                &&& final(self).builds.web == old(self).builds.web
                &&& final(self).builds.clipboard == old(self).builds.clipboard
                &&& final(self).builds.copying == old(self).builds.copying
                &&& final(self).builds.reveal_manual_copy == old(self).builds.reveal_manual_copy
                &&& if old(self).api_available {
                    let id = old(self).next_request_id;
                    &&& final(self).builds.loading
                    &&& final(self).builds.pending_request_id == Some(id)
                    &&& final(self).next_request_id == id + 1
                    &&& final(self).active_requests@ == old(self).active_requests@.push(id)
                    &&& final(self).commands@ == old(self).commands@.push(
                        UiCommand::BuildInformation { request_id: id },
                    )
                } else {
                    &&& !final(self).builds.loading
                    &&& final(self).builds.pending_request_id == old(
                        self,
                    ).builds.pending_request_id
                    &&& final(self).next_request_id == old(self).next_request_id
                    &&& final(self).active_requests@ == old(self).active_requests@
                    &&& final(self).commands@ == old(self).commands@
                }
            },
            final(self).api_available == old(self).api_available,
    {
        if self.builds.loading {
            return;
        }
        self.builds.server = None;
        self.builds.copy_feedback = None;
        self.builds.checked = true;
        if !self.api_available {
            return;
        }
        self.builds.loading = true;
        let id = self.request_identity();
        self.builds.pending_request_id = Some(id);
        self.active_requests.push(id);
        self.commands.push(UiCommand::BuildInformation { request_id: id });
    }

    /// Removes `id` from the awaited requests, reporting whether it was awaited.
    fn take_active_request(&mut self, id: u64) -> (was_active: bool)
        ensures
            was_active == old(self).active_requests@.contains(id),
            forall|x: u64|
                final(self).active_requests@.contains(x) <==> (old(self).active_requests@.contains(
                    x,
                ) && x != id),
            final(self).builds == old(self).builds,
            final(self).api_available == old(self).api_available,
            final(self).next_request_id == old(self).next_request_id,
            final(self).commands@ == old(self).commands@,
    {
        let mut kept: Vec<u64> = Vec::new();
        let mut found = false;
        let mut i: usize = 0;
        while i < self.active_requests.len()
            invariant
                i <= self.active_requests@.len(),
                found == self.active_requests@.take(i as int).contains(id),
                forall|x: u64|
                    #![trigger kept@.contains(x)]
                    #![trigger self.active_requests@.take(i as int).contains(x)]
                    kept@.contains(x) <==> (self.active_requests@.take(i as int).contains(x) && x
                        != id),
            decreases self.active_requests@.len() - i,
        {
            let x = self.active_requests[i];
            let ghost t0 = self.active_requests@.take(i as int);
            let ghost t1 = self.active_requests@.take(i + 1);
            assert(t1 =~= t0.push(x));
            let ghost k0 = kept@;
            if x == id {
                found = true;
            } else {
                kept.push(x);
            }
            assert forall|y: u64|
                #![trigger kept@.contains(y)]
                #![trigger t1.contains(y)]
                kept@.contains(y) <==> (t1.contains(y) && y != id) by {
                if kept@.contains(y) && !k0.contains(y) {
                    let r = choose|r: int| 0 <= r < kept@.len() && kept@[r] == y;
                    if r < k0.len() {
                        assert(k0[r] == y);
                    } else {
                        assert(x != id);
                        assert(kept@ == k0.push(x));
                        assert(y == x);
                        assert(t1[i as int] == x);
                    }
                }
                if k0.contains(y) {
                    let r = choose|r: int| 0 <= r < k0.len() && k0[r] == y;
                    assert(kept@[r] == y);
                }
                if t1.contains(y) && y != id {
                    let r = choose|r: int|
                        0 <= r < t1.len()
                            && t1[r] == y;
                    if r < i {
                        assert(t0[r] == y);
                    } else {
                        assert(kept@[kept@.len() - 1] == y);
                    }
                }
                if t0.contains(y) {
                    let r = choose|r: int| 0 <= r < t0.len() && t0[r] == y;
                    assert(t1[r] == y);
                }
            }
            proof {
                if found {
                    if x == id {
                        assert(t1[i as int] == id);
                    } else {
                        let r = choose|r: int| 0 <= r < t0.len() && t0[r] == id;
                        assert(t1[r] == id);
                    }
                } else {
                    if t1.contains(id) {
                        let r = choose|r: int|
                            0 <= r < t1.len()
                                && t1[r] == id;
                        if r < i {
                            assert(t0[r] == id);
                        }
                    }
                }
            }
            i = i + 1;
            proof {
                assert(self.active_requests@.take(i as int) =~= t1);
            }
        }
        assert(self.active_requests@.take(i as int) =~= self.active_requests@);
        self.active_requests = kept;
        found
    }

    /// Applies a build information message; other messages are handed back.
    /// A loaded identity is accepted only as the reply to the pending, still
    /// awaited request; an invalid identity counts as unavailable.
    pub fn reduce_build_message(&mut self, message: UiMessage) -> (rest: Option<UiMessage>)
        requires
            old(self).next_request_id < u64::MAX,
        ensures
            match message {
                UiMessage::Other { kind } => rest == Some(UiMessage::Other { kind })
                    && final(self).builds == old(self).builds && final(self).active_requests@
                    == old(self).active_requests@,
                UiMessage::BuildInformationLoaded { request_id, result } => {
                    &&& rest is None
                    &&& if old(self).builds.pending_request_id == Some(request_id)
                        && old(self).active_requests@.contains(request_id) {
                        &&& final(self).builds.pending_request_id is None
                        &&& !final(self).builds.loading
                        &&& final(self).builds.checked
                        &&& final(self).builds.server == match result {
                            Ok(identity) => if identity.valid() {
                                Some(identity)
                            } else {
                                None
                            },
                            Err(_) => None,
                        }
                        &&& forall|x: u64|
                            final(self).active_requests@.contains(x) <==> (old(
                                self,
                            ).active_requests@.contains(x) && x != request_id)
                        &&& final(self).builds.clipboard == old(self).builds.clipboard
                        &&& final(self).builds.copying == old(self).builds.copying
                        &&& final(self).builds.copy_feedback == old(self).builds.copy_feedback
                        &&& final(self).builds.reveal_manual_copy == old(self).builds.reveal_manual_copy
                    } else {
                        &&& final(self).builds == old(self).builds
                        &&& forall|x: u64|
                            final(self).active_requests@.contains(x) <==> old(self).active_requests@.contains(x)
                    }
                    &&& final(self).commands@ == old(self).commands@
                    &&& final(self).next_request_id == old(self).next_request_id
                },
                UiMessage::BuildInformationCopied { request_id, succeeded } => {
                    &&& rest is None
                    &&& !final(self).builds.copying
                    &&& final(self).builds.reveal_manual_copy == !succeeded
                    &&& final(self).builds.copy_feedback == Some(
                        if succeeded {
                            CopyFeedback::Copied
                        } else {
                            CopyFeedback::CopyFailed
                        },
                    )
                    &&& final(self).builds.server == old(self).builds.server
                    &&& final(self).builds.loading == old(self).builds.loading
                    &&& final(self).builds.checked == old(self).builds.checked
                    &&& final(self).builds.pending_request_id == old(self).builds.pending_request_id
                    &&& final(self).builds.clipboard == old(self).builds.clipboard
                    &&& final(self).active_requests@ == old(self).active_requests@
                    &&& final(self).commands@ == old(self).commands@
                },
                UiMessage::BuildRefreshRequested => rest is None,
            },
            final(self).builds.web == old(self).builds.web,
    {
        match message {
            UiMessage::BuildRefreshRequested => {
                self.request_build_information();
                None
            },
            UiMessage::BuildInformationLoaded { request_id, result } => {
                let pending = match self.builds.pending_request_id {
                    Some(p) => p == request_id,
                    None => false,
                };
                if !pending {
                    return None;
                }
                if !self.take_active_request(request_id) {
                    return None;
                }
                self.builds.pending_request_id = None;
                self.builds.loading = false;
                self.builds.checked = true;
                self.builds.server = match result {
                    Ok(identity) => if identity.is_valid() {
                        Some(identity)
                    } else {
                        None
                    },
                    Err(_) => None,
                };
                None
            },
            UiMessage::BuildInformationCopied { request_id: _, succeeded } => {
                self.builds.copying = false;
                self.builds.reveal_manual_copy = !succeeded;
                self.builds.copy_feedback = Some(
                    if succeeded {
                        CopyFeedback::Copied
                    } else {
                        CopyFeedback::CopyFailed
                    },
                );
                None
            },
            UiMessage::Other { kind } => Some(UiMessage::Other { kind }),
        }
    }

    /// Whether the server runs a different build than the web app.
    pub fn builds_differ(&self) -> (r: bool)
        ensures
            r == match self.builds.server {
                Some(server) => self.builds.web.differs(server),
                None => false,
            },
    {
        match &self.builds.server {
            Some(server) => self.builds.web.differs_from(server),
            None => false,
        }
    }

    /// Starts copying the build information, unless a copy is in progress.
    /// Without a clipboard writer the manual copy is revealed instead. On a
    /// start, queues the command that writes the build information text of
    /// this moment, and returns its request id.
    pub fn copy_build_information(&mut self) -> (started: Option<u64>)
        requires
            old(self).next_request_id < u64::MAX,
        ensures
            old(self).builds.copying ==> started is None && final(self).builds == old(self).builds
                && final(self).active_requests@ == old(self).active_requests@,
            !old(self).builds.copying && old(self).builds.clipboard is None ==> {
                &&& started is None
                &&& final(self).builds.reveal_manual_copy
                &&& final(self).builds.copy_feedback == Some(CopyFeedback::CopyUnavailable)
                &&& !final(self).builds.copying
            },
            !old(self).builds.copying && old(self).builds.clipboard is Some ==> {
                let id = old(self).next_request_id;
                &&& started == Some(id)
                &&& final(self).builds.copying
                &&& final(self).builds.copy_feedback is None
                &&& final(self).next_request_id == id + 1
                &&& final(self).active_requests@ == old(self).active_requests@.push(id)
                &&& final(self).commands@.len() == old(self).commands@.len() + 1
                &&& final(self).commands@.drop_last() == old(self).commands@
                &&& (final(self).commands@.last() matches UiCommand::CopyBuildInformation { request_id, text }
                    && request_id == id && text@ == build_text(old(self).builds))
            },
            !old(self).builds.copying && old(self).builds.clipboard is None ==> {
                &&& final(self).next_request_id == old(self).next_request_id
                &&& final(self).active_requests@ == old(self).active_requests@
                &&& final(self).commands@ == old(self).commands@
            },
            old(self).builds.copying ==> final(self).commands@ == old(self).commands@
                && final(self).next_request_id == old(self).next_request_id,
            final(self).builds.web == old(self).builds.web,
            final(self).builds.server == old(self).builds.server,
            final(self).builds.loading == old(self).builds.loading,
            final(self).builds.checked == old(self).builds.checked,
            final(self).builds.pending_request_id == old(self).builds.pending_request_id,
            final(self).builds.clipboard == old(self).builds.clipboard,
            !old(self).builds.copying && old(self).builds.clipboard is Some ==> final(self).builds.reveal_manual_copy
                == old(self).builds.reveal_manual_copy,
            final(self).api_available == old(self).api_available,
    {
        if self.builds.copying {
            return None;
        }
        self.builds.copy_feedback = None;
        if self.builds.clipboard.is_none() {
            self.builds.reveal_manual_copy = true;
            self.builds.copy_feedback = Some(CopyFeedback::CopyUnavailable);
            return None;
        }
        let text = self.build_information_text();
        let id = self.request_identity();
        self.active_requests.push(id);
        self.builds.copying = true;
        self.commands.push(UiCommand::CopyBuildInformation { request_id: id, text });
        Some(id)
    }
}

/// The build information as copied and shown: the web app's identity, then
/// the server's (or that it is loading or unavailable), one per line.
pub open spec fn build_text<W>(b: BuildInformationState<W>) -> Seq<char> {
    identity_text_spec("Web app"@, b.web) + "\n"@ + if b.loading {
        "Server: loading"@
    } else {
        match b.server {
            Some(s) => identity_text_spec("Server"@, s),
            None => "Server: unavailable"@,
        }
    }
}

/// The text of the description of one build.
pub open spec fn identity_text_spec(name: Seq<char>, identity: BuildIdentity) -> Seq<char> {
    name + ": "@ + match identity.release_tag {
        Some(t) => t@,
        None => "development (release tag unavailable)"@,
    } + "; source commit: "@ + match identity.source_commit {
        Some(c) => c@,
        None => "unavailable"@,
    }
}

/// Describes one build: its name, release tag and source commit.
pub fn identity_text(name: &str, identity: &BuildIdentity) -> (text: String)
    ensures
        text@ == identity_text_spec(name@, *identity),
{
    let mut text = String::from_str(name);
    text.append(": ");
    match &identity.release_tag {
        Some(t) => text.append(t.as_str()),
        None => text.append("development (release tag unavailable)"),
    }
    text.append("; source commit: ");
    match &identity.source_commit {
        Some(c) => text.append(c.as_str()),
        None => text.append("unavailable"),
    }
    text
}

impl<W> LabelloApp<W> {
    /// The complete build information: the web app's identity, then the
    /// server's (or that it is loading or unavailable), one per line.
    pub fn build_information_text(&self) -> (text: String)
        ensures
            text@ == build_text(self.builds),
    {
        let mut text = identity_text("Web app", &self.builds.web);
        text.append("\n");
        if self.builds.loading {
            text.append("Server: loading");
        } else {
            match &self.builds.server {
                Some(s) => {
                    let server = identity_text("Server", s);
                    text.append(server.as_str());
                },
                None => text.append("Server: unavailable"),
            }
        }
        text
    }
}

} // verus!

//! Who else is labelling right now, and how the connection to the server is doing.
use vstd::prelude::*;

use crate::assignment::UserId;

verus! {

/// A user the server reports as present.
#[derive(Clone, Debug)]
pub struct PresentUser {
    pub user_id: UserId,
    /// The name shown for the user.
    pub name: String,
    /// The names of the datasets the user works in.
    pub datasets: Vec<String>,
}

/// What the server reports about presence.
#[derive(Clone, Debug)]
pub struct ServerPresence {
    pub users: Vec<PresentUser>,
}

/// Polling presence: for whom, what was last heard, and how it went.
pub struct PresenceState {
    /// The server address and the user that presence is polled for.
    pub identity: Option<(String, UserId)>,
    pub value: Option<ServerPresence>,
    pub pending_request: Option<u64>,
    /// When presence was last requested, in milliseconds.
    pub last_attempt: Option<u64>,
    /// Failed requests since the last success.
    pub failures: u32,
    pub error: Option<String>,
}

/// Where saving the current work stands.
#[derive(Clone, Copy, Debug, PartialEq, Eq, Structural)]
pub enum SaveStatus {
    Idle,
    Dirty,
    Saved,
    Saving,
    Retry,
}

/// How the connection status is shown.
#[derive(Clone, Copy, Debug, PartialEq, Eq, Structural)]
pub enum Tone {
    Danger,
    Warning,
    Success,
}

/// `i` is the first position of a user with id `id` in `s`.
pub open spec fn first_user_at(s: Seq<PresentUser>, id: UserId, i: int) -> bool {
    &&& 0 <= i < s.len()
    &&& s[i].user_id == id
    &&& forall|j: int| 0 <= j < i ==> #[trigger] s[j].user_id != id
}

/// `u` is the first user of its id in `s`.
pub open spec fn first_of_its_id(s: Seq<PresentUser>, u: PresentUser) -> bool {
    exists|i: int| #[trigger] first_user_at(s, u.user_id, i) && s[i] == u
}

/// Some user of `r` has id `id`.
pub open spec fn has_user_id(r: Seq<PresentUser>, id: UserId) -> bool {
    exists|k: int| 0 <= k < r.len() && #[trigger] r[k].user_id == id
}

/// The ids of `r` strictly increase.
pub open spec fn ids_increase(r: Seq<PresentUser>) -> bool {
    forall|a: int, b: int| 0 <= a < b < r.len() ==> #[trigger] r[a].user_id < #[trigger] r[b].user_id
}

/// `r` is `s` ordered by user id with only the first user of each id kept.
pub open spec fn sorted_first_users(r: Seq<PresentUser>, s: Seq<PresentUser>) -> bool {
    &&& ids_increase(r)
    &&& forall|k: int| 0 <= k < r.len() ==> first_of_its_id(s, #[trigger] r[k])
    &&& forall|i: int| 0 <= i < s.len() ==> has_user_id(r, #[trigger] s[i].user_id)
}

/// `r` holds the users among the first `i` of `all`, ordered by id, the first user
/// of each id.
pub open spec fn users_so_far(r: Seq<PresentUser>, all: Seq<PresentUser>, i: int) -> bool {
    &&& ids_increase(r)
    &&& forall|k: int| 0 <= k < r.len() ==> first_of_its_id(all, #[trigger] r[k])
    &&& forall|q: int| 0 <= q < i ==> has_user_id(r, #[trigger] all[q].user_id)
}

proof fn lemma_user_seen(r: Seq<PresentUser>, all: Seq<PresentUser>, i: int, p: int)
    requires
        users_so_far(r, all, i),
        0 <= i < all.len(),
        0 <= p < r.len(),
        r[p].user_id == all[i].user_id,
    ensures
        users_so_far(r, all, i + 1),
{
    assert forall|q: int| 0 <= q < i + 1 implies has_user_id(r, #[trigger] all[q].user_id) by {
        if q == i {
            assert(r[p].user_id == all[q].user_id);
        }
    }
}

proof fn lemma_user_new(r: Seq<PresentUser>, all: Seq<PresentUser>, i: int, p: int)
    requires
        users_so_far(r, all, i),
        0 <= i < all.len(),
        0 <= p <= r.len(),
        forall|q: int| 0 <= q < p ==> #[trigger] r[q].user_id < all[i].user_id,
        p < r.len() ==> r[p].user_id > all[i].user_id,
    ensures
        users_so_far(r.insert(p, all[i]), all, i + 1),
{
    let user = all[i];
    let t = r.insert(p, user);
    assert forall|q: int| 0 <= q < i implies #[trigger] all[q].user_id != user.user_id by {
        assert(has_user_id(r, all[q].user_id));
        let k = choose|k: int| 0 <= k < r.len() && #[trigger] r[k].user_id == all[q].user_id;
        if k > p {
            assert(r[p].user_id < r[k].user_id);
        }
    }
    assert(first_user_at(all, user.user_id, i));
    assert(first_of_its_id(all, user));
    assert forall|a: int, b: int| 0 <= a < b < t.len() implies #[trigger] t[a].user_id < #[trigger] t[b].user_id by {
        if b < p {
            assert(r[a].user_id < r[b].user_id);
        } else if b == p {
        } else if a < p {
            assert(t[b] == r[b - 1]);
            if b - 1 > p {
                assert(r[p].user_id < r[b - 1].user_id);
            }
        } else if a == p {
            assert(t[b] == r[b - 1]);
            if b - 1 > p {
                assert(r[p].user_id < r[b - 1].user_id);
            }
        } else {
            assert(r[a - 1].user_id < r[b - 1].user_id);
        }
    }
    assert forall|k: int| 0 <= k < t.len() implies first_of_its_id(all, #[trigger] t[k]) by {
        if k < p {
            assert(t[k] == r[k]);
        } else if k > p {
            assert(t[k] == r[k - 1]);
        }
    }
    assert forall|q: int| 0 <= q < i + 1 implies has_user_id(t, #[trigger] all[q].user_id) by {
        if q == i {
            assert(t[p].user_id == all[q].user_id);
        } else {
            assert(has_user_id(r, all[q].user_id));
            let k = choose|k: int| 0 <= k < r.len() && #[trigger] r[k].user_id == all[q].user_id;
            if k < p {
                assert(t[k] == r[k]);
            } else {
                assert(t[k + 1] == r[k]);
            }
        }
    }
}

/// The users of `users`, ordered by id, keeping the first user of each id.
pub fn sorted_unique_users(users: Vec<PresentUser>) -> (r: Vec<PresentUser>)
    ensures
        sorted_first_users(r@, users@),
{
    let count = users.len();
    let ghost all = users@;
    let mut rest = users;
    let mut r: Vec<PresentUser> = Vec::new();
    let mut i: usize = 0;
    assert(rest@ =~= all.subrange(0, all.len() as int));
    while rest.len() > 0
        invariant
            i + rest@.len() == all.len(),
            all.len() == count,
            rest@ == all.subrange(i as int, all.len() as int),
            users_so_far(r@, all, i as int),
        decreases rest@.len(),
    {
        let ghost before = r@;
        let user = rest.remove(0);
        proof {
            assert(user == all[i as int]);
            assert(rest@ =~= all.subrange(i as int + 1, all.len() as int));
        }
        let mut p: usize = 0;
        while p < r.len() && r[p].user_id < user.user_id
            invariant
                p <= r@.len(),
                r@ == before,
                forall|q: int| 0 <= q < p ==> #[trigger] r@[q].user_id < user.user_id,
            decreases r@.len() - p,
        {
            p += 1;
        }
        if p < r.len() && r[p].user_id == user.user_id {
            proof {
                lemma_user_seen(before, all, i as int, p as int);
            }
        } else {
            proof {
                lemma_user_new(before, all, i as int, p as int);
            }
            r.insert(p, user);
        }
        i += 1;
    }
    r
}

impl PresenceState {
    /// Nothing polled yet.
    pub fn new() -> (s: PresenceState)
        ensures
            s.identity is None,
            s.value is None,
            s.pending_request is None,
            s.last_attempt is None,
            s.failures == 0,
            s.error is None,
    {
        PresenceState { identity: None, value: None, pending_request: None, last_attempt: None, failures: 0, error: None }
    }

    /// A presence request failed with `error`: one more failure (saturating), and
    /// the error kept.
    pub fn failed(&mut self, error: String)
        ensures
            final(self).failures == if old(self).failures == u32::MAX {
                u32::MAX
            } else {
                (old(self).failures + 1) as u32
            },
            final(self).error == Some(error),
            final(self).identity == old(self).identity,
            final(self).value == old(self).value,
            final(self).pending_request == old(self).pending_request,
            final(self).last_attempt == old(self).last_attempt,
    {
        self.failures = self.failures.saturating_add(1);
        self.error = Some(error);
    }

    /// Takes in the result of presence request `request_id`, made for server
    /// `server` and user `user`. Results of another request, or for another server
    /// or user, change nothing. Otherwise the request ends; a reply is kept with
    /// its users ordered by id and each id once (the first one reported), and the
    /// failures are cleared; an error counts as a failure.
    pub fn accept(&mut self, request_id: u64, server: &String, user: UserId, result: Result<ServerPresence, String>)
        ensures
            ({
                let current = old(self).pending_request == Some(request_id) && (old(self).identity matches Some(
                    id,
                ) && id.0@ == server@ && id.1 == user);
                if !current {
                    *final(self) == *old(self)
                } else {
                    &&& final(self).pending_request is None
                    &&& final(self).identity == old(self).identity
                    &&& final(self).last_attempt == old(self).last_attempt
                    &&& match result {
                        Ok(v) => {
                            &&& final(self).value matches Some(kept) && sorted_first_users(kept.users@, v.users@)
                            &&& final(self).failures == 0
                            &&& final(self).error is None
                        },
                        Err(e) => {
                            &&& final(self).value == old(self).value
                            &&& final(self).failures == if old(self).failures == u32::MAX {
                                u32::MAX
                            } else {
                                (old(self).failures + 1) as u32
                            }
                            &&& final(self).error == Some(e)
                        },
                    }
                }
            }),
    {
        let current = match (&self.pending_request, &self.identity) {
            (Some(pending), Some(identity)) => *pending == request_id && identity.0 == *server && identity.1 == user,
            _ => false,
        };
        if !current {
            return;
        }
        self.pending_request = None;
        match result {
            Ok(value) => {
                let users = sorted_unique_users(value.users);
                self.value = Some(ServerPresence { users });
                self.failures = 0;
                self.error = None;
            },
            Err(error) => self.failed(error),
        }
    }

    /// The label shown in place of the present users, if any: presence is
    /// unavailable after three failures, being checked before the first reply,
    /// or nobody is labelling.
    pub fn summary_label(&self) -> (r: Option<&'static str>)
        ensures
            match r {
                Some(l) => if self.failures >= 3 {
                    l@ == "Presence unavailable"@
                } else if self.value is None {
                    l@ == "Checking presence…"@
                } else {
                    self.value->0.users@.len() == 0 && l@ == "No active labellers"@
                },
                None => self.failures < 3 && (self.value matches Some(v) && v.users@.len() > 0),
            },
    {
        if self.failures >= 3 {
            Some("Presence unavailable")
        } else {
            match &self.value {
                None => Some("Checking presence…"),
                Some(v) => if v.users.len() == 0 {
                    Some("No active labellers")
                } else {
                    None
                },
            }
        }
    }
}

/// The connection label for a presence state with `failures` failures.
pub open spec fn connection_label(failures: u32, heard: bool) -> Seq<char> {
    if failures >= 3 {
        "Disconnected"@
    } else if failures > 0 {
        "Reconnecting"@
    } else if !heard {
        "Checking connection"@
    } else {
        "Connected"@
    }
}

/// The label of save status `s`.
pub open spec fn save_label(s: SaveStatus) -> Seq<char> {
    match s {
        SaveStatus::Idle => "Idle"@,
        SaveStatus::Dirty => "Unsaved edits"@,
        SaveStatus::Saved => "Saved"@,
        SaveStatus::Saving => "Saving"@,
        SaveStatus::Retry => "Save failed. Retry saving."@,
    }
}

/// A line for message `m`, if there is one.
pub open spec fn line_of(m: Option<String>) -> Seq<char> {
    match m {
        Some(t) => "\n"@ + t@,
        None => Seq::empty(),
    }
}

fn append_line(text: &mut String, m: &Option<String>)
    ensures
        final(text)@ == old(text)@ + line_of(*m),
{
    match m {
        Some(t) => {
            text.append("\n");
            text.append(t.as_str());
        },
        None => {},
    }
}

/// The connection status: its tone, and the connection, the save status, the
/// presence, storage and general errors, and the notice, one per line.
pub fn connection_status(
    presence: &PresenceState,
    save: SaveStatus,
    storage_error: &Option<String>,
    error: &Option<String>,
    notice: &Option<String>,
) -> (r: (Tone, String))
    ensures
        r.1@ == connection_label(presence.failures, presence.value is Some) + "\n"@ + save_label(save)
            + line_of(presence.error) + line_of(*storage_error) + line_of(*error) + line_of(*notice),
        r.0 == if presence.failures >= 3 || error is Some || storage_error is Some || save
            == SaveStatus::Retry {
            Tone::Danger
        } else if presence.failures > 0 || presence.value is None || save == SaveStatus::Dirty || save
            == SaveStatus::Saving {
            Tone::Warning
        } else {
            Tone::Success
        },
{
    let mut detail = if presence.failures >= 3 {
        String::from_str("Disconnected")
    } else if presence.failures > 0 {
        String::from_str("Reconnecting")
    } else if presence.value.is_none() {
        String::from_str("Checking connection")
    } else {
        String::from_str("Connected")
    };
    detail.append("\n");
    detail.append(
        match save {
            SaveStatus::Idle => "Idle",
            SaveStatus::Dirty => "Unsaved edits",
            SaveStatus::Saved => "Saved",
            SaveStatus::Saving => "Saving",
            SaveStatus::Retry => "Save failed. Retry saving.",
        },
    );
    append_line(&mut detail, &presence.error);
    append_line(&mut detail, storage_error);
    append_line(&mut detail, error);
    append_line(&mut detail, notice);
    let retry = match save {
        SaveStatus::Retry => true,
        _ => false,
    };
    let busy = match save {
        SaveStatus::Dirty | SaveStatus::Saving => true,
        _ => false,
    };
    let tone = if presence.failures >= 3 || error.is_some() || storage_error.is_some() || retry {
        Tone::Danger
    } else if presence.failures > 0 || presence.value.is_none() || busy {
        Tone::Warning
    } else {
        Tone::Success
    };
    (tone, detail)
}

} // verus!

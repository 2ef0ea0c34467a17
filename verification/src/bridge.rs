//! Cross-context bridge: the request/response protocol that lets code in the
//! untrusted context invoke privileged operations owned by the trusted
//! context. Every request carries a correlation id unique among outstanding
//! requests; every reply carries the same id and either a result or an error,
//! never both. The untrusted side keeps one listener per outstanding request
//! and removes it on the matching reply; a reply matching no listener is
//! dropped by design. Requests are fire-and-forget: the bridge enforces no
//! timeout and no retries.
use vstd::prelude::*;
use crate::strutil::chars_of;

verus! {

/// A window-control action dispatched to the hosting shell.
#[derive(Debug, PartialEq, Eq, Clone, Copy)]
pub enum WindowAction {
    Minimize,
    MaximizeToggle,
    Close,
}

/// A privileged operation reachable through the generic invoke.
#[derive(Debug, PartialEq, Eq, Clone, Copy)]
pub enum Operation {
    GetScripts,
    AddScriptFromUrl,
    ToggleScript,
    DeleteScript,
    ReorderScript,
    RefreshScript,
    AutoUpdateScripts,
}

/// A reply to one request: the matching correlation id and either a result
/// value or an error message — never both.
pub struct BridgeResponse {
    pub correlation_id: u64,
    pub outcome: Result<String, String>,
}

/// The untrusted side's set of pending listeners, keyed by correlation id.
/// The listener is an opaque token chosen by the caller that issued the
/// request.
pub struct BridgeState {
    pub pending: Vec<(u64, u64)>,
}

/// At most one outstanding request per correlation id.
pub open spec fn pending_wf(ps: Seq<(u64, u64)>) -> bool {
    forall|i: int, j: int| 0 <= i < j < ps.len() ==> ps[i].0 != ps[j].0
}

/// Index of the pending request with this correlation id.
pub open spec fn find_pending(ps: Seq<(u64, u64)>, c: u64) -> Option<int>
    decreases ps.len(),
{
    if ps.len() == 0 {
        None
    } else if ps[0].0 == c {
        Some(0)
    } else {
        match find_pending(ps.drop_first(), c) {
            Some(i) => Some(i + 1),
            None => None,
        }
    }
}

pub proof fn lemma_find_pending_props(ps: Seq<(u64, u64)>, c: u64)
    ensures
        match find_pending(ps, c) {
            Some(i) => 0 <= i < ps.len() && ps[i].0 == c && forall|k: int|
                0 <= k < i ==> ps[k].0 != c,
            None => forall|k: int| 0 <= k < ps.len() ==> ps[k].0 != c,
        },
    decreases ps.len(),
{
    if ps.len() == 0 {
    } else if ps[0].0 == c {
    } else {
        lemma_find_pending_props(ps.drop_first(), c);
        match find_pending(ps.drop_first(), c) {
            Some(i) => {
                assert(ps[i + 1] == ps.drop_first()[i]);
                assert forall|k: int| 0 <= k < i + 1 implies ps[k].0 != c by {
                    if k > 0 {
                        assert(ps[k] == ps.drop_first()[k - 1]);
                    }
                }
            },
            None => {
                assert forall|k: int| 0 <= k < ps.len() implies ps[k].0 != c by {
                    if k > 0 {
                        assert(ps[k] == ps.drop_first()[k - 1]);
                    }
                }
            },
        }
    }
}

impl BridgeState {
    /// No requests outstanding.
    pub fn new() -> (r: BridgeState)
        ensures
            r.pending@ =~= Seq::<(u64, u64)>::empty(),
            pending_wf(r.pending@),
    {
        BridgeState { pending: Vec::new() }
    }

    fn find_index(&self, c: u64) -> (r: Option<usize>)
        ensures
            match r {
                Some(i) => find_pending(self.pending@, c) == Some(i as int),
                None => find_pending(self.pending@, c) is None,
            },
    {
        let mut k: usize = 0;
        while k < self.pending.len()
            invariant
                k <= self.pending@.len(),
                forall|t: int| 0 <= t < k ==> self.pending@[t].0 != c,
            decreases self.pending@.len() - k,
        {
            if self.pending[k].0 == c {
                proof {
                    lemma_find_pending_props(self.pending@, c);
                }
                return Some(k);
            }
            k = k + 1;
        }
        proof {
            lemma_find_pending_props(self.pending@, c);
        }
        None
    }

    /// Registers a one-shot listener for a freshly issued request. A
    /// correlation id already outstanding is refused, keeping ids unique
    /// among outstanding requests.
    pub fn issue(&mut self, correlation_id: u64, listener: u64) -> (accepted: bool)
        requires
            pending_wf(old(self).pending@),
        ensures
            pending_wf(final(self).pending@),
            match find_pending(old(self).pending@, correlation_id) {
                None => accepted && final(self).pending@ =~= old(self).pending@.push(
                    (correlation_id, listener),
                ),
                Some(_) => !accepted && final(self).pending@ == old(self).pending@,
            },
    {
        match self.find_index(correlation_id) {
            Some(_) => false,
            None => {
                proof {
                    lemma_find_pending_props(self.pending@, correlation_id);
                }
                self.pending.push((correlation_id, listener));
                proof {
                    assert forall|i: int, j: int|
                        0 <= i < j < self.pending@.len() implies self.pending@[i].0
                        != self.pending@[j].0 by {
                        if j < old(self).pending@.len() {
                            assert(old(self).pending@[i].0 != old(self).pending@[j].0);
                        } else {
                            assert(old(self).pending@[i].0 != correlation_id);
                        }
                    }
                }
                true
            },
        }
    }

    /// Delivers one reply: the matching listener is removed and returned;
    /// a reply whose correlation id matches no listener is dropped silently.
    pub fn on_reply(&mut self, correlation_id: u64) -> (r: Option<u64>)
        requires
            pending_wf(old(self).pending@),
        ensures
            pending_wf(final(self).pending@),
            match find_pending(old(self).pending@, correlation_id) {
                Some(i) => r == Some(old(self).pending@[i].1) && final(self).pending@ =~= old(
                    self,
                ).pending@.remove(i),
                None => r is None && final(self).pending@ == old(self).pending@,
            },
    {
        match self.find_index(correlation_id) {
            None => None,
            Some(i) => {
                proof {
                    lemma_find_pending_props(self.pending@, correlation_id);
                }
                let entry = self.pending.remove(i);
                proof {
                    assert forall|x: int, y: int|
                        0 <= x < y < self.pending@.len() implies self.pending@[x].0
                        != self.pending@[y].0 by {
                        let sx = if x < i { x } else { x + 1 };
                        let sy = if y < i { y } else { y + 1 };
                        assert(self.pending@[x] == old(self).pending@[sx]);
                        assert(self.pending@[y] == old(self).pending@[sy]);
                    }
                }
                Some(entry.1)
            },
        }
    }

    /// The reply the untrusted side synthesizes when the privileged
    /// transport is absent: an error response carried to the same listener,
    /// never a crash and never a silent drop.
    pub fn transport_absent_response(correlation_id: u64) -> (r: BridgeResponse)
        ensures
            r.correlation_id == correlation_id,
            r.outcome matches Err(m) && m@ == "privileged transport not available"@,
    {
        BridgeResponse {
            correlation_id,
            outcome: Err(
                <String as vstd::string::StringExecFns>::from_str(
                    "privileged transport not available",
                ),
            ),
        }
    }
}

/// An entry is present exactly when some pending request carries it.
pub open spec fn has_entry(ps: Seq<(u64, u64)>, c: u64, l: u64) -> bool {
    exists|i: int| 0 <= i < ps.len() && ps[i] == (c, l)
}

/// Law: replies may arrive in any order. Resolving one reply removes exactly
/// its own pending request: every other outstanding request keeps its
/// listener, and the resolved id is no longer registered.
pub proof fn lemma_reply_independence(ps: Seq<(u64, u64)>, c: u64)
    requires
        pending_wf(ps),
        find_pending(ps, c) is Some,
    ensures
        ({
            let removed = ps.remove(find_pending(ps, c)->0);
            &&& forall|l: u64| !has_entry(removed, c, l)
            &&& forall|c2: u64, l: u64|
                c2 != c ==> (has_entry(removed, c2, l) <==> has_entry(ps, c2, l))
        }),
{
    lemma_find_pending_props(ps, c);
    let i = find_pending(ps, c)->0;
    let removed = ps.remove(i);
    assert forall|x: int| 0 <= x < removed.len() implies removed[x] == ps[
        if x < i {
            x
        } else {
            x + 1
        }
    ] by {}
    assert forall|l: u64| !has_entry(removed, c, l) by {
        if has_entry(removed, c, l) {
            let x = choose|x: int| 0 <= x < removed.len() && removed[x] == (c, l);
            let sx = if x < i {
                x
            } else {
                x + 1
            };
            assert(ps[sx].0 == c && sx != i);
            assert(ps[i].0 == c);
            assert(false);
        }
    }
    assert forall|c2: u64, l: u64| c2 != c implies (has_entry(removed, c2, l) <==> has_entry(
        ps,
        c2,
        l,
    )) by {
        if has_entry(removed, c2, l) {
            let x = choose|x: int| 0 <= x < removed.len() && removed[x] == (c2, l);
            let sx = if x < i {
                x
            } else {
                x + 1
            };
            assert(ps[sx] == (c2, l));
        }
        if has_entry(ps, c2, l) {
            let x = choose|x: int| 0 <= x < ps.len() && ps[x] == (c2, l);
            assert(x != i);
            let rx = if x < i {
                x
            } else {
                x - 1
            };
            assert(removed[rx] == (c2, l));
        }
    }
}

/// The operation name carried by a generic-invoke request.
pub open spec fn operation_name_spec(name: Seq<char>) -> Option<Operation> {
    if name == "get_scripts"@ {
        Some(Operation::GetScripts)
    } else if name == "add_script_from_url"@ {
        Some(Operation::AddScriptFromUrl)
    } else if name == "toggle_script"@ {
        Some(Operation::ToggleScript)
    } else if name == "delete_script"@ {
        Some(Operation::DeleteScript)
    } else if name == "reorder_script"@ {
        Some(Operation::ReorderScript)
    } else if name == "refresh_script"@ {
        Some(Operation::RefreshScript)
    } else if name == "auto_update_scripts"@ {
        Some(Operation::AutoUpdateScripts)
    } else {
        None
    }
}

/// The characters of two strings are the same.
fn str_eq(a: &str, b: &str) -> (r: bool)
    ensures
        r == (a@ == b@),
{
    let av = chars_of(a);
    let bv = chars_of(b);
    if av.len() != bv.len() {
        proof {
            assert(a@.len() != b@.len());
        }
        return false;
    }
    let mut k: usize = 0;
    while k < av.len()
        invariant
            av@ == a@,
            bv@ == b@,
            av@.len() == bv@.len(),
            k <= av@.len(),
            forall|t: int| 0 <= t < k ==> av@[t] == bv@[t],
        decreases av@.len() - k,
    {
        if av[k] != bv[k] {
            proof {
                assert(a@[k as int] != b@[k as int]);
            }
            return false;
        }
        k = k + 1;
    }
    proof {
        assert(a@ =~= b@);
    }
    true
}

/// Maps a generic-invoke operation name to the registry or auto-updater
/// call it stands for; an unknown name maps to nothing.
pub fn parse_operation(name: &str) -> (r: Option<Operation>)
    ensures
        r == operation_name_spec(name@),
{
    if str_eq(name, "get_scripts") {
        Some(Operation::GetScripts)
    } else if str_eq(name, "add_script_from_url") {
        Some(Operation::AddScriptFromUrl)
    } else if str_eq(name, "toggle_script") {
        Some(Operation::ToggleScript)
    } else if str_eq(name, "delete_script") {
        Some(Operation::DeleteScript)
    } else if str_eq(name, "reorder_script") {
        Some(Operation::ReorderScript)
    } else if str_eq(name, "refresh_script") {
        Some(Operation::RefreshScript)
    } else if str_eq(name, "auto_update_scripts") {
        Some(Operation::AutoUpdateScripts)
    } else {
        None
    }
}

/// The window-control action named by a request; an unknown action maps to
/// nothing and is ignored by the shell.
pub open spec fn window_action_spec(name: Seq<char>) -> Option<WindowAction> {
    if name == "minimize"@ {
        Some(WindowAction::Minimize)
    } else if name == "maximize"@ {
        Some(WindowAction::MaximizeToggle)
    } else if name == "close"@ {
        Some(WindowAction::Close)
    } else {
        None
    }
}

/// Maps a window-control action name to the action dispatched to the shell.
pub fn parse_window_action(name: &str) -> (r: Option<WindowAction>)
    ensures
        r == window_action_spec(name@),
{
    if str_eq(name, "minimize") {
        Some(WindowAction::Minimize)
    } else if str_eq(name, "maximize") {
        Some(WindowAction::MaximizeToggle)
    } else if str_eq(name, "close") {
        Some(WindowAction::Close)
    } else {
        None
    }
}

} // verus!

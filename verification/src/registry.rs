//! The session registry: session id to session, and the operations the UI
//! drives.
//!
//! The registry is the one piece of shared state of the orchestrator. The
//! caller wraps it in a lock and serializes the operations below; the
//! registry itself is a plain value, so everything it does is verified
//! against the map model `session id -> session view`. Spawning and killing
//! happen outside: `start` takes a handle that was already spawned and hands
//! it back when the name is taken, `stop` and `stop_session` return the
//! handles the caller must kill, and `call_tool` returns a borrow of the
//! handle that serves the tool.

use vstd::prelude::*;

use crate::errors::McpError;
use crate::session::{lemma_server_at, lemma_servers_map_len, Session, SessionView};

verus! {

/// One registered session and its id.
pub struct SessionSlot<H> {
    pub id: i32,
    pub session: Session<H>,
}

/// The registry of all live sessions.
pub struct Registry<H> {
    pub sessions: Vec<SessionSlot<H>>,
}

/// Session ids are unique in the registry.
pub open spec fn session_ids_unique<H>(s: Seq<SessionSlot<H>>) -> bool {
    forall|i: int, j: int| 0 <= i < j < s.len() ==> s[i].id != s[j].id
}

/// The map a slot list stands for: session id to session model.
pub open spec fn sessions_map<H>(s: Seq<SessionSlot<H>>) -> Map<int, SessionView<H>> {
    Map::new(
        |sid: int| exists|i: int| 0 <= i < s.len() && s[i].id as int == sid,
        |sid: int| s[choose|i: int| 0 <= i < s.len() && s[i].id as int == sid].session@,
    )
}

impl<H> View for Registry<H> {
    type V = Map<int, SessionView<H>>;

    open spec fn view(&self) -> Map<int, SessionView<H>> {
        sessions_map(self.sessions@)
    }
}

/// Whether `m` has a session `sid` holding a server named `name`.
pub open spec fn server_present<H>(m: Map<int, SessionView<H>>, sid: int, name: Seq<char>) -> bool {
    m.dom().contains(sid) && m[sid].servers.dom().contains(name)
}

/// The session `sid` starts from: its current state, or a fresh one created
/// implicitly on first use.
pub open spec fn session_before_start<H>(m: Map<int, SessionView<H>>, sid: int) -> SessionView<H> {
    if m.dom().contains(sid) {
        m[sid]
    } else {
        SessionView::empty()
    }
}

/// What `start` does to the registry: nothing when the name is already taken
/// in the session, otherwise the session (fetched or created) admits the
/// server and routes its tools.
pub open spec fn start_transition<H>(
    m: Map<int, SessionView<H>>,
    sid: int,
    name: Seq<char>,
    tools: Seq<Seq<char>>,
    h: H,
) -> Map<int, SessionView<H>> {
    if server_present(m, sid, name) {
        m
    } else {
        m.insert(sid, session_before_start(m, sid).after_start(name, tools, h))
    }
}

/// What `stop` does to the registry: the named server and its routes leave
/// the session; a missing session or name changes nothing.
pub open spec fn stop_transition<H>(
    m: Map<int, SessionView<H>>,
    sid: int,
    name: Seq<char>,
) -> Map<int, SessionView<H>> {
    if server_present(m, sid, name) {
        m.insert(sid, m[sid].after_stop(name))
    } else {
        m
    }
}

/// What `stop_session` does to the registry: the whole session leaves,
/// whether or not it existed.
pub open spec fn stop_session_transition<H>(
    m: Map<int, SessionView<H>>,
    sid: int,
) -> Map<int, SessionView<H>> {
    m.remove(sid)
}

/// What `rename_server` does to the registry: the named server is
/// relabelled and its routes rewritten; a missing session or old name
/// changes nothing.
pub open spec fn rename_transition<H>(
    m: Map<int, SessionView<H>>,
    sid: int,
    old_name: Seq<char>,
    new_name: Seq<char>,
) -> Map<int, SessionView<H>> {
    if server_present(m, sid, old_name) {
        m.insert(sid, m[sid].after_rename(old_name, new_name))
    } else {
        m
    }
}

/// The outcome of a rename.
pub enum RenameOutcome<H> {
    /// No session with that id, or no server bearing the old name: the
    /// registry is untouched.
    NotFound,
    /// The server was relabelled. A server that already bore the new name
    /// was displaced and is handed back to be killed.
    Renamed(Option<H>),
}

impl<H> Registry<H> {
    /// The representation invariant: ids are duplicate-free and every session
    /// is itself well formed.
    pub open spec fn wf(self) -> bool {
        session_ids_unique(self.sessions@)
        && forall|i: int| 0 <= i < self.sessions@.len()
            ==> (#[trigger] self.sessions@[i]).session.wf()
    }

    /// A registry with no sessions.
    pub fn new() -> (r: Self)
        ensures
            r.wf(),
            r@ == Map::<int, SessionView<H>>::empty(),
    {
        let r = Registry { sessions: Vec::new() };
        proof {
            assert(r@ =~= Map::<int, SessionView<H>>::empty());
        }
        r
    }

    /// The index of the slot for `session_id`, if any.
    fn find_slot(&self, session_id: i32) -> (r: Option<usize>)
        ensures
            match r {
                Some(i) => i < self.sessions@.len() && self.sessions@[i as int].id == session_id,
                None => forall|j: int| 0 <= j < self.sessions@.len()
                    ==> self.sessions@[j].id != session_id,
            },
    {
        let mut i: usize = 0;
        while i < self.sessions.len()
            invariant
                i <= self.sessions@.len(),
                forall|j: int| 0 <= j < i ==> self.sessions@[j].id != session_id,
            decreases self.sessions@.len() - i,
        {
            if self.sessions[i].id == session_id {
                return Some(i);
            }
            i += 1;
        }
        None
    }

    /// Whether session `session_id` holds a server named `name`.
    pub fn has_server(&self, session_id: i32, name: &String) -> (r: bool)
        requires
            self.wf(),
        ensures
            r == server_present(self@, session_id as int, name@),
    {
        match self.find_slot(session_id) {
            Some(i) => {
                proof {
                    lemma_slot_at(self.sessions@, i as int);
                }
                self.sessions[i].session.has_server(name)
            }
            None => false,
        }
    }

    /// Admits an already-spawned server into the session, creating the
    /// session on first use. When a server of the same name is already
    /// running there, the registry is left untouched and the error carries
    /// the new handle back to be killed. Otherwise every advertised tool is
    /// routed to the new server, overwriting colliding routes, and the handle
    /// joins the session.
    pub fn start(
        &mut self,
        session_id: i32,
        name: String,
        tools: &Vec<String>,
        handle: H,
    ) -> (r: Result<(), (H, McpError)>)
        requires
            old(self).wf(),
        ensures
            final(self).wf(),
            final(self)@ == start_transition(old(self)@, session_id as int, name@,
                tools.deep_view(), handle),
            r is Err <==> server_present(old(self)@, session_id as int, name@),
            r matches Err(p) ==> (p.0 == handle
                && (p.1 matches McpError::DuplicateServerName(n) && n@ == name@)),
    {
        match self.find_slot(session_id) {
            Some(i) => {
                proof {
                    lemma_slot_at(self.sessions@, i as int);
                }
                if self.sessions[i].session.has_server(&name) {
                    return Err((handle, McpError::DuplicateServerName(name)));
                }
                let ghost pre = self.sessions@;
                let slot = &mut self.sessions[i];
                slot.session.insert_server(name, tools, handle);
                proof {
                    lemma_slot_update(pre, i as int, self.sessions@[i as int]);
                    assert forall|j: int| 0 <= j < self.sessions@.len()
                        implies (#[trigger] self.sessions@[j]).session.wf() by {
                        if j != i as int {
                            assert(self.sessions@[j] == pre[j]);
                        }
                    }
                }
                Ok(())
            }
            None => {
                let mut session = Session::empty();
                session.insert_server(name, tools, handle);
                let ghost pre = self.sessions@;
                self.sessions.push(SessionSlot { id: session_id, session });
                proof {
                    assert(self.sessions@ == pre.push(self.sessions@.last()));
                    lemma_slot_push(pre, self.sessions@.last());
                    assert forall|j: int| 0 <= j < self.sessions@.len()
                        implies (#[trigger] self.sessions@[j]).session.wf() by {
                        if j < pre.len() {
                            assert(self.sessions@[j] == pre[j]);
                        }
                    }
                }
                Ok(())
            }
        }
    }

    /// Removes and returns the handle of the named server so that the caller
    /// can kill it; a missing session or name is nothing to do, never an
    /// error.
    pub fn stop(&mut self, session_id: i32, name: &String) -> (r: Option<H>)
        requires
            old(self).wf(),
        ensures
            final(self).wf(),
            final(self)@ == stop_transition(old(self)@, session_id as int, name@),
            r is Some <==> server_present(old(self)@, session_id as int, name@),
            r matches Some(h) ==> h == old(self)@[session_id as int].servers[name@],
    {
        match self.find_slot(session_id) {
            Some(i) => {
                proof {
                    lemma_slot_at(self.sessions@, i as int);
                }
                let ghost pre = self.sessions@;
                let slot = &mut self.sessions[i];
                let r = slot.session.remove_server(name);
                proof {
                    lemma_slot_update(pre, i as int, self.sessions@[i as int]);
                    assert forall|j: int| 0 <= j < self.sessions@.len()
                        implies (#[trigger] self.sessions@[j]).session.wf() by {
                        if j != i as int {
                            assert(self.sessions@[j] == pre[j]);
                        }
                    }
                    if !server_present(old(self)@, session_id as int, name@) {
                        assert(self.sessions@[i as int] == pre[i as int]);
                        assert(sessions_map(pre).insert(session_id as int,
                            pre[i as int].session@) =~= sessions_map(pre));
                    }
                }
                r
            }
            None => None,
        }
    }

    /// Removes the whole session and returns every handle in it so that the
    /// caller can kill them; a missing session is nothing to do, never an
    /// error.
    pub fn stop_session(&mut self, session_id: i32) -> (r: Vec<H>)
        requires
            old(self).wf(),
        ensures
            final(self).wf(),
            final(self)@ == stop_session_transition(old(self)@, session_id as int),
            !old(self)@.dom().contains(session_id as int) ==> r@.len() == 0,
            old(self)@.dom().contains(session_id as int)
                ==> forall|n: Seq<char>|
                    #[trigger] old(self)@[session_id as int].servers.dom().contains(n)
                    ==> exists|i: int| 0 <= i < r@.len()
                        && r@[i] == old(self)@[session_id as int].servers[n],
            old(self)@.dom().contains(session_id as int)
                ==> forall|i: int| 0 <= i < r@.len()
                    ==> old(self)@[session_id as int].servers.contains_value(#[trigger] r@[i]),
            old(self)@.dom().contains(session_id as int)
                ==> r@.len() == old(self)@[session_id as int].servers.dom().len(),
    {
        match self.find_slot(session_id) {
            Some(i) => {
                proof {
                    lemma_slot_at(self.sessions@, i as int);
                    lemma_slot_swap_remove(self.sessions@, i as int);
                }
                let ghost pre = self.sessions@;
                let slot = self.sessions.swap_remove(i);
                proof {
                    assert forall|j: int| 0 <= j < self.sessions@.len()
                        implies (#[trigger] self.sessions@[j]).session.wf() by {
                        assert(self.sessions@[j]
                            == (if j == i as int { pre[pre.len() - 1] } else { pre[j] }));
                    }
                }
                let ghost entries = slot.session.servers@;
                let handles = slot.session.into_handles();
                proof {
                    lemma_servers_map_len(entries);
                    assert forall|k: int| 0 <= k < handles@.len()
                        implies old(self)@[session_id as int].servers.contains_value(
                            #[trigger] handles@[k]) by {
                        let j = entries.len() - 1 - k;
                        lemma_server_at(entries, j);
                        assert(old(self)@[session_id as int].servers.dom().contains(
                            entries[j].name@));
                        assert(old(self)@[session_id as int].servers[entries[j].name@]
                            == handles@[k]);
                    }
                }
                handles
            }
            None => {
                proof {
                    assert(self@.remove(session_id as int) =~= self@);
                }
                Vec::new()
            }
        }
    }

    /// Borrows the handles of every server in the session, one per server;
    /// the session's tool list is the union of what those handles advertise.
    /// An unknown session yields no handles, not an error, because sessions
    /// come into existence implicitly.
    pub fn get_tools(&self, session_id: i32) -> (r: Vec<&H>)
        requires
            self.wf(),
        ensures
            !self@.dom().contains(session_id as int) ==> r@.len() == 0,
            self@.dom().contains(session_id as int) ==> {
                &&& r@.len() == self@[session_id as int].servers.dom().len()
                &&& forall|i: int| 0 <= i < r@.len()
                    ==> self@[session_id as int].servers.contains_value(*(#[trigger] r@[i]))
                &&& forall|n: Seq<char>|
                    #[trigger] self@[session_id as int].servers.dom().contains(n)
                    ==> exists|i: int| 0 <= i < r@.len()
                        && *r@[i] == self@[session_id as int].servers[n]
            },
    {
        match self.find_slot(session_id) {
            Some(i) => {
                proof {
                    lemma_slot_at(self.sessions@, i as int);
                }
                let r = self.sessions[i].session.handles();
                proof {
                    let entries = self.sessions@[i as int].session.servers@;
                    lemma_servers_map_len(entries);
                    assert forall|k: int| 0 <= k < r@.len()
                        implies self@[session_id as int].servers.contains_value(
                            *(#[trigger] r@[k])) by {
                        lemma_server_at(entries, k);
                        assert(self@[session_id as int].servers.dom().contains(entries[k].name@)
                            && self@[session_id as int].servers[entries[k].name@] == *r@[k]);
                    }
                }
                r
            }
            None => Vec::new(),
        }
    }

    /// Serves a tool call: the routing table names the owning server, whose
    /// handle is borrowed for the caller to drive. A tool no routing entry
    /// mentions reports `ToolNotFound` (an unknown session routes nothing);
    /// a routing entry whose server has raced away reports `ServerNotFound`.
    pub fn call_tool(&self, session_id: i32, tool: &String) -> (r: Result<&H, McpError>)
        requires
            self.wf(),
        ensures
            ({
                let m = self@;
                let sid = session_id as int;
                &&& (m.dom().contains(sid) && m[sid].routes.dom().contains(tool@)
                    && m[sid].servers.dom().contains(m[sid].routes[tool@]))
                    ==> (r matches Ok(h) && *h == m[sid].servers[m[sid].routes[tool@]])
                &&& !(m.dom().contains(sid) && m[sid].routes.dom().contains(tool@))
                    ==> (r matches Err(e) && e matches McpError::ToolNotFound(t) && t@ == tool@)
                &&& (m.dom().contains(sid) && m[sid].routes.dom().contains(tool@)
                    && !m[sid].servers.dom().contains(m[sid].routes[tool@]))
                    ==> (r matches Err(e) && e matches McpError::ServerNotFound(s, t)
                        && s@ == m[sid].routes[tool@] && t@ == tool@)
            }),
    {
        match self.find_slot(session_id) {
            Some(i) => {
                proof {
                    lemma_slot_at(self.sessions@, i as int);
                }
                self.sessions[i].session.resolve(tool)
            }
            None => Err(McpError::ToolNotFound(tool.clone())),
        }
    }

    /// Relabels a server and atomically rewrites every routing entry that
    /// pointed at its old name; an unknown session or old name is a silent
    /// no-op. A server already bearing the new name is displaced and handed
    /// back to be killed.
    pub fn rename_server(
        &mut self,
        session_id: i32,
        old_name: &String,
        new_name: &String,
    ) -> (r: RenameOutcome<H>)
        requires
            old(self).wf(),
        ensures
            final(self).wf(),
            final(self)@ == rename_transition(old(self)@, session_id as int, old_name@,
                new_name@),
            r is NotFound <==> !server_present(old(self)@, session_id as int, old_name@),
            server_present(old(self)@, session_id as int, old_name@)
                ==> (r matches RenameOutcome::Renamed(d)
                    && (if old(self)@[session_id as int].servers.dom().contains(new_name@)
                        && new_name@ != old_name@ {
                        d matches Some(h)
                            && h == old(self)@[session_id as int].servers[new_name@]
                    } else {
                        d is None
                    })),
    {
        match self.find_slot(session_id) {
            Some(i) => {
                proof {
                    lemma_slot_at(self.sessions@, i as int);
                }
                let ghost pre = self.sessions@;
                let slot = &mut self.sessions[i];
                let inner = slot.session.rename(old_name, new_name);
                proof {
                    lemma_slot_update(pre, i as int, self.sessions@[i as int]);
                    assert forall|j: int| 0 <= j < self.sessions@.len()
                        implies (#[trigger] self.sessions@[j]).session.wf() by {
                        if j != i as int {
                            assert(self.sessions@[j] == pre[j]);
                        }
                    }
                    if !server_present(old(self)@, session_id as int, old_name@) {
                        assert(self.sessions@[i as int] == pre[i as int]);
                        assert(sessions_map(pre).insert(session_id as int,
                            pre[i as int].session@) =~= sessions_map(pre));
                    }
                }
                match inner {
                    Some(displaced) => RenameOutcome::Renamed(displaced),
                    None => RenameOutcome::NotFound,
                }
            }
            None => RenameOutcome::NotFound,
        }
    }
}

/// With unique ids, the slot at index `i` is what the map holds for its id.
pub proof fn lemma_slot_at<H>(s: Seq<SessionSlot<H>>, i: int)
    requires
        session_ids_unique(s),
        0 <= i < s.len(),
    ensures
        sessions_map(s).dom().contains(s[i].id as int),
        sessions_map(s)[s[i].id as int] == s[i].session@,
{
    let sid = s[i].id as int;
    assert(exists|j: int| 0 <= j < s.len() && s[j].id as int == sid);
    let j = choose|j: int| 0 <= j < s.len() && s[j].id as int == sid;
    assert(j == i);
}

/// Pushing a slot with a fresh id inserts its session into the map.
pub proof fn lemma_slot_push<H>(s: Seq<SessionSlot<H>>, slot: SessionSlot<H>)
    requires
        session_ids_unique(s),
        !sessions_map(s).dom().contains(slot.id as int),
    ensures
        session_ids_unique(s.push(slot)),
        sessions_map(s.push(slot)) == sessions_map(s).insert(slot.id as int, slot.session@),
{
    let s2 = s.push(slot);
    assert forall|i: int| 0 <= i < s.len() implies (#[trigger] s[i]).id != slot.id by {
        if s[i].id == slot.id {
            assert(s[i].id as int == slot.id as int);
        }
    }
    assert(session_ids_unique(s2)) by {
        assert forall|i: int, j: int| 0 <= i < j < s2.len() implies s2[i].id != s2[j].id by {
            if j < s.len() {
            } else {
                assert(s2[j] == slot);
            }
        }
    }
    assert(sessions_map(s2) =~= sessions_map(s).insert(slot.id as int, slot.session@)) by {
        assert forall|sid: int| sessions_map(s2).dom().contains(sid)
            <==> sessions_map(s).insert(slot.id as int, slot.session@).dom().contains(sid) by {
            if sid == slot.id as int {
                assert(s2[s.len() as int] == slot);
                assert(exists|i: int| 0 <= i < s2.len() && s2[i].id as int == sid);
            } else {
                if exists|i: int| 0 <= i < s2.len() && s2[i].id as int == sid {
                    let i = choose|i: int| 0 <= i < s2.len() && s2[i].id as int == sid;
                    assert(i < s.len());
                    assert(s[i].id as int == sid);
                }
                if exists|i: int| 0 <= i < s.len() && s[i].id as int == sid {
                    let i = choose|i: int| 0 <= i < s.len() && s[i].id as int == sid;
                    assert(s2[i].id as int == sid);
                }
            }
        }
        assert forall|sid: int| #[trigger] sessions_map(s2).dom().contains(sid)
            implies sessions_map(s2)[sid]
            == sessions_map(s).insert(slot.id as int, slot.session@)[sid] by {
            let i = choose|i: int| 0 <= i < s2.len() && s2[i].id as int == sid;
            lemma_slot_at(s2, i);
            if sid == slot.id as int {
                assert(s2[s.len() as int] == slot);
                assert(i == s.len() as int);
            } else {
                assert(i < s.len());
                assert(s[i] == s2[i]);
                lemma_slot_at(s, i);
            }
        }
    }
}

/// Replacing the slot at index `i` by one with the same id updates its
/// session in the map.
pub proof fn lemma_slot_update<H>(s: Seq<SessionSlot<H>>, i: int, slot: SessionSlot<H>)
    requires
        session_ids_unique(s),
        0 <= i < s.len(),
        slot.id == s[i].id,
    ensures
        session_ids_unique(s.update(i, slot)),
        sessions_map(s.update(i, slot)) == sessions_map(s).insert(s[i].id as int, slot.session@),
{
    let s2 = s.update(i, slot);
    assert(session_ids_unique(s2)) by {
        assert forall|a: int, b: int| 0 <= a < b < s2.len() implies s2[a].id != s2[b].id by {
            assert(s2[a] == (if a == i { slot } else { s[a] }));
            assert(s2[b] == (if b == i { slot } else { s[b] }));
        }
    }
    assert(sessions_map(s2) =~= sessions_map(s).insert(s[i].id as int, slot.session@)) by {
        assert forall|sid: int| sessions_map(s2).dom().contains(sid)
            <==> sessions_map(s).insert(s[i].id as int, slot.session@).dom().contains(sid) by {
            if exists|j: int| 0 <= j < s2.len() && s2[j].id as int == sid {
                let j = choose|j: int| 0 <= j < s2.len() && s2[j].id as int == sid;
                assert(s[j].id as int == sid);
            }
            if exists|j: int| 0 <= j < s.len() && s[j].id as int == sid {
                let j = choose|j: int| 0 <= j < s.len() && s[j].id as int == sid;
                assert(s2[j].id as int == sid);
            }
        }
        assert forall|sid: int| #[trigger] sessions_map(s2).dom().contains(sid)
            implies sessions_map(s2)[sid]
            == sessions_map(s).insert(s[i].id as int, slot.session@)[sid] by {
            let j = choose|j: int| 0 <= j < s2.len() && s2[j].id as int == sid;
            lemma_slot_at(s2, j);
            if sid == s[i].id as int {
                assert(j == i);
            } else {
                assert(j != i);
                assert(s2[j] == s[j]);
                lemma_slot_at(s, j);
            }
        }
    }
}

/// Removing the slot at index `i` by a swap-remove removes its id from the
/// map.
pub proof fn lemma_slot_swap_remove<H>(s: Seq<SessionSlot<H>>, i: int)
    requires
        session_ids_unique(s),
        0 <= i < s.len(),
    ensures
        session_ids_unique(s.update(i, s.last()).drop_last()),
        sessions_map(s.update(i, s.last()).drop_last())
            == sessions_map(s).remove(s[i].id as int),
{
    let t = s.update(i, s.last()).drop_last();
    let sid0 = s[i].id as int;
    assert(t.len() == s.len() - 1);
    assert forall|j: int| 0 <= j < t.len() implies #[trigger] t[j]
        == (if j == i { s[s.len() - 1] } else { s[j] }) by {}
    assert(session_ids_unique(t)) by {
        assert forall|a: int, b: int| 0 <= a < b < t.len() implies t[a].id != t[b].id by {
            let oa: int = if a == i { s.len() - 1 } else { a };
            let ob: int = if b == i { s.len() - 1 } else { b };
            assert(t[a] == s[oa] && t[b] == s[ob]);
            assert(oa != ob);
        }
    }
    assert(sessions_map(t) =~= sessions_map(s).remove(sid0)) by {
        assert forall|sid: int| sessions_map(t).dom().contains(sid)
            <==> sessions_map(s).remove(sid0).dom().contains(sid) by {
            if exists|j: int| 0 <= j < t.len() && t[j].id as int == sid {
                let j = choose|j: int| 0 <= j < t.len() && t[j].id as int == sid;
                let oj: int = if j == i { s.len() - 1 } else { j };
                assert(s[oj].id as int == sid);
                assert(oj != i);
                assert(sid != sid0);
            }
            if sid != sid0 && (exists|j: int| 0 <= j < s.len() && s[j].id as int == sid) {
                let j = choose|j: int| 0 <= j < s.len() && s[j].id as int == sid;
                assert(j != i);
                if j == s.len() - 1 {
                    if i < s.len() - 1 {
                        assert(t[i].id as int == sid);
                    }
                } else {
                    assert(t[j].id as int == sid);
                }
            }
        }
        assert forall|sid: int| #[trigger] sessions_map(t).dom().contains(sid)
            implies sessions_map(t)[sid] == sessions_map(s).remove(sid0)[sid] by {
            let j = choose|j: int| 0 <= j < t.len() && t[j].id as int == sid;
            lemma_slot_at(t, j);
            let oj: int = if j == i { s.len() - 1 } else { j };
            assert(t[j] == s[oj]);
            lemma_slot_at(s, oj);
        }
    }
}

} // verus!

//! One session: a set of named server handles and a tool-name routing table.
//!
//! A session owns, per conversation, the live tool-provider handles that were
//! admitted into it, keyed by a display name that is unique within the
//! session, and a routing table mapping each advertised tool name to the name
//! of the server that owns it. The handle type is a parameter: the session
//! never looks inside a handle, it only stores it and hands it back when the
//! caller must kill or query it.
//!
//! The mathematical model of a session is a pair of maps: server name to
//! handle, and tool name to server name. Both sides are kept as vectors of
//! entries with unique keys; the lemmas in this module relate the vector
//! operations to map operations on the model.

use vstd::prelude::*;

use crate::errors::McpError;

verus! {

/// One admitted server: its display name and its live handle.
pub struct ServerEntry<H> {
    pub name: String,
    pub handle: H,
}

/// One routing entry: a tool name and the name of the owning server.
pub struct Route {
    pub tool: String,
    pub server: String,
}

/// The mathematical model of a session.
#[verifier::ext_equal]
pub ghost struct SessionView<H> {
    /// Server display name to handle.
    pub servers: Map<Seq<char>, H>,
    /// Tool name to the display name of the server that owns it.
    pub routes: Map<Seq<char>, Seq<char>>,
}

/// A session's live state: the admitted servers and the routing table.
pub struct Session<H> {
    pub servers: Vec<ServerEntry<H>>,
    pub routes: Vec<Route>,
}

/// Server display names are unique within a session.
pub open spec fn server_names_unique<H>(s: Seq<ServerEntry<H>>) -> bool {
    forall|i: int, j: int| 0 <= i < j < s.len() ==> s[i].name@ != s[j].name@
}

/// Each tool name has at most one routing entry.
pub open spec fn route_tools_unique(rs: Seq<Route>) -> bool {
    forall|i: int, j: int| 0 <= i < j < rs.len() ==> rs[i].tool@ != rs[j].tool@
}

/// The map a server list stands for: display name to handle.
pub open spec fn servers_map<H>(s: Seq<ServerEntry<H>>) -> Map<Seq<char>, H> {
    Map::new(
        |n: Seq<char>| exists|i: int| 0 <= i < s.len() && s[i].name@ == n,
        |n: Seq<char>| s[choose|i: int| 0 <= i < s.len() && s[i].name@ == n].handle,
    )
}

/// The map a routing list stands for: tool name to owning server name.
pub open spec fn routes_map(rs: Seq<Route>) -> Map<Seq<char>, Seq<char>> {
    Map::new(
        |t: Seq<char>| exists|i: int| 0 <= i < rs.len() && rs[i].tool@ == t,
        |t: Seq<char>| rs[choose|i: int| 0 <= i < rs.len() && rs[i].tool@ == t].server@,
    )
}

impl<H> View for Session<H> {
    type V = SessionView<H>;

    open spec fn view(&self) -> SessionView<H> {
        SessionView { servers: servers_map(self.servers@), routes: routes_map(self.routes@) }
    }
}

/// The routing table after a server named `name` advertising `tools` is
/// admitted: every advertised tool is routed to `name`, overwriting any
/// earlier route for the same tool (last write wins); other routes stay.
pub open spec fn routes_after_start(
    routes: Map<Seq<char>, Seq<char>>,
    tools: Seq<Seq<char>>,
    name: Seq<char>,
) -> Map<Seq<char>, Seq<char>> {
    Map::new(
        |t: Seq<char>| routes.dom().contains(t) || tools.contains(t),
        |t: Seq<char>| if tools.contains(t) { name } else { routes[t] },
    )
}

impl<H> SessionView<H> {
    /// The routing invariant: every routing entry points at a server that is
    /// present in the session.
    pub open spec fn routes_closed(self) -> bool {
        forall|t: Seq<char>| #[trigger] self.routes.dom().contains(t)
            ==> self.servers.dom().contains(self.routes[t])
    }

    /// The model of a session with no servers and no routes.
    pub open spec fn empty() -> Self {
        SessionView { servers: Map::empty(), routes: Map::empty() }
    }

    /// The session after a server named `name` advertising `tools` is
    /// admitted with handle `h`.
    pub open spec fn after_start(self, name: Seq<char>, tools: Seq<Seq<char>>, h: H) -> Self {
        SessionView {
            servers: self.servers.insert(name, h),
            routes: routes_after_start(self.routes, tools, name),
        }
    }

    /// The session after the server named `name` is stopped: the server
    /// leaves, and so does every route that pointed at it.
    pub open spec fn after_stop(self, name: Seq<char>) -> Self {
        SessionView {
            servers: self.servers.remove(name),
            routes: Map::new(
                |t: Seq<char>| self.routes.dom().contains(t) && self.routes[t] != name,
                |t: Seq<char>| self.routes[t],
            ),
        }
    }

    /// The session after the server named `old_name` is relabelled
    /// `new_name`: the handle keeps its identity, every route that pointed at
    /// `old_name` points at `new_name`, and a server that already bore
    /// `new_name` is displaced.
    pub open spec fn after_rename(self, old_name: Seq<char>, new_name: Seq<char>) -> Self {
        SessionView {
            servers: self.servers.remove(old_name).insert(new_name, self.servers[old_name]),
            routes: Map::new(
                |t: Seq<char>| self.routes.dom().contains(t),
                |t: Seq<char>| if self.routes[t] == old_name { new_name } else { self.routes[t] },
            ),
        }
    }
}

impl<H> Session<H> {
    /// The representation invariant: both key columns are duplicate-free, so
    /// that each vector faithfully stands for its map.
    pub open spec fn wf(self) -> bool {
        server_names_unique(self.servers@) && route_tools_unique(self.routes@)
    }

    /// A fresh session, created implicitly on the first start in it.
    pub fn empty() -> (s: Self)
        ensures
            s.wf(),
            s@ == SessionView::<H>::empty(),
    {
        let s = Session { servers: Vec::new(), routes: Vec::new() };
        proof {
            assert(s@.servers =~= Map::<Seq<char>, H>::empty());
            assert(s@.routes =~= Map::<Seq<char>, Seq<char>>::empty());
            assert(s@ =~= SessionView::<H>::empty());
        }
        s
    }
}

/// Admitting one more tool of `name` extends the routing table one step at a
/// time.
proof fn lemma_routes_after_start_step(
    routes: Map<Seq<char>, Seq<char>>,
    tools: Seq<Seq<char>>,
    k: int,
    name: Seq<char>,
)
    requires
        0 <= k < tools.len(),
    ensures
        routes_after_start(routes, tools.take(k), name).insert(tools[k], name)
            == routes_after_start(routes, tools.take(k + 1), name),
{
    assert forall|t: Seq<char>| #[trigger] tools.take(k + 1).contains(t)
        implies tools.take(k).contains(t) || t == tools[k] by {
        let i = choose|i: int| 0 <= i < tools.take(k + 1).len()
            && (#[trigger] tools.take(k + 1)[i]) == t;
        if i < k {
            assert(tools.take(k)[i] == t);
        }
    }
    assert forall|t: Seq<char>| tools.take(k).contains(t) || t == tools[k]
        implies #[trigger] tools.take(k + 1).contains(t) by {
        if tools.take(k).contains(t) {
            let i = choose|i: int| 0 <= i < tools.take(k).len()
                && (#[trigger] tools.take(k)[i]) == t;
            assert(tools.take(k + 1)[i] == t);
        } else {
            assert(tools.take(k + 1)[k] == t);
        }
    }
    assert(routes_after_start(routes, tools.take(k), name).insert(tools[k], name)
        =~= routes_after_start(routes, tools.take(k + 1), name));
}

impl<H> Session<H> {
    /// The index of the server named `name`, if any.
    fn find_server(&self, name: &String) -> (r: Option<usize>)
        ensures
            match r {
                Some(i) => i < self.servers@.len() && self.servers@[i as int].name@ == name@,
                None => forall|j: int| 0 <= j < self.servers@.len()
                    ==> self.servers@[j].name@ != name@,
            },
    {
        let mut i: usize = 0;
        while i < self.servers.len()
            invariant
                i <= self.servers@.len(),
                forall|j: int| 0 <= j < i ==> self.servers@[j].name@ != name@,
            decreases self.servers@.len() - i,
        {
            if self.servers[i].name == *name {
                return Some(i);
            }
            i += 1;
        }
        None
    }

    /// The index of the routing entry for `tool`, if any.
    fn find_route(&self, tool: &String) -> (r: Option<usize>)
        ensures
            match r {
                Some(i) => i < self.routes@.len() && self.routes@[i as int].tool@ == tool@,
                None => forall|j: int| 0 <= j < self.routes@.len()
                    ==> self.routes@[j].tool@ != tool@,
            },
    {
        let mut i: usize = 0;
        while i < self.routes.len()
            invariant
                i <= self.routes@.len(),
                forall|j: int| 0 <= j < i ==> self.routes@[j].tool@ != tool@,
            decreases self.routes@.len() - i,
        {
            if self.routes[i].tool == *tool {
                return Some(i);
            }
            i += 1;
        }
        None
    }

    /// Whether a server named `name` is present.
    pub fn has_server(&self, name: &String) -> (r: bool)
        requires
            self.wf(),
        ensures
            r == self@.servers.dom().contains(name@),
    {
        match self.find_server(name) {
            Some(i) => {
                proof {
                    lemma_server_at(self.servers@, i as int);
                }
                true
            }
            None => false,
        }
    }

    /// Admits a server with a name not yet taken: every advertised tool is
    /// routed to it, overwriting any earlier route for the same tool, and the
    /// handle joins the server set.
    pub fn insert_server(&mut self, name: String, tools: &Vec<String>, handle: H)
        requires
            old(self).wf(),
            !old(self)@.servers.dom().contains(name@),
        ensures
            final(self).wf(),
            final(self)@ == old(self)@.after_start(name@, tools.deep_view(), handle),
    {
        let ghost orig_routes = routes_map(old(self).routes@);
        proof {
            assert(routes_after_start(orig_routes, tools.deep_view().take(0), name@)
                =~= orig_routes);
        }
        let mut k: usize = 0;
        while k < tools.len()
            invariant
                k <= tools@.len(),
                route_tools_unique(self.routes@),
                self.servers@ == old(self).servers@,
                routes_map(self.routes@)
                    == routes_after_start(orig_routes, tools.deep_view().take(k as int), name@),
            decreases tools@.len() - k,
        {
            let tool = &tools[k];
            let ghost pre = self.routes@;
            proof {
                assert(tools.deep_view()[k as int] == tools@[k as int]@);
            }
            match self.find_route(tool) {
                Some(i) => {
                    let _ = self.routes.swap_remove(i);
                    proof {
                        lemma_route_swap_remove(pre, i as int);
                        lemma_route_at(pre, i as int);
                    }
                }
                None => {
                    proof {
                        assert(!routes_map(self.routes@).dom().contains(tool@));
                    }
                }
            }
            let ghost mid = self.routes@;
            self.routes.push(Route { tool: tool.clone(), server: name.clone() });
            proof {
                assert(self.routes@ == mid.push(self.routes@.last()));
                assert(self.routes@.last().tool@ == tool@);
                assert(self.routes@.last().server@ == name@);
                assert(!routes_map(mid).dom().contains(tool@));
                lemma_route_push(mid, self.routes@.last());
                assert(routes_map(self.routes@) == routes_map(mid).insert(tool@, name@));
                assert(routes_map(mid).insert(tool@, name@)
                    =~= routes_map(pre).insert(tool@, name@));
                lemma_routes_after_start_step(orig_routes, tools.deep_view(), k as int, name@);
            }
            k += 1;
        }
        proof {
            assert(tools.deep_view().take(tools@.len() as int) =~= tools.deep_view());
        }
        let ghost pre_s = self.servers@;
        self.servers.push(ServerEntry { name, handle });
        proof {
            assert(self.servers@ == pre_s.push(self.servers@.last()));
            lemma_server_push(pre_s, self.servers@.last());
        }
    }

    /// Removes and returns the handle of the server named `name`, dropping
    /// every route that pointed at it; a missing name leaves the session
    /// untouched.
    pub fn remove_server(&mut self, name: &String) -> (r: Option<H>)
        requires
            old(self).wf(),
        ensures
            final(self).wf(),
            old(self)@.servers.dom().contains(name@) ==> (r matches Some(h)
                && h == old(self)@.servers[name@]
                && final(self)@ == old(self)@.after_stop(name@)),
            !old(self)@.servers.dom().contains(name@) ==> r is None && *final(self) == *old(self),
    {
        let idx = match self.find_server(name) {
            Some(i) => i,
            None => {
                return None;
            }
        };
        let ghost pre_s = self.servers@;
        let entry = self.servers.swap_remove(idx);
        proof {
            lemma_server_at(pre_s, idx as int);
            lemma_server_swap_remove(pre_s, idx as int);
        }
        let ghost orig_routes = routes_map(old(self).routes@);
        let mut j: usize = 0;
        while j < self.routes.len()
            invariant
                j <= self.routes@.len(),
                route_tools_unique(self.routes@),
                self.servers@ == old(self).servers@.update(idx as int,
                    old(self).servers@.last()).drop_last(),
                forall|x: int| 0 <= x < j ==> self.routes@[x].server@ != name@,
                forall|t: Seq<char>| #[trigger] routes_map(self.routes@).dom().contains(t)
                    ==> orig_routes.dom().contains(t)
                        && routes_map(self.routes@)[t] == orig_routes[t],
                forall|t: Seq<char>| #[trigger] orig_routes.dom().contains(t)
                    && orig_routes[t] != name@ ==> routes_map(self.routes@).dom().contains(t),
            decreases self.routes@.len() - j,
        {
            if self.routes[j].server == *name {
                let ghost pre = self.routes@;
                let _ = self.routes.swap_remove(j);
                proof {
                    lemma_route_at(pre, j as int);
                    lemma_route_swap_remove(pre, j as int);
                }
            } else {
                j += 1;
            }
        }
        proof {
            let target = old(self)@.after_stop(name@);
            assert forall|t: Seq<char>| #[trigger] routes_map(self.routes@).dom().contains(t)
                implies orig_routes.dom().contains(t) && orig_routes[t] != name@ by {
                let i = choose|i: int| 0 <= i < self.routes@.len() && self.routes@[i].tool@ == t;
                lemma_route_at(self.routes@, i);
            }
            assert(routes_map(self.routes@) =~= target.routes);
        }
        Some(entry.handle)
    }

    /// Relabels the server named `old_name` as `new_name`, rewriting every
    /// route that pointed at it and displacing any server that already bore
    /// `new_name`; a missing `old_name` leaves the session untouched.
    pub fn rename(&mut self, old_name: &String, new_name: &String) -> (r: Option<Option<H>>)
        requires
            old(self).wf(),
        ensures
            final(self).wf(),
            !old(self)@.servers.dom().contains(old_name@) ==> r is None
                && *final(self) == *old(self),
            old(self)@.servers.dom().contains(old_name@) ==> (r matches Some(displaced)
                && final(self)@ == old(self)@.after_rename(old_name@, new_name@)
                && (if old(self)@.servers.dom().contains(new_name@) && new_name@ != old_name@ {
                    displaced matches Some(h) && h == old(self)@.servers[new_name@]
                } else {
                    displaced is None
                })),
    {
        let idx = match self.find_server(old_name) {
            Some(i) => i,
            None => {
                return None;
            }
        };
        let ghost pre_s = self.servers@;
        let entry = self.servers.swap_remove(idx);
        proof {
            lemma_server_at(pre_s, idx as int);
            lemma_server_swap_remove(pre_s, idx as int);
        }
        let displaced: Option<H> = match self.find_server(new_name) {
            Some(j) => {
                let ghost mid_s = self.servers@;
                let displaced_entry = self.servers.swap_remove(j);
                proof {
                    lemma_server_at(mid_s, j as int);
                    lemma_server_swap_remove(mid_s, j as int);
                }
                Some(displaced_entry.handle)
            }
            None => None,
        };
        let ghost pre_push = self.servers@;
        self.servers.push(ServerEntry { name: new_name.clone(), handle: entry.handle });
        proof {
            assert(self.servers@ == pre_push.push(self.servers@.last()));
            lemma_server_push(pre_push, self.servers@.last());
            assert(servers_map(self.servers@)
                =~= old(self)@.servers.remove(old_name@).insert(new_name@,
                    old(self)@.servers[old_name@]));
        }
        let ghost orig_routes_seq = self.routes@;
        let mut rewritten: Vec<Route> = Vec::new();
        let mut j: usize = 0;
        while j < self.routes.len()
            invariant
                j <= self.routes@.len(),
                self.routes@ == orig_routes_seq,
                rewritten@.len() == j,
                forall|x: int| 0 <= x < j ==> #[trigger] rewritten@[x].tool@
                    == orig_routes_seq[x].tool@,
                forall|x: int| 0 <= x < j ==> #[trigger] rewritten@[x].server@
                    == (if orig_routes_seq[x].server@ == old_name@ { new_name@ }
                        else { orig_routes_seq[x].server@ }),
            decreases self.routes@.len() - j,
        {
            let tool = self.routes[j].tool.clone();
            let server = if self.routes[j].server == *old_name {
                new_name.clone()
            } else {
                self.routes[j].server.clone()
            };
            rewritten.push(Route { tool, server });
            j += 1;
        }
        proof {
            lemma_route_rewrite(orig_routes_seq, rewritten@, old_name@, new_name@);
        }
        self.routes = rewritten;
        Some(displaced)
    }

    /// Looks the tool up in the routing table, then the owning server in the
    /// server set: a miss at the first step reports `ToolNotFound`, a miss at
    /// the second reports `ServerNotFound`.
    pub fn resolve(&self, tool: &String) -> (r: Result<&H, McpError>)
        requires
            self.wf(),
        ensures
            (self@.routes.dom().contains(tool@)
                && self@.servers.dom().contains(self@.routes[tool@]))
                ==> (r matches Ok(h) && *h == self@.servers[self@.routes[tool@]]),
            !self@.routes.dom().contains(tool@) ==> (r matches Err(e)
                && e matches McpError::ToolNotFound(t) && t@ == tool@),
            (self@.routes.dom().contains(tool@)
                && !self@.servers.dom().contains(self@.routes[tool@]))
                ==> (r matches Err(e)
                && e matches McpError::ServerNotFound(s, t)
                && s@ == self@.routes[tool@] && t@ == tool@),
    {
        let ri = match self.find_route(tool) {
            Some(i) => i,
            None => {
                return Err(McpError::ToolNotFound(tool.clone()));
            }
        };
        proof {
            lemma_route_at(self.routes@, ri as int);
        }
        let server_name = &self.routes[ri].server;
        match self.find_server(server_name) {
            Some(si) => {
                proof {
                    lemma_server_at(self.servers@, si as int);
                }
                Ok(&self.servers[si].handle)
            }
            None => Err(McpError::ServerNotFound(
                server_name.clone(),
                tool.clone(),
            )),
        }
    }

    /// Borrows every live handle, one per admitted server.
    pub fn handles(&self) -> (r: Vec<&H>)
        requires
            self.wf(),
        ensures
            r@.len() == self.servers@.len(),
            forall|i: int| 0 <= i < r@.len() ==> *r@[i] == self.servers@[i].handle,
            forall|n: Seq<char>| #[trigger] self@.servers.dom().contains(n)
                ==> exists|i: int| 0 <= i < r@.len() && *r@[i] == self@.servers[n],
    {
        let mut r: Vec<&H> = Vec::new();
        let mut i: usize = 0;
        while i < self.servers.len()
            invariant
                i <= self.servers@.len(),
                r@.len() == i,
                forall|j: int| 0 <= j < i ==> *r@[j] == self.servers@[j].handle,
            decreases self.servers@.len() - i,
        {
            r.push(&self.servers[i].handle);
            i += 1;
        }
        proof {
            assert forall|n: Seq<char>| #[trigger] self@.servers.dom().contains(n)
                implies exists|j: int| 0 <= j < r@.len() && *r@[j] == self@.servers[n] by {
                let j = choose|j: int| 0 <= j < self.servers@.len()
                    && self.servers@[j].name@ == n;
                lemma_server_at(self.servers@, j);
                assert(*r@[j] == self@.servers[n]);
            }
        }
        r
    }

    /// Surrenders every live handle, consuming the session; the caller kills
    /// them.
    pub fn into_handles(self) -> (r: Vec<H>)
        requires
            self.wf(),
        ensures
            r@.len() == self.servers@.len(),
            forall|i: int| 0 <= i < r@.len() ==> r@[i]
                == self.servers@[self.servers@.len() - 1 - i].handle,
            forall|n: Seq<char>| #[trigger] self@.servers.dom().contains(n)
                ==> exists|i: int| 0 <= i < r@.len() && r@[i] == self@.servers[n],
    {
        let mut servers = self.servers;
        let ghost orig = servers@;
        let mut r: Vec<H> = Vec::new();
        proof {
            assert(orig.take(orig.len() as int) =~= orig);
        }
        while servers.len() > 0
            invariant
                r@.len() + servers@.len() == orig.len(),
                servers@ == orig.take(servers@.len() as int),
                forall|j: int| 0 <= j < r@.len() ==> r@[j]
                    == orig[orig.len() - 1 - j].handle,
            decreases servers@.len(),
        {
            let ghost pre = servers@;
            if let Some(e) = servers.pop() {
                proof {
                    assert(e == pre[pre.len() - 1]);
                    assert(pre[pre.len() - 1] == orig[pre.len() - 1]);
                    assert(servers@ =~= orig.take(servers@.len() as int));
                }
                r.push(e.handle);
            }
        }
        proof {
            assert forall|n: Seq<char>| #[trigger] servers_map(orig).dom().contains(n)
                implies exists|i: int| 0 <= i < r@.len() && r@[i]
                == servers_map(orig)[n] by {
                let j = choose|j: int| 0 <= j < orig.len() && orig[j].name@ == n;
                lemma_server_at(orig, j);
                assert(r@[orig.len() - 1 - j] == servers_map(orig)[n]);
            }
        }
        r
    }
}

/// With unique names, the entry at index `i` is what the map holds for its
/// name.
pub proof fn lemma_server_at<H>(s: Seq<ServerEntry<H>>, i: int)
    requires
        server_names_unique(s),
        0 <= i < s.len(),
    ensures
        servers_map(s).dom().contains(s[i].name@),
        servers_map(s)[s[i].name@] == s[i].handle,
{
    let n = s[i].name@;
    assert(exists|j: int| 0 <= j < s.len() && s[j].name@ == n);
    let j = choose|j: int| 0 <= j < s.len() && s[j].name@ == n;
    assert(j == i);
}

/// With unique names, the map is finite and has one entry per list element.
pub proof fn lemma_servers_map_len<H>(s: Seq<ServerEntry<H>>)
    requires
        server_names_unique(s),
    ensures
        servers_map(s).dom().finite(),
        servers_map(s).dom().len() == s.len(),
{
    broadcast use vstd::seq_lib::seq_to_set_is_finite;

    let names = s.map_values(|e: ServerEntry<H>| e.name@);
    assert(servers_map(s).dom() =~= names.to_set()) by {
        assert forall|n: Seq<char>| servers_map(s).dom().contains(n)
            <==> names.to_set().contains(n) by {
            if exists|i: int| 0 <= i < s.len() && s[i].name@ == n {
                let i = choose|i: int| 0 <= i < s.len() && s[i].name@ == n;
                assert(names[i] == n);
            }
            if names.contains(n) {
                let i = choose|i: int| 0 <= i < names.len() && names[i] == n;
                assert(s[i].name@ == n);
            }
        }
    }
    assert(names.no_duplicates()) by {
        assert forall|i: int, j: int| 0 <= i < j < names.len()
            implies names[i] != names[j] by {
            assert(names[i] == s[i].name@ && names[j] == s[j].name@);
        }
    }
    names.unique_seq_to_set();
}

/// A name that is not in the map names no entry.
pub proof fn lemma_server_absent<H>(s: Seq<ServerEntry<H>>, n: Seq<char>)
    requires
        !servers_map(s).dom().contains(n),
    ensures
        forall|i: int| 0 <= i < s.len() ==> s[i].name@ != n,
{
}

/// Pushing an entry with a fresh name inserts it into the map.
pub proof fn lemma_server_push<H>(s: Seq<ServerEntry<H>>, e: ServerEntry<H>)
    requires
        server_names_unique(s),
        !servers_map(s).dom().contains(e.name@),
    ensures
        server_names_unique(s.push(e)),
        servers_map(s.push(e)) == servers_map(s).insert(e.name@, e.handle),
{
    let s2 = s.push(e);
    lemma_server_absent(s, e.name@);
    assert(server_names_unique(s2)) by {
        assert forall|i: int, j: int| 0 <= i < j < s2.len() implies s2[i].name@ != s2[j].name@ by {
            if j < s.len() {
            } else {
                assert(s2[j] == e);
            }
        }
    }
    assert(servers_map(s2) =~= servers_map(s).insert(e.name@, e.handle)) by {
        assert forall|n: Seq<char>| servers_map(s2).dom().contains(n)
            <==> servers_map(s).insert(e.name@, e.handle).dom().contains(n) by {
            if n == e.name@ {
                assert(s2[s.len() as int] == e);
                assert(exists|i: int| 0 <= i < s2.len() && s2[i].name@ == n);
            } else {
                if exists|i: int| 0 <= i < s2.len() && s2[i].name@ == n {
                    let i = choose|i: int| 0 <= i < s2.len() && s2[i].name@ == n;
                    assert(i < s.len());
                    assert(s[i].name@ == n);
                }
                if exists|i: int| 0 <= i < s.len() && s[i].name@ == n {
                    let i = choose|i: int| 0 <= i < s.len() && s[i].name@ == n;
                    assert(s2[i].name@ == n);
                }
            }
        }
        assert forall|n: Seq<char>| #[trigger] servers_map(s2).dom().contains(n)
            implies servers_map(s2)[n] == servers_map(s).insert(e.name@, e.handle)[n] by {
            let i = choose|i: int| 0 <= i < s2.len() && s2[i].name@ == n;
            lemma_server_at(s2, i);
            if n == e.name@ {
                assert(s2[s.len() as int] == e);
                assert(i == s.len() as int);
            } else {
                assert(i < s.len());
                assert(s[i] == s2[i]);
                lemma_server_at(s, i);
            }
        }
    }
}

/// Removing the entry at index `i` by a swap-remove removes its name from the
/// map.
pub proof fn lemma_server_swap_remove<H>(s: Seq<ServerEntry<H>>, i: int)
    requires
        server_names_unique(s),
        0 <= i < s.len(),
    ensures
        server_names_unique(s.update(i, s.last()).drop_last()),
        servers_map(s.update(i, s.last()).drop_last()) == servers_map(s).remove(s[i].name@),
{
    let t = s.update(i, s.last()).drop_last();
    let n = s[i].name@;
    assert(t.len() == s.len() - 1);
    assert forall|j: int| 0 <= j < t.len() implies #[trigger] t[j]
        == (if j == i { s[s.len() - 1] } else { s[j] }) by {}
    assert(server_names_unique(t)) by {
        assert forall|a: int, b: int| 0 <= a < b < t.len() implies t[a].name@ != t[b].name@ by {
            let oa: int = if a == i { s.len() - 1 } else { a };
            let ob: int = if b == i { s.len() - 1 } else { b };
            assert(t[a] == s[oa] && t[b] == s[ob]);
            assert(oa != ob);
        }
    }
    assert(servers_map(t) =~= servers_map(s).remove(n)) by {
        assert forall|m: Seq<char>| servers_map(t).dom().contains(m)
            <==> servers_map(s).remove(n).dom().contains(m) by {
            if exists|j: int| 0 <= j < t.len() && t[j].name@ == m {
                let j = choose|j: int| 0 <= j < t.len() && t[j].name@ == m;
                let oj: int = if j == i { s.len() - 1 } else { j };
                assert(s[oj].name@ == m);
                assert(oj != i);
                assert(m != n);
            }
            if m != n && (exists|j: int| 0 <= j < s.len() && s[j].name@ == m) {
                let j = choose|j: int| 0 <= j < s.len() && s[j].name@ == m;
                assert(j != i);
                if j == s.len() - 1 {
                    if i < s.len() - 1 {
                        assert(t[i].name@ == m);
                    }
                } else {
                    assert(t[j].name@ == m);
                }
            }
        }
        assert forall|m: Seq<char>| #[trigger] servers_map(t).dom().contains(m)
            implies servers_map(t)[m] == servers_map(s).remove(n)[m] by {
            let j = choose|j: int| 0 <= j < t.len() && t[j].name@ == m;
            lemma_server_at(t, j);
            let oj: int = if j == i { s.len() - 1 } else { j };
            assert(t[j] == s[oj]);
            lemma_server_at(s, oj);
        }
    }
}

/// With unique tools, the routing entry at index `i` is what the map holds
/// for its tool.
pub proof fn lemma_route_at(rs: Seq<Route>, i: int)
    requires
        route_tools_unique(rs),
        0 <= i < rs.len(),
    ensures
        routes_map(rs).dom().contains(rs[i].tool@),
        routes_map(rs)[rs[i].tool@] == rs[i].server@,
{
    let t = rs[i].tool@;
    assert(exists|j: int| 0 <= j < rs.len() && rs[j].tool@ == t);
    let j = choose|j: int| 0 <= j < rs.len() && rs[j].tool@ == t;
    assert(j == i);
}

/// A tool that is not in the map names no routing entry.
pub proof fn lemma_route_absent(rs: Seq<Route>, t: Seq<char>)
    requires
        !routes_map(rs).dom().contains(t),
    ensures
        forall|i: int| 0 <= i < rs.len() ==> rs[i].tool@ != t,
{
}

/// Pushing a routing entry for a fresh tool inserts it into the map.
pub proof fn lemma_route_push(rs: Seq<Route>, e: Route)
    requires
        route_tools_unique(rs),
        !routes_map(rs).dom().contains(e.tool@),
    ensures
        route_tools_unique(rs.push(e)),
        routes_map(rs.push(e)) == routes_map(rs).insert(e.tool@, e.server@),
{
    let rs2 = rs.push(e);
    lemma_route_absent(rs, e.tool@);
    assert(route_tools_unique(rs2)) by {
        assert forall|i: int, j: int| 0 <= i < j < rs2.len() implies rs2[i].tool@ != rs2[j].tool@ by {
            if j < rs.len() {
            } else {
                assert(rs2[j] == e);
            }
        }
    }
    assert(routes_map(rs2) =~= routes_map(rs).insert(e.tool@, e.server@)) by {
        assert forall|t: Seq<char>| routes_map(rs2).dom().contains(t)
            <==> routes_map(rs).insert(e.tool@, e.server@).dom().contains(t) by {
            if t == e.tool@ {
                assert(rs2[rs.len() as int] == e);
                assert(exists|i: int| 0 <= i < rs2.len() && rs2[i].tool@ == t);
            } else {
                if exists|i: int| 0 <= i < rs2.len() && rs2[i].tool@ == t {
                    let i = choose|i: int| 0 <= i < rs2.len() && rs2[i].tool@ == t;
                    assert(i < rs.len());
                    assert(rs[i].tool@ == t);
                }
                if exists|i: int| 0 <= i < rs.len() && rs[i].tool@ == t {
                    let i = choose|i: int| 0 <= i < rs.len() && rs[i].tool@ == t;
                    assert(rs2[i].tool@ == t);
                }
            }
        }
        assert forall|t: Seq<char>| #[trigger] routes_map(rs2).dom().contains(t)
            implies routes_map(rs2)[t] == routes_map(rs).insert(e.tool@, e.server@)[t] by {
            let i = choose|i: int| 0 <= i < rs2.len() && rs2[i].tool@ == t;
            lemma_route_at(rs2, i);
            if t == e.tool@ {
                assert(rs2[rs.len() as int] == e);
                assert(i == rs.len() as int);
            } else {
                assert(i < rs.len());
                assert(rs[i] == rs2[i]);
                lemma_route_at(rs, i);
            }
        }
    }
}

/// Removing the routing entry at index `i` by a swap-remove removes its tool
/// from the map.
pub proof fn lemma_route_swap_remove(rs: Seq<Route>, i: int)
    requires
        route_tools_unique(rs),
        0 <= i < rs.len(),
    ensures
        route_tools_unique(rs.update(i, rs.last()).drop_last()),
        routes_map(rs.update(i, rs.last()).drop_last()) == routes_map(rs).remove(rs[i].tool@),
{
    let rt = rs.update(i, rs.last()).drop_last();
    let t = rs[i].tool@;
    assert(rt.len() == rs.len() - 1);
    assert forall|j: int| 0 <= j < rt.len() implies #[trigger] rt[j]
        == (if j == i { rs[rs.len() - 1] } else { rs[j] }) by {}
    assert(route_tools_unique(rt)) by {
        assert forall|a: int, b: int| 0 <= a < b < rt.len() implies rt[a].tool@ != rt[b].tool@ by {
            let oa: int = if a == i { rs.len() - 1 } else { a };
            let ob: int = if b == i { rs.len() - 1 } else { b };
            assert(rt[a] == rs[oa] && rt[b] == rs[ob]);
            assert(oa != ob);
        }
    }
    assert(routes_map(rt) =~= routes_map(rs).remove(t)) by {
        assert forall|m: Seq<char>| routes_map(rt).dom().contains(m)
            <==> routes_map(rs).remove(t).dom().contains(m) by {
            if exists|j: int| 0 <= j < rt.len() && rt[j].tool@ == m {
                let j = choose|j: int| 0 <= j < rt.len() && rt[j].tool@ == m;
                let oj: int = if j == i { rs.len() - 1 } else { j };
                assert(rs[oj].tool@ == m);
                assert(oj != i);
                assert(m != t);
            }
            if m != t && (exists|j: int| 0 <= j < rs.len() && rs[j].tool@ == m) {
                let j = choose|j: int| 0 <= j < rs.len() && rs[j].tool@ == m;
                assert(j != i);
                if j == rs.len() - 1 {
                    if i < rs.len() - 1 {
                        assert(rt[i].tool@ == m);
                    }
                } else {
                    assert(rt[j].tool@ == m);
                }
            }
        }
        assert forall|m: Seq<char>| #[trigger] routes_map(rt).dom().contains(m)
            implies routes_map(rt)[m] == routes_map(rs).remove(t)[m] by {
            let j = choose|j: int| 0 <= j < rt.len() && rt[j].tool@ == m;
            lemma_route_at(rt, j);
            let oj: int = if j == i { rs.len() - 1 } else { j };
            assert(rt[j] == rs[oj]);
            lemma_route_at(rs, oj);
        }
    }
}

/// A pointwise rewrite of the owning-server column keeps the tools and maps
/// each value through the rewrite.
pub proof fn lemma_route_rewrite(
    orig: Seq<Route>,
    cur: Seq<Route>,
    old_name: Seq<char>,
    new_name: Seq<char>,
)
    requires
        route_tools_unique(orig),
        cur.len() == orig.len(),
        forall|j: int| 0 <= j < orig.len() ==> #[trigger] cur[j].tool@ == orig[j].tool@,
        forall|j: int| 0 <= j < orig.len() ==> #[trigger] cur[j].server@
            == (if orig[j].server@ == old_name { new_name } else { orig[j].server@ }),
    ensures
        route_tools_unique(cur),
        routes_map(cur) == Map::new(
            |t: Seq<char>| routes_map(orig).dom().contains(t),
            |t: Seq<char>| if routes_map(orig)[t] == old_name { new_name } else { routes_map(orig)[t] },
        ),
{
    let target = Map::new(
        |t: Seq<char>| routes_map(orig).dom().contains(t),
        |t: Seq<char>| if routes_map(orig)[t] == old_name { new_name } else { routes_map(orig)[t] },
    );
    assert(routes_map(cur) =~= target) by {
        assert forall|t: Seq<char>| routes_map(cur).dom().contains(t)
            <==> target.dom().contains(t) by {
            if exists|i: int| 0 <= i < cur.len() && cur[i].tool@ == t {
                let i = choose|i: int| 0 <= i < cur.len() && cur[i].tool@ == t;
                assert(orig[i].tool@ == t);
            }
            if exists|i: int| 0 <= i < orig.len() && orig[i].tool@ == t {
                let i = choose|i: int| 0 <= i < orig.len() && orig[i].tool@ == t;
                assert(cur[i].tool@ == t);
            }
        }
        assert forall|t: Seq<char>| #[trigger] routes_map(cur).dom().contains(t)
            implies routes_map(cur)[t] == target[t] by {
            let i = choose|i: int| 0 <= i < cur.len() && cur[i].tool@ == t;
            assert(orig[i].tool@ == t);
            lemma_route_at(cur, i);
            lemma_route_at(orig, i);
        }
    }
}

} // verus!

//! The registry's global guarantees, proved over the map model.
//!
//! Each operation's contract pins the registry's new state to a transition
//! function; the lemmas here state what those transitions guarantee across
//! whole call sequences: the routing invariant is preserved by every
//! operation, a colliding start changes nothing, a stopped session routes
//! nothing, and a rename keeps a server's tools served by the same handle.

use vstd::prelude::*;

use crate::registry::{
    rename_transition, server_present, session_before_start, start_transition,
    stop_session_transition, stop_transition,
};
use crate::session::SessionView;

verus! {

/// The routing invariant over the whole registry: in every session, every
/// routing entry points at a server present in that session.
pub open spec fn registry_routes_closed<H>(m: Map<int, SessionView<H>>) -> bool {
    forall|sid: int| #[trigger] m.dom().contains(sid) ==> m[sid].routes_closed()
}

/// A registry that has seen no operation satisfies the routing invariant.
pub proof fn lemma_empty_routes_closed<H>()
    ensures
        registry_routes_closed(Map::<int, SessionView<H>>::empty()),
{
}

/// Starting a server preserves the routing invariant: the tools it advertises
/// are routed to it, and it is present; every other route is untouched.
pub proof fn lemma_start_preserves_routes_closed<H>(
    m: Map<int, SessionView<H>>,
    sid: int,
    name: Seq<char>,
    tools: Seq<Seq<char>>,
    h: H,
)
    requires
        registry_routes_closed(m),
    ensures
        registry_routes_closed(start_transition(m, sid, name, tools, h)),
{
    let m2 = start_transition(m, sid, name, tools, h);
    if !server_present(m, sid, name) {
        let sv = session_before_start(m, sid);
        let sv2 = sv.after_start(name, tools, h);
        assert(sv2.routes_closed()) by {
            assert forall|t: Seq<char>| #[trigger] sv2.routes.dom().contains(t)
                implies sv2.servers.dom().contains(sv2.routes[t]) by {
                if !tools.contains(t) {
                    assert(sv.routes.dom().contains(t));
                }
            }
        }
        assert forall|s: int| #[trigger] m2.dom().contains(s)
            implies m2[s].routes_closed() by {
            if s != sid {
                assert(m2[s] == m[s]);
            }
        }
    }
}

/// Stopping a server preserves the routing invariant: every route that
/// pointed at it leaves with it.
pub proof fn lemma_stop_preserves_routes_closed<H>(
    m: Map<int, SessionView<H>>,
    sid: int,
    name: Seq<char>,
)
    requires
        registry_routes_closed(m),
    ensures
        registry_routes_closed(stop_transition(m, sid, name)),
{
    let m2 = stop_transition(m, sid, name);
    if server_present(m, sid, name) {
        let sv2 = m[sid].after_stop(name);
        assert(sv2.routes_closed()) by {
            assert forall|t: Seq<char>| #[trigger] sv2.routes.dom().contains(t)
                implies sv2.servers.dom().contains(sv2.routes[t]) by {
                assert(m[sid].routes.dom().contains(t));
            }
        }
        assert forall|s: int| #[trigger] m2.dom().contains(s)
            implies m2[s].routes_closed() by {
            if s != sid {
                assert(m2[s] == m[s]);
            }
        }
    }
}

/// Stopping a whole session preserves the routing invariant in every session
/// that remains.
pub proof fn lemma_stop_session_preserves_routes_closed<H>(
    m: Map<int, SessionView<H>>,
    sid: int,
)
    requires
        registry_routes_closed(m),
    ensures
        registry_routes_closed(stop_session_transition(m, sid)),
{
}

/// Renaming a server restores the routing invariant before the operation
/// returns: every route that pointed at the old name points at the new one,
/// which is present; a displaced server's routes point at the new bearer of
/// the name.
pub proof fn lemma_rename_preserves_routes_closed<H>(
    m: Map<int, SessionView<H>>,
    sid: int,
    old_name: Seq<char>,
    new_name: Seq<char>,
)
    requires
        registry_routes_closed(m),
    ensures
        registry_routes_closed(rename_transition(m, sid, old_name, new_name)),
{
    let m2 = rename_transition(m, sid, old_name, new_name);
    if server_present(m, sid, old_name) {
        let sv = m[sid];
        let sv2 = sv.after_rename(old_name, new_name);
        assert(sv2.routes_closed()) by {
            assert forall|t: Seq<char>| #[trigger] sv2.routes.dom().contains(t)
                implies sv2.servers.dom().contains(sv2.routes[t]) by {
                assert(sv.routes.dom().contains(t));
                if sv.routes[t] != old_name {
                    assert(sv.servers.dom().contains(sv.routes[t]));
                }
            }
        }
        assert forall|s: int| #[trigger] m2.dom().contains(s)
            implies m2[s].routes_closed() by {
            if s != sid {
                assert(m2[s] == m[s]);
            }
        }
    }
}

/// A start whose name collides with a running server changes nothing: the
/// existing server and its tool routes stay exactly as they were, and the
/// operation's contract hands the rejected handle back to be killed.
pub proof fn lemma_start_collision_unchanged<H>(
    m: Map<int, SessionView<H>>,
    sid: int,
    name: Seq<char>,
    tools: Seq<Seq<char>>,
    h: H,
)
    requires
        server_present(m, sid, name),
    ensures
        start_transition(m, sid, name, tools, h) == m,
{
}

/// After a session is stopped, no session lives under its id — whether or not
/// one ever did — so listing its tools yields nothing.
pub proof fn lemma_stop_session_clears_tools<H>(m: Map<int, SessionView<H>>, sid: int)
    ensures
        !stop_session_transition(m, sid).dom().contains(sid),
{
}

/// After `rename(old_name, new_name)`, a tool that was routed to the old name
/// is routed to the new name, and the new name holds the very handle that the
/// old name held: the call is served by the same process under its new label.
pub proof fn lemma_rename_keeps_tool_owner<H>(
    m: Map<int, SessionView<H>>,
    sid: int,
    old_name: Seq<char>,
    new_name: Seq<char>,
    tool: Seq<char>,
)
    requires
        server_present(m, sid, old_name),
        m[sid].routes.dom().contains(tool),
        m[sid].routes[tool] == old_name,
    ensures
        ({
            let m2 = rename_transition(m, sid, old_name, new_name);
            &&& m2.dom().contains(sid)
            &&& m2[sid].routes.dom().contains(tool)
            &&& m2[sid].routes[tool] == new_name
            &&& m2[sid].servers.dom().contains(new_name)
            &&& m2[sid].servers[new_name] == m[sid].servers[old_name]
        }),
{
}

} // verus!

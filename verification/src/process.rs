//! The process-tree terminator.
//!
//! Killing a root process must also kill everything it transitively spawned.
//! The algorithm takes one snapshot of the OS process table, computes from
//! that snapshot alone the full transitive descendant set of the root by
//! following parent-pointer edges, signal-kills every descendant, and
//! signal-kills the root last. The descendant computation is verified: the
//! returned set contains exactly the pids reachable from the root in the
//! snapshot's parent graph. Taking the snapshot and delivering signals go
//! through a small trusted boundary over the `sysinfo` crate.

use vstd::prelude::*;

verus! {

/// One (pid, parent pid) pair from a single point-in-time snapshot of the OS
/// process table; never compared against a later snapshot.
#[derive(Clone, Copy, Debug)]
pub struct ProcNode {
    pub pid: u32,
    pub parent: Option<u32>,
}

/// `child` is recorded as a child of `parent` in the snapshot.
pub open spec fn is_child(snap: Seq<ProcNode>, child: u32, parent: u32) -> bool {
    exists|i: int| 0 <= i < snap.len() && snap[i].pid == child
        && snap[i].parent == Some(parent)
}

/// `p` is reachable from `root` along child edges in at most `k` steps.
pub open spec fn descendant_within(snap: Seq<ProcNode>, root: u32, p: u32, k: nat) -> bool
    decreases k,
{
    k > 0 && exists|q: u32| #[trigger] is_child(snap, p, q)
        && (q == root || descendant_within(snap, root, q, (k - 1) as nat))
}

/// `p` is a transitive descendant of `root` in the snapshot.
pub open spec fn is_descendant(snap: Seq<ProcNode>, root: u32, p: u32) -> bool {
    exists|k: nat| descendant_within(snap, root, p, k)
}

/// Some snapshot entry bears this pid.
pub open spec fn pid_in_snap(snap: Seq<ProcNode>, p: u32) -> bool {
    exists|j: int| 0 <= j < snap.len() && snap[j].pid == p
}

/// A child of the root is a descendant.
proof fn lemma_child_is_descendant(snap: Seq<ProcNode>, root: u32, p: u32)
    requires
        is_child(snap, p, root),
    ensures
        is_descendant(snap, root, p),
{
    assert(descendant_within(snap, root, p, 1));
}

/// A child of a descendant is a descendant.
proof fn lemma_descendant_step(snap: Seq<ProcNode>, root: u32, q: u32, p: u32)
    requires
        is_descendant(snap, root, q),
        is_child(snap, p, q),
    ensures
        is_descendant(snap, root, p),
{
    let k = choose|k: nat| descendant_within(snap, root, q, k);
    assert(descendant_within(snap, root, p, k + 1));
}

/// A set that contains the root's children and is closed under the child
/// relation contains every descendant, whatever the length of its chain.
proof fn lemma_closed_set_complete(snap: Seq<ProcNode>, root: u32, rs: Seq<u32>, k: nat)
    requires
        forall|c: u32| #[trigger] is_child(snap, c, root) ==> rs.contains(c),
        forall|q: u32, c: u32| rs.contains(q) && #[trigger] is_child(snap, c, q)
            ==> rs.contains(c),
    ensures
        forall|p: u32| descendant_within(snap, root, p, k) ==> rs.contains(p),
    decreases k,
{
    if k > 0 {
        lemma_closed_set_complete(snap, root, rs, (k - 1) as nat);
        assert forall|p: u32| descendant_within(snap, root, p, k) implies rs.contains(p) by {
            let q = choose|q: u32| #[trigger] is_child(snap, p, q)
                && (q == root || descendant_within(snap, root, q, (k - 1) as nat));
            if q != root {
                assert(rs.contains(q));
            }
        }
    }
}

/// A duplicate-free list of pids taken from the snapshot is no longer than
/// the snapshot.
proof fn lemma_unique_pids_bound(snap: Seq<ProcNode>, rs: Seq<u32>)
    requires
        rs.no_duplicates(),
        forall|i: int| 0 <= i < rs.len() ==> pid_in_snap(snap, #[trigger] rs[i]),
    ensures
        rs.len() <= snap.len(),
{
    broadcast use vstd::seq_lib::seq_to_set_is_finite;

    let pids = snap.map_values(|n: ProcNode| n.pid);
    rs.unique_seq_to_set();
    pids.lemma_cardinality_of_set();
    assert(rs.to_set().subset_of(pids.to_set())) by {
        assert forall|x: u32| rs.to_set().contains(x) implies pids.to_set().contains(x) by {
            let i = choose|i: int| 0 <= i < rs.len() && rs[i] == x;
            assert(pid_in_snap(snap, rs[i]));
            let j = choose|j: int| 0 <= j < snap.len() && snap[j].pid == rs[i];
            assert(pids[j] == x);
        }
    }
    vstd::set_lib::lemma_len_subset(rs.to_set(), pids.to_set());
}

/// Whether the list holds the pid.
fn list_contains(v: &Vec<u32>, x: u32) -> (r: bool)
    ensures
        r == v@.contains(x),
{
    let mut i: usize = 0;
    while i < v.len()
        invariant
            i <= v@.len(),
            forall|j: int| 0 <= j < i ==> v@[j] != x,
        decreases v@.len() - i,
    {
        if v[i] == x {
            return true;
        }
        i += 1;
    }
    false
}

/// Computes, from the snapshot alone, the full transitive descendant set of
/// `root`: the result holds exactly the pids reachable from `root` along
/// parent-pointer edges, each once, in unspecified order.
pub fn descendants(snap: &Vec<ProcNode>, root: u32) -> (r: Vec<u32>)
    ensures
        forall|i: int| 0 <= i < r@.len() ==> is_descendant(snap@, root, #[trigger] r@[i]),
        forall|p: u32| #[trigger] is_descendant(snap@, root, p) ==> r@.contains(p),
        r@.no_duplicates(),
{
    let mut result: Vec<u32> = Vec::new();
    let mut queue: Vec<u32> = Vec::new();
    queue.push(root);
    proof {
        assert(queue@[0] == root);
        assert(queue@.contains(root));
    }
    while queue.len() > 0
        invariant
            forall|i: int| 0 <= i < result@.len()
                ==> is_descendant(snap@, root, #[trigger] result@[i]),
            forall|i: int| 0 <= i < queue@.len()
                ==> (#[trigger] queue@[i]) == root || result@.contains(queue@[i]),
            forall|q: u32, c: u32| (q == root || result@.contains(q))
                && !queue@.contains(q) && #[trigger] is_child(snap@, c, q)
                ==> result@.contains(c),
            result@.no_duplicates(),
            forall|i: int| 0 <= i < result@.len() ==> pid_in_snap(snap@, #[trigger] result@[i]),
            result@.len() <= snap@.len(),
        decreases snap@.len() - result@.len(), queue@.len(),
    {
        let ghost pre_queue = queue@;
        let q = match queue.pop() {
            Some(q) => q,
            None => {
                return result;
            }
        };
        proof {
            assert forall|x: u32| pre_queue.contains(x) && x != q
                implies queue@.contains(x) by {
                let i = choose|i: int| 0 <= i < pre_queue.len() && pre_queue[i] == x;
                assert(i < pre_queue.len() - 1);
                assert(queue@[i] == x);
            }
        }
        let ghost r0: nat = result@.len();
        let ghost q0: nat = queue@.len();
        let mut j: usize = 0;
        while j < snap.len()
            invariant
                j <= snap@.len(),
                q == root || result@.contains(q),
                forall|i: int| 0 <= i < result@.len()
                    ==> is_descendant(snap@, root, #[trigger] result@[i]),
                forall|i: int| 0 <= i < queue@.len()
                    ==> (#[trigger] queue@[i]) == root || result@.contains(queue@[i]),
                forall|q2: u32, c: u32| (q2 == root || result@.contains(q2))
                    && !queue@.contains(q2) && q2 != q && #[trigger] is_child(snap@, c, q2)
                    ==> result@.contains(c),
                forall|x: int| 0 <= x < j && snap@[x].parent == Some(q)
                    ==> result@.contains((#[trigger] snap@[x]).pid),
                result@.no_duplicates(),
                forall|i: int| 0 <= i < result@.len()
                    ==> pid_in_snap(snap@, #[trigger] result@[i]),
                result@.len() <= snap@.len(),
                r0 <= result@.len(),
                result@.len() - r0 == queue@.len() - q0,
            decreases snap@.len() - j,
        {
            let node = snap[j];
            let mut is_new_child = false;
            if let Some(pp) = node.parent {
                if pp == q {
                    if !list_contains(&result, node.pid) {
                        is_new_child = true;
                    }
                }
            }
            if is_new_child {
                let ghost pre_result = result@;
                let ghost pre_q = queue@;
                result.push(node.pid);
                queue.push(node.pid);
                proof {
                    assert(is_child(snap@, node.pid, q)) by {
                        assert(snap@[j as int].pid == node.pid
                            && snap@[j as int].parent == Some(q));
                    }
                    if q == root {
                        lemma_child_is_descendant(snap@, root, node.pid);
                    } else {
                        assert(pre_result.contains(q));
                        let qi = choose|qi: int| 0 <= qi < pre_result.len()
                            && pre_result[qi] == q;
                        assert(is_descendant(snap@, root, pre_result[qi]));
                        lemma_descendant_step(snap@, root, q, node.pid);
                    }
                    assert(result@.no_duplicates()) by {
                        assert forall|a: int, b: int| 0 <= a < b < result@.len()
                            implies result@[a] != result@[b] by {
                            if b == result@.len() - 1 {
                                assert(!pre_result.contains(result@[b]));
                            }
                        }
                    }
                    assert forall|x: u32| pre_result.contains(x)
                        implies result@.contains(x) by {
                        let i = choose|i: int| 0 <= i < pre_result.len()
                            && pre_result[i] == x;
                        assert(result@[i] == x);
                    }
                    assert forall|x: u32| pre_q.contains(x) implies queue@.contains(x) by {
                        let i = choose|i: int| 0 <= i < pre_q.len() && pre_q[i] == x;
                        assert(queue@[i] == x);
                    }
                    assert(result@.contains(node.pid)) by {
                        assert(result@[result@.len() - 1] == node.pid);
                    }
                    assert(queue@.contains(node.pid)) by {
                        assert(queue@[queue@.len() - 1] == node.pid);
                    }
                    assert(pid_in_snap(snap@, node.pid)) by {
                        assert(snap@[j as int].pid == node.pid);
                    }
                    lemma_unique_pids_bound(snap@, result@);
                }
            }
            j += 1;
        }
        proof {
            assert forall|q2: u32, c: u32| (q2 == root || result@.contains(q2))
                && !queue@.contains(q2) && #[trigger] is_child(snap@, c, q2)
                implies result@.contains(c) by {
                if q2 == q {
                    let x = choose|x: int| 0 <= x < snap@.len() && snap@[x].pid == c
                        && snap@[x].parent == Some(q2);
                    assert(result@.contains(snap@[x].pid));
                }
            }
        }
    }
    proof {
        assert forall|p: u32| #[trigger] is_descendant(snap@, root, p)
            implies result@.contains(p) by {
            let k = choose|k: nat| descendant_within(snap@, root, p, k);
            lemma_closed_set_complete(snap@, root, result@, k);
        }
    }
    result
}

// The trusted boundary over the `sysinfo` crate: taking the snapshot,
// delivering signals, and naming the calling process. Nothing useful can be
// promised about these results — they depend on the machine's live process
// table — so the verified logic takes the snapshot as an argument and is
// proved for every value of it.

#[verifier::external_type_specification]
#[verifier::external_body]
pub struct ExSystem(sysinfo::System);

/// Relies on `sysinfo::System::new`: a `System` with nothing loaded yet.
#[verifier::external_body]
fn new_system() -> sysinfo::System {
    sysinfo::System::new()
}

/// Relies on `sysinfo::System::refresh_all`: loads the current process table
/// into the `System`.
#[verifier::external_body]
fn refresh_system(sys: &mut sysinfo::System) {
    sys.refresh_all();
}

/// Relies on `sysinfo::System::processes`, `sysinfo::Process::parent` and
/// `sysinfo::Pid::as_u32`: one (pid, parent pid) pair per process in the
/// snapshot the `System` holds.
#[verifier::external_body]
fn process_table(sys: &sysinfo::System) -> Vec<ProcNode> {
    sys.processes()
        .iter()
        .map(|(pid, info)| ProcNode {
            pid: pid.as_u32(),
            parent: info.parent().map(|pp| pp.as_u32()),
        })
        .collect()
}

/// Relies on `sysinfo::System::process` and `sysinfo::Process::kill`: sends
/// the kill signal to the process when the snapshot knows the pid, and
/// reports whether a live process was found and signalled.
#[verifier::external_body]
fn kill_pid(sys: &sysinfo::System, pid: u32) -> bool {
    match sys.process(sysinfo::Pid::from_u32(pid)) {
        Some(p) => p.kill(),
        None => false,
    }
}

/// Relies on `sysinfo::get_current_pid`: the calling process's own pid.
#[verifier::external_body]
fn current_pid() -> Result<u32, &'static str> {
    sysinfo::get_current_pid().map(|pid| pid.as_u32())
}

/// A process known by its OS pid.
#[derive(Clone, Copy, Debug, PartialEq, Eq, Hash, Structural)]
pub struct Process {
    pub pid: u32,
}

impl Process {
    /// The calling process itself. The pid is whatever the OS reports, so
    /// nothing is promised of it; the platform names the failure when it
    /// cannot tell.
    pub fn current() -> Result<Self, &'static str> {
        match current_pid() {
            Ok(pid) => Ok(Process { pid }),
            Err(e) => Err(e),
        }
    }

    /// Every transitive descendant of this process recorded in the snapshot,
    /// each once.
    pub fn children(&self, snap: &Vec<ProcNode>) -> (r: Vec<u32>)
        ensures
            forall|i: int| 0 <= i < r@.len()
                ==> is_descendant(snap@, self.pid, #[trigger] r@[i]),
            forall|p: u32| #[trigger] is_descendant(snap@, self.pid, p) ==> r@.contains(p),
            r@.no_duplicates(),
    {
        descendants(snap, self.pid)
    }

    /// Takes one snapshot of the OS process table, signal-kills every
    /// transitive descendant of this process found in it (order unspecified),
    /// then signal-kills this process last, and reports whether this process
    /// was found and signalled: an already-exited root yields `false`, not an
    /// error. Processes spawned after the snapshot are invisible to this
    /// pass.
    pub fn kill_tree(&self) -> bool {
        let mut sys = new_system();
        refresh_system(&mut sys);
        let snap = process_table(&sys);
        let targets = descendants(&snap, self.pid);
        let mut i: usize = 0;
        while i < targets.len()
            invariant
                i <= targets@.len(),
            decreases targets@.len() - i,
        {
            let _ = kill_pid(&sys, targets[i]);
            i += 1;
        }
        kill_pid(&sys, self.pid)
    }
}

} // verus!

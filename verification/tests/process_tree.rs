use tome::process::{descendants, ProcNode, Process};

fn node(pid: u32, parent: Option<u32>) -> ProcNode {
    ProcNode { pid, parent }
}

#[test]
fn kill_pass_covers_whole_tree() {
    // Root R with children C1 and C2, and C2's own child G: the kill pass
    // built from one snapshot covers every one of them, the root last.
    let r = 10;
    let c1 = 11;
    let c2 = 12;
    let g = 13;
    let snap = vec![
        node(1, None),
        node(r, Some(1)),
        node(c1, Some(r)),
        node(c2, Some(r)),
        node(g, Some(c2)),
        node(99, Some(1)),
    ];
    let mut targets = descendants(&snap, r);
    targets.sort();
    assert_eq!(targets, vec![c1, c2, g]);
    // The root itself is signalled after its descendants; together the pass
    // leaves none of {R, C1, C2, G} out.
    let mut pass = descendants(&snap, r);
    pass.push(r);
    for pid in [r, c1, c2, g] {
        assert!(pass.contains(&pid));
    }
    assert_eq!(*pass.last().unwrap(), r);
}

#[test]
fn descendants_ignores_unrelated_processes() {
    let snap = vec![node(1, None), node(2, Some(1)), node(3, Some(2)), node(4, None)];
    assert_eq!(descendants(&snap, 4), Vec::<u32>::new());
    assert_eq!(descendants(&snap, 3), Vec::<u32>::new());
}

#[test]
fn descendants_of_missing_root_is_empty() {
    let snap = vec![node(1, None), node(2, Some(1))];
    assert_eq!(descendants(&snap, 777), Vec::<u32>::new());
}

#[test]
fn descendants_follows_deep_chains() {
    let snap = vec![
        node(1, None),
        node(2, Some(1)),
        node(3, Some(2)),
        node(4, Some(3)),
        node(5, Some(4)),
    ];
    let mut d = descendants(&snap, 1);
    d.sort();
    assert_eq!(d, vec![2, 3, 4, 5]);
}

#[test]
fn descendants_has_no_duplicates_with_many_branches() {
    let snap = vec![
        node(2, Some(1)),
        node(3, Some(1)),
        node(4, Some(2)),
        node(5, Some(2)),
        node(6, Some(3)),
    ];
    let mut d = descendants(&snap, 1);
    d.sort();
    assert_eq!(d, vec![2, 3, 4, 5, 6]);
}

#[test]
fn children_walks_from_own_pid() {
    let p = Process { pid: 8 };
    let snap = vec![node(8, Some(1)), node(9, Some(8)), node(10, Some(9))];
    let mut d = p.children(&snap);
    d.sort();
    assert_eq!(d, vec![9, 10]);
}

#[test]
fn current_process_reports_a_pid() {
    let p = Process::current().unwrap();
    assert!(p.pid > 0);
}

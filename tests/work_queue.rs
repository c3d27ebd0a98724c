use lem_in::work_queue::WorkQueue;
use lem_in::{Branch, BranchId, NodeId};

fn b(id: usize) -> Branch {
    Branch { id: BranchId(id), node: NodeId(id) }
}

#[test]
fn lowest_level_first_in_first_out() {
    let mut q = WorkQueue::new(3);
    q.push(b(1), 2);
    q.push(b(2), 0);
    q.push(b(3), 2);
    q.push(b(4), 0);
    q.push(b(5), 3);
    assert_eq!(q.next(), Some(b(2)));
    assert_eq!(q.next(), Some(b(4)));
    assert_eq!(q.next(), Some(b(1)));
    q.push(b(6), 1);
    assert_eq!(q.next(), Some(b(6)));
    assert_eq!(q.next(), Some(b(3)));
    assert_eq!(q.next(), None);
}

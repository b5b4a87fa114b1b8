//! Tasks by their ids and parents.

use crate::lists::views;
use crate::nostr::EventId;
use crate::task::{Task, TaskView};
use vstd::prelude::*;

verus! {

pub type TasksView = Seq<TaskView>;

/// Where the task with the given id stands, or behind the end.
pub open spec fn task_at(tasks: TasksView, id: EventId) -> int
    decreases tasks.len(),
{
    if tasks.len() == 0 || tasks[0].event.id == id {
        0
    } else {
        1 + task_at(tasks.drop_first(), id)
    }
}

pub open spec fn has_task(tasks: TasksView, id: EventId) -> bool {
    task_at(tasks, id) < tasks.len()
}

/// The task with the given id.
pub open spec fn task_of(tasks: TasksView, id: EventId) -> Option<TaskView> {
    if has_task(tasks, id) {
        Some(tasks[task_at(tasks, id)])
    } else {
        None
    }
}

/// No two tasks have the same id.
pub open spec fn ids_unique(tasks: TasksView) -> bool {
    forall|i: int, j: int|
        0 <= i < j < tasks.len() ==> (#[trigger] tasks[i]).event.id != (#[trigger] tasks[j]).event.id
}

pub proof fn lemma_task_at(tasks: TasksView, id: EventId, at: int)
    requires
        0 <= at <= tasks.len(),
        forall|i: int| 0 <= i < at ==> (#[trigger] tasks[i]).event.id != id,
        at < tasks.len() ==> tasks[at].event.id == id,
    ensures
        task_at(tasks, id) == at,
    decreases tasks.len(),
{
    if tasks.len() > 0 && tasks[0].event.id != id {
        let rest = tasks.drop_first();
        assert forall|i: int| 0 <= i < at - 1 implies (#[trigger] rest[i]).event.id != id by {
            assert(tasks[i + 1].event.id != id);
        }
        lemma_task_at(rest, id, at - 1);
    }
}

pub proof fn lemma_task_found(tasks: TasksView, id: EventId)
    ensures
        0 <= task_at(tasks, id) <= tasks.len(),
        has_task(tasks, id) ==> tasks[task_at(tasks, id)].event.id == id,
        forall|i: int| 0 <= i < task_at(tasks, id) ==> (#[trigger] tasks[i]).event.id != id,
    decreases tasks.len(),
{
    if tasks.len() > 0 && tasks[0].event.id != id {
        let rest = tasks.drop_first();
        lemma_task_found(rest, id);
        let at = task_at(tasks, id);
        assert forall|i: int| 0 <= i < at implies (#[trigger] tasks[i]).event.id != id by {
            if i > 0 {
                assert(rest[i - 1].event.id != id);
            }
        }
    }
}

/// Where the tasks with the given parent stand, in order.
pub open spec fn children(tasks: TasksView, parent: Option<EventId>) -> Seq<int>
    decreases tasks.len(),
{
    if tasks.len() == 0 {
        Seq::empty()
    } else {
        let before = children(tasks.drop_last(), parent);
        if tasks.last().parent() == parent {
            before.push(tasks.len() - 1)
        } else {
            before
        }
    }
}

pub open spec fn ids_at(tasks: TasksView, places: Seq<int>) -> Seq<EventId> {
    Seq::new(places.len(), |i: int| tasks[places[i]].event.id)
}

/// The ids of the tasks with the given parent.
pub open spec fn child_ids(tasks: TasksView, parent: Option<EventId>) -> Seq<EventId> {
    ids_at(tasks, children(tasks, parent))
}

/// The places of the children are within the list, in order, and are those of the tasks with
/// that parent.
pub proof fn lemma_children(tasks: TasksView, parent: Option<EventId>)
    ensures
        forall|k: int|
            0 <= k < children(tasks, parent).len() ==> 0 <= #[trigger] children(tasks, parent)[k]
                < tasks.len() && tasks[children(tasks, parent)[k]].parent() == parent,
        forall|k: int, l: int|
            0 <= k < l < children(tasks, parent).len() ==> #[trigger] children(tasks, parent)[k]
                < #[trigger] children(tasks, parent)[l],
        forall|i: int|
            0 <= i < tasks.len() && (#[trigger] tasks[i]).parent() == parent ==> children(
                tasks,
                parent,
            ).contains(i),
    decreases tasks.len(),
{
    if tasks.len() > 0 {
        let t = tasks.drop_last();
        lemma_children(t, parent);
        let before = children(t, parent);
        let all = children(tasks, parent);
        assert forall|i: int| 0 <= i < tasks.len() && (#[trigger] tasks[i]).parent()
            == parent implies all.contains(i) by {
            if i < t.len() {
                assert(t[i].parent() == parent);
                let k = choose|k: int| 0 <= k < before.len() && before[k] == i;
                assert(all[k] == i);
            } else {
                assert(all[all.len() - 1] == i);
            }
        }
    }
}

/// The places of indices.
pub open spec fn places(v: Seq<usize>) -> Seq<int> {
    Seq::new(v.len(), |i: int| v[i] as int)
}

pub fn find_task(tasks: &Vec<Task>, id: EventId) -> (r: usize)
    ensures
        r == task_at(views(tasks@), id),
        r <= tasks.len(),
        r < tasks.len() ==> has_task(views(tasks@), id),
        r < tasks.len() ==> tasks@[r as int]@.event.id == id,
{
    let ghost all = views(tasks@);
    let mut i: usize = 0;
    while i < tasks.len() && tasks[i].get_id() != id
        invariant
            0 <= i <= tasks.len(),
            all == views(tasks@),
            forall|k: int| 0 <= k < i ==> (#[trigger] all[k]).event.id != id,
        decreases tasks.len() - i,
    {
        i += 1;
    }
    proof {
        assert(i < tasks.len() ==> all[i as int] == tasks@[i as int]@);
        lemma_task_at(all, id, i as int);
    }
    i
}

pub fn children_for(tasks: &Vec<Task>, parent: Option<EventId>) -> (r: Vec<usize>)
    ensures
        places(r@) == children(views(tasks@), parent),
        forall|k: int| 0 <= k < r@.len() ==> #[trigger] r@[k] < tasks.len(),
{
    let ghost all = views(tasks@);
    let mut r: Vec<usize> = Vec::new();
    let mut i: usize = 0;
    assert(all.take(0) =~= Seq::<TaskView>::empty());
    assert(places(r@) =~= Seq::<int>::empty());
    while i < tasks.len()
        invariant
            0 <= i <= tasks.len(),
            all == views(tasks@),
            places(r@) == children(all.take(i as int), parent),
            forall|k: int| 0 <= k < r@.len() ==> #[trigger] r@[k] < tasks.len(),
        decreases tasks.len() - i,
    {
        assert(all.take(i + 1).drop_last() =~= all.take(i as int));
        assert(all.take(i + 1).last() == tasks@[i as int]@);
        let ghost before = r@;
        if tasks[i].parent_id() == parent {
            r.push(i);
            assert(places(r@) =~= places(before).push(i as int));
        }
        i += 1;
    }
    assert(all.take(tasks@.len() as int) =~= all);
    r
}

pub fn children_ids_for(tasks: &Vec<Task>, id: EventId) -> (r: Vec<EventId>)
    ensures
        r@ == child_ids(views(tasks@), Some(id)),
{
    let found: Vec<usize> = children_for(tasks, Some(id));
    let ghost all = views(tasks@);
    let ghost at = children(all, Some(id));
    let mut r: Vec<EventId> = Vec::new();
    let mut i: usize = 0;
    while i < found.len()
        invariant
            0 <= i <= found.len(),
            all == views(tasks@),
            at == places(found@),
            forall|k: int| 0 <= k < found@.len() ==> #[trigger] found@[k] < tasks.len(),
            r@ == ids_at(all, at).take(i as int),
        decreases found.len() - i,
    {
        assert(at[i as int] == found@[i as int]);
        r.push(tasks[found[i]].get_id());
        assert(ids_at(all, at).take(i as int).push(ids_at(all, at)[i as int]) =~= ids_at(
            all,
            at,
        ).take(i + 1));
        i += 1;
    }
    assert(ids_at(all, at).take(found@.len() as int) =~= ids_at(all, at));
    r
}

// ---------------------------------------------------------------------------
// Parents

/// The places of a task and of the parents above it that are known, at most `fuel` of them.
pub open spec fn ancestors_within(tasks: TasksView, id: Option<EventId>, fuel: nat) -> Seq<int>
    decreases fuel,
{
    match id {
        Some(i) => if fuel > 0 && has_task(tasks, i) {
            seq![task_at(tasks, i)] + ancestors_within(
                tasks,
                tasks[task_at(tasks, i)].parent(),
                (fuel - 1) as nat,
            )
        } else {
            Seq::empty()
        },
        None => Seq::empty(),
    }
}

/// The places of a task and of all parents above it that are known. There are no more of them
/// than tasks.
pub open spec fn ancestors(tasks: TasksView, id: Option<EventId>) -> Seq<int> {
    ancestors_within(tasks, id, tasks.len())
}

/// Iterate over the task referenced by the given id and all its available parents.
pub fn traverse_up_from(tasks: &Vec<Task>, id: Option<EventId>) -> (r: Vec<usize>)
    ensures
        places(r@) == ancestors(views(tasks@), id),
        forall|k: int| 0 <= k < r@.len() ==> #[trigger] r@[k] < tasks.len(),
{
    let ghost all = views(tasks@);
    let mut r: Vec<usize> = Vec::new();
    let mut current: Option<EventId> = id;
    let mut fuel: usize = tasks.len();
    assert(places(r@) + ancestors(all, id) =~= ancestors(all, id));
    while fuel > 0
        invariant
            fuel <= tasks.len(),
            all == views(tasks@),
            ancestors(all, id) == places(r@) + ancestors_within(all, current, fuel as nat),
            forall|k: int| 0 <= k < r@.len() ==> #[trigger] r@[k] < tasks.len(),
        decreases fuel,
    {
        let at: usize = match current {
            Some(i) => find_task(tasks, i),
            None => tasks.len(),
        };
        if at >= tasks.len() {
            assert(places(r@) + Seq::<int>::empty() =~= places(r@));
            return r;
        }
        let ghost before = r@;
        let ghost rest = ancestors_within(all, all[at as int].parent(), (fuel - 1) as nat);
        r.push(at);
        assert(places(before) + (seq![at as int] + rest) =~= places(r@) + rest);
        assert(all[at as int] == tasks@[at as int]@);
        current = tasks[at].parent_id();
        fuel -= 1;
    }
    assert(places(r@) + Seq::<int>::empty() =~= places(r@));
    r
}

} // verus!

//! The task registry: tasks keyed by unique numeric identifiers.
use crate::task::{Task, TaskView};
use std::collections::HashMap;
use vstd::prelude::*;
use vstd::std_specs::iter::IteratorSpec;

verus! {

broadcast use vstd::std_specs::hash::group_hash_axioms;

/// Why an operation on the registry or on its saved form failed.
#[derive(Debug, Clone, Copy, PartialEq, Eq, Structural)]
pub enum TodoError {
    /// No task has the identifier that was asked for.
    NotFound,
    /// A saved record is malformed or repeats an identifier.
    InvalidData,
}

/// `k` is the largest identifier in `m`.
pub open spec fn is_top_id(m: Map<u32, TaskView>, k: u32) -> bool {
    &&& m.contains_key(k)
    &&& forall|j: u32| m.contains_key(j) ==> j <= k
}

/// The largest identifier in a non-empty registry.
pub open spec fn top_id(m: Map<u32, TaskView>) -> u32 {
    choose|k: u32| is_top_id(m, k)
}

/// The identifier that the next added task receives: one more than the
/// largest identifier present, or 1 when there is none.
pub open spec fn next_id(m: Map<u32, TaskView>) -> int {
    if m.dom().is_empty() {
        1
    } else {
        top_id(m) + 1
    }
}

/// The registry after adding a task with description `d`.
pub open spec fn added(m: Map<u32, TaskView>, d: Seq<char>) -> Map<u32, TaskView> {
    m.insert(next_id(m) as u32, TaskView::fresh(d))
}

/// The registry after replacing the description of task `id`.
pub open spec fn with_description(m: Map<u32, TaskView>, id: u32, d: Seq<char>) -> Map<
    u32,
    TaskView,
> {
    m.insert(id, TaskView { description: d, completed: m[id].completed })
}

/// The registry after marking task `id` as completed.
pub open spec fn with_completed(m: Map<u32, TaskView>, id: u32) -> Map<u32, TaskView> {
    m.insert(id, TaskView { description: m[id].description, completed: true })
}

/// `es` lists the tasks of `m`, each exactly once, in some order.
pub open spec fn lists(es: Seq<(u32, TaskView)>, m: Map<u32, TaskView>) -> bool {
    &&& forall|i: int| 0 <= i < es.len() ==> #[trigger] m.contains_key(es[i].0) && m[es[i].0] == es[i].1
    &&& forall|i: int, j: int| 0 <= i < j < es.len() ==> es[i].0 != es[j].0
    &&& forall|k: u32| m.contains_key(k) ==> exists|i: int| 0 <= i < es.len() && es[i].0 == k
}

/// The model of each entry of a listing.
pub open spec fn views_of_entries(v: Seq<(u32, Task)>) -> Seq<(u32, TaskView)> {
    v.map_values(|e: (u32, Task)| (e.0, e.1@))
}

/// Any identifier that is the largest one present is the one `top_id` names.
pub proof fn lemma_top_id_unique(m: Map<u32, TaskView>, k: u32)
    requires
        is_top_id(m, k),
    ensures
        top_id(m) == k,
{
    let t = top_id(m);
    assert(is_top_id(m, t));
}

/// A list of tasks, each reachable by its identifier.
pub struct TodoList {
    tasks: HashMap<u32, Task>,
}

impl View for TodoList {
    type V = Map<u32, TaskView>;

    closed spec fn view(&self) -> Map<u32, TaskView> {
        self.tasks@.map_values(|t: Task| t@)
    }
}

impl TodoList {
    /// An empty list.
    pub fn new() -> (l: TodoList)
        ensures
            l@ == Map::<u32, TaskView>::empty(),
    {
        let l = TodoList { tasks: HashMap::new() };
        assert(l@ =~= Map::<u32, TaskView>::empty());
        l
    }

    /// Whether the list holds no task.
    pub fn is_empty(&self) -> (r: bool)
        ensures
            r == self@.dom().is_empty(),
    {
        let r = self.tasks.is_empty();
        assert(self@.dom() =~= self.tasks@.dom());
        r
    }

    /// Whether a task has identifier `task_id`.
    pub fn contains(&self, task_id: u32) -> (r: bool)
        ensures
            r == self@.contains_key(task_id),
    {
        self.tasks.contains_key(&task_id)
    }

    /// Every task with its identifier, each once, in the order in which the
    /// underlying map is walked.
    pub fn entries(&self) -> (r: Vec<(u32, Task)>)
        ensures
            lists(views_of_entries(r@), self@),
    {
        let mut r: Vec<(u32, Task)> = Vec::new();
        let ghost all = vstd::std_specs::hash::spec_hash_map_iter(&self.tasks).remaining();
        let ghost mut n: int = 0;
        for p in it: self.tasks.iter()
            invariant
                it.seq() == all,
                n == it.index(),
                forall|i: int| 0 <= i < all.len() ==> #[trigger] self.tasks@.contains_key(*all[i].0)
                    && self.tasks@[*all[i].0] == *all[i].1,
                all.no_duplicates(),
                forall|k: u32| self.tasks@.contains_key(k) ==> all.contains((&k, &self.tasks@[k])),
                r@.len() == n,
                forall|i: int| 0 <= i < n ==> #[trigger] r@[i].0 == *all[i].0 && r@[i].1@ == (
                *all[i].1)@,
        {
            let (id, t) = p;
            r.push((*id, Task { task_description: t.task_description.clone(), is_completed: t.is_completed }));
            proof {
                n = n + 1;
            }
        }
        proof {
            let es = views_of_entries(r@);
            assert forall|i: int, j: int| 0 <= i < j < es.len() implies es[i].0 != es[j].0 by {
                if *all[i].0 == *all[j].0 {
                    assert(self.tasks@.contains_key(*all[i].0));
                    assert(self.tasks@.contains_key(*all[j].0));
                    assert(*all[i].1 == *all[j].1);
                    assert(all[i].0 == all[j].0);
                    assert(all[i].1 == all[j].1);
                    assert(all[i] == all[j]);
                }
            }
            assert forall|k: u32| self@.contains_key(k) implies exists|i: int|
                0 <= i < es.len() && es[i].0 == k by {
                let i = choose|i: int| 0 <= i < all.len() && all[i] == (&k, &self.tasks@[k]);
                assert(es[i].0 == k);
            }
        }
        r
    }

    /// Removes every task.
    pub fn clear(&mut self)
        ensures
            final(self)@ == Map::<u32, TaskView>::empty(),
    {
        self.tasks.clear();
        assert(self@ =~= Map::<u32, TaskView>::empty());
    }

    /// Puts task `t` under an identifier that is not yet present.
    pub(crate) fn insert_new(&mut self, id: u32, t: Task)
        requires
            !old(self)@.contains_key(id),
        ensures
            final(self)@ == old(self)@.insert(id, t@),
    {
        let ghost tv = t@;
        self.tasks.insert(id, t);
        assert(self@ =~= old(self)@.insert(id, tv));
    }

    /// The largest identifier present, if any.
    fn top_id(&self) -> (t: Option<u32>)
        ensures
            t is None <==> self@.dom().is_empty(),
            t matches Some(k) ==> is_top_id(self@, k),
    {
        let mut best: Option<u32> = None;
        proof {
            let s = vstd::std_specs::hash::spec_keys_iter(&self.tasks).remaining();
            assert forall|i: int| 0 <= i < s.len() implies self.tasks@.contains_key(*s[i]) by {
                assert(s.unref()[i] == *s[i]);
                assert(s.unref().to_set().contains(s.unref()[i]));
            }
        }
        for k in it: self.tasks.keys()
            invariant
                best is None <==> it.index() == 0,
                best matches Some(b) ==> self.tasks@.contains_key(b),
                best matches Some(b) ==> forall|i: int| 0 <= i < it.index() ==> *it.seq()[i] <= b,
                it.seq().len() == self.tasks@.dom().len(),
                forall|j: u32| self.tasks@.contains_key(j) ==> it.seq().contains(&j),
                forall|i: int| 0 <= i < it.seq().len() ==> self.tasks@.contains_key(*it.seq()[i]),
        {
            match best {
                Some(b) => {
                    if *k > b {
                        best = Some(*k);
                    }
                },
                None => {
                    best = Some(*k);
                },
            }
        }
        assert(self@.dom() =~= self.tasks@.dom());
        proof {
            if self.tasks@.dom().len() == 0 {
                assert(self.tasks@.dom() =~= Set::empty());
            } else {
                assert(self.tasks@.dom().contains(self.tasks@.dom().choose()));
            }
        }
        best
    }

    /// The identifier that `add_task` would give the next task, or `None`
    /// when the largest identifier present is already `u32::MAX`.
    pub fn next_id(&self) -> (r: Option<u32>)
        ensures
            r matches Some(id) ==> id == next_id(self@),
            r is None <==> self@.contains_key(u32::MAX),
    {
        match self.top_id() {
            Some(k) => {
                proof {
                    lemma_top_id_unique(self@, k);
                }
                if k == u32::MAX {
                    None
                } else {
                    Some(k + 1)
                }
            },
            None => Some(1),
        }
    }

    /// Adds a task that is not completed, under one more than the largest
    /// identifier present (1 for an empty list), and returns that identifier.
    pub fn add_task(&mut self, task_description: String) -> (id: u32)
        requires
            !old(self)@.contains_key(u32::MAX),
        ensures
            id == next_id(old(self)@),
            final(self)@ == added(old(self)@, task_description@),
    {
        let id = match self.next_id() {
            Some(id) => id,
            None => 1,
        };
        let ghost d = task_description@;
        self.tasks.insert(id, Task::new(task_description));
        assert(self@ =~= added(old(self)@, d));
        id
    }

    /// Removes the task `task_id`.
    pub fn delete_task(&mut self, task_id: u32) -> (r: Result<(), TodoError>)
        ensures
            old(self)@.contains_key(task_id) ==> r is Ok && final(self)@ == old(self)@.remove(task_id),
            !old(self)@.contains_key(task_id) ==> r == Err::<(), TodoError>(TodoError::NotFound)
                && final(self)@ == old(self)@,
    {
        match self.tasks.remove(&task_id) {
            Some(_) => {
                assert(self@ =~= old(self)@.remove(task_id));
                Ok(())
            },
            None => {
                assert(self@ =~= old(self)@);
                Err(TodoError::NotFound)
            },
        }
    }

    /// Replaces the description of task `task_id`, keeping its completion flag.
    pub fn edit_task(&mut self, task_id: u32, new_task_description: String) -> (r: Result<(), TodoError>)
        ensures
            old(self)@.contains_key(task_id) ==> r is Ok && final(self)@ == with_description(
                old(self)@,
                task_id,
                new_task_description@,
            ),
            !old(self)@.contains_key(task_id) ==> r == Err::<(), TodoError>(TodoError::NotFound)
                && final(self)@ == old(self)@,
    {
        match self.tasks.remove(&task_id) {
            Some(task) => {
                let ghost d = new_task_description@;
                self.tasks.insert(
                    task_id,
                    Task { task_description: new_task_description, is_completed: task.is_completed },
                );
                assert(self@ =~= with_description(old(self)@, task_id, d));
                Ok(())
            },
            None => {
                assert(self@ =~= old(self)@);
                Err(TodoError::NotFound)
            },
        }
    }

    /// Marks task `task_id` as completed; a completed task stays so.
    pub fn mark_as_completed(&mut self, task_id: u32) -> (r: Result<(), TodoError>)
        ensures
            old(self)@.contains_key(task_id) ==> r is Ok && final(self)@ == with_completed(
                old(self)@,
                task_id,
            ),
            !old(self)@.contains_key(task_id) ==> r == Err::<(), TodoError>(TodoError::NotFound)
                && final(self)@ == old(self)@,
    {
        match self.tasks.remove(&task_id) {
            Some(task) => {
                self.tasks.insert(
                    task_id,
                    Task { task_description: task.task_description, is_completed: true },
                );
                assert(self@ =~= with_completed(old(self)@, task_id));
                Ok(())
            },
            None => {
                assert(self@ =~= old(self)@);
                Err(TodoError::NotFound)
            },
        }
    }
}

} // verus!

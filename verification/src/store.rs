//! The task store: an in-memory, ordered collection of tasks with the
//! mutations `add_task`, `complete_task` and `remove_task` and the query
//! `list_tasks`.
//!
//! The store is the sole source of truth; the persisted file is a
//! serialization of it (see `codec`). A caller persists the string returned
//! by [`TodoList::save`] after every successful mutation.

use vstd::prelude::*;
use vstd::string::*;

use crate::task::{StoreError, Task, TaskSpec};

verus! {

/// The identifier the store assigns to the next added task: one more than
/// the id of the *last* task in stored order, or 1 for an empty collection.
/// This is deliberately not `max(id) + 1`: after removing the highest-id
/// task, the next add reuses that id.
pub open spec fn next_id(s: Seq<TaskSpec>) -> int {
    if s.len() == 0 {
        1
    } else {
        s.last().id + 1
    }
}

/// The whitespace the store strips conceptually when it decides whether a
/// description is blank.
pub open spec fn is_space(c: char) -> bool {
    c == ' ' || c == '\t' || c == '\n' || c == '\r'
}

/// A description is blank when it holds nothing but whitespace; blank
/// descriptions are rejected by `add_task`.
pub open spec fn is_blank(d: Seq<char>) -> bool {
    forall|i: int| 0 <= i < d.len() ==> is_space(d[i])
}

/// Some task in `s` carries the identifier `id`.
pub open spec fn contains_id(s: Seq<TaskSpec>, id: u64) -> bool {
    exists|i: int| 0 <= i < s.len() && s[i].id == id
}

/// `p` is the position of the first task in `s` with identifier `id`.
pub open spec fn is_first_id_pos(s: Seq<TaskSpec>, id: u64, p: int) -> bool {
    &&& 0 <= p < s.len()
    &&& s[p].id == id
    &&& forall|j: int| 0 <= j < p ==> s[j].id != id
}

/// The task `t` after being marked done at time `now`. A second completion
/// overwrites `completed_at`; nothing guards against it.
pub open spec fn with_completed(t: TaskSpec, now: i64) -> TaskSpec {
    TaskSpec { completed: true, completed_at: Some(now), ..t }
}

/// All identifiers in `s` are pairwise distinct.
pub open spec fn unique_ids(s: Seq<TaskSpec>) -> bool {
    forall|i: int, j: int| 0 <= i < j < s.len() ==> s[i].id != s[j].id
}

/// Identifiers appear in strictly increasing order. This holds of every
/// collection built by `add_task` alone and implies [`unique_ids`].
pub open spec fn ids_increasing(s: Seq<TaskSpec>) -> bool {
    forall|i: int, j: int| 0 <= i < j < s.len() ==> s[i].id < s[j].id
}

/// Holds of the tasks that a completion filter `b` keeps.
pub open spec fn completed_matches(b: bool) -> spec_fn(TaskSpec) -> bool {
    |t: TaskSpec| t.completed == b
}

/// What `list_tasks` returns: all tasks in stored order, or only those whose
/// completion state matches the filter.
pub open spec fn spec_list(s: Seq<TaskSpec>, filter: Option<bool>) -> Seq<TaskSpec> {
    match filter {
        None => s,
        Some(b) => s.filter(completed_matches(b)),
    }
}

/// Relies on chrono's `Local::now` and `DateTime::timestamp`: the current
/// moment as whole seconds since the Unix epoch. The value depends on the
/// clock, so nothing is promised of it.
#[verifier::external_body]
fn now_timestamp() -> i64 {
    chrono::Local::now().timestamp()
}

/// Whether `d` holds nothing but whitespace.
fn is_blank_str(d: &str) -> (r: bool)
    ensures
        r == is_blank(d@),
{
    let n = d.unicode_len();
    let mut i: usize = 0;
    while i < n
        invariant
            i <= n,
            n == d@.len(),
            forall|j: int| 0 <= j < i ==> is_space(d@[j]),
        decreases n - i,
    {
        let c = d.get_char(i);
        match c {
            ' ' | '\t' | '\n' | '\r' => {
            },
            _ => {
                proof {
                    assert(!is_space(d@[i as int]));
                }
                return false;
            },
        }
        i += 1;
    }
    true
}

/// The in-memory task collection, in creation order.
#[derive(Debug)]
pub struct TodoList {
    pub tasks: Vec<Task>,
}

impl View for TodoList {
    type V = Seq<TaskSpec>;

    open spec fn view(&self) -> Seq<TaskSpec> {
        self.tasks.deep_view()
    }
}

impl TodoList {
    /// An empty collection.
    pub fn new() -> (r: TodoList)
        ensures
            r@ == Seq::<TaskSpec>::empty(),
    {
        let r = TodoList { tasks: Vec::new() };
        proof {
            assert(r@ =~= Seq::<TaskSpec>::empty());
        }
        r
    }

    /// The collection a persisted file's contents encode. `None` stands for
    /// a missing file and is an empty collection, not an error; text that
    /// encodes no collection is a corrupt store.
    pub fn load_tasks(contents: Option<&str>) -> (r: Result<TodoList, StoreError>)
        ensures
            match contents {
                None => r matches Ok(l) && l@ == Seq::<TaskSpec>::empty(),
                Some(text) => match r {
                    Ok(l) => crate::codec::spec_parse_doc(text@) == Some(l@),
                    Err(e) => crate::codec::spec_parse_doc(text@) is None && e
                        == StoreError::CorruptStore,
                },
            },
    {
        match contents {
            None => Ok(TodoList::new()),
            Some(text) => match crate::codec::decode_tasks(text) {
                Ok(tasks) => Ok(TodoList { tasks }),
                Err(e) => Err(e),
            },
        }
    }

    /// The collection as the text to persist. The caller writes it to the
    /// backing file after every successful mutation; the store itself never
    /// touches the file system.
    pub fn save(&self) -> (r: String)
        ensures
            r@ == crate::codec::spec_encode(self@),
    {
        crate::codec::encode_tasks(&self.tasks)
    }

    /// Appends a new pending task created at time `now` and returns a copy
    /// of it, or rejects a blank description. The new task's id is
    /// [`next_id`] of the old collection.
    pub fn add_task_at_time(&mut self, description: String, now: i64) -> (r: Result<
        Task,
        StoreError,
    >)
        requires
            old(self)@.len() > 0 ==> old(self)@.last().id < u64::MAX,
        ensures
            match r {
                Ok(t) => {
                    &&& !is_blank(description@)
                    &&& t@.id == next_id(old(self)@)
                    &&& t@.description == description@
                    &&& !t@.completed
                    &&& t@.created_at == now
                    &&& t@.completed_at is None
                    &&& final(self)@ == old(self)@.push(t@)
                    &&& ids_increasing(old(self)@) ==> ids_increasing(final(self)@)
                },
                Err(e) => {
                    &&& e == StoreError::InvalidInput
                    &&& is_blank(description@)
                    &&& final(self)@ == old(self)@
                },
            },
    {
        if is_blank_str(description.as_str()) {
            return Err(StoreError::InvalidInput);
        }
        let id: u64 = if self.tasks.len() > 0 {
            let last = &self.tasks[self.tasks.len() - 1];
            last.id + 1
        } else {
            1
        };
        let task = Task { id, description, completed: false, created_at: now, completed_at: None };
        let result = task.duplicate();
        self.tasks.push(task);
        proof {
            assert(self@ =~= old(self)@.push(result@));
            if ids_increasing(old(self)@) {
                crate::laws::lemma_add_keeps_ids_increasing(old(self)@, result@);
            }
        }
        Ok(result)
    }

    /// Appends a new pending task created now (wall clock) and returns a
    /// copy of it, or rejects a blank description. Equal to
    /// [`Self::add_task_at_time`] at some clock reading, which is all that
    /// can be said of the clock.
    pub fn add_task(&mut self, description: String) -> (r: Result<Task, StoreError>)
        requires
            old(self)@.len() > 0 ==> old(self)@.last().id < u64::MAX,
        ensures
            match r {
                Ok(t) => {
                    &&& !is_blank(description@)
                    &&& t@.id == next_id(old(self)@)
                    &&& t@.description == description@
                    &&& !t@.completed
                    &&& t@.completed_at is None
                    &&& final(self)@ == old(self)@.push(t@)
                    &&& ids_increasing(old(self)@) ==> ids_increasing(final(self)@)
                },
                Err(e) => {
                    &&& e == StoreError::InvalidInput
                    &&& is_blank(description@)
                    &&& final(self)@ == old(self)@
                },
            },
    {
        let now = now_timestamp();
        self.add_task_at_time(description, now)
    }

    /// Marks the first task with identifier `id` as completed at time `now`,
    /// overwriting any earlier completion time. Returns whether such a task
    /// exists; when none does, the collection is unchanged.
    pub fn complete_task_at_time(&mut self, id: u64, now: i64) -> (r: bool)
        ensures
            r == contains_id(old(self)@, id),
            !r ==> final(self)@ == old(self)@,
            r ==> exists|p: int|
                {
                    &&& #[trigger] is_first_id_pos(old(self)@, id, p)
                    &&& final(self)@ == old(self)@.update(p, with_completed(old(self)@[p], now))
                },
    {
        let ghost s0 = self@;
        let n = self.tasks.len();
        let mut i: usize = 0;
        while i < n
            invariant
                i <= n,
                n == self.tasks.len(),
                self == old(self),
                s0 == self@,
                forall|j: int| 0 <= j < i ==> s0[j].id != id,
            decreases n - i,
        {
            let found = {
                let t = &self.tasks[i];
                t.id == id
            };
            if found {
                let ghost tb = self.tasks@;
                let old_task = self.tasks.remove(i);
                let new_task = Task {
                    id: old_task.id,
                    description: old_task.description,
                    completed: true,
                    created_at: old_task.created_at,
                    completed_at: Some(now),
                };
                self.tasks.insert(i, new_task);
                proof {
                    assert(is_first_id_pos(s0, id, i as int));
                    assert(self.tasks@ == tb.remove(i as int).insert(i as int, new_task));
                    let su = s0.update(i as int, with_completed(s0[i as int], now));
                    assert forall|k: int| 0 <= k < self@.len() implies self@[k] == su[k] by {
                        if k < i {
                            assert(self.tasks@[k] == tb[k]);
                        } else if k == i {
                            assert(self.tasks@[k] == new_task);
                        } else {
                            assert(self.tasks@[k] == tb[k]);
                        }
                    }
                    assert(self@ =~= su);
                }
                return true;
            }
            i += 1;
        }
        proof {
            assert(!contains_id(s0, id));
        }
        false
    }

    /// Marks the first task with identifier `id` as completed now (wall
    /// clock). Returns whether such a task exists; when none does, the
    /// collection is unchanged.
    pub fn complete_task(&mut self, id: u64) -> (r: bool)
        ensures
            r == contains_id(old(self)@, id),
            !r ==> final(self)@ == old(self)@,
            r ==> exists|p: int, now: i64|
                {
                    &&& is_first_id_pos(old(self)@, id, p)
                    &&& final(self)@ == #[trigger] old(self)@.update(
                        p,
                        with_completed(old(self)@[p], now),
                    )
                },
    {
        let now = now_timestamp();
        self.complete_task_at_time(id, now)
    }

    /// Removes the first task with identifier `id`; the remaining tasks keep
    /// their own ids and their order. Returns whether such a task exists;
    /// when none does, the collection is unchanged.
    pub fn remove_task(&mut self, id: u64) -> (r: bool)
        ensures
            r == contains_id(old(self)@, id),
            !r ==> final(self)@ == old(self)@,
            r ==> exists|p: int|
                {
                    &&& #[trigger] is_first_id_pos(old(self)@, id, p)
                    &&& final(self)@ == old(self)@.remove(p)
                },
    {
        let ghost s0 = self@;
        let n = self.tasks.len();
        let mut i: usize = 0;
        while i < n
            invariant
                i <= n,
                n == self.tasks.len(),
                self == old(self),
                s0 == self@,
                forall|j: int| 0 <= j < i ==> s0[j].id != id,
            decreases n - i,
        {
            let found = {
                let t = &self.tasks[i];
                t.id == id
            };
            if found {
                proof {
                    assert(is_first_id_pos(s0, id, i as int));
                }
                let ghost tb = self.tasks@;
                self.tasks.remove(i);
                proof {
                    assert(self.tasks@ == tb.remove(i as int));
                    assert(self@.len() == s0.remove(i as int).len());
                    assert forall|k: int| 0 <= k < self@.len() implies self@[k] == s0.remove(
                        i as int,
                    )[k] by {
                        if k < i {
                            assert(self.tasks@[k] == tb[k]);
                        } else {
                            assert(self.tasks@[k] == tb[k + 1]);
                        }
                    }
                    assert(self@ =~= s0.remove(i as int));
                }
                return true;
            }
            i += 1;
        }
        proof {
            assert(!contains_id(s0, id));
        }
        false
    }

    /// The tasks in stored order, or only those whose completion state
    /// matches the filter. A pure query: the collection is untouched.
    pub fn list_tasks(&self, completed_filter: Option<bool>) -> (r: Vec<Task>)
        ensures
            r.deep_view() == spec_list(self@, completed_filter),
    {
        let mut out: Vec<Task> = Vec::new();
        let n = self.tasks.len();
        let mut i: usize = 0;
        match completed_filter {
            None => {
                while i < n
                    invariant
                        i <= n,
                        n == self.tasks.len(),
                        out.deep_view() == self@.take(i as int),
                    decreases n - i,
                {
                    let ghost d0 = out.deep_view();
                    let ghost v0 = out@;
                    let t = {
                        let src = &self.tasks[i];
                        src.duplicate()
                    };
                    out.push(t);
                    proof {
                        let d1 = out.deep_view();
                        assert(out@ == v0.push(t));
                        assert forall|k: int| 0 <= k < d1.len() implies d1[k] == self@.take(
                            i + 1 as int,
                        )[k] by {
                            assert(d1[k] == out@[k]@);
                            assert(d0.len() == i);
                            assert(v0.len() == d0.len());
                            if k < i {
                                assert(out@[k] == v0[k]);
                                assert(d0[k] == v0[k]@);
                            } else {
                                assert(out@[k] == t);
                            }
                        }
                        assert(self@.len() == n);
                        assert(d0.len() == i);
                        assert(v0.len() == d0.len());
                        assert(out@.len() == v0.len() + 1);
                        assert(d1.len() == out@.len());
                        assert(d1.len() == i + 1);
                        assert(d1 =~= self@.take(i + 1 as int));
                    }
                    i += 1;
                }
                proof {
                    assert(self@.take(n as int) =~= self@);
                }
                out
            },
            Some(b) => {
                while i < n
                    invariant
                        i <= n,
                        n == self.tasks.len(),
                        out.deep_view() == self@.take(i as int).filter(completed_matches(b)),
                    decreases n - i,
                {
                    let ghost cm = completed_matches(b);
                    let ghost pre = self@.take(i as int);
                    let ghost post = self@.take(i + 1 as int);
                    let ghost d0 = out.deep_view();
                    let ghost v0 = out@;
                    proof {
                        reveal_with_fuel(Seq::<_>::filter, 2);
                        assert(post.drop_last() =~= pre);
                        assert(post.last() == self@[i as int]);
                    }
                    let matches_filter = {
                        let src = &self.tasks[i];
                        src.completed == b
                    };
                    if matches_filter {
                        let t = {
                            let src = &self.tasks[i];
                            src.duplicate()
                        };
                        out.push(t);
                        proof {
                            reveal_with_fuel(Seq::<_>::filter, 2);
                            assert(cm(post.last()));
                            assert(post.filter(cm) == pre.filter(cm).push(self@[i as int]));
                            let d1 = out.deep_view();
                            assert(out@ == v0.push(t));
                            assert forall|k: int| 0 <= k < d1.len() implies d1[k] == pre.filter(
                                cm,
                            ).push(self@[i as int])[k] by {
                                assert(d1[k] == out@[k]@);
                                if k < d0.len() {
                                    assert(out@[k] == v0[k]);
                                    assert(d0[k] == v0[k]@);
                                } else {
                                    assert(out@[k] == t);
                                }
                            }
                            assert(d1 =~= post.filter(cm));
                        }
                    } else {
                        proof {
                            reveal_with_fuel(Seq::<_>::filter, 2);
                            assert(!cm(post.last()));
                            assert(post.filter(cm) == pre.filter(cm));
                        }
                    }
                    i += 1;
                }
                proof {
                    assert(self@.take(n as int) =~= self@);
                }
                out
            },
        }
    }

    /// How many tasks are completed; with the collection's length this gives
    /// the summary a caller displays (total, completed, pending).
    pub fn completed_count(&self) -> (r: usize)
        ensures
            r == spec_list(self@, Some(true)).len(),
    {
        let n = self.tasks.len();
        let mut count: usize = 0;
        let mut i: usize = 0;
        while i < n
            invariant
                i <= n,
                n == self.tasks.len(),
                count == self@.take(i as int).filter(completed_matches(true)).len(),
                count <= i,
            decreases n - i,
        {
            let ghost cm = completed_matches(true);
            let ghost pre = self@.take(i as int);
            let ghost post = self@.take(i + 1 as int);
            proof {
                reveal_with_fuel(Seq::<_>::filter, 2);
                assert(post.drop_last() =~= pre);
                assert(post.last() == self@[i as int]);
                if cm(post.last()) {
                    assert(post.filter(cm) == pre.filter(cm).push(self@[i as int]));
                } else {
                    assert(post.filter(cm) == pre.filter(cm));
                }
            }
            let is_done = {
                let t = &self.tasks[i];
                t.completed
            };
            if is_done {
                count += 1;
            }
            i += 1;
        }
        proof {
            assert(self@.take(n as int) =~= self@);
        }
        count
    }
}

} // verus!

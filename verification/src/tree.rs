use vstd::prelude::*;

use crate::errors::TreeError;
use crate::status::status_of_name;
use crate::text::{contains_seq, dec_str, str_contains, str_eq, u16_to_string};
use crate::graph::{
    acyclic, is_path, lemma_acyclic_insert, lemma_acyclic_subset, lemma_path_edge,
    lemma_reached_in_closed, lemma_reaches_refl, lemma_reaches_step, lemma_reaches_trans, reaches,
};
use crate::status::TaskStatus;
use crate::task::{repr_spec, Task, TaskView};
use crate::TID;

verus! {

/// One stored task together with its two adjacency lists: `children`
/// holds the dependencies, `parents` holds the dependents.
struct Entry {
    task: Task,
    children: Vec<TID>,
    parents: Vec<TID>,
}

/// A project's task dependency graph.
///
/// Tasks are stored in ascending id order.  The two adjacency views are
/// kept in lock-step, every edge joins existing tasks, no task depends
/// on itself, and the graph is acyclic: `wf` states all of it, every
/// constructor establishes it and every operation preserves it.
pub struct TaskTree {
    id_counter: TID,
    entries: Vec<Entry>,
}

impl TaskTree {
    /// The ids of the tree's tasks, in storage order (ascending).
    pub closed spec fn id_seq(self) -> Seq<TID> {
        self.entries@.map_values(|e: Entry| e.task.id)
    }

    /// Whether a task with this id exists.
    pub open spec fn has_task(self, id: TID) -> bool {
        self.id_seq().contains(id)
    }

    /// The id the next added task will get.
    pub closed spec fn next_id(self) -> TID {
        self.id_counter
    }

    /// The storage position of the task with this id.
    spec fn idx_of(self, id: TID) -> int {
        choose|i: int| 0 <= i < self.entries@.len() && self.entries@[i].task.id == id
    }

    /// The task with this id.
    pub closed spec fn task_of(self, id: TID) -> TaskView {
        self.entries@[self.idx_of(id)].task@
    }

    /// A task's direct dependencies, oldest edge first; empty for an
    /// absent id.
    pub closed spec fn dependencies_of(self, id: TID) -> Seq<TID> {
        if self.has_task(id) {
            self.entries@[self.idx_of(id)].children@
        } else {
            Seq::empty()
        }
    }

    /// A task's direct dependents, oldest edge first; empty for an
    /// absent id.
    pub closed spec fn dependents_on(self, id: TID) -> Seq<TID> {
        if self.has_task(id) {
            self.entries@[self.idx_of(id)].parents@
        } else {
            Seq::empty()
        }
    }

    /// The dependency graph as a set of edges `(task, depends on)`.
    pub open spec fn edges(self) -> Set<(TID, TID)> {
        Set::new(
            |e: (TID, TID)| self.has_task(e.0) && self.dependencies_of(e.0).contains(e.1),
        )
    }

    /// The tasks in storage order (ascending id).
    pub closed spec fn views_in_order(self) -> Seq<TaskView> {
        self.entries@.map_values(|e: Entry| e.task@)
    }

    /// Internal shape of the storage: ids strictly ascending, all below
    /// the counter.
    pub closed spec fn rep_inv(self) -> bool {
        &&& forall|i: int, j: int|
            #![trigger self.entries@[i].task.id, self.entries@[j].task.id]
            0 <= i < j < self.entries@.len() ==> self.entries@[i].task.id
                < self.entries@[j].task.id
        &&& forall|i: int|
            0 <= i < self.entries@.len() ==> #[trigger] self.entries@[i].task.id
                < self.id_counter
    }

    /// Everything `wf` demands short of acyclicity: the shape of the
    /// storage, the cached summaries, and the two adjacency views in
    /// lock-step over existing tasks.
    pub open spec fn graph_inv(self) -> bool {
        &&& self.rep_inv()
        &&& forall|id: TID| #[trigger] self.has_task(id) ==> id < self.next_id()
        &&& forall|id: TID|
            #[trigger] self.has_task(id) ==> self.task_of(id).id == id && self.task_of(id).wf()
        &&& forall|id: TID|
            #[trigger] self.has_task(id) ==> self.dependencies_of(id).no_duplicates()
                && self.dependents_on(id).no_duplicates()
        &&& forall|id: TID, c: TID|
            self.has_task(id) && #[trigger] self.dependencies_of(id).contains(c)
                ==> self.has_task(c)
        &&& forall|id: TID, p: TID|
            self.has_task(id) && #[trigger] self.dependents_on(id).contains(p)
                ==> self.has_task(p)
        &&& forall|id: TID| #[trigger] self.has_task(id) ==> !self.dependencies_of(id).contains(id)
        &&& forall|a: TID, b: TID|
            #![trigger self.dependencies_of(a).contains(b)]
            #![trigger self.dependents_on(b).contains(a)]
            self.has_task(a) && self.has_task(b) ==> (self.dependencies_of(a).contains(b)
                <==> self.dependents_on(b).contains(a))
    }

    /// Well-formedness: what holds of every tree the library hands out.
    pub open spec fn wf(self) -> bool {
        &&& self.graph_inv()
        &&& acyclic(self.edges())
    }

    /// The accessors, read off a storage position.
    proof fn lemma_entry_accessors(self, i: int)
        requires
            self.rep_inv(),
            0 <= i < self.entries@.len(),
        ensures
            self.has_task(self.entries@[i].task.id),
            self.idx_of(self.entries@[i].task.id) == i,
            self.task_of(self.entries@[i].task.id) == self.entries@[i].task@,
            self.dependencies_of(self.entries@[i].task.id) == self.entries@[i].children@,
            self.dependents_on(self.entries@[i].task.id) == self.entries@[i].parents@,
    {
        let id = self.entries@[i].task.id;
        assert(self.id_seq()[i] == id);
        assert(self.id_seq().contains(id));
        let j = self.idx_of(id);
        assert(0 <= j < self.entries@.len() && self.entries@[j].task.id == id);
        if j < i {
            assert(self.entries@[j].task.id < self.entries@[i].task.id);
        } else if i < j {
            assert(self.entries@[i].task.id < self.entries@[j].task.id);
        }
    }

    /// The storage position, read off an id.
    proof fn lemma_id_accessors(self, id: TID)
        requires
            self.rep_inv(),
            self.has_task(id),
        ensures
            0 <= self.idx_of(id) < self.entries@.len(),
            self.entries@[self.idx_of(id)].task.id == id,
            self.task_of(id) == self.entries@[self.idx_of(id)].task@,
            self.dependencies_of(id) == self.entries@[self.idx_of(id)].children@,
            self.dependents_on(id) == self.entries@[self.idx_of(id)].parents@,
    {
        let k = choose|k: int| 0 <= k < self.id_seq().len() && self.id_seq()[k] == id;
        assert(self.entries@[k].task.id == id);
        self.lemma_entry_accessors(k);
    }

    /// An empty tree; the first task will get id 1.
    pub fn new() -> (r: TaskTree)
        ensures
            r.wf(),
            r.next_id() == 1,
            r.id_seq() == Seq::<TID>::empty(),
    {
        let r = TaskTree { id_counter: 1, entries: Vec::new() };
        proof {
            assert(r.id_seq() =~= Seq::<TID>::empty());
        }
        r
    }

    /// The storage position of the task with this id, if any.
    fn find_index(&self, id: TID) -> (r: Option<usize>)
        requires
            self.rep_inv(),
        ensures
            r matches Some(i) ==> self.has_task(id) && self.idx_of(id) == i as int,
            r is None ==> !self.has_task(id),
    {
        let n = self.entries.len();
        let mut i: usize = 0;
        while i < n
            invariant
                i <= n,
                n == self.entries@.len(),
                self.rep_inv(),
                forall|j: int| 0 <= j < i ==> #[trigger] self.entries@[j].task.id != id,
            decreases n - i,
        {
            if self.entries[i].task.id == id {
                proof {
                    self.lemma_entry_accessors(i as int);
                }
                return Some(i);
            }
            i = i + 1;
        }
        proof {
            assert forall|k: int| 0 <= k < self.id_seq().len() implies self.id_seq()[k] != id by {
                assert(self.entries@[k].task.id != id);
            }
            assert(!self.has_task(id));
        }
        None
    }

    /// Fails with `NotFound` exactly when the id names no task.
    fn check_task_exists(&self, task_id: &TID) -> (r: Result<(), TreeError>)
        requires
            self.rep_inv(),
        ensures
            r is Ok <==> self.has_task(*task_id),
            r matches Err(e) ==> e == TreeError::NotFound(*task_id),
    {
        match self.find_index(*task_id) {
            Some(_) => Ok(()),
            None => Err(TreeError::NotFound(*task_id)),
        }
    }

    /// The task with the given id, or `NotFound`.
    pub fn get_task(&self, task_id: &TID) -> (r: Result<&Task, TreeError>)
        requires
            self.wf(),
        ensures
            r matches Ok(t) ==> self.has_task(*task_id) && t@ == self.task_of(*task_id),
            r matches Err(e) ==> !self.has_task(*task_id) && e == TreeError::NotFound(*task_id),
    {
        match self.find_index(*task_id) {
            Some(i) => {
                proof {
                    self.lemma_id_accessors(*task_id);
                }
                Ok(&self.entries[i].task)
            },
            None => Err(TreeError::NotFound(*task_id)),
        }
    }

    /// The summary line of the task with the given id, if it exists.
    pub fn get_task_repr(&self, task_id: &TID) -> (r: Option<String>)
        requires
            self.wf(),
        ensures
            r matches Some(s) ==> self.has_task(*task_id) && s@ == self.task_of(*task_id).repr,
            r is None <==> !self.has_task(*task_id),
    {
        match self.find_index(*task_id) {
            Some(i) => {
                proof {
                    self.lemma_id_accessors(*task_id);
                }
                Some(self.entries[i].task.get_repr().clone())
            },
            None => None,
        }
    }

    /// Creates a task with the given name and optional description and
    /// adds it to the tree: status `Open`, no dependencies, the next id.
    pub fn add_task(&mut self, name: String, desc: Option<String>) -> (r: TID)
        requires
            old(self).wf(),
            old(self).next_id() < TID::MAX,
        ensures
            final(self).wf(),
            r == old(self).next_id(),
            !old(self).has_task(r),
            final(self).next_id() == old(self).next_id() + 1,
            final(self).id_seq() == old(self).id_seq().push(r),
            final(self).has_task(r),
            final(self).task_of(r).id == r,
            final(self).task_of(r).name == name@,
            final(self).task_of(r).desc == (match desc {
                Some(d) => Some(d@),
                None => None::<Seq<char>>,
            }),
            final(self).task_of(r).status == TaskStatus::Open,
            final(self).dependencies_of(r) == Seq::<TID>::empty(),
            final(self).dependents_on(r) == Seq::<TID>::empty(),
            forall|x: TID| #[trigger] old(self).has_task(x) ==> final(self).has_task(x)
                && final(self).task_of(x) == old(self).task_of(x)
                && final(self).dependencies_of(x) == old(self).dependencies_of(x)
                && final(self).dependents_on(x) == old(self).dependents_on(x),
    {
        let ghost pre = *self;
        let id = self.id_counter;
        let entry = Entry { task: Task::new(id, name, desc), children: Vec::new(), parents: Vec::new() };
        let ghost ge = entry;
        self.entries.push(entry);
        self.id_counter = self.id_counter + 1;
        proof {
            let n = pre.entries@.len();
            assert(self.entries@ =~= pre.entries@.push(ge));
            assert(self.id_seq() =~= pre.id_seq().push(id));
            assert forall|i: int, j: int|
                #![trigger self.entries@[i].task.id, self.entries@[j].task.id]
                0 <= i < j < self.entries@.len() implies self.entries@[i].task.id
                < self.entries@[j].task.id by {
                if j == n as int {
                    assert(self.entries@[j].task.id == id);
                    assert(pre.entries@[i].task.id < pre.id_counter);
                }
            }
            assert(self.rep_inv());
            assert forall|x: TID| #[trigger] pre.has_task(x) implies self.has_task(x)
                && self.task_of(x) == pre.task_of(x)
                && self.dependencies_of(x) == pre.dependencies_of(x)
                && self.dependents_on(x) == pre.dependents_on(x) by {
                pre.lemma_id_accessors(x);
                let i = pre.idx_of(x);
                assert(self.entries@[i] == pre.entries@[i]);
                self.lemma_entry_accessors(i);
            }
            self.lemma_entry_accessors(n as int);
            assert(self.has_task(id));
            assert(self.task_of(id) == ge.task@);
            assert(self.dependencies_of(id) =~= Seq::<TID>::empty());
            assert(self.dependents_on(id) =~= Seq::<TID>::empty());
            assert(!pre.has_task(id)) by {
                if pre.has_task(id) {
                    pre.lemma_id_accessors(id);
                    assert(pre.entries@[pre.idx_of(id)].task.id < pre.id_counter);
                }
            }
            assert forall|x: TID| #[trigger] self.has_task(x) implies
                pre.has_task(x) || x == id by {
                if x != id {
                    let k2 = choose|k2: int|
                        0 <= k2 < self.id_seq().len() && self.id_seq()[k2] == x;
                    assert(k2 < n);
                    assert(pre.id_seq()[k2] == x);
                    assert(pre.id_seq().contains(x));
                }
            }
            assert(self.wf()) by {
                assert forall|idq: TID| #[trigger] self.has_task(idq) implies
                    self.task_of(idq).id == idq && self.task_of(idq).wf()
                    && self.dependencies_of(idq).no_duplicates()
                    && self.dependents_on(idq).no_duplicates()
                    && !self.dependencies_of(idq).contains(idq) by {
                    if idq == id {
                    } else {
                        assert(pre.has_task(idq));
                    }
                }
                assert forall|idq: TID, c: TID|
                    self.has_task(idq) && #[trigger] self.dependencies_of(idq).contains(c)
                    implies self.has_task(c) by {
                    if idq != id {
                        assert(pre.has_task(idq));
                        assert(pre.dependencies_of(idq).contains(c));
                        assert(pre.has_task(c));
                    }
                }
                assert forall|idq: TID, p: TID|
                    self.has_task(idq) && #[trigger] self.dependents_on(idq).contains(p)
                    implies self.has_task(p) by {
                    if idq != id {
                        assert(pre.has_task(idq));
                        assert(pre.dependents_on(idq).contains(p));
                        assert(pre.has_task(p));
                    }
                }
                assert forall|a: TID, b: TID|
                    #![trigger self.dependencies_of(a).contains(b)]
                    #![trigger self.dependents_on(b).contains(a)]
                    self.has_task(a) && self.has_task(b) implies (self.dependencies_of(
                        a,
                    ).contains(b) <==> self.dependents_on(b).contains(a)) by {
                    if a != id && b != id {
                        assert(pre.has_task(a) && pre.has_task(b));
                    }
                }
                assert(self.edges() =~= pre.edges()) by {
                    assert forall|e: (TID, TID)| self.edges().contains(e)
                        <==> pre.edges().contains(e) by {
                        if e.0 == id {
                            assert(self.dependencies_of(id) =~= Seq::<TID>::empty());
                        } else if self.has_task(e.0) {
                            assert(pre.has_task(e.0) || e.0 == id);
                        } else {
                            assert(!pre.has_task(e.0));
                        }
                    }
                }
            }
        }
        id
    }
}

/// The predicate satisfied by every id but `x`; removing an id from an
/// adjacency list is filtering with it.
pub open spec fn other_than(x: TID) -> spec_fn(TID) -> bool {
    |y: TID| y != x
}

/// The first line of a dependency report.
pub open spec fn dependencies_header(id: TID) -> Seq<char> {
    "dependencies for task "@ + dec_str(id as nat) + ":"@
}

/// Whether a list of ids holds `x`.
fn tid_vec_contains(v: &Vec<TID>, x: TID) -> (r: bool)
    ensures
        r == v@.contains(x),
{
    let n = v.len();
    let mut i: usize = 0;
    while i < n
        invariant
            i <= n,
            n == v@.len(),
            forall|j: int| 0 <= j < i ==> v@[j] != x,
        decreases n - i,
    {
        if v[i] == x {
            return true;
        }
        i = i + 1;
    }
    proof {
        assert(forall|j: int| 0 <= j < v@.len() ==> v@[j] != x);
    }
    false
}

/// An exact copy of a list of ids.
fn clone_tids(v: &Vec<TID>) -> (r: Vec<TID>)
    ensures
        r@ == v@,
{
    let n = v.len();
    let mut r: Vec<TID> = Vec::new();
    let mut i: usize = 0;
    while i < n
        invariant
            i <= n,
            n == v@.len(),
            r@ == v@.subrange(0, i as int),
        decreases n - i,
    {
        r.push(v[i]);
        proof {
            assert(r@ =~= v@.subrange(0, i + 1));
        }
        i = i + 1;
    }
    proof {
        assert(r@ =~= v@);
    }
    r
}

/// Membership in a pushed sequence.
proof fn lemma_push_contains(q: Seq<TID>, a: TID, x: TID)
    ensures
        q.push(a).contains(x) <==> q.contains(x) || x == a,
{
    if q.push(a).contains(x) {
        let i = choose|i: int| 0 <= i < q.push(a).len() && q.push(a)[i] == x;
        if i < q.len() {
            assert(q[i] == x);
        }
    }
    if q.contains(x) {
        let i = choose|i: int| 0 <= i < q.len() && q[i] == x;
        assert(q.push(a)[i] == x);
    }
    if x == a {
        assert(q.push(a)[q.len() as int] == x);
    }
}

/// Pushing a fresh element keeps a sequence duplicate-free.
proof fn lemma_no_dup_push(s: Seq<TID>, x: TID)
    requires
        s.no_duplicates(),
        !s.contains(x),
    ensures
        s.push(x).no_duplicates(),
{
    assert forall|i: int, j: int|
        0 <= i < s.push(x).len() && 0 <= j < s.push(x).len() && i != j implies s.push(x)[i]
        != s.push(x)[j] by {
        if i < s.len() && j < s.len() {
        } else if i < s.len() {
            assert(s[i] == s.push(x)[i]);
            if s[i] == x {
                assert(s.contains(x));
            }
        } else if j < s.len() {
            assert(s[j] == s.push(x)[j]);
            if s[j] == x {
                assert(s.contains(x));
            }
        }
    }
}

/// How `filter` treats a pushed element.
proof fn lemma_filter_push(s: Seq<TID>, pred: spec_fn(TID) -> bool, x: TID)
    ensures
        s.push(x).filter(pred) == (if pred(x) {
            s.filter(pred).push(x)
        } else {
            s.filter(pred)
        }),
{
    reveal(Seq::filter);
    assert(s.push(x).drop_last() =~= s);
    assert(s.push(x).last() == x);
}

/// `filter` keeps exactly the matching elements.
pub proof fn lemma_filter_contains_iff(s: Seq<TID>, pred: spec_fn(TID) -> bool, x: TID)
    ensures
        s.filter(pred).contains(x) <==> s.contains(x) && pred(x),
    decreases s.len(),
{
    reveal(Seq::filter);
    if s.len() == 0 {
    } else {
        let dl = s.drop_last();
        lemma_filter_contains_iff(dl, pred, x);
        assert(s =~= dl.push(s.last()));
        lemma_push_contains(dl, s.last(), x);
        if pred(s.last()) {
            lemma_push_contains(dl.filter(pred), s.last(), x);
        }
    }
}

/// `filter` is the identity when every element matches.
proof fn lemma_filter_all(s: Seq<TID>, pred: spec_fn(TID) -> bool)
    requires
        forall|i: int| 0 <= i < s.len() ==> pred(#[trigger] s[i]),
    ensures
        s.filter(pred) == s,
    decreases s.len(),
{
    reveal(Seq::filter);
    if s.len() == 0 {
        assert(s.filter(pred) =~= s);
    } else {
        let dl = s.drop_last();
        lemma_filter_all(dl, pred);
        assert(pred(s[s.len() - 1]));
        assert(s.filter(pred) =~= s);
    }
}

/// `filter` keeps a duplicate-free sequence duplicate-free.
proof fn lemma_filter_no_dup(s: Seq<TID>, pred: spec_fn(TID) -> bool)
    requires
        s.no_duplicates(),
    ensures
        s.filter(pred).no_duplicates(),
    decreases s.len(),
{
    reveal(Seq::filter);
    if s.len() == 0 {
    } else {
        let dl = s.drop_last();
        assert(dl.no_duplicates());
        lemma_filter_no_dup(dl, pred);
        if pred(s.last()) {
            lemma_filter_contains_iff(dl, pred, s.last());
            if dl.contains(s.last()) {
                let i = choose|i: int| 0 <= i < dl.len() && dl[i] == s.last();
                assert(s[i] == s[s.len() - 1]);
            }
            lemma_no_dup_push(dl.filter(pred), s.last());
        }
    }
}

/// `filter` keeps a strictly ascending run of ids strictly ascending:
/// a filtered listing stays sorted by id.
pub proof fn lemma_filter_ascending(s: Seq<TID>, pred: spec_fn(TID) -> bool)
    requires
        forall|i: int, j: int|
            #![trigger s[i], s[j]]
            0 <= i < j < s.len() ==> s[i] < s[j],
    ensures
        forall|i: int, j: int|
            #![trigger s.filter(pred)[i], s.filter(pred)[j]]
            0 <= i < j < s.filter(pred).len() ==> s.filter(pred)[i] < s.filter(pred)[j],
    decreases s.len(),
{
    reveal(Seq::filter);
    if s.len() > 0 {
        let dl = s.drop_last();
        assert forall|i: int, j: int|
            #![trigger dl[i], dl[j]]
            0 <= i < j < dl.len() implies dl[i] < dl[j] by {
            assert(dl[i] == s[i]);
            assert(dl[j] == s[j]);
        }
        lemma_filter_ascending(dl, pred);
        if pred(s.last()) {
            assert(s.filter(pred) == dl.filter(pred).push(s.last()));
            assert forall|i: int, j: int|
                #![trigger s.filter(pred)[i], s.filter(pred)[j]]
                0 <= i < j < s.filter(pred).len() implies s.filter(pred)[i] < s.filter(
                pred,
            )[j] by {
                if j < dl.filter(pred).len() {
                    assert(s.filter(pred)[i] == dl.filter(pred)[i]);
                    assert(s.filter(pred)[j] == dl.filter(pred)[j]);
                } else {
                    assert(s.filter(pred)[j] == s.last());
                    assert(s.filter(pred)[i] == dl.filter(pred)[i]);
                    assert(dl.filter(pred).contains(dl.filter(pred)[i]));
                    lemma_filter_contains_iff(dl, pred, dl.filter(pred)[i]);
                    let k = choose|k: int| 0 <= k < dl.len() && dl[k] == dl.filter(pred)[i];
                    assert(dl[k] == s[k]);
                    assert(s[k] < s[s.len() - 1]);
                }
            }
        }
    }
}

/// Removing the only occurrence of an element is a `filter`.
proof fn lemma_remove_is_filter(s: Seq<TID>, i: int, x: TID)
    requires
        s.no_duplicates(),
        0 <= i < s.len(),
        s[i] == x,
    ensures
        s.remove(i) == s.filter(other_than(x)),
{
    let pred = other_than(x);
    let a = s.subrange(0, i);
    let b = s.subrange(i + 1, s.len() as int);
    assert(s =~= a + seq![x] + b);
    Seq::filter_distributes_over_add(a + seq![x], b, pred);
    Seq::filter_distributes_over_add(a, seq![x], pred);
    assert(seq![x].filter(pred) =~= Seq::<TID>::empty()) by {
        reveal(Seq::filter);
        assert(seq![x].drop_last() =~= Seq::<TID>::empty());
        assert(seq![x].last() == x);
    }
    assert forall|k: int| 0 <= k < a.len() implies pred(#[trigger] a[k]) by {
        assert(a[k] == s[k]);
        if s[k] == x {
            assert(s[k] == s[i]);
        }
    }
    assert forall|k: int| 0 <= k < b.len() implies pred(#[trigger] b[k]) by {
        assert(b[k] == s[i + 1 + k]);
        if s[i + 1 + k] == x {
            assert(s[i + 1 + k] == s[i]);
        }
    }
    lemma_filter_all(a, pred);
    lemma_filter_all(b, pred);
    assert(s.filter(pred) == (a + seq![x]).filter(pred) + b.filter(pred));
    assert(s.filter(pred) =~= a + b);
    assert(s.remove(i) =~= a + b);
}

/// Removes every occurrence of `x` from a list of ids, keeping order.
fn remove_tid(v: &mut Vec<TID>, x: TID)
    ensures
        final(v)@ == old(v)@.filter(other_than(x)),
{
    let n = v.len();
    let mut r: Vec<TID> = Vec::new();
    let mut i: usize = 0;
    while i < n
        invariant
            i <= n,
            n == v@.len(),
            r@ == v@.subrange(0, i as int).filter(other_than(x)),
        decreases n - i,
    {
        let y = v[i];
        proof {
            lemma_filter_push(v@.subrange(0, i as int), other_than(x), y);
            assert(v@.subrange(0, i + 1) =~= v@.subrange(0, i as int).push(y));
            assert(v@.subrange(0, i + 1).filter(other_than(x)) == v@.subrange(
                0,
                i as int,
            ).push(y).filter(other_than(x)));
            assert(other_than(x)(y) == (y != x));
        }
        if y != x {
            r.push(y);
        }
        i = i + 1;
    }
    proof {
        assert(v@.subrange(0, n as int) =~= v@);
    }
    *v = r;
}

/// A duplicate-free sequence whose elements all lie in another
/// duplicate-free sequence is no longer than it.
proof fn lemma_unique_subset_len(s: Seq<TID>, t: Seq<TID>)
    requires
        s.no_duplicates(),
        t.no_duplicates(),
        forall|x: TID| #[trigger] s.contains(x) ==> t.contains(x),
    ensures
        s.len() <= t.len(),
{
    broadcast use vstd::seq_lib::seq_to_set_is_finite;

    s.unique_seq_to_set();
    t.unique_seq_to_set();
    assert(s.to_set().subset_of(t.to_set()));
    vstd::set_lib::lemma_len_subset(s.to_set(), t.to_set());
}

/// Two trees with the same stored ids and counter agree on ids,
/// membership and storage positions.
proof fn lemma_same_ids_frame(pre: TaskTree, post: TaskTree)
    requires
        pre.rep_inv(),
        post.entries@.len() == pre.entries@.len(),
        post.id_counter == pre.id_counter,
        forall|i: int|
            0 <= i < pre.entries@.len() ==> #[trigger] post.entries@[i].task.id
                == pre.entries@[i].task.id,
    ensures
        post.rep_inv(),
        post.id_seq() == pre.id_seq(),
        forall|x: TID| #[trigger] post.has_task(x) <==> pre.has_task(x),
        forall|x: TID| #[trigger] pre.has_task(x) ==> post.idx_of(x) == pre.idx_of(x),
{
    assert(post.id_seq() =~= pre.id_seq());
    assert forall|i: int, j: int|
        #![trigger post.entries@[i].task.id, post.entries@[j].task.id]
        0 <= i < j < post.entries@.len() implies post.entries@[i].task.id
        < post.entries@[j].task.id by {
        assert(pre.entries@[i].task.id < pre.entries@[j].task.id);
    }
    assert forall|i: int|
        0 <= i < post.entries@.len() implies #[trigger] post.entries@[i].task.id
        < post.id_counter by {
        assert(pre.entries@[i].task.id < pre.id_counter);
    }
    assert(post.rep_inv());
    assert forall|x: TID| #[trigger] pre.has_task(x) implies post.idx_of(x) == pre.idx_of(x) by {
        pre.lemma_id_accessors(x);
        let i = pre.idx_of(x);
        assert(post.entries@[i].task.id == x);
        post.lemma_entry_accessors(i);
    }
}

impl TaskTree {
    /// The ids the tree's ids form a duplicate-free sequence.
    proof fn lemma_id_seq_unique(self)
        requires
            self.rep_inv(),
        ensures
            self.id_seq().no_duplicates(),
    {
        assert forall|i: int, j: int|
            0 <= i < self.id_seq().len() && 0 <= j < self.id_seq().len() && i != j implies self.id_seq()[i] != self.id_seq()[j] by {
            if i < j {
                assert(self.entries@[i].task.id < self.entries@[j].task.id);
            } else {
                assert(self.entries@[j].task.id < self.entries@[i].task.id);
            }
        }
    }

    /// Every id some walk from `start` reaches, collected by a
    /// depth-first search over the dependency lists.
    fn reachable_set(&self, start: TID) -> (r: Vec<TID>)
        requires
            self.graph_inv(),
            self.has_task(start),
        ensures
            r@.no_duplicates(),
            forall|w: TID| #[trigger] r@.contains(w) <==> reaches(self.edges(), start, w),
    {
        let mut visited: Vec<TID> = Vec::new();
        let mut stack: Vec<TID> = Vec::new();
        stack.push(start);
        proof {
            lemma_reaches_refl(self.edges(), start);
            assert(stack@[0] == start);
            assert(stack@.contains(start));
        }
        while stack.len() > 0
            invariant
                self.graph_inv(),
                self.has_task(start),
                visited@.no_duplicates(),
                stack@.no_duplicates(),
                forall|x: TID| #[trigger] visited@.contains(x) ==> self.has_task(x),
                forall|x: TID| #[trigger] stack@.contains(x) ==> self.has_task(x),
                forall|x: TID| #[trigger] visited@.contains(x) ==> !stack@.contains(x),
                forall|x: TID| #[trigger] visited@.contains(x) ==> reaches(self.edges(), start, x),
                forall|x: TID| #[trigger] stack@.contains(x) ==> reaches(self.edges(), start, x),
                visited@.contains(start) || stack@.contains(start),
                forall|v: TID, c: TID|
                    #[trigger] visited@.contains(v) && #[trigger] self.edges().contains((v, c))
                        ==> visited@.contains(c) || stack@.contains(c),
            decreases self.id_seq().len() - visited@.len(),
        {
            let ghost stack_pre = stack@;
            let w = match stack.pop() {
                Some(w) => w,
                None => vstd::pervasive::unreached(),
            };
            proof {
                assert(stack_pre =~= stack@.push(w));
                assert(stack_pre.contains(w)) by {
                    lemma_push_contains(stack@, w, w);
                }
                assert forall|x: TID| #[trigger] stack@.contains(x) implies stack_pre.contains(
                    x,
                ) by {
                    lemma_push_contains(stack@, w, x);
                }
                assert(!stack@.contains(w)) by {
                    if stack@.contains(w) {
                        let i = choose|i: int| 0 <= i < stack@.len() && stack@[i] == w;
                        assert(stack_pre[i] == w);
                        assert(stack_pre[stack_pre.len() - 1] == w);
                    }
                }
                assert(!visited@.contains(w));
            }
            let ghost visited_pre = visited@;
            visited.push(w);
            proof {
                lemma_no_dup_push(visited_pre, w);
                assert forall|x: TID| #[trigger] visited@.contains(x) implies visited_pre.contains(
                    x,
                ) || x == w by {
                    lemma_push_contains(visited_pre, w, x);
                }
                assert(visited@.contains(w)) by {
                    lemma_push_contains(visited_pre, w, w);
                }
                assert forall|x: TID| visited_pre.contains(x) implies #[trigger] visited@.contains(
                    x,
                ) by {
                    lemma_push_contains(visited_pre, w, x);
                }
            }
            let wi = match self.find_index(w) {
                Some(i) => i,
                None => vstd::pervasive::unreached(),
            };
            proof {
                self.lemma_id_accessors(w);
            }
            let n_children = self.entries[wi].children.len();
            let mut j: usize = 0;
            while j < n_children
                invariant
                    self.graph_inv(),
                    self.has_task(w),
                    wi as int == self.idx_of(w),
                    wi < self.entries@.len(),
                    n_children == self.dependencies_of(w).len(),
                    j <= n_children,
                    visited@.no_duplicates(),
                    stack@.no_duplicates(),
                    visited@.contains(w),
                    forall|x: TID| #[trigger] visited@.contains(x) ==> self.has_task(x),
                    forall|x: TID| #[trigger] stack@.contains(x) ==> self.has_task(x),
                    forall|x: TID| #[trigger] visited@.contains(x) ==> !stack@.contains(x),
                    forall|x: TID|
                        #[trigger] visited@.contains(x) ==> reaches(self.edges(), start, x),
                    forall|x: TID|
                        #[trigger] stack@.contains(x) ==> reaches(self.edges(), start, x),
                    visited@.contains(start) || stack@.contains(start),
                    forall|v: TID, c: TID|
                        #[trigger] visited@.contains(v) && #[trigger] self.edges().contains(
                            (v, c),
                        ) && v != w ==> visited@.contains(c) || stack@.contains(c),
                    forall|k: int|
                        0 <= k < j ==> visited@.contains(#[trigger] self.dependencies_of(w)[k])
                            || stack@.contains(self.dependencies_of(w)[k]),
                decreases n_children - j,
            {
                let c = self.entries[wi].children[j];
                proof {
                    assert(c == self.dependencies_of(w)[j as int]);
                    assert(self.dependencies_of(w).contains(c));
                    assert(self.edges().contains((w, c)));
                    assert(reaches(self.edges(), start, w));
                    lemma_reaches_step(self.edges(), w, c);
                    lemma_reaches_trans(self.edges(), start, w, c);
                }
                let in_visited = tid_vec_contains(&visited, c);
                if !in_visited {
                    let in_stack = tid_vec_contains(&stack, c);
                    if !in_stack {
                        let ghost stack_before = stack@;
                        stack.push(c);
                        proof {
                            lemma_no_dup_push(stack_before, c);
                            assert forall|x: TID| #[trigger] stack@.contains(x) implies
                                stack_before.contains(x) || x == c by {
                                lemma_push_contains(stack_before, c, x);
                            }
                            assert forall|x: TID| stack_before.contains(x) || x == c implies
                                #[trigger] stack@.contains(x) by {
                                lemma_push_contains(stack_before, c, x);
                            }
                        }
                    }
                }
                j = j + 1;
            }
            proof {
                assert forall|v: TID, c: TID|
                    #[trigger] visited@.contains(v) && #[trigger] self.edges().contains((v, c))
                    implies visited@.contains(c) || stack@.contains(c) by {
                    if v == w {
                        let k = choose|k: int|
                            0 <= k < self.dependencies_of(w).len() && self.dependencies_of(w)[k]
                                == c;
                        assert(visited@.contains(self.dependencies_of(w)[k]) || stack@.contains(
                            self.dependencies_of(w)[k],
                        ));
                    }
                }
                self.lemma_id_seq_unique();
                lemma_unique_subset_len(visited@, self.id_seq());
                assert(visited@.len() <= self.id_seq().len());
            }
        }
        proof {
            assert forall|x: TID| reaches(self.edges(), start, x) implies visited@.contains(x) by {
                let s = visited@.to_set();
                assert(s.contains(start));
                assert forall|p: TID, q: TID|
                    s.contains(p) && #[trigger] self.edges().contains((p, q)) implies s.contains(
                        q,
                    ) by {
                    assert(visited@.contains(p));
                    assert(visited@.contains(q) || stack@.contains(q));
                }
                lemma_reached_in_closed(self.edges(), s, start, x);
            }
        }
        visited
    }

    /// Whether some chain of dependencies leads from `u` to `v`.
    fn path_between(&self, u: &TID, v: &TID) -> (r: bool)
        requires
            self.graph_inv(),
            self.has_task(*u),
        ensures
            r == reaches(self.edges(), *u, *v),
    {
        let set = self.reachable_set(*u);
        tid_vec_contains(&set, *v)
    }

    /// Makes the first task depend on the second.
    ///
    /// Fails with `NotFound` for a missing id, `SelfReference` when the
    /// ids are equal, `DuplicateEdge` when the edge already exists, and
    /// `CycleWouldForm` exactly when the second task already reaches the
    /// first through dependencies.  A failed call leaves the tree
    /// unchanged; a successful one appends to the two adjacency lists
    /// and changes nothing else.
    pub fn add_dependency(&mut self, task_id: &TID, depends_on_id: &TID) -> (r: Result<
        (),
        TreeError,
    >)
        requires
            old(self).wf(),
        ensures
            final(self).wf(),
            r is Ok <==> (old(self).has_task(*task_id) && old(self).has_task(*depends_on_id)
                && *task_id != *depends_on_id && !old(self).dependencies_of(*task_id).contains(
                *depends_on_id,
            ) && !reaches(old(self).edges(), *depends_on_id, *task_id)),
            !old(self).has_task(*task_id) ==> r == Err::<(), TreeError>(
                TreeError::NotFound(*task_id),
            ),
            old(self).has_task(*task_id) && !old(self).has_task(*depends_on_id) ==> r == Err::<
                (),
                TreeError,
            >(TreeError::NotFound(*depends_on_id)),
            old(self).has_task(*task_id) && old(self).has_task(*depends_on_id) && *task_id
                == *depends_on_id ==> r == Err::<(), TreeError>(TreeError::SelfReference(*task_id)),
            old(self).has_task(*task_id) && old(self).has_task(*depends_on_id) && *task_id
                != *depends_on_id && old(self).dependencies_of(*task_id).contains(*depends_on_id)
                ==> r == Err::<(), TreeError>(TreeError::DuplicateEdge(*task_id, *depends_on_id)),
            old(self).has_task(*task_id) && old(self).has_task(*depends_on_id) && *task_id
                != *depends_on_id && !old(self).dependencies_of(*task_id).contains(*depends_on_id)
                && reaches(old(self).edges(), *depends_on_id, *task_id) ==> r == Err::<
                (),
                TreeError,
            >(TreeError::CycleWouldForm(*task_id, *depends_on_id)),
            r is Err ==> *final(self) == *old(self),
            r is Ok ==> final(self).dependencies_of(*task_id) == old(self).dependencies_of(
                *task_id,
            ).push(*depends_on_id),
            r is Ok ==> final(self).dependents_on(*depends_on_id) == old(self).dependents_on(
                *depends_on_id,
            ).push(*task_id),
            r is Ok ==> forall|x: TID|
                x != *task_id ==> final(self).dependencies_of(x) == old(self).dependencies_of(x),
            r is Ok ==> forall|x: TID|
                x != *depends_on_id ==> final(self).dependents_on(x) == old(self).dependents_on(x),
            final(self).id_seq() == old(self).id_seq(),
            final(self).next_id() == old(self).next_id(),
            forall|x: TID|
                #[trigger] old(self).has_task(x) ==> final(self).task_of(x) == old(self).task_of(
                    x,
                ),
            r is Ok ==> final(self).edges() == old(self).edges().insert(
                (*task_id, *depends_on_id),
            ),
    {
        let a = *task_id;
        let b = *depends_on_id;
        match self.check_task_exists(task_id) {
            Err(e) => {
                return Err(e);
            },
            Ok(_) => {},
        }
        match self.check_task_exists(depends_on_id) {
            Err(e) => {
                return Err(e);
            },
            Ok(_) => {},
        }
        if a == b {
            return Err(TreeError::SelfReference(a));
        }
        let ai = match self.find_index(a) {
            Some(i) => i,
            None => vstd::pervasive::unreached(),
        };
        let bi = match self.find_index(b) {
            Some(i) => i,
            None => vstd::pervasive::unreached(),
        };
        proof {
            self.lemma_id_accessors(a);
            self.lemma_id_accessors(b);
        }
        if tid_vec_contains(&self.entries[ai].children, b) {
            return Err(TreeError::DuplicateEdge(a, b));
        }
        if self.path_between(depends_on_id, task_id) {
            return Err(TreeError::CycleWouldForm(a, b));
        }
        let ghost pre = *self;
        self.entries[ai].children.push(b);
        proof {
            lemma_same_ids_frame(pre, *self);
        }
        let ghost mid = *self;
        self.entries[bi].parents.push(a);
        proof {
            lemma_same_ids_frame(mid, *self);
            lemma_same_ids_frame(pre, *self);
            assert(ai != bi);
            assert forall|x: TID| #[trigger] pre.has_task(x) implies self.dependencies_of(x) == (
            if x == a {
                pre.dependencies_of(x).push(b)
            } else {
                pre.dependencies_of(x)
            }) && self.dependents_on(x) == (if x == b {
                pre.dependents_on(x).push(a)
            } else {
                pre.dependents_on(x)
            }) && self.task_of(x) == pre.task_of(x) by {
                pre.lemma_id_accessors(x);
                self.lemma_id_accessors(x);
                let i = pre.idx_of(x);
                assert(self.idx_of(x) == i);
                if x == a {
                    assert(self.entries@[i].children@ == pre.entries@[i].children@.push(b));
                    assert(self.entries@[i].parents@ == pre.entries@[i].parents@);
                    assert(self.entries@[i].task == pre.entries@[i].task);
                } else if x == b {
                    assert(self.entries@[i].children@ == pre.entries@[i].children@);
                    assert(self.entries@[i].parents@ == pre.entries@[i].parents@.push(a));
                    assert(self.entries@[i].task == pre.entries@[i].task);
                } else {
                    assert(self.entries@[i] == pre.entries@[i]);
                }
            }
            assert(self.edges() =~= pre.edges().insert((a, b))) by {
                assert forall|e: (TID, TID)|
                    self.edges().contains(e) == pre.edges().insert((a, b)).contains(e) by {
                    assert(pre.has_task(a));
                    assert(self.has_task(a));
                    assert(self.dependencies_of(a) == pre.dependencies_of(a).push(b));
                    lemma_push_contains(pre.dependencies_of(a), b, e.1);
                    if e == (a, b) {
                        lemma_push_contains(pre.dependencies_of(a), b, b);
                        assert(self.dependencies_of(a).contains(b));
                        assert(self.edges().contains(e));
                        assert(pre.edges().insert((a, b)).contains(e));
                    } else {
                        assert(pre.edges().insert((a, b)).contains(e) == pre.edges().contains(e));
                        if e.0 != a && pre.has_task(e.0) {
                            assert(self.dependencies_of(e.0) == pre.dependencies_of(e.0));
                        }
                    }
                }
            }
            assert(self.wf()) by {
                assert forall|id: TID| #[trigger] self.has_task(id) implies self.task_of(id).id
                    == id && self.task_of(id).wf() && self.dependencies_of(id).no_duplicates()
                    && self.dependents_on(id).no_duplicates() && !self.dependencies_of(
                    id,
                ).contains(id) by {
                    assert(pre.has_task(id));
                    if id == a {
                        lemma_no_dup_push(pre.dependencies_of(a), b);
                        lemma_push_contains(pre.dependencies_of(a), b, a);
                    }
                    if id == b {
                        assert(!pre.dependents_on(b).contains(a)) by {
                            if pre.dependents_on(b).contains(a) {
                                assert(pre.dependencies_of(a).contains(b));
                            }
                        }
                        lemma_no_dup_push(pre.dependents_on(b), a);
                    }
                }
                assert forall|id: TID, c: TID|
                    self.has_task(id) && #[trigger] self.dependencies_of(id).contains(c) implies self.has_task(c) by {
                    assert(pre.has_task(id));
                    if id == a {
                        lemma_push_contains(pre.dependencies_of(a), b, c);
                    }
                }
                assert forall|id: TID, p: TID|
                    self.has_task(id) && #[trigger] self.dependents_on(id).contains(p) implies self.has_task(p) by {
                    assert(pre.has_task(id));
                    if id == b {
                        lemma_push_contains(pre.dependents_on(b), a, p);
                    }
                }
                assert forall|x: TID, y: TID|
                    #![trigger self.dependencies_of(x).contains(y)]
                    #![trigger self.dependents_on(y).contains(x)]
                    self.has_task(x) && self.has_task(y) implies (self.dependencies_of(x).contains(
                    y,
                ) <==> self.dependents_on(y).contains(x)) by {
                    assert(pre.has_task(x) && pre.has_task(y));
                    if x == a {
                        lemma_push_contains(pre.dependencies_of(a), b, y);
                    }
                    if y == b {
                        lemma_push_contains(pre.dependents_on(b), a, x);
                    }
                }
                lemma_acyclic_insert(pre.edges(), a, b);
            }
        }
        Ok(())
    }
    /// Removes the dependency of the first task on the second.
    ///
    /// Fails with `NotFound` for a missing id and `NoSuchEdge` when the
    /// first task does not depend on the second; a failed call leaves
    /// the tree unchanged.  A successful one strips each id from the
    /// other's adjacency list and changes nothing else.
    pub fn remove_dependency(&mut self, task_id: &TID, depends_on_id: &TID) -> (r: Result<
        (),
        TreeError,
    >)
        requires
            old(self).wf(),
        ensures
            final(self).wf(),
            r is Ok <==> (old(self).has_task(*task_id) && old(self).has_task(*depends_on_id)
                && old(self).dependencies_of(*task_id).contains(*depends_on_id)),
            !old(self).has_task(*task_id) ==> r == Err::<(), TreeError>(
                TreeError::NotFound(*task_id),
            ),
            old(self).has_task(*task_id) && !old(self).has_task(*depends_on_id) ==> r == Err::<
                (),
                TreeError,
            >(TreeError::NotFound(*depends_on_id)),
            old(self).has_task(*task_id) && old(self).has_task(*depends_on_id) && !old(self).dependencies_of(*task_id).contains(*depends_on_id) ==> r == Err::<(), TreeError>(
                TreeError::NoSuchEdge(*task_id, *depends_on_id),
            ),
            r is Err ==> *final(self) == *old(self),
            r is Ok ==> final(self).dependencies_of(*task_id) == old(self).dependencies_of(
                *task_id,
            ).filter(other_than(*depends_on_id)),
            r is Ok ==> final(self).dependents_on(*depends_on_id) == old(self).dependents_on(
                *depends_on_id,
            ).filter(other_than(*task_id)),
            r is Ok ==> forall|x: TID|
                x != *task_id ==> final(self).dependencies_of(x) == old(self).dependencies_of(x),
            r is Ok ==> forall|x: TID|
                x != *depends_on_id ==> final(self).dependents_on(x) == old(self).dependents_on(x),
            final(self).id_seq() == old(self).id_seq(),
            final(self).next_id() == old(self).next_id(),
            forall|x: TID|
                #[trigger] old(self).has_task(x) ==> final(self).task_of(x) == old(self).task_of(
                    x,
                ),
            r is Ok ==> final(self).edges() == old(self).edges().remove(
                (*task_id, *depends_on_id),
            ),
    {
        let a = *task_id;
        let b = *depends_on_id;
        match self.check_task_exists(task_id) {
            Err(e) => {
                return Err(e);
            },
            Ok(_) => {},
        }
        match self.check_task_exists(depends_on_id) {
            Err(e) => {
                return Err(e);
            },
            Ok(_) => {},
        }
        let ai = match self.find_index(a) {
            Some(i) => i,
            None => vstd::pervasive::unreached(),
        };
        let bi = match self.find_index(b) {
            Some(i) => i,
            None => vstd::pervasive::unreached(),
        };
        proof {
            self.lemma_id_accessors(a);
            self.lemma_id_accessors(b);
        }
        if !tid_vec_contains(&self.entries[ai].children, b) {
            return Err(TreeError::NoSuchEdge(a, b));
        }
        let ghost pre = *self;
        remove_tid(&mut self.entries[ai].children, b);
        proof {
            lemma_same_ids_frame(pre, *self);
        }
        let ghost mid = *self;
        remove_tid(&mut self.entries[bi].parents, a);
        proof {
            lemma_same_ids_frame(mid, *self);
            lemma_same_ids_frame(pre, *self);
            assert forall|x: TID| #[trigger] pre.has_task(x) implies self.dependencies_of(x) == (
            if x == a {
                pre.dependencies_of(x).filter(other_than(b))
            } else {
                pre.dependencies_of(x)
            }) && self.dependents_on(x) == (if x == b {
                pre.dependents_on(x).filter(other_than(a))
            } else {
                pre.dependents_on(x)
            }) && self.task_of(x) == pre.task_of(x) by {
                pre.lemma_id_accessors(x);
                self.lemma_id_accessors(x);
                let i = pre.idx_of(x);
                assert(self.idx_of(x) == i);
                if x == a && x == b {
                    assert(false);
                } else if x == a {
                    assert(self.entries@[i].children@ == pre.entries@[i].children@.filter(
                        other_than(b),
                    ));
                    assert(self.entries@[i].parents@ == pre.entries@[i].parents@);
                    assert(self.entries@[i].task == pre.entries@[i].task);
                } else if x == b {
                    assert(self.entries@[i].children@ == pre.entries@[i].children@);
                    assert(self.entries@[i].parents@ == pre.entries@[i].parents@.filter(
                        other_than(a),
                    ));
                    assert(self.entries@[i].task == pre.entries@[i].task);
                } else {
                    assert(self.entries@[i] == pre.entries@[i]);
                }
            }
            assert(self.edges() =~= pre.edges().remove((a, b))) by {
                assert forall|e: (TID, TID)|
                    self.edges().contains(e) == pre.edges().remove((a, b)).contains(e) by {
                    assert(pre.has_task(a));
                    assert(self.dependencies_of(a) == pre.dependencies_of(a).filter(
                        other_than(b),
                    ));
                    lemma_filter_contains_iff(pre.dependencies_of(a), other_than(b), e.1);
                    assert(other_than(b)(e.1) == (e.1 != b));
                    if e.0 != a && pre.has_task(e.0) {
                        assert(self.dependencies_of(e.0) == pre.dependencies_of(e.0));
                    }
                }
            }
            assert(self.wf()) by {
                assert forall|id: TID| #[trigger] self.has_task(id) implies self.task_of(id).id
                    == id && self.task_of(id).wf() && self.dependencies_of(id).no_duplicates()
                    && self.dependents_on(id).no_duplicates() && !self.dependencies_of(
                    id,
                ).contains(id) by {
                    assert(pre.has_task(id));
                    if id == a {
                        lemma_filter_no_dup(pre.dependencies_of(a), other_than(b));
                        lemma_filter_contains_iff(pre.dependencies_of(a), other_than(b), a);
                    }
                    if id == b {
                        lemma_filter_no_dup(pre.dependents_on(b), other_than(a));
                        lemma_filter_contains_iff(pre.dependencies_of(b), other_than(b), b);
                    }
                }
                assert forall|id: TID, c: TID|
                    self.has_task(id) && #[trigger] self.dependencies_of(id).contains(c) implies self.has_task(c) by {
                    assert(pre.has_task(id));
                    if id == a {
                        lemma_filter_contains_iff(pre.dependencies_of(a), other_than(b), c);
                    }
                }
                assert forall|id: TID, p: TID|
                    self.has_task(id) && #[trigger] self.dependents_on(id).contains(p) implies self.has_task(p) by {
                    assert(pre.has_task(id));
                    if id == b {
                        lemma_filter_contains_iff(pre.dependents_on(b), other_than(a), p);
                    }
                }
                assert forall|x: TID, y: TID|
                    #![trigger self.dependencies_of(x).contains(y)]
                    #![trigger self.dependents_on(y).contains(x)]
                    self.has_task(x) && self.has_task(y) implies (self.dependencies_of(x).contains(
                    y,
                ) <==> self.dependents_on(y).contains(x)) by {
                    assert(pre.has_task(x) && pre.has_task(y));
                    if x == a {
                        lemma_filter_contains_iff(pre.dependencies_of(a), other_than(b), y);
                        assert(other_than(b)(y) == (y != b));
                    }
                    if y == b {
                        lemma_filter_contains_iff(pre.dependents_on(b), other_than(a), x);
                        assert(other_than(a)(x) == (x != a));
                    }
                }
                assert(self.edges().subset_of(pre.edges())) by {
                    assert forall|e: (TID, TID)| #[trigger] self.edges().contains(e) implies pre.edges().contains(e) by {
                        assert(pre.edges().remove((a, b)).contains(e));
                    }
                }
                lemma_acyclic_subset(pre.edges(), self.edges());
            }
        }
        Ok(())
    }

    /// Strips `t` from every adjacency list in the tree, touching
    /// nothing else.
    fn strip_tid(&mut self, t: TID)
        ensures
            final(self).entries@.len() == old(self).entries@.len(),
            final(self).id_counter == old(self).id_counter,
            forall|j: int|
                0 <= j < old(self).entries@.len() ==> #[trigger] final(self).entries@[j].task
                    == old(self).entries@[j].task,
            forall|j: int|
                0 <= j < old(self).entries@.len() ==> #[trigger] final(self).entries@[j].children@
                    == old(self).entries@[j].children@.filter(other_than(t)),
            forall|j: int|
                0 <= j < old(self).entries@.len() ==> #[trigger] final(self).entries@[j].parents@
                    == old(self).entries@[j].parents@.filter(other_than(t)),
    {
        let ghost pre = *self;
        let n = self.entries.len();
        let mut i: usize = 0;
        while i < n
            invariant
                i <= n,
                n == self.entries@.len(),
                self.entries@.len() == pre.entries@.len(),
                self.id_counter == pre.id_counter,
                forall|j: int|
                    0 <= j < n ==> #[trigger] self.entries@[j].task == pre.entries@[j].task,
                forall|j: int|
                    0 <= j < i ==> #[trigger] self.entries@[j].children@ == pre.entries@[j].children@.filter(other_than(t)),
                forall|j: int|
                    0 <= j < i ==> #[trigger] self.entries@[j].parents@ == pre.entries@[j].parents@.filter(other_than(t)),
                forall|j: int|
                    i <= j < n ==> #[trigger] self.entries@[j].children@
                        == pre.entries@[j].children@,
                forall|j: int|
                    i <= j < n ==> #[trigger] self.entries@[j].parents@
                        == pre.entries@[j].parents@,
            decreases n - i,
        {
            let ghost before = self.entries@;
            remove_tid(&mut self.entries[i].children, t);
            proof {
                assert(self.entries@.len() == before.len());
                assert(self.entries@[i as int].children@ == before[i as int].children@.filter(
                    other_than(t),
                ));
                assert(self.entries@[i as int].task == before[i as int].task);
                assert(self.entries@[i as int].parents@ == before[i as int].parents@);
                assert(forall|j: int|
                    0 <= j < before.len() && j != i ==> self.entries@[j] == before[j]);
            }
            let ghost before2 = self.entries@;
            remove_tid(&mut self.entries[i].parents, t);
            proof {
                assert(self.entries@[i as int].parents@ == before2[i as int].parents@.filter(
                    other_than(t),
                ));
                assert(self.entries@[i as int].task == before2[i as int].task);
                assert(self.entries@[i as int].children@ == before2[i as int].children@);
                assert(forall|j: int|
                    0 <= j < before2.len() && j != i ==> self.entries@[j] == before2[j]);
                assert forall|j2: int| 0 <= j2 < n implies #[trigger] self.entries@[j2].task
                    == pre.entries@[j2].task by {
                    if j2 != i {
                        assert(self.entries@[j2] == before2[j2]);
                        assert(before2[j2] == before[j2]);
                    }
                }
                assert forall|j2: int| 0 <= j2 < i + 1 implies #[trigger] self.entries@[j2].children@ == pre.entries@[j2].children@.filter(other_than(t)) by {
                    if j2 < i {
                        assert(self.entries@[j2] == before2[j2]);
                        assert(before2[j2] == before[j2]);
                    }
                }
                assert forall|j2: int| 0 <= j2 < i + 1 implies #[trigger] self.entries@[j2].parents@ == pre.entries@[j2].parents@.filter(other_than(t)) by {
                    if j2 < i {
                        assert(self.entries@[j2] == before2[j2]);
                        assert(before2[j2] == before[j2]);
                    }
                }
                assert forall|j2: int| i + 1 <= j2 < n implies #[trigger] self.entries@[j2].children@ == pre.entries@[j2].children@ by {
                    assert(self.entries@[j2] == before2[j2]);
                    assert(before2[j2] == before[j2]);
                }
                assert forall|j2: int| i + 1 <= j2 < n implies #[trigger] self.entries@[j2].parents@ == pre.entries@[j2].parents@ by {
                    assert(self.entries@[j2] == before2[j2]);
                    assert(before2[j2] == before[j2]);
                }
            }
            i = i + 1;
        }
    }

    /// Removes the task with the given id, stripping it from every
    /// other task's adjacency lists.  Dangling neighbours keep one fewer
    /// edge; no edges are added in their place.
    pub fn remove_task(&mut self, task_id: &TID) -> (r: Result<(), TreeError>)
        requires
            old(self).wf(),
        ensures
            final(self).wf(),
            r is Ok <==> old(self).has_task(*task_id),
            r matches Err(e) ==> e == TreeError::NotFound(*task_id) && *final(self) == *old(self),
            final(self).next_id() == old(self).next_id(),
            r is Ok ==> final(self).id_seq() == old(self).id_seq().filter(other_than(*task_id)),
            r is Ok ==> !final(self).has_task(*task_id),
            r is Ok ==> forall|x: TID|
                #[trigger] final(self).has_task(x) <==> old(self).has_task(x) && x != *task_id,
            r is Ok ==> forall|x: TID|
                old(self).has_task(x) && x != *task_id ==> final(self).task_of(x) == old(self).task_of(x) && final(self).dependencies_of(x) == old(self).dependencies_of(
                    x,
                ).filter(other_than(*task_id)) && final(self).dependents_on(x) == old(self).dependents_on(x).filter(other_than(*task_id)),
    {
        let t = *task_id;
        let ti = match self.find_index(t) {
            Some(i) => i,
            None => {
                return Err(TreeError::NotFound(t));
            },
        };
        let ghost pre = *self;
        proof {
            pre.lemma_id_accessors(t);
        }
        self.strip_tid(t);
        let ghost mid = *self;
        proof {
            assert forall|j: int|
                0 <= j < pre.entries@.len() implies #[trigger] mid.entries@[j].task.id
                == pre.entries@[j].task.id by {
                assert(mid.entries@[j].task == pre.entries@[j].task);
            }
            lemma_same_ids_frame(pre, mid);
        }
        self.entries.remove(ti);
        proof {
            pre.lemma_id_seq_unique();
            assert(mid.id_seq() == pre.id_seq());
            assert(self.entries@ == mid.entries@.remove(ti as int));
            assert(self.id_seq() =~= mid.id_seq().remove(ti as int)) by {
                assert forall|j: int| 0 <= j < self.id_seq().len() implies self.id_seq()[j]
                    == mid.id_seq().remove(ti as int)[j] by {
                    if j < ti as int {
                        assert(self.entries@[j] == mid.entries@[j]);
                    } else {
                        assert(self.entries@[j] == mid.entries@[j + 1]);
                    }
                }
            }
            lemma_remove_is_filter(pre.id_seq(), ti as int, t);
            assert(self.id_seq() == pre.id_seq().filter(other_than(t)));
            assert(self.id_counter == pre.id_counter);
            assert forall|i2: int, j2: int|
                #![trigger self.entries@[i2].task.id, self.entries@[j2].task.id]
                0 <= i2 < j2 < self.entries@.len() implies self.entries@[i2].task.id
                < self.entries@[j2].task.id by {
                let pi = if i2 < ti as int { i2 } else { i2 + 1 };
                let pj = if j2 < ti as int { j2 } else { j2 + 1 };
                assert(self.entries@[i2] == mid.entries@[pi]);
                assert(self.entries@[j2] == mid.entries@[pj]);
                assert(mid.entries@[pi].task.id < mid.entries@[pj].task.id);
            }
            assert forall|i2: int|
                0 <= i2 < self.entries@.len() implies #[trigger] self.entries@[i2].task.id
                < self.id_counter by {
                let pi = if i2 < ti as int { i2 } else { i2 + 1 };
                assert(self.entries@[i2] == mid.entries@[pi]);
                assert(mid.entries@[pi].task.id < mid.id_counter);
            }
            assert(self.rep_inv());
            assert forall|x: TID| #[trigger] self.has_task(x) <==> pre.has_task(x) && x != t by {
                lemma_filter_contains_iff(pre.id_seq(), other_than(t), x);
                assert(other_than(t)(x) == (x != t));
            }
            assert forall|x: TID| #[trigger] pre.has_task(x) && x != t implies self.task_of(x)
                == pre.task_of(x) && self.dependencies_of(x) == pre.dependencies_of(x).filter(
                other_than(t),
            ) && self.dependents_on(x) == pre.dependents_on(x).filter(other_than(t)) by {
                pre.lemma_id_accessors(x);
                let i2 = pre.idx_of(x);
                assert(i2 != ti as int);
                assert(mid.entries@[i2].task == pre.entries@[i2].task);
                assert(mid.entries@[i2].children@ == pre.entries@[i2].children@.filter(
                    other_than(t),
                ));
                assert(mid.entries@[i2].parents@ == pre.entries@[i2].parents@.filter(
                    other_than(t),
                ));
                if i2 < ti as int {
                    assert(self.entries@[i2] == mid.entries@[i2]);
                    self.lemma_entry_accessors(i2);
                } else {
                    assert(self.entries@[i2 - 1] == mid.entries@[i2]);
                    self.lemma_entry_accessors(i2 - 1);
                }
            }
            assert(self.wf()) by {
                assert forall|id: TID| #[trigger] self.has_task(id) implies id < self.next_id()
                    && self.task_of(id).id == id && self.task_of(id).wf()
                    && self.dependencies_of(id).no_duplicates()
                    && self.dependents_on(id).no_duplicates() && !self.dependencies_of(
                    id,
                ).contains(id) by {
                    assert(pre.has_task(id) && id != t);
                    lemma_filter_no_dup(pre.dependencies_of(id), other_than(t));
                    lemma_filter_no_dup(pre.dependents_on(id), other_than(t));
                    lemma_filter_contains_iff(pre.dependencies_of(id), other_than(t), id);
                }
                assert forall|id: TID, c: TID|
                    self.has_task(id) && #[trigger] self.dependencies_of(id).contains(c) implies self.has_task(c) by {
                    assert(pre.has_task(id) && id != t);
                    lemma_filter_contains_iff(pre.dependencies_of(id), other_than(t), c);
                    assert(other_than(t)(c) == (c != t));
                }
                assert forall|id: TID, p: TID|
                    self.has_task(id) && #[trigger] self.dependents_on(id).contains(p) implies self.has_task(p) by {
                    assert(pre.has_task(id) && id != t);
                    lemma_filter_contains_iff(pre.dependents_on(id), other_than(t), p);
                    assert(other_than(t)(p) == (p != t));
                }
                assert forall|x: TID, y: TID|
                    #![trigger self.dependencies_of(x).contains(y)]
                    #![trigger self.dependents_on(y).contains(x)]
                    self.has_task(x) && self.has_task(y) implies (self.dependencies_of(x).contains(
                    y,
                ) <==> self.dependents_on(y).contains(x)) by {
                    assert(pre.has_task(x) && x != t);
                    assert(pre.has_task(y) && y != t);
                    lemma_filter_contains_iff(pre.dependencies_of(x), other_than(t), y);
                    lemma_filter_contains_iff(pre.dependents_on(y), other_than(t), x);
                    assert(other_than(t)(y) == (y != t));
                    assert(other_than(t)(x) == (x != t));
                }
                assert(self.edges().subset_of(pre.edges())) by {
                    assert forall|e: (TID, TID)| #[trigger] self.edges().contains(e) implies pre.edges().contains(e) by {
                        assert(pre.has_task(e.0) && e.0 != t);
                        lemma_filter_contains_iff(pre.dependencies_of(e.0), other_than(t), e.1);
                    }
                }
                lemma_acyclic_subset(pre.edges(), self.edges());
            }
        }
        Ok(())
    }

    /// The predicate holding of ids whose task is not yet `Closed`.
    pub open spec fn not_closed_pred(self) -> spec_fn(TID) -> bool {
        |c: TID| self.task_of(c).status != TaskStatus::Closed
    }

    /// The direct dependencies of a task that are not yet `Closed` — the
    /// ones that still block it.
    pub open spec fn open_dependencies_of(self, id: TID) -> Seq<TID> {
        self.dependencies_of(id).filter(self.not_closed_pred())
    }

    /// Whether a task is actionable: not `Closed` itself, with no direct
    /// dependency still open.  A task with no dependencies is never
    /// blocked.
    pub open spec fn is_available(self, id: TID) -> bool {
        self.task_of(id).status != TaskStatus::Closed && self.open_dependencies_of(id).len() == 0
    }

    /// The predicate holding of available ids.
    pub open spec fn available_pred(self) -> spec_fn(TID) -> bool {
        |id: TID| self.is_available(id)
    }

    /// The predicate holding of ids whose task has the given status.
    pub open spec fn status_pred(self, st: TaskStatus) -> spec_fn(TID) -> bool {
        |id: TID| self.task_of(id).status == st
    }

    /// How many direct dependencies of a task are not yet `Closed`.
    fn count_available_children(&self, task_id: &TID) -> (r: usize)
        requires
            self.wf(),
            self.has_task(*task_id),
        ensures
            r == self.open_dependencies_of(*task_id).len(),
    {
        let ti = match self.find_index(*task_id) {
            Some(i) => i,
            None => vstd::pervasive::unreached(),
        };
        proof {
            self.lemma_id_accessors(*task_id);
        }
        let n = self.entries[ti].children.len();
        let mut num_available: usize = 0;
        let mut j: usize = 0;
        while j < n
            invariant
                self.wf(),
                self.has_task(*task_id),
                ti < self.entries@.len(),
                ti as int == self.idx_of(*task_id),
                n == self.dependencies_of(*task_id).len(),
                j <= n,
                num_available == self.dependencies_of(*task_id).subrange(0, j as int).filter(
                    self.not_closed_pred(),
                ).len(),
            decreases n - j,
        {
            let c = self.entries[ti].children[j];
            proof {
                assert(c == self.dependencies_of(*task_id)[j as int]);
                assert(self.dependencies_of(*task_id).contains(c));
            }
            let ci = match self.find_index(c) {
                Some(i) => i,
                None => vstd::pervasive::unreached(),
            };
            proof {
                self.lemma_id_accessors(c);
                let prefix = self.dependencies_of(*task_id).subrange(0, j as int);
                lemma_filter_push(prefix, self.not_closed_pred(), c);
                assert(self.dependencies_of(*task_id).subrange(0, j + 1) =~= prefix.push(c));
                assert(self.not_closed_pred()(c) == (self.task_of(c).status
                    != TaskStatus::Closed));
                prefix.lemma_filter_len(self.not_closed_pred());
            }
            if self.entries[ci].task.status != TaskStatus::Closed {
                num_available = num_available + 1;
            }
            j = j + 1;
        }
        proof {
            assert(self.dependencies_of(*task_id).subrange(0, n as int) =~= self.dependencies_of(
                *task_id,
            ));
        }
        num_available
    }

    /// Moves a task to the status named by `status_flag`.
    ///
    /// Fails with `NotFound` for a missing id and `InvalidStatusName`
    /// for unknown text.  Leaving `Open` is gated: a move to
    /// `InProgress` or `Closed` succeeds exactly when every direct
    /// dependency is `Closed`, and otherwise fails with
    /// `BlockedByOpenChildren`; a move back to `Open` always succeeds.
    /// On success the task's status and summary line are updated and
    /// nothing else changes.
    pub fn set_status(&mut self, task_id: &TID, status_flag: String) -> (r: Result<(), TreeError>)
        requires
            old(self).wf(),
        ensures
            final(self).wf(),
            !old(self).has_task(*task_id) ==> r == Err::<(), TreeError>(
                TreeError::NotFound(*task_id),
            ),
            old(self).has_task(*task_id) && status_of_name(status_flag@) is None ==> (r matches Err(
                e,
            ) && e matches TreeError::InvalidStatusName(s) && s@ == status_flag@),
            old(self).has_task(*task_id) ==> (status_of_name(status_flag@) matches Some(st) ==> (st
                != TaskStatus::Open && old(self).open_dependencies_of(*task_id).len() != 0 ==> r
                == Err::<(), TreeError>(TreeError::BlockedByOpenChildren(*task_id, st)))),
            r is Ok <==> (old(self).has_task(*task_id) && (status_of_name(status_flag@) matches Some(
                st,
            ) && (st == TaskStatus::Open || old(self).open_dependencies_of(*task_id).len() == 0))),
            r is Err ==> *final(self) == *old(self),
            r is Ok ==> (status_of_name(status_flag@) matches Some(st) && final(self).task_of(
                *task_id,
            ) == (TaskView {
                status: st,
                repr: repr_spec(st, old(self).task_of(*task_id).id, old(self).task_of(*task_id).name),
                ..old(self).task_of(*task_id)
            })),
            r is Ok ==> forall|x: TID|
                x != *task_id && old(self).has_task(x) ==> final(self).task_of(x) == old(self).task_of(x),
            final(self).id_seq() == old(self).id_seq(),
            final(self).next_id() == old(self).next_id(),
            forall|x: TID|
                #[trigger] old(self).has_task(x) ==> final(self).dependencies_of(x) == old(self).dependencies_of(x) && final(self).dependents_on(x) == old(self).dependents_on(x),
    {
        match self.check_task_exists(task_id) {
            Err(e) => {
                return Err(e);
            },
            Ok(_) => {},
        }
        let status = match TaskStatus::from_status_flag(status_flag.as_str()) {
            Ok(s) => s,
            Err(e) => {
                return Err(e);
            },
        };
        let is_open_move = match status {
            TaskStatus::Open => true,
            _ => false,
        };
        if !is_open_move && self.count_available_children(task_id) > 0 {
            return Err(TreeError::BlockedByOpenChildren(*task_id, status));
        }
        let ti = match self.find_index(*task_id) {
            Some(i) => i,
            None => vstd::pervasive::unreached(),
        };
        let ghost pre = *self;
        proof {
            pre.lemma_id_accessors(*task_id);
        }
        self.entries[ti].task.set_status(status);
        proof {
            assert(self.entries@[ti as int].task.id == pre.entries@[ti as int].task.id);
            lemma_same_ids_frame(pre, *self);
            assert forall|x: TID| #[trigger] pre.has_task(x) implies self.task_of(x) == (if x
                == *task_id {
                (TaskView {
                    status: status,
                    repr: repr_spec(status, pre.task_of(x).id, pre.task_of(x).name),
                    ..pre.task_of(x)
                })
            } else {
                pre.task_of(x)
            }) && self.dependencies_of(x) == pre.dependencies_of(x) && self.dependents_on(x)
                == pre.dependents_on(x) by {
                pre.lemma_id_accessors(x);
                self.lemma_id_accessors(x);
                let i = pre.idx_of(x);
                assert(self.idx_of(x) == i);
                if x == *task_id {
                    assert(i == ti as int);
                } else {
                    assert(self.entries@[i] == pre.entries@[i]);
                }
            }
            assert(self.wf()) by {
                assert forall|id: TID| #[trigger] self.has_task(id) implies self.task_of(id).id
                    == id && self.task_of(id).wf() && self.dependencies_of(id).no_duplicates()
                    && self.dependents_on(id).no_duplicates() && !self.dependencies_of(
                    id,
                ).contains(id) by {
                    assert(pre.has_task(id));
                }
                assert forall|id: TID, c: TID|
                    self.has_task(id) && #[trigger] self.dependencies_of(id).contains(c) implies self.has_task(c) by {
                    assert(pre.has_task(id));
                }
                assert forall|id: TID, p: TID|
                    self.has_task(id) && #[trigger] self.dependents_on(id).contains(p) implies self.has_task(p) by {
                    assert(pre.has_task(id));
                }
                assert forall|x: TID, y: TID|
                    #![trigger self.dependencies_of(x).contains(y)]
                    #![trigger self.dependents_on(y).contains(x)]
                    self.has_task(x) && self.has_task(y) implies (self.dependencies_of(x).contains(
                    y,
                ) <==> self.dependents_on(y).contains(x)) by {
                    assert(pre.has_task(x) && pre.has_task(y));
                }
                assert(self.edges() =~= pre.edges()) by {
                    assert forall|e: (TID, TID)|
                        self.edges().contains(e) == pre.edges().contains(e) by {
                        if pre.has_task(e.0) {
                            assert(self.dependencies_of(e.0) == pre.dependencies_of(e.0));
                        }
                    }
                }
            }
        }
        Ok(())
    }

    /// The status of the task with the given id, or `NotFound`.
    pub fn get_status(&mut self, task_id: &TID) -> (r: Result<TaskStatus, TreeError>)
        requires
            old(self).wf(),
        ensures
            *final(self) == *old(self),
            r matches Ok(st) ==> old(self).has_task(*task_id) && st == old(self).task_of(
                *task_id,
            ).status,
            r matches Err(e) ==> !old(self).has_task(*task_id) && e == TreeError::NotFound(
                *task_id,
            ),
    {
        match self.find_index(*task_id) {
            Some(i) => {
                proof {
                    self.lemma_id_accessors(*task_id);
                }
                Ok(self.entries[i].task.status)
            },
            None => Err(TreeError::NotFound(*task_id)),
        }
    }

    /// The available tasks, in ascending id order.
    pub fn get_available_tasks(&self) -> (r: Vec<&Task>)
        requires
            self.wf(),
        ensures
            r@.len() == self.id_seq().filter(self.available_pred()).len(),
            forall|k: int|
                0 <= k < r@.len() ==> #[trigger] r@[k]@ == self.task_of(
                    self.id_seq().filter(self.available_pred())[k],
                ),
            forall|k1: int, k2: int|
                #![trigger r@[k1], r@[k2]]
                0 <= k1 < k2 < r@.len() ==> r@[k1]@.id < r@[k2]@.id,
    {
        let n = self.entries.len();
        let mut result: Vec<&Task> = Vec::new();
        let mut i: usize = 0;
        while i < n
            invariant
                self.wf(),
                i <= n,
                n == self.entries@.len(),
                result@.len() == self.id_seq().subrange(0, i as int).filter(
                    self.available_pred(),
                ).len(),
                forall|k: int|
                    0 <= k < result@.len() ==> #[trigger] result@[k]@ == self.task_of(
                        self.id_seq().subrange(0, i as int).filter(self.available_pred())[k],
                    ),
            decreases n - i,
        {
            let id = self.entries[i].task.id;
            proof {
                self.lemma_entry_accessors(i as int);
                let prefix = self.id_seq().subrange(0, i as int);
                lemma_filter_push(prefix, self.available_pred(), id);
                assert(self.id_seq().subrange(0, i + 1) =~= prefix.push(id));
                assert(self.available_pred()(id) == self.is_available(id));
            }
            let num_available_children = self.count_available_children(&id);
            let leaf = num_available_children == 0;
            let not_closed = match self.entries[i].task.status {
                TaskStatus::Closed => false,
                _ => true,
            };
            if leaf && not_closed {
                result.push(&self.entries[i].task);
            }
            i = i + 1;
        }
        proof {
            assert(self.id_seq().subrange(0, n as int) =~= self.id_seq());
            let fs = self.id_seq().filter(self.available_pred());
            lemma_id_seq_ascending(*self);
            lemma_filter_ascending(self.id_seq(), self.available_pred());
            assert forall|k1: int, k2: int|
                #![trigger result@[k1], result@[k2]]
                0 <= k1 < k2 < result@.len() implies result@[k1]@.id < result@[k2]@.id by {
                assert(fs.contains(fs[k1]));
                assert(fs.contains(fs[k2]));
                lemma_filter_contains_iff(self.id_seq(), self.available_pred(), fs[k1]);
                lemma_filter_contains_iff(self.id_seq(), self.available_pred(), fs[k2]);
                assert(self.has_task(fs[k1]));
                assert(self.has_task(fs[k2]));
                assert(result@[k1]@ == self.task_of(fs[k1]));
                assert(result@[k2]@ == self.task_of(fs[k2]));
            }
        }
        result
    }

    /// Whether the dependency traversal treats a task as a leaf: it has
    /// no dependencies at all, or — when only available tasks are
    /// wanted — none of its direct dependencies is still open.
    pub open spec fn traversal_leaf(self, id: TID, only_available: bool) -> bool {
        self.dependencies_of(id).len() == 0 || (only_available && self.open_dependencies_of(
            id,
        ).len() == 0)
    }

    /// Whether the traversal starting at `t` enters `w`: some dependency
    /// chain leads from `t` to `w` in which no task after `t` is a
    /// leaf.  Leaves are reported but never entered, so nothing beyond
    /// one is reached through it.
    pub open spec fn traversal_enters(self, t: TID, only_available: bool, w: TID) -> bool {
        exists|p: Seq<TID>|
            #[trigger] is_path(self.edges(), p) && p.first() == t && p.last() == w && (forall|
                i: int,
            |
                1 <= i < p.len() ==> !self.traversal_leaf(#[trigger] p[i], only_available))
    }

    /// Whether the traversal reports a task it meets: it must be a leaf
    /// unless every task is wanted, must not be `Closed` when only
    /// available tasks are wanted, and must match the status filter if
    /// one is set.
    pub open spec fn dep_report_cond(
        self,
        only_leaves: bool,
        only_available: bool,
        status_filter: Option<TaskStatus>,
        c: TID,
    ) -> bool {
        &&& self.traversal_leaf(c, only_available) || !only_leaves
        &&& self.task_of(c).status != TaskStatus::Closed || !only_available
        &&& match status_filter {
            Some(st) => self.task_of(c).status == st,
            None => true,
        }
    }

    /// Whether the traversal starting at `t` returns `c`: some entered
    /// task depends directly on `c`, and `c` passes the report
    /// condition.
    pub open spec fn dep_included(
        self,
        t: TID,
        only_leaves: bool,
        only_available: bool,
        status_filter: Option<TaskStatus>,
        c: TID,
    ) -> bool {
        exists|w: TID|
            #![trigger self.traversal_enters(t, only_available, w), self.dependencies_of(w).contains(c)]
            self.traversal_enters(t, only_available, w) && self.dependencies_of(w).contains(c)
                && self.dep_report_cond(only_leaves, only_available, status_filter, c)
    }

    /// The traversal's entry relation grows along an edge to a
    /// non-leaf.
    proof fn lemma_enters_step(self, t: TID, only_available: bool, w: TID, c: TID)
        requires
            self.traversal_enters(t, only_available, w),
            self.edges().contains((w, c)),
            !self.traversal_leaf(c, only_available),
        ensures
            self.traversal_enters(t, only_available, c),
    {
        let p = choose|p: Seq<TID>|
            #[trigger] is_path(self.edges(), p) && p.first() == t && p.last() == w && (forall|
                i: int,
            |
                1 <= i < p.len() ==> !self.traversal_leaf(#[trigger] p[i], only_available));
        let q = p.push(c);
        assert forall|i: int| 0 <= i < q.len() - 1 implies #[trigger] self.edges().contains(
            (q[i], q[i + 1]),
        ) by {
            if i < p.len() - 1 {
                lemma_path_edge(self.edges(), p, i);
                assert(q[i] == p[i]);
                assert(q[i + 1] == p[i + 1]);
            } else {
                assert(q[i] == p[p.len() - 1]);
                assert(q[i + 1] == c);
            }
        }
        assert(is_path(self.edges(), q));
        assert(q.first() == t && q.last() == c);
        assert forall|i: int| 1 <= i < q.len() implies !self.traversal_leaf(
            #[trigger] q[i],
            only_available,
        ) by {
            if i < p.len() {
                assert(q[i] == p[i]);
            } else {
                assert(q[i] == c);
            }
        }
    }

    /// The traversal enters its starting task.
    proof fn lemma_enters_refl(self, t: TID, only_available: bool)
        ensures
            self.traversal_enters(t, only_available, t),
    {
        let p: Seq<TID> = seq![t];
        assert(is_path(self.edges(), p));
        assert(p.first() == t && p.last() == t);
        assert(forall|i: int|
            1 <= i < p.len() ==> !self.traversal_leaf(#[trigger] p[i], only_available));
    }

    /// A set that holds the start of a leaf-avoiding chain and is
    /// closed under edges to non-leaves holds the chain's end.
    proof fn lemma_enters_in_closed(self, s: Set<TID>, p: Seq<TID>, only_available: bool)
        requires
            is_path(self.edges(), p),
            forall|i: int| 1 <= i < p.len() ==> !self.traversal_leaf(#[trigger] p[i], only_available),
            s.contains(p.first()),
            forall|x: TID, y: TID|
                s.contains(x) && #[trigger] self.edges().contains((x, y))
                    && !self.traversal_leaf(y, only_available) ==> s.contains(y),
        ensures
            s.contains(p.last()),
        decreases p.len(),
    {
        if p.len() > 1 {
            let q = p.drop_first();
            lemma_path_edge(self.edges(), p, 0);
            assert(!self.traversal_leaf(p[1], only_available));
            assert(s.contains(p[1]));
            assert forall|i: int| 0 <= i < q.len() - 1 implies #[trigger] self.edges().contains(
                (q[i], q[i + 1]),
            ) by {
                lemma_path_edge(self.edges(), p, i + 1);
                assert(q[i] == p[i + 1]);
                assert(q[i + 1] == p[i + 1 + 1]);
            }
            assert(is_path(self.edges(), q));
            assert forall|i: int| 1 <= i < q.len() implies !self.traversal_leaf(
                #[trigger] q[i],
                only_available,
            ) by {
                assert(q[i] == p[i + 1]);
            }
            assert(q.first() == p[1]);
            self.lemma_enters_in_closed(s, q, only_available);
            assert(q.last() == p.last());
        }
    }

    /// The filtered transitive dependencies of a task, as a set of ids
    /// in no particular order.
    ///
    /// The walk keeps one shared visited set, so a task reachable along
    /// several chains is reported once.  A leaf — structural, or with
    /// no open dependency when `only_available` is set — is reported
    /// but not entered.  Reporting and entering are independent: a task
    /// the filters exclude is still entered, and its subtree still
    /// contributes.
    pub fn get_dependencies_filtered(
        &self,
        task_id: &TID,
        only_leaves: bool,
        only_available: bool,
        status_filter: Option<TaskStatus>,
    ) -> (r: Result<Vec<TID>, TreeError>)
        requires
            self.wf(),
        ensures
            r is Ok <==> self.has_task(*task_id),
            r matches Err(e) ==> e == TreeError::NotFound(*task_id),
            r matches Ok(v) ==> v@.no_duplicates() && forall|c: TID|
                #[trigger] v@.contains(c) <==> self.dep_included(
                    *task_id,
                    only_leaves,
                    only_available,
                    status_filter,
                    c,
                ),
    {
        match self.check_task_exists(task_id) {
            Err(e) => {
                return Err(e);
            },
            Ok(_) => {},
        }
        let t = *task_id;
        let mut visited: Vec<TID> = Vec::new();
        let mut stack: Vec<TID> = Vec::new();
        let mut result: Vec<TID> = Vec::new();
        stack.push(t);
        proof {
            self.lemma_enters_refl(t, only_available);
            assert(stack@[0] == t);
            assert(stack@.contains(t));
        }
        while stack.len() > 0
            invariant
                self.wf(),
                self.has_task(t),
                visited@.no_duplicates(),
                stack@.no_duplicates(),
                result@.no_duplicates(),
                forall|x: TID| #[trigger] visited@.contains(x) ==> self.has_task(x),
                forall|x: TID| #[trigger] stack@.contains(x) ==> self.has_task(x),
                forall|x: TID| #[trigger] visited@.contains(x) ==> !stack@.contains(x),
                forall|x: TID|
                    #[trigger] visited@.contains(x) ==> self.traversal_enters(
                        t,
                        only_available,
                        x,
                    ),
                forall|x: TID|
                    #[trigger] stack@.contains(x) ==> self.traversal_enters(t, only_available, x),
                visited@.contains(t) || stack@.contains(t),
                forall|v: TID, c: TID|
                    #[trigger] visited@.contains(v) && #[trigger] self.edges().contains((v, c))
                        && !self.traversal_leaf(c, only_available) ==> visited@.contains(c)
                        || stack@.contains(c),
                forall|c: TID|
                    #[trigger] result@.contains(c) ==> self.dep_included(
                        t,
                        only_leaves,
                        only_available,
                        status_filter,
                        c,
                    ),
                forall|v: TID, c: TID|
                    #[trigger] visited@.contains(v) && #[trigger] self.dependencies_of(v).contains(
                        c,
                    ) && self.dep_report_cond(only_leaves, only_available, status_filter, c)
                        ==> result@.contains(c),
            decreases self.id_seq().len() - visited@.len(),
        {
            let ghost stack_pre = stack@;
            let w = match stack.pop() {
                Some(w) => w,
                None => vstd::pervasive::unreached(),
            };
            proof {
                assert(stack_pre =~= stack@.push(w));
                assert(stack_pre.contains(w)) by {
                    lemma_push_contains(stack@, w, w);
                }
                assert forall|x: TID| #[trigger] stack@.contains(x) implies stack_pre.contains(
                    x,
                ) by {
                    lemma_push_contains(stack@, w, x);
                }
                assert(!stack@.contains(w)) by {
                    if stack@.contains(w) {
                        let i = choose|i: int| 0 <= i < stack@.len() && stack@[i] == w;
                        assert(stack_pre[i] == w);
                        assert(stack_pre[stack_pre.len() - 1] == w);
                    }
                }
                assert(!visited@.contains(w));
            }
            let ghost visited_pre = visited@;
            visited.push(w);
            proof {
                lemma_no_dup_push(visited_pre, w);
                assert forall|x: TID| #[trigger] visited@.contains(x) implies visited_pre.contains(
                    x,
                ) || x == w by {
                    lemma_push_contains(visited_pre, w, x);
                }
                assert(visited@.contains(w)) by {
                    lemma_push_contains(visited_pre, w, w);
                }
                assert forall|x: TID| visited_pre.contains(x) implies #[trigger] visited@.contains(
                    x,
                ) by {
                    lemma_push_contains(visited_pre, w, x);
                }
            }
            let wi = match self.find_index(w) {
                Some(i) => i,
                None => vstd::pervasive::unreached(),
            };
            proof {
                self.lemma_id_accessors(w);
            }
            let n_children = self.entries[wi].children.len();
            let mut j: usize = 0;
            while j < n_children
                invariant
                    self.wf(),
                    self.has_task(t),
                    self.has_task(w),
                    wi as int == self.idx_of(w),
                    wi < self.entries@.len(),
                    n_children == self.dependencies_of(w).len(),
                    j <= n_children,
                    visited@.no_duplicates(),
                    stack@.no_duplicates(),
                    result@.no_duplicates(),
                    visited@.contains(w),
                    forall|x: TID| #[trigger] visited@.contains(x) ==> self.has_task(x),
                    forall|x: TID| #[trigger] stack@.contains(x) ==> self.has_task(x),
                    forall|x: TID| #[trigger] visited@.contains(x) ==> !stack@.contains(x),
                    forall|x: TID|
                        #[trigger] visited@.contains(x) ==> self.traversal_enters(
                            t,
                            only_available,
                            x,
                        ),
                    forall|x: TID|
                        #[trigger] stack@.contains(x) ==> self.traversal_enters(
                            t,
                            only_available,
                            x,
                        ),
                    visited@.contains(t) || stack@.contains(t),
                    forall|v: TID, c: TID|
                        #[trigger] visited@.contains(v) && #[trigger] self.edges().contains(
                            (v, c),
                        ) && !self.traversal_leaf(c, only_available) && v != w ==> visited@.contains(c) || stack@.contains(c),
                    forall|k: int|
                        0 <= k < j && !self.traversal_leaf(
                            #[trigger] self.dependencies_of(w)[k],
                            only_available,
                        ) ==> visited@.contains(self.dependencies_of(w)[k]) || stack@.contains(
                            self.dependencies_of(w)[k],
                        ),
                    forall|c: TID|
                        #[trigger] result@.contains(c) ==> self.dep_included(
                            t,
                            only_leaves,
                            only_available,
                            status_filter,
                            c,
                        ),
                    forall|v: TID, c: TID|
                        #[trigger] visited@.contains(v) && #[trigger] self.dependencies_of(
                            v,
                        ).contains(c) && self.dep_report_cond(
                            only_leaves,
                            only_available,
                            status_filter,
                            c,
                        ) && v != w ==> result@.contains(c),
                    forall|k: int|
                        0 <= k < j && self.dep_report_cond(
                            only_leaves,
                            only_available,
                            status_filter,
                            #[trigger] self.dependencies_of(w)[k],
                        ) ==> result@.contains(self.dependencies_of(w)[k]),
                decreases n_children - j,
            {
                let c = self.entries[wi].children[j];
                proof {
                    assert(c == self.dependencies_of(w)[j as int]);
                    assert(self.dependencies_of(w).contains(c));
                    assert(self.edges().contains((w, c)));
                }
                let ci = match self.find_index(c) {
                    Some(i) => i,
                    None => vstd::pervasive::unreached(),
                };
                proof {
                    self.lemma_id_accessors(c);
                }
                let num_children = self.entries[ci].children.len();
                let mut leaf = num_children == 0;
                if only_available {
                    let num_available_children = self.count_available_children(&c);
                    leaf = leaf || num_available_children == 0;
                }
                proof {
                    assert(leaf == self.traversal_leaf(c, only_available));
                }
                let closed = match self.entries[ci].task.status {
                    TaskStatus::Closed => true,
                    _ => false,
                };
                let status_ok = match status_filter {
                    None => true,
                    Some(st) => self.entries[ci].task.status == st,
                };
                let report = (leaf || !only_leaves) && (!closed || !only_available) && status_ok;
                proof {
                    assert(report == self.dep_report_cond(
                        only_leaves,
                        only_available,
                        status_filter,
                        c,
                    ));
                }
                if report {
                    if !tid_vec_contains(&result, c) {
                        let ghost result_pre = result@;
                        result.push(c);
                        proof {
                            lemma_no_dup_push(result_pre, c);
                            assert forall|x: TID| #[trigger] result@.contains(x) implies
                                result_pre.contains(x) || x == c by {
                                lemma_push_contains(result_pre, c, x);
                            }
                            assert forall|x: TID| result_pre.contains(x) || x == c implies
                                #[trigger] result@.contains(x) by {
                                lemma_push_contains(result_pre, c, x);
                            }
                            assert(self.dep_included(
                                t,
                                only_leaves,
                                only_available,
                                status_filter,
                                c,
                            )) by {
                                assert(self.traversal_enters(t, only_available, w)
                                    && self.dependencies_of(w).contains(c)
                                    && self.dep_report_cond(
                                    only_leaves,
                                    only_available,
                                    status_filter,
                                    c,
                                ));
                            }
                        }
                    }
                }
                if !leaf {
                    let in_visited = tid_vec_contains(&visited, c);
                    if !in_visited {
                        let in_stack = tid_vec_contains(&stack, c);
                        if !in_stack {
                            let ghost stack_before = stack@;
                            stack.push(c);
                            proof {
                                lemma_no_dup_push(stack_before, c);
                                self.lemma_enters_step(t, only_available, w, c);
                                assert forall|x: TID| #[trigger] stack@.contains(x) implies
                                    stack_before.contains(x) || x == c by {
                                    lemma_push_contains(stack_before, c, x);
                                }
                                assert forall|x: TID| stack_before.contains(x) || x == c implies
                                    #[trigger] stack@.contains(x) by {
                                    lemma_push_contains(stack_before, c, x);
                                }
                            }
                        }
                    }
                }
                j = j + 1;
            }
            proof {
                assert forall|v: TID, c: TID|
                    #[trigger] visited@.contains(v) && #[trigger] self.edges().contains((v, c))
                        && !self.traversal_leaf(c, only_available) implies visited@.contains(c)
                    || stack@.contains(c) by {
                    if v == w {
                        let k = choose|k: int|
                            0 <= k < self.dependencies_of(w).len() && self.dependencies_of(w)[k]
                                == c;
                        assert(!self.traversal_leaf(self.dependencies_of(w)[k], only_available));
                    }
                }
                assert forall|v: TID, c: TID|
                    #[trigger] visited@.contains(v) && #[trigger] self.dependencies_of(v).contains(
                        c,
                    ) && self.dep_report_cond(only_leaves, only_available, status_filter, c) implies result@.contains(c) by {
                    if v == w {
                        let k = choose|k: int|
                            0 <= k < self.dependencies_of(w).len() && self.dependencies_of(w)[k]
                                == c;
                        assert(self.dep_report_cond(
                            only_leaves,
                            only_available,
                            status_filter,
                            self.dependencies_of(w)[k],
                        ));
                    }
                }
                self.lemma_id_seq_unique();
                lemma_unique_subset_len(visited@, self.id_seq());
            }
        }
        proof {
            assert forall|c: TID|
                self.dep_included(t, only_leaves, only_available, status_filter, c) implies
                #[trigger] result@.contains(c) by {
                let w = choose|w: TID|
                    #![trigger self.traversal_enters(t, only_available, w), self.dependencies_of(w).contains(c)]
                    self.traversal_enters(t, only_available, w) && self.dependencies_of(
                        w,
                    ).contains(c) && self.dep_report_cond(
                        only_leaves,
                        only_available,
                        status_filter,
                        c,
                    );
                let s = visited@.to_set();
                assert(s.contains(t));
                assert forall|x: TID, y: TID|
                    s.contains(x) && #[trigger] self.edges().contains((x, y))
                        && !self.traversal_leaf(y, only_available) implies s.contains(y) by {
                    assert(visited@.contains(x));
                    assert(visited@.contains(y) || stack@.contains(y));
                }
                let p = choose|p: Seq<TID>|
                    #[trigger] is_path(self.edges(), p) && p.first() == t && p.last() == w && (
                    forall|i: int|
                        1 <= i < p.len() ==> !self.traversal_leaf(
                            #[trigger] p[i],
                            only_available,
                        ));
                self.lemma_enters_in_closed(s, p, only_available);
                assert(visited@.contains(w));
            }
        }
        Ok(result)
    }

    /// The filtered transitive dependencies of a task, the modes read
    /// off an optional status flag.
    ///
    /// No flag asks for the available leaves; `"all"` lifts both the
    /// leaf and the availability restriction; a status name also
    /// filters the reported tasks by that status; any other text is an
    /// `InvalidStatusName` error.  A missing task is `NotFound` before
    /// the flag is looked at.
    pub fn get_dependencies(&self, task_id: &TID, opt_status_flag: Option<String>) -> (r: Result<
        Vec<TID>,
        TreeError,
    >)
        requires
            self.wf(),
        ensures
            !self.has_task(*task_id) ==> r == Err::<Vec<TID>, TreeError>(
                TreeError::NotFound(*task_id),
            ),
            self.has_task(*task_id) ==> (opt_status_flag matches Some(f) ==> (f@ != "all"@
                && status_of_name(f@) is None ==> (r matches Err(e) && e matches
                TreeError::InvalidStatusName(s) && s@ == f@))),
            self.has_task(*task_id) && opt_status_flag is None ==> (r matches Ok(v)
                && v@.no_duplicates() && forall|c: TID|
                #[trigger] v@.contains(c) <==> self.dep_included(*task_id, true, true, None, c)),
            self.has_task(*task_id) ==> (opt_status_flag matches Some(f) ==> (f@ == "all"@ ==> (
            r matches Ok(v) && v@.no_duplicates() && forall|c: TID|
                #[trigger] v@.contains(c) <==> self.dep_included(
                    *task_id,
                    false,
                    false,
                    None,
                    c,
                )))),
            self.has_task(*task_id) ==> (opt_status_flag matches Some(f) ==> (f@ != "all"@ ==> (
            status_of_name(f@) matches Some(st) ==> (r matches Ok(v) && v@.no_duplicates()
                && forall|c: TID|
                #[trigger] v@.contains(c) <==> self.dep_included(
                    *task_id,
                    false,
                    false,
                    Some(st),
                    c,
                ))))),
    {
        match self.check_task_exists(task_id) {
            Err(e) => {
                return Err(e);
            },
            Ok(_) => {},
        }
        match opt_status_flag {
            None => self.get_dependencies_filtered(task_id, true, true, None),
            Some(status_flag) => {
                if str_eq(status_flag.as_str(), "all") {
                    self.get_dependencies_filtered(task_id, false, false, None)
                } else {
                    match TaskStatus::from_status_flag(status_flag.as_str()) {
                        Err(e) => Err(e),
                        Ok(status) => self.get_dependencies_filtered(
                            task_id,
                            false,
                            false,
                            Some(status),
                        ),
                    }
                }
            },
        }
    }

    /// The report lines for a run of dependency ids: each task's
    /// summary line followed by a line break.
    pub open spec fn reprs_text(self, ds: Seq<TID>) -> Seq<char>
        decreases ds.len(),
    {
        if ds.len() == 0 {
            Seq::empty()
        } else {
            self.reprs_text(ds.drop_last()) + self.task_of(ds.last()).repr + "\n"@
        }
    }

    /// A dependency report, rendered as text: a header naming the task,
    /// then one line per reported dependency.
    ///
    /// The ids are selected exactly as by `get_dependencies`, in an
    /// order the contract leaves open.
    pub fn view_dependencies(&self, task_id: &TID, opt_status_flag: Option<String>) -> (r: Result<
        String,
        TreeError,
    >)
        requires
            self.wf(),
        ensures
            !self.has_task(*task_id) ==> r == Err::<String, TreeError>(
                TreeError::NotFound(*task_id),
            ),
            self.has_task(*task_id) ==> (opt_status_flag matches Some(f) ==> (f@ != "all"@
                && status_of_name(f@) is None ==> (r matches Err(e) && e matches
                TreeError::InvalidStatusName(s) && s@ == f@))),
            self.has_task(*task_id) && opt_status_flag is None ==> (r matches Ok(text)
                && exists|ds: Seq<TID>|
                #![trigger self.reprs_text(ds)]
                ds.no_duplicates() && (forall|c: TID|
                    #[trigger] ds.contains(c) <==> self.dep_included(*task_id, true, true, None, c))
                    && text@ == dependencies_header(*task_id) + self.reprs_text(ds)),
            self.has_task(*task_id) ==> (opt_status_flag matches Some(f) ==> (f@ == "all"@ ==> (
            r matches Ok(text) && exists|ds: Seq<TID>|
                #![trigger self.reprs_text(ds)]
                ds.no_duplicates() && (forall|c: TID|
                    #[trigger] ds.contains(c) <==> self.dep_included(
                        *task_id,
                        false,
                        false,
                        None,
                        c,
                    )) && text@ == dependencies_header(*task_id) + self.reprs_text(ds)))),
    {
        let dep_ids = match self.get_dependencies(task_id, opt_status_flag) {
            Ok(v) => v,
            Err(e) => {
                return Err(e);
            },
        };
        proof {
            assert forall|i: int| 0 <= i < dep_ids@.len() implies self.has_task(
                #[trigger] dep_ids@[i],
            ) by {
                let c = dep_ids@[i];
                assert(dep_ids@.contains(c));
            }
        }
        let mut res = String::from_str("dependencies for task ");
        let idstr = u16_to_string(*task_id);
        res.append(idstr.as_str());
        res.append(":");
        proof {
            assert(res@ =~= dependencies_header(*task_id) + self.reprs_text(
                dep_ids@.subrange(0, 0),
            ));
        }
        let n = dep_ids.len();
        let mut k: usize = 0;
        while k < n
            invariant
                self.wf(),
                n == dep_ids@.len(),
                k <= n,
                forall|i: int| 0 <= i < n ==> self.has_task(#[trigger] dep_ids@[i]),
                res@ == dependencies_header(*task_id) + self.reprs_text(
                    dep_ids@.subrange(0, k as int),
                ),
            decreases n - k,
        {
            let dep_id = dep_ids[k];
            let repr = match self.get_task_repr(&dep_id) {
                Some(s) => s,
                None => vstd::pervasive::unreached(),
            };
            res.append(repr.as_str());
            res.append("\n");
            proof {
                let prefix = dep_ids@.subrange(0, k as int);
                let prefix2 = dep_ids@.subrange(0, k + 1);
                assert(prefix2.drop_last() =~= prefix);
                assert(prefix2.last() == dep_id);
                assert(self.reprs_text(prefix2) == self.reprs_text(prefix) + self.task_of(
                    dep_id,
                ).repr + "\n"@);
                assert(res@ =~= dependencies_header(*task_id) + self.reprs_text(
                    prefix2,
                ));
            }
            k = k + 1;
        }
        proof {
            assert(dep_ids@.subrange(0, n as int) =~= dep_ids@);
        }
        Ok(res)
    }

    /// The ids the task directly depends on, in insertion order.
    pub fn get_children(&self, task_id: &TID) -> (r: Result<Vec<TID>, TreeError>)
        requires
            self.wf(),
        ensures
            r matches Ok(v) ==> self.has_task(*task_id) && v@ == self.dependencies_of(*task_id),
            r matches Err(e) ==> !self.has_task(*task_id) && e == TreeError::NotFound(*task_id),
    {
        match self.find_index(*task_id) {
            Some(i) => {
                proof {
                    self.lemma_id_accessors(*task_id);
                }
                Ok(clone_tids(&self.entries[i].children))
            },
            None => Err(TreeError::NotFound(*task_id)),
        }
    }

    /// The ids that directly depend on the task, in insertion order.
    pub fn get_parents(&self, task_id: &TID) -> (r: Result<Vec<TID>, TreeError>)
        requires
            self.wf(),
        ensures
            r matches Ok(v) ==> self.has_task(*task_id) && v@ == self.dependents_on(*task_id),
            r matches Err(e) ==> !self.has_task(*task_id) && e == TreeError::NotFound(*task_id),
    {
        match self.find_index(*task_id) {
            Some(i) => {
                proof {
                    self.lemma_id_accessors(*task_id);
                }
                Ok(clone_tids(&self.entries[i].parents))
            },
            None => Err(TreeError::NotFound(*task_id)),
        }
    }

    /// Whether a run of summaries matches a run of ids: equally many,
    /// each summary the repr of the task at the same position.
    pub open spec fn reprs_of(self, v: Seq<String>, ids: Seq<TID>) -> bool {
        v.len() == ids.len() && forall|k: int|
            0 <= k < v.len() ==> #[trigger] v[k]@ == self.task_of(ids[k]).repr
    }

    /// The tasks selected by a status flag, in ascending id order.
    ///
    /// No flag selects the available tasks; `"all"` selects every task;
    /// a status name selects the tasks with that status; any other text
    /// is an `InvalidStatusName` error.
    pub fn view_tasks(&self, status_flag: Option<String>) -> (r: Result<Vec<&Task>, TreeError>)
        requires
            self.wf(),
        ensures
            status_flag is None ==> (r matches Ok(v) && v@.len() == self.id_seq().filter(
                self.available_pred(),
            ).len() && (forall|k: int|
                0 <= k < v@.len() ==> #[trigger] v@[k]@ == self.task_of(
                    self.id_seq().filter(self.available_pred())[k],
                )) && (forall|k1: int, k2: int|
                #![trigger v@[k1], v@[k2]]
                0 <= k1 < k2 < v@.len() ==> v@[k1]@.id < v@[k2]@.id)),
            status_flag matches Some(f) ==> (f@ == "all"@ ==> (r matches Ok(v) && v@.len()
                == self.id_seq().len() && (forall|k: int|
                0 <= k < v@.len() ==> #[trigger] v@[k]@ == self.task_of(self.id_seq()[k])) && (
            forall|k1: int, k2: int|
                #![trigger v@[k1], v@[k2]]
                0 <= k1 < k2 < v@.len() ==> v@[k1]@.id < v@[k2]@.id))),
            status_flag matches Some(f) ==> (f@ != "all"@ ==> (status_of_name(f@) matches Some(st)
                ==> (r matches Ok(v) && v@.len() == self.id_seq().filter(
                self.status_pred(st),
            ).len() && (forall|k: int|
                0 <= k < v@.len() ==> #[trigger] v@[k]@ == self.task_of(
                    self.id_seq().filter(self.status_pred(st))[k],
                )) && (forall|k1: int, k2: int|
                #![trigger v@[k1], v@[k2]]
                0 <= k1 < k2 < v@.len() ==> v@[k1]@.id < v@[k2]@.id)))),
            status_flag matches Some(f) ==> (f@ != "all"@ ==> (status_of_name(f@) is None ==> (
            r matches Err(e) && e matches TreeError::InvalidStatusName(s) && s@ == f@))),
    {
        let flag = match status_flag {
            None => {
                return Ok(self.get_available_tasks());
            },
            Some(flag) => flag,
        };
        if str_eq(flag.as_str(), "all") {
            let n = self.entries.len();
            let mut result: Vec<&Task> = Vec::new();
            let mut i: usize = 0;
            while i < n
                invariant
                    self.wf(),
                    i <= n,
                    n == self.entries@.len(),
                    result@.len() == i,
                    forall|k: int|
                        0 <= k < i ==> #[trigger] result@[k]@ == self.task_of(self.id_seq()[k]),
                decreases n - i,
            {
                proof {
                    self.lemma_entry_accessors(i as int);
                }
                result.push(&self.entries[i].task);
                i = i + 1;
            }
            proof {
                lemma_id_seq_ascending(*self);
                assert forall|k1: int, k2: int|
                    #![trigger result@[k1], result@[k2]]
                    0 <= k1 < k2 < result@.len() implies result@[k1]@.id < result@[k2]@.id by {
                    assert(self.id_seq().contains(self.id_seq()[k1]));
                    assert(self.id_seq().contains(self.id_seq()[k2]));
                    assert(self.has_task(self.id_seq()[k1]));
                    assert(self.has_task(self.id_seq()[k2]));
                    assert(result@[k1]@ == self.task_of(self.id_seq()[k1]));
                    assert(result@[k2]@ == self.task_of(self.id_seq()[k2]));
                }
            }
            return Ok(result);
        }
        let parsed_status = match TaskStatus::from_status_flag(flag.as_str()) {
            Ok(st) => st,
            Err(e) => {
                return Err(e);
            },
        };
        let n = self.entries.len();
        let mut result: Vec<&Task> = Vec::new();
        let mut i: usize = 0;
        while i < n
            invariant
                self.wf(),
                i <= n,
                n == self.entries@.len(),
                result@.len() == self.id_seq().subrange(0, i as int).filter(
                    self.status_pred(parsed_status),
                ).len(),
                forall|k: int|
                    0 <= k < result@.len() ==> #[trigger] result@[k]@ == self.task_of(
                        self.id_seq().subrange(0, i as int).filter(
                            self.status_pred(parsed_status),
                        )[k],
                    ),
            decreases n - i,
        {
            let id = self.entries[i].task.id;
            proof {
                self.lemma_entry_accessors(i as int);
                let prefix = self.id_seq().subrange(0, i as int);
                lemma_filter_push(prefix, self.status_pred(parsed_status), id);
                assert(self.id_seq().subrange(0, i + 1) =~= prefix.push(id));
                assert(self.status_pred(parsed_status)(id) == (self.task_of(id).status
                    == parsed_status));
            }
            if self.entries[i].task.status == parsed_status {
                result.push(&self.entries[i].task);
            }
            i = i + 1;
        }
        proof {
            assert(self.id_seq().subrange(0, n as int) =~= self.id_seq());
            let fs = self.id_seq().filter(self.status_pred(parsed_status));
            lemma_id_seq_ascending(*self);
            lemma_filter_ascending(self.id_seq(), self.status_pred(parsed_status));
            assert forall|k1: int, k2: int|
                #![trigger result@[k1], result@[k2]]
                0 <= k1 < k2 < result@.len() implies result@[k1]@.id < result@[k2]@.id by {
                assert(fs.contains(fs[k1]));
                assert(fs.contains(fs[k2]));
                lemma_filter_contains_iff(self.id_seq(), self.status_pred(parsed_status), fs[k1]);
                lemma_filter_contains_iff(self.id_seq(), self.status_pred(parsed_status), fs[k2]);
                assert(self.has_task(fs[k1]));
                assert(self.has_task(fs[k2]));
                assert(result@[k1]@ == self.task_of(fs[k1]));
                assert(result@[k2]@ == self.task_of(fs[k2]));
            }
        }
        Ok(result)
    }

    /// The predicate holding of ids a search keeps: the task's status
    /// matches the filter, if one is set, and its summary line holds the
    /// query as a literal substring.
    pub open spec fn search_hit_pred(self, filter: Option<TaskStatus>, q: Seq<char>) -> spec_fn(
        TID,
    ) -> bool {
        |id: TID|
            (match filter {
                Some(st) => self.task_of(id).status == st,
                None => true,
            }) && contains_seq(self.task_of(id).repr, q)
    }

    /// The summary lines of the tasks matching the query, optionally
    /// restricted to one status; searched in ascending id order.  With
    /// no flag, or with the flag `"all"`, every task is searched.
    pub fn search_tasks(&self, query: &str, opt_status_flag: Option<String>) -> (r: Result<
        Vec<String>,
        TreeError,
    >)
        requires
            self.wf(),
        ensures
            opt_status_flag is None ==> (r matches Ok(v) && self.reprs_of(
                v@,
                self.id_seq().filter(self.search_hit_pred(None, query@)),
            )),
            opt_status_flag matches Some(f) ==> (f@ == "all"@ ==> (r matches Ok(v)
                && self.reprs_of(
                v@,
                self.id_seq().filter(self.search_hit_pred(None, query@)),
            ))),
            opt_status_flag matches Some(f) ==> (f@ != "all"@ ==> (status_of_name(
                f@,
            ) matches Some(st) ==> (r matches Ok(v) && self.reprs_of(
                v@,
                self.id_seq().filter(self.search_hit_pred(Some(st), query@)),
            )))),
            opt_status_flag matches Some(f) ==> (f@ != "all"@ ==> (status_of_name(f@) is None ==> (
            r matches Err(e) && e matches TreeError::InvalidStatusName(s) && s@ == f@))),
    {
        let opt_status = match opt_status_flag {
            None => None,
            Some(flag) => {
                if str_eq(flag.as_str(), "all") {
                    None
                } else {
                    match TaskStatus::from_status_flag(flag.as_str()) {
                        Ok(st) => Some(st),
                        Err(e) => {
                            return Err(e);
                        },
                    }
                }
            },
        };
        let ghost pred = self.search_hit_pred(opt_status, query@);
        let n = self.entries.len();
        let mut results: Vec<String> = Vec::new();
        let mut i: usize = 0;
        while i < n
            invariant
                self.wf(),
                i <= n,
                n == self.entries@.len(),
                pred == self.search_hit_pred(opt_status, query@),
                results@.len() == self.id_seq().subrange(0, i as int).filter(pred).len(),
                forall|k: int|
                    0 <= k < results@.len() ==> #[trigger] results@[k]@ == self.task_of(
                        self.id_seq().subrange(0, i as int).filter(pred)[k],
                    ).repr,
            decreases n - i,
        {
            let id = self.entries[i].task.id;
            proof {
                self.lemma_entry_accessors(i as int);
                let prefix = self.id_seq().subrange(0, i as int);
                lemma_filter_push(prefix, pred, id);
                assert(self.id_seq().subrange(0, i + 1) =~= prefix.push(id));
                assert(self.search_hit_pred(opt_status, query@)(id) == ((match opt_status {
                    Some(st) => self.task_of(id).status == st,
                    None => true,
                }) && contains_seq(self.task_of(id).repr, query@)));
            }
            let status_ok = match opt_status {
                None => true,
                Some(st) => self.entries[i].task.status == st,
            };
            if status_ok {
                if str_contains(self.entries[i].task.repr.as_str(), query) {
                    results.push(self.entries[i].task.repr.clone());
                }
            }
            i = i + 1;
        }
        proof {
            assert(self.id_seq().subrange(0, n as int) =~= self.id_seq());
        }
        Ok(results)
    }

    /// Splices `new_id` between an existing dependency pair: removes the
    /// edge from `task_id` to `depends_on_id`, then makes `task_id`
    /// depend on `new_id` and `new_id` depend on `depends_on_id`.
    ///
    /// The three steps are not transactional: a failing later step does
    /// not undo an earlier one, and the contract describes the state
    /// each prefix leaves behind.
    pub fn add_dependency_btwn(&mut self, task_id: &TID, new_id: &TID, depends_on_id: &TID) -> (r:
        Result<(), TreeError>)
        requires
            old(self).wf(),
        ensures
            final(self).wf(),
            !(old(self).has_task(*task_id) && old(self).has_task(*depends_on_id) && old(self).dependencies_of(*task_id).contains(*depends_on_id)) ==> r is Err && *final(self)
                == *old(self),
            final(self).id_seq() == old(self).id_seq(),
            final(self).next_id() == old(self).next_id(),
            forall|x: TID|
                #[trigger] old(self).has_task(x) ==> final(self).task_of(x) == old(self).task_of(
                    x,
                ),
            r is Ok <==> (old(self).has_task(*task_id) && old(self).has_task(*depends_on_id)
                && old(self).dependencies_of(*task_id).contains(*depends_on_id) && old(self).has_task(*new_id) && *task_id != *new_id && !old(self).dependencies_of(
                *task_id,
            ).filter(other_than(*depends_on_id)).contains(*new_id) && !reaches(
                old(self).edges().remove((*task_id, *depends_on_id)),
                *new_id,
                *task_id,
            ) && *new_id != *depends_on_id && !old(self).dependencies_of(*new_id).contains(
                *depends_on_id,
            ) && !reaches(
                old(self).edges().remove((*task_id, *depends_on_id)).insert((*task_id, *new_id)),
                *depends_on_id,
                *new_id,
            )),
            r is Ok ==> final(self).edges() == old(self).edges().remove(
                (*task_id, *depends_on_id),
            ).insert((*task_id, *new_id)).insert((*new_id, *depends_on_id)),
            r is Ok ==> final(self).dependencies_of(*task_id) == old(self).dependencies_of(
                *task_id,
            ).filter(other_than(*depends_on_id)).push(*new_id),
            r is Ok ==> final(self).dependencies_of(*new_id) == old(self).dependencies_of(
                *new_id,
            ).push(*depends_on_id),
            r is Ok ==> forall|x: TID|
                x != *task_id && x != *new_id ==> final(self).dependencies_of(x) == old(self).dependencies_of(x),
            r is Ok ==> final(self).dependents_on(*depends_on_id) == old(self).dependents_on(
                *depends_on_id,
            ).filter(other_than(*task_id)).push(*new_id),
            r is Ok ==> final(self).dependents_on(*new_id) == old(self).dependents_on(
                *new_id,
            ).push(*task_id),
            r is Ok ==> forall|x: TID|
                x != *depends_on_id && x != *new_id ==> final(self).dependents_on(x) == old(self).dependents_on(x),
            (old(self).has_task(*task_id) && old(self).has_task(*depends_on_id) && old(self).dependencies_of(*task_id).contains(*depends_on_id) && !(old(self).has_task(*new_id)
                && *task_id != *new_id && !old(self).dependencies_of(*task_id).filter(
                other_than(*depends_on_id),
            ).contains(*new_id) && !reaches(
                old(self).edges().remove((*task_id, *depends_on_id)),
                *new_id,
                *task_id,
            ))) ==> (r is Err && final(self).dependencies_of(*task_id) == old(self).dependencies_of(*task_id).filter(other_than(*depends_on_id)) && final(self).dependents_on(*depends_on_id) == old(self).dependents_on(*depends_on_id).filter(
                other_than(*task_id),
            ) && (forall|x: TID|
                x != *task_id ==> final(self).dependencies_of(x) == old(self).dependencies_of(x))
                && (forall|x: TID|
                x != *depends_on_id ==> final(self).dependents_on(x) == old(self).dependents_on(
                    x,
                )) && final(self).edges() == old(self).edges().remove(
                (*task_id, *depends_on_id),
            )),
            (old(self).has_task(*task_id) && old(self).has_task(*depends_on_id) && old(self).dependencies_of(*task_id).contains(*depends_on_id) && old(self).has_task(*new_id)
                && *task_id != *new_id && !old(self).dependencies_of(*task_id).filter(
                other_than(*depends_on_id),
            ).contains(*new_id) && !reaches(
                old(self).edges().remove((*task_id, *depends_on_id)),
                *new_id,
                *task_id,
            ) && !(*new_id != *depends_on_id && !old(self).dependencies_of(*new_id).contains(
                *depends_on_id,
            ) && !reaches(
                old(self).edges().remove((*task_id, *depends_on_id)).insert((*task_id, *new_id)),
                *depends_on_id,
                *new_id,
            ))) ==> (r is Err && final(self).dependencies_of(*task_id) == old(self).dependencies_of(*task_id).filter(other_than(*depends_on_id)).push(*new_id) && final(self).dependents_on(*new_id) == (if *new_id == *depends_on_id {
                old(self).dependents_on(*depends_on_id).filter(other_than(*task_id))
            } else {
                old(self).dependents_on(*new_id)
            }).push(*task_id) && (*new_id != *depends_on_id ==> final(self).dependents_on(
                *depends_on_id,
            ) == old(self).dependents_on(*depends_on_id).filter(other_than(*task_id))) && (forall|
                x: TID,
            |
                x != *task_id ==> final(self).dependencies_of(x) == old(self).dependencies_of(x))
                && (forall|x: TID|
                x != *depends_on_id && x != *new_id ==> final(self).dependents_on(x) == old(self).dependents_on(x)) && final(self).edges() == old(self).edges().remove(
                (*task_id, *depends_on_id),
            ).insert((*task_id, *new_id))),
    {
        match self.remove_dependency(task_id, depends_on_id) {
            Err(e) => {
                return Err(e);
            },
            Ok(_) => {},
        }
        match self.add_dependency(task_id, new_id) {
            Err(e) => {
                return Err(e);
            },
            Ok(_) => {},
        }
        match self.add_dependency(new_id, depends_on_id) {
            Err(e) => {
                return Err(e);
            },
            Ok(_) => {},
        }
        Ok(())
    }

}

/// Acyclicity: a well-formed tree's dependency graph has no directed
/// cycle.  `add_dependency` preserves well-formedness and, when it
/// fails, leaves every adjacency list unchanged (its contract says so),
/// so no sequence of calls can ever close a cycle.
pub proof fn lemma_wf_acyclic(t: TaskTree)
    requires
        t.wf(),
    ensures
        acyclic(t.edges()),
{
}

/// The listing order: a well-formed tree's ids run strictly ascending,
/// so every listing that follows `id_seq` — the task listings, the
/// available set, the search corpus — is sorted by id and holds no id
/// twice.  `lemma_filter_ascending` carries the order through any
/// filtered listing.
pub proof fn lemma_id_seq_ascending(t: TaskTree)
    requires
        t.wf(),
    ensures
        forall|i: int, j: int|
            #![trigger t.id_seq()[i], t.id_seq()[j]]
            0 <= i < j < t.id_seq().len() ==> t.id_seq()[i] < t.id_seq()[j],
        t.id_seq().no_duplicates(),
{
    assert forall|i: int, j: int|
        #![trigger t.id_seq()[i], t.id_seq()[j]]
        0 <= i < j < t.id_seq().len() implies t.id_seq()[i] < t.id_seq()[j] by {
        assert(t.id_seq()[i] == t.entries@[i].task.id);
        assert(t.id_seq()[j] == t.entries@[j].task.id);
    }
    t.lemma_id_seq_unique();
}

/// Symmetry: at all times, `b` is among the dependencies of `a` exactly
/// when `a` is among the dependents of `b`.
pub proof fn lemma_wf_symmetry(t: TaskTree, a: TID, b: TID)
    requires
        t.wf(),
    ensures
        t.dependencies_of(a).contains(b) <==> t.dependents_on(b).contains(a),
{
    if t.dependencies_of(a).contains(b) {
        assert(t.has_task(a));
        assert(t.has_task(b));
    }
    if t.dependents_on(b).contains(a) {
        assert(t.has_task(b));
        assert(t.has_task(a));
    }
}

/// Adding a dependency and at once removing it restores every adjacency
/// list.  The hypotheses are the success cases of `add_dependency` (from
/// `t0` to `t1`) and `remove_dependency` (from `t1` to `t2`), as their
/// contracts state them.
pub proof fn lemma_add_remove_inverse(t0: TaskTree, t1: TaskTree, t2: TaskTree, a: TID, b: TID)
    requires
        t0.wf(),
        t0.has_task(a),
        t0.has_task(b),
        a != b,
        !t0.dependencies_of(a).contains(b),
        t1.dependencies_of(a) == t0.dependencies_of(a).push(b),
        t1.dependents_on(b) == t0.dependents_on(b).push(a),
        forall|x: TID| x != a ==> t1.dependencies_of(x) == t0.dependencies_of(x),
        forall|x: TID| x != b ==> t1.dependents_on(x) == t0.dependents_on(x),
        t2.dependencies_of(a) == t1.dependencies_of(a).filter(other_than(b)),
        t2.dependents_on(b) == t1.dependents_on(b).filter(other_than(a)),
        forall|x: TID| x != a ==> t2.dependencies_of(x) == t1.dependencies_of(x),
        forall|x: TID| x != b ==> t2.dependents_on(x) == t1.dependents_on(x),
    ensures
        forall|x: TID| #![trigger t2.dependencies_of(x)] t2.dependencies_of(x) == t0.dependencies_of(x),
        forall|x: TID| #![trigger t2.dependents_on(x)] t2.dependents_on(x) == t0.dependents_on(x),
{
    lemma_filter_push(t0.dependencies_of(a), other_than(b), b);
    assert(!other_than(b)(b));
    assert forall|i: int| 0 <= i < t0.dependencies_of(a).len() implies other_than(b)(
        #[trigger] t0.dependencies_of(a)[i],
    ) by {
        if t0.dependencies_of(a)[i] == b {
            assert(t0.dependencies_of(a).contains(b));
        }
    }
    lemma_filter_all(t0.dependencies_of(a), other_than(b));
    lemma_wf_symmetry(t0, a, b);
    lemma_filter_push(t0.dependents_on(b), other_than(a), a);
    assert(!other_than(a)(a));
    assert forall|i: int| 0 <= i < t0.dependents_on(b).len() implies other_than(a)(
        #[trigger] t0.dependents_on(b)[i],
    ) by {
        if t0.dependents_on(b)[i] == a {
            assert(t0.dependents_on(b).contains(a));
        }
    }
    lemma_filter_all(t0.dependents_on(b), other_than(a));
}

/// The status gate's guard, spelled out: a task has no open dependency
/// left exactly when every one of its direct dependencies is `Closed`.
/// With `set_status`'s contract, a move away from `Open` succeeds
/// exactly under the stated condition.
pub proof fn lemma_status_gate_condition(t: TaskTree, id: TID)
    requires
        t.wf(),
    ensures
        t.open_dependencies_of(id).len() == 0 <==> (forall|c: TID|
            #[trigger] t.dependencies_of(id).contains(c) ==> t.task_of(c).status
                == TaskStatus::Closed),
{
    if t.open_dependencies_of(id).len() == 0 {
        assert forall|c: TID| #[trigger] t.dependencies_of(id).contains(c) implies t.task_of(
            c,
        ).status == TaskStatus::Closed by {
            lemma_filter_contains_iff(t.dependencies_of(id), t.not_closed_pred(), c);
            if t.task_of(c).status != TaskStatus::Closed {
                assert(t.not_closed_pred()(c));
                assert(t.open_dependencies_of(id).contains(c));
            }
        }
    } else {
        let c = t.open_dependencies_of(id)[0];
        assert(t.open_dependencies_of(id).contains(c));
        lemma_filter_contains_iff(t.dependencies_of(id), t.not_closed_pred(), c);
        assert(t.not_closed_pred()(c) == (t.task_of(c).status != TaskStatus::Closed));
    }
}

} // verus!

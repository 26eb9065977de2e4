//! Domain models: task status machine, tasks, trees and event envelopes.
use vstd::prelude::*;
use crate::ids::{hyphenated, is_version_4, Id};
use crate::meta::Metadata;

verus! {

broadcast use vstd::string::group_string_axioms;

// ---------------------------------------------------------------------------
// Status
// ---------------------------------------------------------------------------

/// Lifecycle status of a task.
#[derive(Debug, Clone, Copy, PartialEq, Eq, Structural)]
pub enum Status {
    Pending,
    Running,
    Completed,
    Failed,
    Cancelled,
}

/// The transitions a task may make: a pending task starts or is cancelled; a
/// running task completes, fails or is cancelled.
pub open spec fn transition_allowed(from: Status, to: Status) -> bool {
    match (from, to) {
        (Status::Pending, Status::Running) => true,
        (Status::Running, Status::Completed) => true,
        (Status::Running, Status::Failed) => true,
        (Status::Pending, Status::Cancelled) => true,
        (Status::Running, Status::Cancelled) => true,
        _ => false,
    }
}

/// A status from which no transition leads anywhere.
pub open spec fn is_terminal(status: Status) -> bool {
    status == Status::Completed || status == Status::Failed || status == Status::Cancelled
}

/// The lowercase name a status is displayed by.
pub open spec fn status_name(status: Status) -> Seq<char> {
    match status {
        Status::Pending => "pending"@,
        Status::Running => "running"@,
        Status::Completed => "completed"@,
        Status::Failed => "failed"@,
        Status::Cancelled => "cancelled"@,
    }
}

impl Status {
    /// The lowercase name the status is displayed by.
    pub fn as_str(&self) -> (name: &'static str)
        ensures
            name@ == status_name(*self),
    {
        match self {
            Status::Pending => "pending",
            Status::Running => "running",
            Status::Completed => "completed",
            Status::Failed => "failed",
            Status::Cancelled => "cancelled",
        }
    }
}

/// The allowed transitions are exactly these five: a pending task starts or is
/// cancelled; a running task completes, fails or is cancelled.
pub proof fn lemma_allowed_transitions(from: Status, to: Status)
    ensures
        transition_allowed(from, to) <==> (from == Status::Pending && (to == Status::Running || to == Status::Cancelled))
            || (from == Status::Running && (to == Status::Completed || to == Status::Failed || to == Status::Cancelled)),
{
}

/// Terminal statuses are final: no transition leaves them.
pub proof fn lemma_terminal_statuses_are_final(from: Status, to: Status)
    requires
        is_terminal(from),
    ensures
        !transition_allowed(from, to),
{
}

/// No transition leads back to `Pending`, and none stays in place.
pub proof fn lemma_no_transition_to_pending_or_in_place(from: Status, to: Status)
    requires
        transition_allowed(from, to),
    ensures
        to != Status::Pending,
        to != from,
{
}

/// Every task that completes or fails was running just before.
pub proof fn lemma_outcomes_come_from_running(from: Status, to: Status)
    requires
        transition_allowed(from, to),
        to == Status::Completed || to == Status::Failed,
    ensures
        from == Status::Running,
{
}

// ---------------------------------------------------------------------------
// StatusError
// ---------------------------------------------------------------------------

/// A refused status transition.
#[derive(Debug, Clone, Copy, PartialEq, Eq, Structural)]
pub enum StatusError {
    InvalidTransition { from: Status, to: Status },
}

/// How a refused transition is reported.
pub open spec fn status_error_message(from: Status, to: Status) -> Seq<char> {
    "Invalid status transition: "@ + status_name(from) + " → "@ + status_name(to)
}

impl StatusError {
    /// The error's message.
    pub fn message(&self) -> (text: String)
        ensures
            match *self {
                StatusError::InvalidTransition { from, to } => text@ == status_error_message(from, to),
            },
    {
        match self {
            StatusError::InvalidTransition { from, to } => {
                let mut text = "Invalid status transition: ".to_owned();
                text.append(from.as_str());
                text.append(" → ");
                text.append(to.as_str());
                text
            },
        }
    }
}

// ---------------------------------------------------------------------------
// Task
// ---------------------------------------------------------------------------

/// A named unit of work with a payload, tags and string metadata.
#[derive(Debug, Clone)]
pub struct Task<P: Clone> {
    pub id: Id,
    pub name: String,
    pub status: Status,
    pub payload: P,
    pub tags: Vec<String>,
    pub metadata: Metadata,
}

impl<P: Clone> Task<P> {
    /// A pending task with a fresh identifier, no tags and no metadata.
    pub fn new(name: &str, payload: P) -> (task: Self)
        ensures
            is_version_4(task.id.value()),
            task.name@ == name@,
            task.status == Status::Pending,
            task.payload == payload,
            task.tags@.len() == 0,
            task.metadata@ == Map::<Seq<char>, Seq<char>>::empty(),
    {
        Task {
            id: Id::new(),
            name: name.to_owned(),
            status: Status::Pending,
            payload,
            tags: Vec::new(),
            metadata: Metadata::new(),
        }
    }

    /// The task with `tag` appended to its tags.
    pub fn with_tag(self, tag: &str) -> (task: Self)
        ensures
            task.id == self.id,
            task.name == self.name,
            task.status == self.status,
            task.payload == self.payload,
            task.tags@.len() == self.tags@.len() + 1,
            forall|i: int| 0 <= i < self.tags@.len() ==> #[trigger] task.tags@[i] == self.tags@[i],
            task.tags@.last()@ == tag@,
            task.metadata == self.metadata,
    {
        let mut task = self;
        task.tags.push(tag.to_owned());
        task
    }

    /// The task with `value` stored under `key` in its metadata.
    pub fn with_meta(self, key: &str, value: &str) -> (task: Self)
        ensures
            task.id == self.id,
            task.name == self.name,
            task.status == self.status,
            task.payload == self.payload,
            task.tags == self.tags,
            task.metadata@ == self.metadata@.insert(key@, value@),
    {
        let mut task = self;
        task.metadata.insert(key, value);
        task
    }

    /// Moves the task to status `next` when the transition is allowed; otherwise
    /// leaves it unchanged and reports the refused transition.
    pub fn transition(&mut self, next: Status) -> (result: Result<(), StatusError>)
        ensures
            result is Ok <==> transition_allowed(old(self).status, next),
            final(self).status == (if transition_allowed(old(self).status, next) {
                next
            } else {
                old(self).status
            }),
            result is Err ==> result == Err::<(), StatusError>(
                StatusError::InvalidTransition { from: old(self).status, to: next },
            ),
            final(self).id == old(self).id,
            final(self).name == old(self).name,
            final(self).payload == old(self).payload,
            final(self).tags == old(self).tags,
            final(self).metadata == old(self).metadata,
    {
        let allowed = match (self.status, next) {
            (Status::Pending, Status::Running) => true,
            (Status::Running, Status::Completed) => true,
            (Status::Running, Status::Failed) => true,
            (Status::Pending, Status::Cancelled) => true,
            (Status::Running, Status::Cancelled) => true,
            _ => false,
        };
        if allowed {
            self.status = next;
            Ok(())
        } else {
            Err(StatusError::InvalidTransition { from: self.status, to: next })
        }
    }
}

/// How a task describes itself: `Task[<id>] '<name>' (<status>)`.
pub open spec fn task_description(id: u128, name: Seq<char>, status: Status) -> Seq<char> {
    "Task["@ + hyphenated(id) + "] '"@ + name + "' ("@ + status_name(status) + ")"@
}

impl<P: Clone> crate::utils::Describable for Task<P> {
    fn describe(&self) -> (text: String)
        ensures
            text@ == task_description(self.id.value(), self.name@, self.status),
    {
        let mut text = "Task[".to_owned();
        let id_text = self.id.to_text();
        text.append(id_text.as_str());
        text.append("] '");
        text.append(self.name.as_str());
        text.append("' (");
        text.append(self.status.as_str());
        text.append(")");
        text
    }
}

// ---------------------------------------------------------------------------
// Tree
// ---------------------------------------------------------------------------

/// A recursive generic tree.
#[derive(Debug)]
pub struct Tree<T: Clone> {
    pub value: T,
    pub children: Vec<Tree<T>>,
}

/// Number of nodes of `t`.
pub open spec fn size_of<T: Clone>(t: Tree<T>) -> nat
    decreases t,
{
    1 + forest_size(t.children@)
}

/// Total number of nodes of the trees in `ts`.
pub open spec fn forest_size<T: Clone>(ts: Seq<Tree<T>>) -> nat
    decreases ts,
{
    if ts.len() == 0 {
        0
    } else {
        forest_size(ts.subrange(0, ts.len() - 1)) + size_of(ts[ts.len() - 1])
    }
}

/// Length of the longest path from `t` down to a leaf (0 for a leaf).
pub open spec fn depth_of<T: Clone>(t: Tree<T>) -> nat
    decreases t,
{
    if t.children@.len() == 0 {
        0
    } else {
        1 + forest_depth(t.children@)
    }
}

/// The largest depth among the trees in `ts` (0 when there is none).
pub open spec fn forest_depth<T: Clone>(ts: Seq<Tree<T>>) -> nat
    decreases ts,
{
    if ts.len() == 0 {
        0
    } else {
        let rest = forest_depth(ts.subrange(0, ts.len() - 1));
        let last = depth_of(ts[ts.len() - 1]);
        if rest >= last {
            rest
        } else {
            last
        }
    }
}

/// The values of `t` in depth-first pre-order: a node before its children,
/// children from first to last.
pub open spec fn preorder<T: Clone>(t: Tree<T>) -> Seq<T>
    decreases t,
{
    seq![t.value] + forest_preorder(t.children@)
}

/// The pre-orders of the trees in `ts`, one after the other.
pub open spec fn forest_preorder<T: Clone>(ts: Seq<Tree<T>>) -> Seq<T>
    decreases ts,
{
    if ts.len() == 0 {
        seq![]
    } else {
        forest_preorder(ts.subrange(0, ts.len() - 1)) + preorder(ts[ts.len() - 1])
    }
}

impl<T: Clone> Tree<T> {
    /// A tree of one node.
    pub fn leaf(value: T) -> (tree: Self)
        ensures
            tree.value == value,
            tree.children@.len() == 0,
            size_of(tree) == 1,
            depth_of(tree) == 0,
    {
        Tree { value, children: Vec::new() }
    }

    /// The tree with `child` appended as its last child.
    pub fn with_child(self, child: Tree<T>) -> (tree: Self)
        ensures
            tree.value == self.value,
            tree.children@ == self.children@.push(child),
            size_of(tree) == size_of(self) + size_of(child),
            depth_of(tree) == if depth_of(self) >= depth_of(child) + 1 {
                depth_of(self)
            } else {
                depth_of(child) + 1
            },
    {
        let mut tree = self;
        tree.children.push(child);
        proof {
            assert(tree.children@.subrange(0, tree.children@.len() - 1) =~= self.children@);
        }
        tree
    }

    /// Appends references to the values of the tree, in pre-order, to `out`.
    fn collect_preorder<'a>(&'a self, out: &mut Vec<&'a T>)
        ensures
            final(out)@.len() == old(out)@.len() + preorder(*self).len(),
            forall|i: int| 0 <= i < old(out)@.len() ==> #[trigger] final(out)@[i] == old(out)@[i],
            forall|i: int| 0 <= i < preorder(*self).len() ==> *#[trigger] final(out)@[old(out)@.len() + i] == preorder(*self)[i],
        decreases self,
    {
        let ghost start = out@.len() as int;
        let ghost initial = out@;
        out.push(&self.value);
        let mut i: usize = 0;
        while i < self.children.len()
            invariant
                i <= self.children@.len(),
                start == initial.len(),
                out@.len() == start + 1 + forest_preorder(self.children@.subrange(0, i as int)).len(),
                forall|k: int| 0 <= k < start ==> #[trigger] out@[k] == initial[k],
                *out@[start] == self.value,
                forall|k: int| 0 <= k < forest_preorder(self.children@.subrange(0, i as int)).len() ==> *#[trigger] out@[start + 1 + k] == forest_preorder(self.children@.subrange(0, i as int))[k],
            decreases self.children.len() - i,
        {
            let ghost before = out@;
            let ghost done = forest_preorder(self.children@.subrange(0, i as int));
            self.children[i].collect_preorder(out);
            proof {
                let next = self.children@.subrange(0, i + 1);
                assert(next.subrange(0, next.len() - 1) =~= self.children@.subrange(0, i as int));
                assert(next[next.len() - 1] == self.children@[i as int]);
                let p = preorder(self.children@[i as int]);
                assert(forest_preorder(next) == done + p);
                assert(before.len() == start + 1 + done.len());
                assert(out@[start] == before[start]);
                assert forall|k: int| 0 <= k < start implies #[trigger] out@[k] == initial[k] by {
                    assert(out@[k] == before[k]);
                }
                assert forall|k: int| 0 <= k < forest_preorder(next).len() implies *#[trigger] out@[start + 1 + k] == forest_preorder(next)[k] by {
                    if k < done.len() {
                        assert(out@[start + 1 + k] == before[start + 1 + k]);
                    } else {
                        assert(out@[before.len() + (k - done.len())] == out@[start + 1 + k]);
                    }
                }
            }
            i = i + 1;
        }
        proof {
            assert(self.children@.subrange(0, i as int) =~= self.children@);
            assert forall|k: int| 0 <= k < preorder(*self).len() implies *#[trigger] out@[start + k] == preorder(*self)[k] by {
                if k > 0 {
                    assert(out@[start + 1 + (k - 1)] == out@[start + k]);
                }
            }
        }
    }

    /// References to the values of the tree in depth-first pre-order: each node
    /// before its children, children from first to last.
    pub fn preorder_values(&self) -> (values: Vec<&T>)
        ensures
            values@.len() == preorder(*self).len(),
            forall|i: int| 0 <= i < values@.len() ==> *#[trigger] values@[i] == preorder(*self)[i],
    {
        let mut values: Vec<&T> = Vec::new();
        self.collect_preorder(&mut values);
        assert forall|i: int| 0 <= i < values@.len() implies *#[trigger] values@[i] == preorder(*self)[i] by {
            assert(values@[0 + i] == values@[i]);
        }
        values
    }

    /// Depth-first traversal, calling `f` for every node, in the order of
    /// [`Tree::preorder_values`]: `f` has been called on the value of every
    /// node.
    pub fn walk<F: FnMut(&T)>(&self, f: &mut F)
        requires
            forall|x: &T| call_requires(*old(f), (x,)),
        ensures
            *final(f) == *old(f),
            forall|i: int|
                0 <= i < preorder(*self).len() ==> call_ensures(*old(f), (&#[trigger] preorder(*self)[i],), ()),
    {
        let values = self.preorder_values();
        let mut i: usize = 0;
        while i < values.len()
            invariant
                forall|x: &T| call_requires(*old(f), (x,)),
                values@.len() == preorder(*self).len(),
                forall|k: int| 0 <= k < values@.len() ==> *#[trigger] values@[k] == preorder(*self)[k],
                *f == *old(f),
                forall|k: int| 0 <= k < i ==> call_ensures(*old(f), (&#[trigger] preorder(*self)[k],), ()),
            decreases values.len() - i,
        {
            f(values[i]);
            i = i + 1;
        }
    }

    /// The number of nodes.
    pub fn size(&self) -> (count: usize)
        requires
            size_of(*self) <= usize::MAX,
        ensures
            count == size_of(*self),
        decreases self,
    {
        let mut total: usize = 1;
        let mut i: usize = 0;
        while i < self.children.len()
            invariant
                i <= self.children@.len(),
                size_of(*self) <= usize::MAX,
                total == 1 + forest_size(self.children@.subrange(0, i as int)),
            decreases self.children.len() - i,
        {
            proof {
                let next = self.children@.subrange(0, i + 1);
                assert(next.subrange(0, next.len() - 1) =~= self.children@.subrange(0, i as int));
                assert(next[next.len() - 1] == self.children@[i as int]);
                lemma_forest_size_prefix(self.children@, i + 1);
            }
            let s = self.children[i].size();
            total = total + s;
            i = i + 1;
        }
        proof {
            assert(self.children@.subrange(0, i as int) =~= self.children@);
        }
        total
    }

    /// The depth of the deepest leaf (0 for a leaf).
    pub fn depth(&self) -> (d: usize)
        requires
            size_of(*self) <= usize::MAX,
        ensures
            d == depth_of(*self),
        decreases self,
    {
        if self.children.len() == 0 {
            return 0;
        }
        let mut deepest: usize = 0;
        let mut i: usize = 0;
        while i < self.children.len()
            invariant
                i <= self.children@.len(),
                size_of(*self) <= usize::MAX,
                deepest == forest_depth(self.children@.subrange(0, i as int)),
            decreases self.children.len() - i,
        {
            proof {
                let next = self.children@.subrange(0, i + 1);
                assert(next.subrange(0, next.len() - 1) =~= self.children@.subrange(0, i as int));
                assert(next[next.len() - 1] == self.children@[i as int]);
                lemma_forest_size_prefix(self.children@, i + 1);
            }
            let d = self.children[i].depth();
            if d > deepest {
                deepest = d;
            }
            i = i + 1;
        }
        proof {
            assert(self.children@.subrange(0, i as int) =~= self.children@);
            lemma_depth_below_size(*self);
        }
        1 + deepest
    }
}

/// A prefix of a forest has no more nodes than the forest, and each of its
/// trees no more than the prefix.
proof fn lemma_forest_size_prefix<T: Clone>(ts: Seq<Tree<T>>, n: int)
    requires
        0 < n <= ts.len(),
    ensures
        forest_size(ts.subrange(0, n)) <= forest_size(ts),
        size_of(ts[n - 1]) <= forest_size(ts),
    decreases ts.len() - n,
{
    let pre = ts.subrange(0, n);
    assert(pre.subrange(0, pre.len() - 1) =~= ts.subrange(0, n - 1));
    assert(pre[n - 1] == ts[n - 1]);
    if n < ts.len() {
        lemma_forest_size_prefix(ts, n + 1);
        let next = ts.subrange(0, n + 1);
        assert(next.subrange(0, next.len() - 1) =~= pre);
    } else {
        assert(pre =~= ts);
    }
}

/// A tree's depth is below its number of nodes, and it has at least one node.
pub proof fn lemma_depth_below_size<T: Clone>(t: Tree<T>)
    ensures
        depth_of(t) < size_of(t),
        size_of(t) >= 1,
    decreases t,
{
    lemma_forest_depth_below_size(t.children@);
}

/// The depth of a forest is at most its number of nodes, and below it when the
/// forest is not empty.
pub proof fn lemma_forest_depth_below_size<T: Clone>(ts: Seq<Tree<T>>)
    ensures
        forest_depth(ts) <= forest_size(ts),
        ts.len() > 0 ==> forest_depth(ts) < forest_size(ts),
    decreases ts,
{
    if ts.len() > 0 {
        lemma_forest_depth_below_size(ts.subrange(0, ts.len() - 1));
        lemma_depth_below_size(ts[ts.len() - 1]);
    }
}

/// The pre-order lists every node once: its length is the number of nodes.
pub proof fn lemma_preorder_visits_every_node<T: Clone>(t: Tree<T>)
    ensures
        preorder(t).len() == size_of(t),
        preorder(t)[0] == t.value,
    decreases t,
{
    lemma_forest_preorder_len(t.children@);
}

proof fn lemma_forest_preorder_len<T: Clone>(ts: Seq<Tree<T>>)
    ensures
        forest_preorder(ts).len() == forest_size(ts),
    decreases ts,
{
    if ts.len() > 0 {
        lemma_forest_preorder_len(ts.subrange(0, ts.len() - 1));
        lemma_preorder_visits_every_node(ts[ts.len() - 1]);
    }
}

impl<T: Clone> Clone for Tree<T> {
    /// A copy of the tree with the same shape, holding clones of the values.
    fn clone(&self) -> (copy: Self)
        ensures
            size_of(copy) == size_of(*self),
            depth_of(copy) == depth_of(*self),
        decreases self,
    {
        let mut children: Vec<Tree<T>> = Vec::new();
        let mut i: usize = 0;
        while i < self.children.len()
            invariant
                i <= self.children@.len(),
                children@.len() == i,
                forall|j: int| 0 <= j < i ==> size_of(#[trigger] children@[j]) == size_of(self.children@[j]),
                forall|j: int| 0 <= j < i ==> depth_of(#[trigger] children@[j]) == depth_of(self.children@[j]),
            decreases self.children.len() - i,
        {
            let child = self.children[i].clone();
            children.push(child);
            i = i + 1;
        }
        proof {
            lemma_forests_alike(children@, self.children@);
        }
        Tree { value: self.value.clone(), children }
    }
}

/// Two forests whose trees have pairwise the same size and depth have the same
/// size and depth.
proof fn lemma_forests_alike<T: Clone>(a: Seq<Tree<T>>, b: Seq<Tree<T>>)
    requires
        a.len() == b.len(),
        forall|j: int| 0 <= j < a.len() ==> size_of(#[trigger] a[j]) == size_of(b[j]),
        forall|j: int| 0 <= j < a.len() ==> depth_of(#[trigger] a[j]) == depth_of(b[j]),
    ensures
        forest_size(a) == forest_size(b),
        forest_depth(a) == forest_depth(b),
    decreases a.len(),
{
    if a.len() > 0 {
        let a0 = a.subrange(0, a.len() - 1);
        let b0 = b.subrange(0, b.len() - 1);
        assert forall|j: int| 0 <= j < a0.len() implies size_of(#[trigger] a0[j]) == size_of(b0[j]) by {
            assert(a0[j] == a[j] && b0[j] == b[j]);
        }
        assert forall|j: int| 0 <= j < a0.len() implies depth_of(#[trigger] a0[j]) == depth_of(b0[j]) by {
            assert(a0[j] == a[j] && b0[j] == b[j]);
        }
        lemma_forests_alike(a0, b0);
        assert(size_of(a[a.len() - 1]) == size_of(b[b.len() - 1]));
        assert(depth_of(a[a.len() - 1]) == depth_of(b[b.len() - 1]));
    }
}

// ---------------------------------------------------------------------------
// Event
// ---------------------------------------------------------------------------

/// A typed event envelope.
#[derive(Debug, Clone)]
pub struct Event<D: Clone> {
    pub id: Id,
    pub kind: String,
    pub data: D,
    pub version: u32,
}

impl<D: Clone> Event<D> {
    /// A version-1 event of the given kind with a fresh identifier.
    pub fn new(kind: &str, data: D) -> (event: Self)
        ensures
            is_version_4(event.id.value()),
            event.kind@ == kind@,
            event.data == data,
            event.version == 1,
    {
        Event { id: Id::new(), kind: kind.to_owned(), data, version: 1 }
    }
}

} // verus!

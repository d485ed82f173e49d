//! The task-forest engine: an insertion-ordered collection of tasks addressed
//! by stable integer ids, with root/leaf discovery, recency-based active-task
//! resolution, completion, and rendering.

use vstd::prelude::*;
use vstd::string::StringExecFns;

verus! {

/// Error returned by `get_root` when the starting id is not in the forest.
#[derive(Debug)]
pub struct RootNotFound {}

/// A node in the task forest.
#[derive(Debug, PartialEq, Eq)]
pub struct Task {
    pub id: usize,
    pub value: String,
    pub parent: Option<usize>,
    pub children: Vec<usize>,
    pub active: bool,
    pub done: bool,
    pub last_touched: u64,
}

/// The mathematical model of a task: every field as a plain value.
pub ghost struct TaskModel {
    pub id: usize,
    pub value: Seq<char>,
    pub parent: Option<usize>,
    pub children: Seq<usize>,
    pub active: bool,
    pub done: bool,
    pub last_touched: u64,
}

impl View for Task {
    type V = TaskModel;

    open spec fn view(&self) -> TaskModel {
        TaskModel {
            id: self.id,
            value: self.value@,
            parent: self.parent,
            children: self.children@,
            active: self.active,
            done: self.done,
            last_touched: self.last_touched,
        }
    }
}

/// The model of a whole forest: the models of its tasks, in order.
pub open spec fn forest_of(tasks: Seq<Task>) -> Seq<TaskModel> {
    Seq::new(tasks.len(), |i: int| tasks[i]@)
}

/// Well-formedness of one entry: its id is its position, its parent was
/// created before it and lists it as a child, and its children were all
/// created after it.
pub open spec fn wf_at(s: Seq<TaskModel>, i: int) -> bool {
    &&& s[i].id == i
    &&& (match s[i].parent {
        Some(p) => p < i && s[p as int].children.contains(i as usize),
        None => true,
    })
    &&& (forall|k: int|
        0 <= k < s[i].children.len() ==> i < #[trigger] s[i].children[k] < s.len())
}

/// Well-formedness of the whole forest. It holds of every forest built
/// through `add` alone, and rules out parent cycles: a parent id always
/// precedes its children.
pub open spec fn forest_wf(s: Seq<TaskModel>) -> bool {
    forall|i: int| 0 <= i < s.len() ==> wf_at(s, i)
}

/// The root reached from `id` by walking parent links; `id` itself when it
/// is out of range.
pub open spec fn root_of(s: Seq<TaskModel>, id: usize) -> usize
    decreases id,
{
    if id < s.len() {
        match s[id as int].parent {
            None => id,
            Some(p) => if p < id {
                root_of(s, p)
            } else {
                id
            },
        }
    } else {
        id
    }
}

/// The models of a sequence of borrowed tasks, in order.
pub open spec fn models_of(ts: Seq<&Task>) -> Seq<TaskModel> {
    Seq::new(ts.len(), |i: int| ts[i]@)
}

/// The root tasks: no parent, not yet done, in collection order.
pub open spec fn root_tasks_spec(s: Seq<TaskModel>) -> Seq<TaskModel> {
    s.filter(|t: TaskModel| t.parent is None && !t.done)
}

/// The leaf tasks: no children, not yet done, in collection order.
pub open spec fn leaf_tasks_spec(s: Seq<TaskModel>) -> Seq<TaskModel> {
    s.filter(|t: TaskModel| t.children.len() == 0 && !t.done)
}

/// The first task marked active among the first `n`, if any.
pub open spec fn first_active(s: Seq<TaskModel>, n: int) -> Option<usize>
    decreases n,
{
    if n <= 0 {
        None
    } else {
        match first_active(s, n - 1) {
            Some(a) => Some(a),
            None => if s[n - 1].active {
                Some((n - 1) as usize)
            } else {
                None
            },
        }
    }
}

/// The not-done leaves reachable from `id` by following only not-done
/// children: `id` alone when it is childless, nothing when it is done or out
/// of range, and otherwise the leaves of its children, in child order, with
/// every done child pruning its whole subtree.
pub open spec fn leaf_descendants_spec(s: Seq<TaskModel>, id: usize) -> Seq<usize>
    decreases s.len() - id, 1int, 0int,
{
    if id < s.len() && !s[id as int].done {
        if s[id as int].children.len() == 0 {
            seq![id]
        } else {
            leaf_descendants_list(s, s[id as int].children, id)
        }
    } else {
        Seq::empty()
    }
}

/// The leaves of the subtrees rooted at `ch`, concatenated in order; `bound`
/// carries the well-formedness fact that every child id exceeds its parent's.
pub open spec fn leaf_descendants_list(s: Seq<TaskModel>, ch: Seq<usize>, bound: usize) -> Seq<
    usize,
>
    decreases s.len() - bound, 0int, ch.len(),
{
    if ch.len() == 0 {
        Seq::empty()
    } else {
        let head = if bound < ch[0] && ch[0] < s.len() {
            leaf_descendants_spec(s, ch[0])
        } else {
            Seq::empty()
        };
        head + leaf_descendants_list(s, ch.drop_first(), bound)
    }
}

proof fn lemma_leaf_descendants_list_snoc(s: Seq<TaskModel>, ch: Seq<usize>, c: usize, bound: usize)
    ensures
        leaf_descendants_list(s, ch.push(c), bound) == leaf_descendants_list(s, ch, bound) + (
        if bound < c && c < s.len() {
            leaf_descendants_spec(s, c)
        } else {
            Seq::<usize>::empty()
        }),
    decreases ch.len(),
{
    let tail = if bound < c && c < s.len() {
        leaf_descendants_spec(s, c)
    } else {
        Seq::<usize>::empty()
    };
    if ch.len() == 0 {
        assert(ch.push(c).drop_first() =~= Seq::<usize>::empty());
        assert(ch.push(c)[0] == c);
        assert(leaf_descendants_list(s, ch.push(c), bound) == tail + leaf_descendants_list(
            s,
            ch.push(c).drop_first(),
            bound,
        ));
        assert(leaf_descendants_list(s, ch.push(c).drop_first(), bound) == Seq::<usize>::empty());
        assert(tail + Seq::<usize>::empty() =~= leaf_descendants_list(s, ch, bound) + tail);
    } else {
        assert(ch.push(c).drop_first() =~= ch.drop_first().push(c));
        lemma_leaf_descendants_list_snoc(s, ch.drop_first(), c, bound);
        let head = if bound < ch[0] && ch[0] < s.len() {
            leaf_descendants_spec(s, ch[0])
        } else {
            Seq::<usize>::empty()
        };
        assert(head + (leaf_descendants_list(s, ch.drop_first(), bound) + tail) =~= (head
            + leaf_descendants_list(s, ch.drop_first(), bound)) + tail);
    }
}

proof fn lemma_root_tasks_push(s: Seq<TaskModel>, x: TaskModel)
    ensures
        root_tasks_spec(s.push(x)) == root_tasks_spec(s) + (if x.parent is None && !x.done {
            seq![x]
        } else {
            Seq::<TaskModel>::empty()
        }),
{
    reveal(Seq::filter);
    assert(s.push(x).drop_last() =~= s);
    if x.parent is None && !x.done {
        assert(root_tasks_spec(s.push(x)) =~= root_tasks_spec(s) + seq![x]);
    } else {
        assert(root_tasks_spec(s.push(x)) =~= root_tasks_spec(s) + Seq::<TaskModel>::empty());
    }
}

proof fn lemma_leaf_tasks_push(s: Seq<TaskModel>, x: TaskModel)
    ensures
        leaf_tasks_spec(s.push(x)) == leaf_tasks_spec(s) + (if x.children.len() == 0 && !x.done {
            seq![x]
        } else {
            Seq::<TaskModel>::empty()
        }),
{
    reveal(Seq::filter);
    assert(s.push(x).drop_last() =~= s);
    if x.children.len() == 0 && !x.done {
        assert(leaf_tasks_spec(s.push(x)) =~= leaf_tasks_spec(s) + seq![x]);
    } else {
        assert(leaf_tasks_spec(s.push(x)) =~= leaf_tasks_spec(s) + Seq::<TaskModel>::empty());
    }
}

/// Among the first `n` entries of `ch`, the not-done child with the greatest
/// `last_touched`; on ties the first one seen wins (a later child replaces
/// the held one only when strictly more recent).
pub open spec fn pick_latest(s: Seq<TaskModel>, ch: Seq<usize>, n: int) -> Option<usize>
    decreases n,
{
    if n <= 0 {
        None
    } else {
        let prev = pick_latest(s, ch, n - 1);
        let c = ch[n - 1];
        if !(c < s.len()) || s[c as int].done {
            prev
        } else {
            match prev {
                None => Some(c),
                Some(b) => if s[c as int].last_touched > s[b as int].last_touched {
                    Some(c)
                } else {
                    prev
                },
            }
        }
    }
}

/// Among the first `n` tasks, the root task (no parent, not done) with the
/// greatest `last_touched`; on ties the first one seen wins.
pub open spec fn pick_root(s: Seq<TaskModel>, n: int) -> Option<usize>
    decreases n,
{
    if n <= 0 {
        None
    } else {
        let prev = pick_root(s, n - 1);
        if s[n - 1].parent is Some || s[n - 1].done {
            prev
        } else {
            match prev {
                None => Some((n - 1) as usize),
                Some(b) => if s[n - 1].last_touched > s[b as int].last_touched {
                    Some((n - 1) as usize)
                } else {
                    prev
                },
            }
        }
    }
}

/// The task that becomes active when resolution starts at `id`: descend into
/// the most recently touched not-done child until none is left.
pub open spec fn resolve_from(s: Seq<TaskModel>, id: usize) -> usize
    decreases s.len() - id,
{
    if id < s.len() {
        match pick_latest(s, s[id as int].children, s[id as int].children.len() as int) {
            None => id,
            Some(c) => if id < c < s.len() {
                resolve_from(s, c)
            } else {
                id
            },
        }
    } else {
        id
    }
}

/// The task that becomes active for a whole `set_active_task` call: from the
/// given task, or from the most recently touched root when no task is given;
/// `None` when there is no target and no root task.
pub open spec fn resolve_target(s: Seq<TaskModel>, target: Option<usize>) -> Option<usize> {
    match target {
        Some(id) => Some(resolve_from(s, id)),
        None => match pick_root(s, s.len() as int) {
            None => None,
            Some(rt) => Some(resolve_from(s, rt)),
        },
    }
}

/// Every task with its `active` flag cleared; nothing else changes.
pub open spec fn clear_active(s: Seq<TaskModel>) -> Seq<TaskModel> {
    Seq::new(s.len(), |i: int| TaskModel { active: false, ..s[i] })
}

/// `last_touched` refreshed to `now` on `id` and on every ancestor up to its
/// root; nothing else changes.
pub open spec fn touch_path(s: Seq<TaskModel>, id: usize, now: u64) -> Seq<TaskModel>
    decreases id,
{
    if id < s.len() {
        let s1 = s.update(id as int, (TaskModel { last_touched: now, ..s[id as int] }));
        match s[id as int].parent {
            Some(p) => if p < id {
                touch_path(s1, p, now)
            } else {
                s1
            },
            None => s1,
        }
    } else {
        s
    }
}

/// The whole effect of `set_active_task`: clear every `active` flag, resolve
/// the new active task, and when there is one, set its flag and refresh the
/// recency of its whole ancestor path to `now`.
pub open spec fn set_active_spec(s: Seq<TaskModel>, target: Option<usize>, now: u64) -> Seq<
    TaskModel,
> {
    match resolve_target(s, target) {
        None => clear_active(s),
        Some(w) => {
            let cleared = clear_active(s);
            let activated = cleared.update(
                w as int,
                (TaskModel { active: true, ..cleared[w as int] }),
            );
            touch_path(activated, w, now)
        },
    }
}

/// Law: a root task is its own root. For any valid id, the root found by
/// `get_root` has no parent, so walking up from it again is a fixed point.
pub proof fn lemma_root_fixed_point(s: Seq<TaskModel>, id: usize)
    requires
        forest_wf(s),
        id < s.len(),
    ensures
        root_of(s, id) < s.len(),
        s[root_of(s, id) as int].parent is None,
        root_of(s, root_of(s, id)) == root_of(s, id),
    decreases id,
{
    assert(wf_at(s, id as int));
    match s[id as int].parent {
        None => {},
        Some(p) => {
            lemma_root_fixed_point(s, p);
        },
    }
}

proof fn lemma_leaf_descendants_list_elems(s: Seq<TaskModel>, ch: Seq<usize>, bound: usize)
    requires
        forest_wf(s),
    ensures
        forall|j: int|
            0 <= j < leaf_descendants_list(s, ch, bound).len() ==> ({
                let e = #[trigger] leaf_descendants_list(s, ch, bound)[j];
                bound < e < s.len() && !s[e as int].done && s[e as int].children.len() == 0
            }),
    decreases s.len() - bound, 0int, ch.len(),
{
    if ch.len() == 0 {
    } else {
        if bound < ch[0] && ch[0] < s.len() {
            lemma_leaf_descendants_elems(s, ch[0]);
        }
        lemma_leaf_descendants_list_elems(s, ch.drop_first(), bound);
    }
}

/// Law: every leaf descendant of `id` is a not-done, childless task no
/// earlier than `id` itself.
pub proof fn lemma_leaf_descendants_elems(s: Seq<TaskModel>, id: usize)
    requires
        forest_wf(s),
    ensures
        forall|j: int|
            0 <= j < leaf_descendants_spec(s, id).len() ==> ({
                let e = #[trigger] leaf_descendants_spec(s, id)[j];
                id <= e < s.len() && !s[e as int].done && s[e as int].children.len() == 0
            }),
    decreases s.len() - id, 1int, 0int,
{
    if id < s.len() && !s[id as int].done {
        if s[id as int].children.len() == 0 {
        } else {
            lemma_leaf_descendants_list_elems(s, s[id as int].children, id);
        }
    }
}

/// Law: the leaf descendants of `id` never include a done task, and include
/// `id` itself only when it has no children at all.
pub proof fn lemma_leaf_descendants_pruned(s: Seq<TaskModel>, id: usize)
    requires
        forest_wf(s),
    ensures
        forall|j: int|
            0 <= j < leaf_descendants_spec(s, id).len() ==> !s[(
            #[trigger] leaf_descendants_spec(s, id)[j]) as int].done,
        leaf_descendants_spec(s, id).contains(id) ==> (id < s.len() && s[
            id as int
        ].children.len() == 0),
{
    lemma_leaf_descendants_elems(s, id);
    if leaf_descendants_spec(s, id).contains(id) {
        let j = choose|j: int|
            0 <= j < leaf_descendants_spec(s, id).len() && leaf_descendants_spec(s, id)[j] == id;
        if id < s.len() && !s[id as int].done && s[id as int].children.len() > 0 {
            lemma_leaf_descendants_list_elems(s, s[id as int].children, id);
            assert(false);
        }
    }
}

proof fn lemma_pick_latest_not_done(s: Seq<TaskModel>, ch: Seq<usize>, n: int)
    ensures
        pick_latest(s, ch, n) matches Some(c) ==> c < s.len() && !s[c as int].done,
    decreases n,
{
    if n > 0 {
        lemma_pick_latest_not_done(s, ch, n - 1);
    }
}

proof fn lemma_resolve_from_props(s: Seq<TaskModel>, id: usize)
    requires
        id < s.len(),
    ensures
        id <= resolve_from(s, id) < s.len(),
        resolve_from(s, id) == id || !s[resolve_from(s, id) as int].done,
    decreases s.len() - id,
{
    let ch = s[id as int].children;
    match pick_latest(s, ch, ch.len() as int) {
        None => {},
        Some(c) => {
            lemma_pick_latest_not_done(s, ch, ch.len() as int);
            if id < c < s.len() {
                lemma_resolve_from_props(s, c);
            }
        },
    }
}

/// Law: completing the single active task of a well-formed forest, when
/// that task has a parent, leaves the completed task done and inactive, and
/// exactly one task active.
pub proof fn lemma_done_reactivates(s: Seq<TaskModel>, a: usize, now: u64)
    requires
        forest_wf(s),
        first_active(s, s.len() as int) == Some(a),
        s[a as int].parent is Some,
    ensures
        done_spec(s, now).len() == s.len(),
        done_spec(s, now)[a as int].done,
        !done_spec(s, now)[a as int].active,
        exists|w: int| 0 <= w < s.len() && (#[trigger] done_spec(s, now)[w]).active,
        forall|i: int, j: int|
            0 <= i < s.len() && 0 <= j < s.len() && (#[trigger] done_spec(s, now)[i]).active && (
            #[trigger] done_spec(s, now)[j]).active ==> i == j,
{
    lemma_first_active_range(s, s.len() as int);
    assert(wf_at(s, a as int));
    let marked = s.update(a as int, (TaskModel { done: true, ..s[a as int] }));
    let p = s[a as int].parent->Some_0;
    assert(p < a);
    let w0 = resolve_from(marked, p);
    assert(resolve_target(marked, Some(p)) == Some(w0));
    lemma_resolve_from_props(marked, p);
    assert(w0 != a) by {
        if w0 == a {
            assert(marked[a as int].done);
        }
    }
    let cleared = clear_active(marked);
    let activated = cleared.update(w0 as int, (TaskModel { active: true, ..cleared[w0 as int] }));
    let r = touch_path(activated, w0, now);
    lemma_touch_path_frame(activated, w0, now);
    assert(done_spec(s, now) == r);
    assert(r[a as int].done);
    assert(!r[a as int].active);
    assert(r[w0 as int].active);
    assert(forall|i: int| 0 <= i < s.len() && i != w0 ==> !(#[trigger] r[i]).active);
}

/// The character for one decimal digit.
pub open spec fn dec_digit(d: int) -> char {
    if d == 0 {
        '0'
    } else if d == 1 {
        '1'
    } else if d == 2 {
        '2'
    } else if d == 3 {
        '3'
    } else if d == 4 {
        '4'
    } else if d == 5 {
        '5'
    } else if d == 6 {
        '6'
    } else if d == 7 {
        '7'
    } else if d == 8 {
        '8'
    } else {
        '9'
    }
}

/// The decimal representation of `n`, most significant digit first.
pub open spec fn dec_rep(n: int) -> Seq<char>
    decreases n,
{
    if n < 10 {
        seq![dec_digit(n)]
    } else {
        dec_rep(n / 10).push(dec_digit(n % 10))
    }
}

/// Two spaces per indentation level.
pub open spec fn indent_spec(n: int) -> Seq<char>
    decreases n,
{
    if n <= 0 {
        Seq::empty()
    } else {
        indent_spec(n - 1) + seq![' ', ' ']
    }
}

/// One rendered line: indentation, the id, a space, the value, a newline.
pub open spec fn render_line_spec(t: TaskModel, indent: int) -> Seq<char> {
    indent_spec(indent) + dec_rep(t.id as int) + seq![' '] + t.value + seq!['\n']
}

/// The flat listing: one line, at depth zero, for every root task.
pub open spec fn print_spec(s: Seq<TaskModel>, n: int) -> Seq<char>
    decreases n,
{
    if n <= 0 {
        Seq::empty()
    } else {
        print_spec(s, n - 1) + (if s[n - 1].parent is None && !s[n - 1].done {
            render_line_spec(s[n - 1], 0)
        } else {
            Seq::empty()
        })
    }
}

/// The subtree rendering under `id`: the task's own line, then every
/// not-done child's subtree, one level deeper; a done child and its whole
/// subtree are omitted.
pub open spec fn render_tree_spec(s: Seq<TaskModel>, id: usize, depth: int) -> Seq<char>
    decreases s.len() - id, 1int, 0int,
{
    if id < s.len() {
        render_line_spec(s[id as int], depth) + render_children_spec(
            s,
            s[id as int].children,
            id,
            depth,
        )
    } else {
        Seq::empty()
    }
}

/// The renderings of the subtrees at `ch`, in order, skipping done children.
pub open spec fn render_children_spec(
    s: Seq<TaskModel>,
    ch: Seq<usize>,
    bound: usize,
    depth: int,
) -> Seq<char>
    decreases s.len() - bound, 0int, ch.len(),
{
    if ch.len() == 0 {
        Seq::empty()
    } else {
        let head = if bound < ch[0] && ch[0] < s.len() && !s[ch[0] as int].done {
            render_tree_spec(s, ch[0], depth + 1)
        } else {
            Seq::empty()
        };
        head + render_children_spec(s, ch.drop_first(), bound, depth)
    }
}

/// The full listing: the whole rendered subtree of every root task.
pub open spec fn print_all_spec(s: Seq<TaskModel>, n: int) -> Seq<char>
    decreases n,
{
    if n <= 0 {
        Seq::empty()
    } else {
        print_all_spec(s, n - 1) + (if s[n - 1].parent is None && !s[n - 1].done {
            render_tree_spec(s, (n - 1) as usize, 0)
        } else {
            Seq::empty()
        })
    }
}

proof fn lemma_render_children_snoc(
    s: Seq<TaskModel>,
    ch: Seq<usize>,
    c: usize,
    bound: usize,
    depth: int,
)
    ensures
        render_children_spec(s, ch.push(c), bound, depth) == render_children_spec(
            s,
            ch,
            bound,
            depth,
        ) + (if bound < c && c < s.len() && !s[c as int].done {
            render_tree_spec(s, c, depth + 1)
        } else {
            Seq::<char>::empty()
        }),
    decreases ch.len(),
{
    let tail = if bound < c && c < s.len() && !s[c as int].done {
        render_tree_spec(s, c, depth + 1)
    } else {
        Seq::<char>::empty()
    };
    if ch.len() == 0 {
        assert(ch.push(c).drop_first() =~= Seq::<usize>::empty());
        assert(ch.push(c)[0] == c);
        assert(render_children_spec(s, ch.push(c), bound, depth) == tail + render_children_spec(
            s,
            ch.push(c).drop_first(),
            bound,
            depth,
        ));
        assert(render_children_spec(s, ch.push(c).drop_first(), bound, depth) == Seq::<
            char,
        >::empty());
        assert(tail + Seq::<char>::empty() =~= render_children_spec(s, ch, bound, depth) + tail);
    } else {
        assert(ch.push(c).drop_first() =~= ch.drop_first().push(c));
        lemma_render_children_snoc(s, ch.drop_first(), c, bound, depth);
        let head = if bound < ch[0] && ch[0] < s.len() && !s[ch[0] as int].done {
            render_tree_spec(s, ch[0], depth + 1)
        } else {
            Seq::<char>::empty()
        };
        assert(head + (render_children_spec(s, ch.drop_first(), bound, depth) + tail) =~= (head
            + render_children_spec(s, ch.drop_first(), bound, depth)) + tail);
    }
}

/// Whether `add` switches the active task to the new one: it was asked to,
/// or no task was active, or the active task is the new task's parent.
pub open spec fn switches(s: Seq<TaskModel>, parent: Option<usize>, switch: bool) -> bool {
    ||| switch
    ||| first_active(s, s.len() as int) is None
    ||| first_active(s, s.len() as int) == parent
}

/// The forest with a fresh task appended: it gets the next id, the given
/// value and parent, no children, both flags clear, and recency `t0`; a
/// given parent gains the new id at the end of its child list.
pub open spec fn append_task(
    s: Seq<TaskModel>,
    value: Seq<char>,
    parent: Option<usize>,
    t0: u64,
) -> Seq<TaskModel> {
    let linked = match parent {
        Some(p) => s.update(
            p as int,
            (TaskModel { children: s[p as int].children.push(s.len() as usize), ..s[p as int] }),
        ),
        None => s,
    };
    linked.push(
        TaskModel {
            id: s.len() as usize,
            value,
            parent,
            children: Seq::empty(),
            active: false,
            done: false,
            last_touched: t0,
        },
    )
}

/// The whole effect of `add`: append the fresh task, and when the switch
/// rule fires, make it the active task (refreshing its ancestors' recency).
pub open spec fn add_spec(
    s: Seq<TaskModel>,
    value: Seq<char>,
    parent: Option<usize>,
    switch: bool,
    t0: u64,
    now: u64,
) -> Seq<TaskModel> {
    let mid = append_task(s, value, parent, t0);
    if switches(s, parent, switch) {
        set_active_spec(mid, Some(s.len() as usize), now)
    } else {
        mid
    }
}

/// The whole effect of `done`: nothing when no task is active; otherwise the
/// active task is marked done and the active task is re-resolved from its
/// parent.
pub open spec fn done_spec(s: Seq<TaskModel>, now: u64) -> Seq<TaskModel> {
    match first_active(s, s.len() as int) {
        None => s,
        Some(a) => {
            let marked = s.update(a as int, (TaskModel { done: true, ..s[a as int] }));
            set_active_spec(marked, s[a as int].parent, now)
        },
    }
}

/// Well-formedness only reads ids and links, so any forest that agrees with
/// a well-formed one on those fields is well-formed too.
proof fn lemma_wf_same_structure(s: Seq<TaskModel>, s2: Seq<TaskModel>)
    requires
        forest_wf(s),
        s2.len() == s.len(),
        forall|j: int|
            0 <= j < s.len() ==> (#[trigger] s2[j]).id == s[j].id && s2[j].parent == s[j].parent
                && s2[j].children == s[j].children,
    ensures
        forest_wf(s2),
{
    assert forall|j: int| 0 <= j < s2.len() implies wf_at(s2, j) by {
        assert(wf_at(s, j));
        assert(s2[j].children == s[j].children);
        match s2[j].parent {
            Some(p) => {
                assert(s2[p as int].children == s[p as int].children);
            },
            None => {},
        }
        assert(forall|k: int|
            0 <= k < s2[j].children.len() ==> j < #[trigger] s2[j].children[k] < s2.len()) by {
            assert(forall|k: int|
                0 <= k < s[j].children.len() ==> j < #[trigger] s[j].children[k] < s.len());
        }
    };
}

/// Touching a path changes nothing but `last_touched`, and that only to
/// `now`.
proof fn lemma_touch_path_frame(s: Seq<TaskModel>, id: usize, now: u64)
    ensures
        touch_path(s, id, now).len() == s.len(),
        forall|j: int|
            0 <= j < s.len() ==> {
                let t = #[trigger] touch_path(s, id, now)[j];
                t.id == s[j].id && t.value == s[j].value && t.parent == s[j].parent && t.children
                    == s[j].children && t.active == s[j].active && t.done == s[j].done && (
                t.last_touched == s[j].last_touched || t.last_touched == now)
            },
    decreases id,
{
    if id < s.len() {
        let s1 = s.update(id as int, (TaskModel { last_touched: now, ..s[id as int] }));
        match s[id as int].parent {
            Some(p) => {
                if p < id {
                    lemma_touch_path_frame(s1, p, now);
                }
            },
            None => {},
        }
    }
}

proof fn lemma_first_active_none(s: Seq<TaskModel>, n: int)
    requires
        forall|j: int| 0 <= j < n ==> !s[j].active,
    ensures
        first_active(s, n) is None,
    decreases n,
{
    if n > 0 {
        lemma_first_active_none(s, n - 1);
    }
}

proof fn lemma_first_active_range(s: Seq<TaskModel>, n: int)
    ensures
        first_active(s, n) matches Some(a) ==> 0 <= a < n,
    decreases n,
{
    if n > 0 {
        lemma_first_active_range(s, n - 1);
    }
}

proof fn lemma_first_active_congruent(s: Seq<TaskModel>, s2: Seq<TaskModel>, n: int)
    requires
        forall|j: int| 0 <= j < n ==> (#[trigger] s2[j]).active == s[j].active,
    ensures
        first_active(s, n) == first_active(s2, n),
    decreases n,
{
    if n > 0 {
        lemma_first_active_congruent(s, s2, n - 1);
    }
}

proof fn lemma_append_task_wf(s: Seq<TaskModel>, value: Seq<char>, parent: Option<usize>, t0: u64)
    requires
        forest_wf(s),
        s.len() <= usize::MAX,
        parent matches Some(p) ==> p < s.len(),
    ensures
        forest_wf(append_task(s, value, parent, t0)),
{
    let mid = append_task(s, value, parent, t0);
    let id = s.len() as usize;
    assert forall|j: int| 0 <= j < mid.len() implies wf_at(mid, j) by {
        if j < s.len() {
            assert(wf_at(s, j));
            match s[j].parent {
                Some(q) => {
                    if parent == Some(q as usize) {
                        let ch = s[q as int].children;
                        let w = choose|w: int| 0 <= w < ch.len() && ch[w] == j as usize;
                        assert(mid[q as int].children[w] == j as usize);
                        assert(mid[q as int].children.contains(j as usize));
                    } else {
                        assert(mid[q as int].children == s[q as int].children);
                    }
                },
                None => {},
            }
            if parent == Some(j as usize) {
                let ch = s[j].children;
                assert(mid[j].children == ch.push(id));
                assert(forall|k: int|
                    0 <= k < ch.len() ==> j < #[trigger] ch[k] < s.len());
                assert(forall|k: int|
                    0 <= k < mid[j].children.len() ==> j < #[trigger] mid[j].children[k]
                        < mid.len()) by {
                    assert(mid[j].children[ch.len() as int] == id);
                    assert(forall|k: int|
                        0 <= k < ch.len() ==> #[trigger] mid[j].children[k] == ch[k]);
                }
            } else {
                assert(mid[j].children == s[j].children);
            }
        } else {
            assert(j == id);
            assert(mid[j].id == id);
            match parent {
                Some(p) => {
                    assert(mid[p as int].children == s[p as int].children.push(id));
                    assert(mid[p as int].children[s[p as int].children.len() as int]
                        == id);
                    assert(mid[p as int].children.contains(id));
                },
                None => {},
            }
        }
    };
}

proof fn lemma_first_active_found(s: Seq<TaskModel>, i: usize, n: int)
    requires
        forall|j: int| 0 <= j < i ==> !s[j].active,
        s[i as int].active,
        i < n,
    ensures
        first_active(s, n) == Some(i),
    decreases n,
{
    if n - 1 > i {
        lemma_first_active_found(s, i, n - 1);
    } else {
        lemma_first_active_none(s, n - 1);
    }
}

/// Relies on std::time::SystemTime::now for the wall clock, read once and
/// flattened to whole milliseconds since the epoch; nothing can be promised
/// of the value.
#[verifier::external_body]
fn now_millis() -> u64 {
    match std::time::SystemTime::now().duration_since(std::time::UNIX_EPOCH) {
        Ok(d) => d.as_millis() as u64,
        Err(_) => 0,
    }
}

impl Task {
    /// The task's line of the listing: two spaces per indentation level,
    /// then the id, a space, the value, and a newline.
    pub fn render(&self, indent: usize) -> (r: String)
        ensures
            r@ == render_line_spec(self@, indent as int),
    {
        proof {
            reveal_strlit("  ");
            reveal_strlit(" ");
            reveal_strlit("\n");
        }
        let mut s = String::new();
        let mut k: usize = 0;
        while k < indent
            invariant
                0 <= k <= indent,
                s@ == indent_spec(k as int),
            decreases indent - k,
        {
            s.append("  ");
            proof {
                reveal_strlit("  ");
                assert(s@ =~= indent_spec(k + 1));
            }
            k += 1;
        }
        let id_str = usize_to_string(self.id);
        s.append(id_str.as_str());
        s.append(" ");
        s.append(self.value.as_str());
        s.append("\n");
        proof {
            assert(s@ =~= render_line_spec(self@, indent as int));
        }
        s
    }

    pub fn new(id: usize, value: String, parent: Option<usize>) -> (t: Task)
        ensures
            t.id == id,
            t.value == value,
            t.parent == parent,
            t.children@ == Seq::<usize>::empty(),
            !t.active,
            !t.done,
    {
        let t = Task {
            id,
            value,
            parent,
            children: Vec::new(),
            done: false,
            active: false,
            last_touched: now_millis(),
        };
        proof {
            assert(t.children@ =~= Seq::<usize>::empty());
        }
        t
    }
}

/// The forest operations. The one implementation is on `Vec<Task>`, whose
/// model is `forest_of(self@)`.
pub trait TaskTree {
    /// The model that every contract below speaks of.
    spec fn forest(&self) -> Seq<TaskModel>;

    /// All root tasks: no parent and not done, in collection order.
    fn get_root_tasks(&self) -> (r: Vec<&Task>)
        ensures
            models_of(r@) == root_tasks_spec(self.forest()),
    ;

    /// All leaf tasks: no children and not done, in collection order.
    fn get_leaf_tasks(&self) -> (r: Vec<&Task>)
        ensures
            models_of(r@) == leaf_tasks_spec(self.forest()),
    ;

    /// The task currently marked active, if any.
    fn get_active_task(&self) -> (r: Option<&Task>)
        ensures
            (match first_active(self.forest(), self.forest().len() as int) {
                None => r is None,
                Some(a) => r matches Some(t) && t@ == self.forest()[a as int],
            }),
    ;

    /// The id of the root task above `id`: parent links are walked upward
    /// until a task without a parent is found.
    fn get_root(&self, id: usize) -> (r: Result<usize, RootNotFound>)
        requires
            forest_wf(self.forest()),
        ensures
            id < self.forest().len() ==> r == Ok::<usize, RootNotFound>(root_of(self.forest(), id)),
            id >= self.forest().len() ==> r is Err,
    ;

    /// The ids of the not-done leaves reachable from `id` through not-done
    /// children only; empty when `id` is out of range or done.
    fn get_leaf_descendants(&self, idx: usize) -> (r: Vec<usize>)
        requires
            forest_wf(self.forest()),
        ensures
            r@ == leaf_descendants_spec(self.forest(), idx),
    ;

    /// Clear every `active` flag, then resolve the effective active task by
    /// recency descent: from `id` when one is given, else from the most
    /// recently touched root task. The winner's `active` flag is set and its
    /// recency, together with every ancestor's, is refreshed. When there is
    /// no target and no root task, no task becomes active.
    fn set_active_task(&mut self, id: Option<usize>)
        requires
            forest_wf(old(self).forest()),
            id matches Some(i) ==> i < old(self).forest().len(),
        ensures
            exists|now: u64|
                final(self).forest() == set_active_spec(old(self).forest(), id, now),
            forest_wf(final(self).forest()),
            final(self).forest().len() == old(self).forest().len(),
            first_active(final(self).forest(), final(self).forest().len() as int)
                == resolve_target(old(self).forest(), id),
    ;

    /// Create a task holding `value` with a fresh id (the collection's size)
    /// under `parent` when one is given. The new task becomes active when
    /// `switch` is set, when no task was active, or when the active task is
    /// the new task's parent.
    fn add(&mut self, value: String, parent: Option<usize>, switch: bool)
        requires
            forest_wf(old(self).forest()),
            parent matches Some(p) ==> p < old(self).forest().len(),
        ensures
            exists|t0: u64, now: u64|
                final(self).forest() == add_spec(
                    old(self).forest(),
                    value@,
                    parent,
                    switch,
                    t0,
                    now,
                ),
            forest_wf(final(self).forest()),
            final(self).forest().len() == old(self).forest().len() + 1,
            switches(old(self).forest(), parent, switch) ==> first_active(
                final(self).forest(),
                final(self).forest().len() as int,
            ) == Some(old(self).forest().len() as usize),
            !switches(old(self).forest(), parent, switch) ==> first_active(
                final(self).forest(),
                final(self).forest().len() as int,
            ) == first_active(old(self).forest(), old(self).forest().len() as int),
    ;

    /// The flat listing: one line, at depth zero, for every root task.
    fn render(&self) -> (r: String)
        ensures
            r@ == print_spec(self.forest(), self.forest().len() as int),
    ;

    /// The full listing: every root task's subtree, each level indented two
    /// spaces, with every done child's subtree omitted.
    fn render_all(&self) -> (r: String)
        requires
            forest_wf(self.forest()),
        ensures
            r@ == print_all_spec(self.forest(), self.forest().len() as int),
    ;

    /// Mark the active task (if any) done, then re-resolve the active task
    /// starting from its parent. With no active task nothing changes.
    fn done(&mut self)
        requires
            forest_wf(old(self).forest()),
        ensures
            exists|now: u64| final(self).forest() == done_spec(old(self).forest(), now),
            forest_wf(final(self).forest()),
            first_active(old(self).forest(), old(self).forest().len() as int) is None
                ==> final(self).forest() == old(self).forest(),
            (first_active(old(self).forest(), old(self).forest().len() as int) matches Some(a)
                ==> first_active(final(self).forest(), final(self).forest().len() as int)
                == resolve_target(
                old(self).forest().update(
                    a as int,
                    (TaskModel { done: true, ..old(self).forest()[a as int] }),
                ),
                old(self).forest()[a as int].parent,
            )),
    ;
}

/// Depth-first collection of the not-done leaves under `id`, pruning every
/// done child's subtree.
fn collect_leaf_descendants(tasks: &Vec<Task>, id: usize) -> (r: Vec<usize>)
    requires
        forest_wf(forest_of(tasks@)),
    ensures
        r@ == leaf_descendants_spec(forest_of(tasks@), id),
    decreases tasks@.len() - id,
{
    let ghost f = forest_of(tasks@);
    if id >= tasks.len() {
        return Vec::new();
    }
    let t = &tasks[id];
    if t.done {
        return Vec::new();
    }
    if t.children.len() == 0 {
        let mut r: Vec<usize> = Vec::new();
        r.push(id);
        proof {
            assert(r@ =~= leaf_descendants_spec(f, id));
        }
        return r;
    }
    assert(wf_at(f, id as int));
    let ghost ch = f[id as int].children;
    let n = t.children.len();
    let mut r: Vec<usize> = Vec::new();
    assert(ch.take(0) =~= Seq::<usize>::empty());
    let mut k: usize = 0;
    while k < n
        invariant
            forest_wf(f),
            f == forest_of(tasks@),
            id < f.len(),
            wf_at(f, id as int),
            ch == f[id as int].children,
            n == ch.len(),
            0 <= k <= n,
            r@ == leaf_descendants_list(f, ch.take(k as int), id),
        decreases n - k,
    {
        let c = tasks[id].children[k];
        assert(c == ch[k as int]);
        assert(id < c < f.len());
        let mut sub = collect_leaf_descendants(tasks, c);
        let ghost pre = r@;
        r.append(&mut sub);
        proof {
            assert(ch.take(k + 1) =~= ch.take(k as int).push(c));
            lemma_leaf_descendants_list_snoc(f, ch.take(k as int), c, id);
            assert(r@ =~= pre + leaf_descendants_spec(f, c));
        }
        k += 1;
    }
    proof {
        assert(ch.take(n as int) =~= ch);
    }
    r
}

/// The not-done child of `id` with the greatest `last_touched`; the first
/// such child wins ties.
fn pick_latest_child(tasks: &Vec<Task>, id: usize) -> (r: Option<usize>)
    requires
        forest_wf(forest_of(tasks@)),
        id < tasks@.len(),
    ensures
        ({
            let f = forest_of(tasks@);
            &&& r == pick_latest(f, f[id as int].children, f[id as int].children.len() as int)
            &&& (r matches Some(c) ==> id < c < f.len() && !f[c as int].done)
        }),
{
    let ghost f = forest_of(tasks@);
    let ghost ch = f[id as int].children;
    assert(wf_at(f, id as int));
    let n = tasks[id].children.len();
    let mut best: Option<usize> = None;
    let mut k: usize = 0;
    while k < n
        invariant
            forest_wf(f),
            f == forest_of(tasks@),
            id < f.len(),
            ch == f[id as int].children,
            n == ch.len(),
            0 <= k <= n,
            best == pick_latest(f, ch, k as int),
            best matches Some(b) ==> id < b < f.len() && !f[b as int].done,
        decreases n - k,
    {
        let c = tasks[id].children[k];
        assert(c == ch[k as int]);
        assert(wf_at(f, id as int));
        assert(id < c < f.len());
        if !tasks[c].done {
            best = match best {
                None => Some(c),
                Some(b) => {
                    if tasks[c].last_touched > tasks[b].last_touched {
                        Some(c)
                    } else {
                        Some(b)
                    }
                },
            };
        }
        k += 1;
    }
    best
}

/// The root task (no parent, not done) with the greatest `last_touched`; the
/// first such task wins ties.
fn pick_root_task(tasks: &Vec<Task>) -> (r: Option<usize>)
    ensures
        ({
            let f = forest_of(tasks@);
            &&& r == pick_root(f, f.len() as int)
            &&& (r matches Some(b) ==> b < f.len() && f[b as int].parent is None && !f[
                b as int
            ].done)
        }),
{
    let ghost f = forest_of(tasks@);
    let n = tasks.len();
    let mut best: Option<usize> = None;
    let mut i: usize = 0;
    while i < n
        invariant
            f == forest_of(tasks@),
            n == f.len(),
            0 <= i <= n,
            best == pick_root(f, i as int),
            best matches Some(b) ==> b < f.len() && f[b as int].parent is None && !f[b as int].done,
        decreases n - i,
    {
        if tasks[i].parent.is_none() && !tasks[i].done {
            best = match best {
                None => Some(i),
                Some(b) => {
                    if tasks[i].last_touched > tasks[b].last_touched {
                        Some(i)
                    } else {
                        Some(b)
                    }
                },
            };
        }
        i += 1;
    }
    best
}

/// Resolution of the new active task: descend from the target (or from the
/// most recently touched root) into the most recently touched not-done child
/// until a task with no such child is reached.
fn recursive_get_new_active_task(tasks: &Vec<Task>, id: Option<usize>) -> (r: Option<usize>)
    requires
        forest_wf(forest_of(tasks@)),
        id matches Some(i) ==> i < tasks@.len(),
    ensures
        r == resolve_target(forest_of(tasks@), id),
        r matches Some(w) ==> w < tasks@.len(),
    decreases (match id {
        Some(i) => tasks@.len() - i,
        None => tasks@.len() + 1int,
    }),
{
    match id {
        Some(i) => {
            match pick_latest_child(tasks, i) {
                None => Some(i),
                Some(c) => recursive_get_new_active_task(tasks, Some(c)),
            }
        },
        None => {
            match pick_root_task(tasks) {
                None => None,
                Some(rt) => recursive_get_new_active_task(tasks, Some(rt)),
            }
        },
    }
}

/// The one-character string for a decimal digit.
fn digit_str(d: usize) -> (r: &'static str)
    requires
        d < 10,
    ensures
        r@ == seq![dec_digit(d as int)],
{
    proof {
        reveal_strlit("0");
        reveal_strlit("1");
        reveal_strlit("2");
        reveal_strlit("3");
        reveal_strlit("4");
        reveal_strlit("5");
        reveal_strlit("6");
        reveal_strlit("7");
        reveal_strlit("8");
        reveal_strlit("9");
    }
    match d {
        0 => "0",
        1 => "1",
        2 => "2",
        3 => "3",
        4 => "4",
        5 => "5",
        6 => "6",
        7 => "7",
        8 => "8",
        _ => "9",
    }
}

/// The decimal rendering of `n`.
fn usize_to_string(n: usize) -> (r: String)
    ensures
        r@ == dec_rep(n as int),
    decreases n,
{
    if n < 10 {
        let mut s = String::new();
        s.append(digit_str(n));
        proof {
            assert(s@ =~= dec_rep(n as int));
        }
        s
    } else {
        let mut s = usize_to_string(n / 10);
        s.append(digit_str(n % 10));
        proof {
            assert(s@ =~= dec_rep(n as int));
        }
        s
    }
}

/// One line of the listing for the subtree at `id`, then its not-done
/// children, one level deeper.
fn recursive_print(tasks: &Vec<Task>, id: usize, indent: usize) -> (r: String)
    requires
        forest_wf(forest_of(tasks@)),
        indent <= id,
    ensures
        r@ == render_tree_spec(forest_of(tasks@), id, indent as int),
    decreases tasks@.len() - id,
{
    let ghost f = forest_of(tasks@);
    if id >= tasks.len() {
        let s = String::new();
        return s;
    }
    let mut s = tasks[id].render(indent);
    assert(wf_at(f, id as int));
    let ghost ch = f[id as int].children;
    let n = tasks[id].children.len();
    assert(ch.take(0) =~= Seq::<usize>::empty());
    let mut k: usize = 0;
    while k < n
        invariant
            forest_wf(f),
            f == forest_of(tasks@),
            id < f.len(),
            indent <= id,
            wf_at(f, id as int),
            ch == f[id as int].children,
            n == ch.len(),
            0 <= k <= n,
            s@ == render_line_spec(f[id as int], indent as int) + render_children_spec(
                f,
                ch.take(k as int),
                id,
                indent as int,
            ),
        decreases n - k,
    {
        let c = tasks[id].children[k];
        assert(c == ch[k as int]);
        assert(id < c < f.len());
        let ghost pre = s@;
        if !tasks[c].done {
            let sub = recursive_print(tasks, c, indent + 1);
            s.append(sub.as_str());
        }
        proof {
            assert(ch.take(k + 1) =~= ch.take(k as int).push(c));
            lemma_render_children_snoc(f, ch.take(k as int), c, id, indent as int);
            if f[c as int].done {
                assert(s@ =~= pre + Seq::<char>::empty());
            }
        }
        k += 1;
    }
    proof {
        assert(ch.take(n as int) =~= ch);
    }
    s
}

/// Whether `v` holds `x`, by a plain scan.
fn contains_id(v: &Vec<usize>, x: usize) -> (r: bool)
    ensures
        r == v@.contains(x),
{
    let n = v.len();
    let mut i: usize = 0;
    while i < n
        invariant
            n == v@.len(),
            0 <= i <= n,
            forall|j: int| 0 <= j < i ==> v@[j] != x,
        decreases n - i,
    {
        if v[i] == x {
            assert(v@.contains(x));
            return true;
        }
        i += 1;
    }
    assert(!v@.contains(x));
    false
}

/// Whether the entry at `i` satisfies the forest invariant.
fn wf_check_at(tasks: &Vec<Task>, i: usize) -> (r: bool)
    requires
        i < tasks@.len(),
    ensures
        r == wf_at(forest_of(tasks@), i as int),
{
    let ghost f = forest_of(tasks@);
    let t = &tasks[i];
    if t.id != i {
        return false;
    }
    match t.parent {
        Some(p) => {
            if p >= i {
                return false;
            }
            if !contains_id(&tasks[p].children, i) {
                return false;
            }
        },
        None => {},
    }
    let n = t.children.len();
    let len = tasks.len();
    let mut k: usize = 0;
    while k < n
        invariant
            f == forest_of(tasks@),
            i < f.len(),
            len == f.len(),
            n == f[i as int].children.len(),
            0 <= k <= n,
            forall|j: int| 0 <= j < k ==> i < #[trigger] f[i as int].children[j] < f.len(),
        decreases n - k,
    {
        let c = tasks[i].children[k];
        if c <= i || c >= len {
            assert(!(i < f[i as int].children[k as int] < f.len()));
            return false;
        }
        k += 1;
    }
    true
}

/// Whether the collection is a well-formed forest: every id equals its
/// position, every parent precedes its child and lists it, and every child
/// id is in range. A caller that loads a document from outside establishes
/// the mutating operations' precondition with this check.
pub fn check_forest(tasks: &Vec<Task>) -> (r: bool)
    ensures
        r == forest_wf(forest_of(tasks@)),
{
    let ghost f = forest_of(tasks@);
    let n = tasks.len();
    let mut i: usize = 0;
    while i < n
        invariant
            f == forest_of(tasks@),
            n == f.len(),
            0 <= i <= n,
            forall|j: int| 0 <= j < i ==> wf_at(f, j),
        decreases n - i,
    {
        if !wf_check_at(tasks, i) {
            return false;
        }
        i += 1;
    }
    true
}

/// The index of the first task marked active, if any.
fn find_first_active(tasks: &Vec<Task>) -> (r: Option<usize>)
    ensures
        r == first_active(forest_of(tasks@), tasks@.len() as int),
        r matches Some(a) ==> a < tasks@.len(),
{
    let ghost f = forest_of(tasks@);
    let n = tasks.len();
    let mut i: usize = 0;
    while i < n
        invariant
            f == forest_of(tasks@),
            n == tasks@.len(),
            0 <= i <= n,
            forall|j: int| 0 <= j < i ==> !f[j].active,
        decreases n - i,
    {
        if tasks[i].active {
            proof {
                lemma_first_active_found(f, i, n as int);
            }
            return Some(i);
        }
        i += 1;
    }
    proof {
        lemma_first_active_none(f, n as int);
    }
    None
}

/// Refresh `last_touched` to `now` on the task at `id` and on every ancestor
/// up to its root.
fn recursive_set_last_touched(tasks: &mut Vec<Task>, id: usize, now: u64)
    requires
        forest_wf(forest_of(old(tasks)@)),
    ensures
        forest_of(final(tasks)@) == touch_path(forest_of(old(tasks)@), id, now),
        forest_wf(forest_of(final(tasks)@)),
    decreases id,
{
    let ghost f = forest_of(tasks@);
    if id < tasks.len() {
        assert(wf_at(f, id as int));
        let parent = tasks[id].parent;
        let t = &mut tasks[id];
        t.last_touched = now;
        let ghost s1 = f.update(id as int, (TaskModel { last_touched: now, ..f[id as int] }));
        proof {
            assert(forest_of(tasks@) =~= s1);
            lemma_wf_same_structure(f, s1);
        }
        match parent {
            Some(p) => {
                assert(p < id);
                recursive_set_last_touched(tasks, p, now);
            },
            None => {},
        }
    }
}

impl TaskTree for Vec<Task> {
    open spec fn forest(&self) -> Seq<TaskModel> {
        forest_of(self@)
    }

    fn get_root_tasks(&self) -> (r: Vec<&Task>) {
        let mut r: Vec<&Task> = Vec::new();
        let n = self.len();
        assert(models_of(r@) =~= root_tasks_spec(self.forest().take(0)));
        let mut i: usize = 0;
        while i < n
            invariant
                n == self@.len(),
                0 <= i <= n,
                models_of(r@) == root_tasks_spec(self.forest().take(i as int)),
            decreases n - i,
        {
            let ghost pre = r@;
            let t = &self[i];
            if t.parent.is_none() && !t.done {
                r.push(t);
            }
            proof {
                let f = self.forest();
                assert(f.take(i + 1) =~= f.take(i as int).push(f[i as int]));
                lemma_root_tasks_push(f.take(i as int), f[i as int]);
                if t.parent is None && !t.done {
                    assert(models_of(r@) =~= models_of(pre) + seq![f[i as int]]);
                } else {
                    assert(models_of(r@) =~= models_of(pre) + Seq::<TaskModel>::empty());
                }
            }
            i += 1;
        }
        proof {
            assert(self.forest().take(n as int) =~= self.forest());
        }
        r
    }

    fn get_leaf_tasks(&self) -> (r: Vec<&Task>) {
        let mut r: Vec<&Task> = Vec::new();
        let n = self.len();
        assert(models_of(r@) =~= leaf_tasks_spec(self.forest().take(0)));
        let mut i: usize = 0;
        while i < n
            invariant
                n == self@.len(),
                0 <= i <= n,
                models_of(r@) == leaf_tasks_spec(self.forest().take(i as int)),
            decreases n - i,
        {
            let ghost pre = r@;
            let t = &self[i];
            if t.children.len() == 0 && !t.done {
                r.push(t);
            }
            proof {
                let f = self.forest();
                assert(f.take(i + 1) =~= f.take(i as int).push(f[i as int]));
                lemma_leaf_tasks_push(f.take(i as int), f[i as int]);
                if t.children@.len() == 0 && !t.done {
                    assert(models_of(r@) =~= models_of(pre) + seq![f[i as int]]);
                } else {
                    assert(models_of(r@) =~= models_of(pre) + Seq::<TaskModel>::empty());
                }
            }
            i += 1;
        }
        proof {
            assert(self.forest().take(n as int) =~= self.forest());
        }
        r
    }

    fn get_active_task(&self) -> (r: Option<&Task>) {
        let n = self.len();
        let mut i: usize = 0;
        while i < n
            invariant
                n == self@.len(),
                0 <= i <= n,
                forall|j: int| 0 <= j < i ==> !self.forest()[j].active,
            decreases n - i,
        {
            if self[i].active {
                proof {
                    lemma_first_active_found(self.forest(), i, n as int);
                }
                return Some(&self[i]);
            }
            i += 1;
        }
        proof {
            lemma_first_active_none(self.forest(), n as int);
        }
        None
    }

    fn get_leaf_descendants(&self, idx: usize) -> (r: Vec<usize>) {
        collect_leaf_descendants(self, idx)
    }

    fn render(&self) -> (r: String) {
        let ghost f = self.forest();
        let n = self.len();
        let mut s = String::new();
        let mut i: usize = 0;
        while i < n
            invariant
                f == forest_of(self@),
                n == f.len(),
                0 <= i <= n,
                s@ == print_spec(f, i as int),
            decreases n - i,
        {
            let ghost pre = s@;
            if self[i].parent.is_none() && !self[i].done {
                let line = self[i].render(0);
                s.append(line.as_str());
            }
            proof {
                if !(f[i as int].parent is None && !f[i as int].done) {
                    assert(s@ =~= pre + Seq::<char>::empty());
                }
            }
            i += 1;
        }
        s
    }

    fn render_all(&self) -> (r: String) {
        let ghost f = self.forest();
        let n = self.len();
        let mut s = String::new();
        let mut i: usize = 0;
        while i < n
            invariant
                forest_wf(f),
                f == forest_of(self@),
                n == f.len(),
                0 <= i <= n,
                s@ == print_all_spec(f, i as int),
            decreases n - i,
        {
            let ghost pre = s@;
            if self[i].parent.is_none() && !self[i].done {
                let sub = recursive_print(self, i, 0);
                s.append(sub.as_str());
            }
            proof {
                if !(f[i as int].parent is None && !f[i as int].done) {
                    assert(s@ =~= pre + Seq::<char>::empty());
                }
            }
            i += 1;
        }
        s
    }

    fn add(&mut self, value: String, parent: Option<usize>, switch: bool) {
        let ghost f0 = self.forest();
        let id = self.len();
        let switch_now = switch || (match self.get_active_task() {
            None => true,
            Some(at) => match parent {
                Some(p) => at.id == p,
                None => false,
            },
        });
        proof {
            lemma_first_active_range(f0, f0.len() as int);
            match first_active(f0, f0.len() as int) {
                Some(a) => {
                    assert(wf_at(f0, a as int));
                },
                None => {},
            }
            assert(switch_now == switches(f0, parent, switch));
        }
        let task = Task::new(id, value, parent);
        let ghost t0 = task.last_touched;
        match parent {
            Some(p) => {
                let pr = &mut self[p];
                pr.children.push(id);
            },
            None => {},
        }
        self.push(task);
        let ghost mid = append_task(f0, value@, parent, t0);
        proof {
            assert(forest_of(self@) =~= mid);
            lemma_append_task_wf(f0, value@, parent, t0);
        }
        if switch_now {
            proof {
                assert(mid.len() == f0.len() + 1);
                assert(mid[id as int].children.len() == 0);
                assert(resolve_from(mid, id) == id);
            }
            self.set_active_task(Some(id));
            proof {
                let nw = choose|now: u64| forest_of(self@) == set_active_spec(mid, Some(id), now);
                assert(forest_of(self@) == add_spec(f0, value@, parent, switch, t0, nw));
            }
        } else {
            proof {
                assert(mid.len() == f0.len() + 1);
                assert(forest_of(self@) == add_spec(f0, value@, parent, switch, t0, 0));
                assert(forall|j: int|
                    0 <= j < f0.len() ==> (#[trigger] mid[j]).active == f0[j].active);
                lemma_first_active_congruent(f0, mid, f0.len() as int);
                assert(first_active(mid, mid.len() as int) == first_active(
                    f0,
                    f0.len() as int,
                ));
            }
        }
    }

    fn done(&mut self) {
        let ghost f0 = self.forest();
        let n = self.len();
        let found = find_first_active(self);
        match found {
            None => {
                proof {
                    assert(forest_of(self@) == done_spec(f0, 0));
                }
            },
            Some(a) => {
                assert(wf_at(f0, a as int));
                let parent = self[a].parent;
                let t = &mut self[a];
                t.done = true;
                let ghost marked = f0.update(a as int, (TaskModel { done: true, ..f0[a as int] }));
                proof {
                    assert(forest_of(self@) =~= marked);
                    lemma_wf_same_structure(f0, marked);
                }
                self.set_active_task(parent);
                proof {
                    let nw = choose|now: u64|
                        forest_of(self@) == set_active_spec(marked, parent, now);
                    assert(forest_of(self@) == done_spec(f0, nw));
                }
            },
        }
    }

    fn set_active_task(&mut self, id: Option<usize>) {
        let ghost f0 = self.forest();
        let w = recursive_get_new_active_task(self, id);
        let n = self.len();
        let mut i: usize = 0;
        while i < n
            invariant
                n == self@.len(),
                n == f0.len(),
                0 <= i <= n,
                forall|j: int| 0 <= j < i ==> forest_of(self@)[j] == clear_active(f0)[j],
                forall|j: int| i <= j < n ==> forest_of(self@)[j] == f0[j],
            decreases n - i,
        {
            let t = &mut self[i];
            t.active = false;
            i += 1;
        }
        let ghost cleared = clear_active(f0);
        proof {
            assert(forest_of(self@) =~= cleared);
            lemma_wf_same_structure(f0, cleared);
        }
        match w {
            None => {
                proof {
                    lemma_first_active_none(forest_of(self@), n as int);
                    assert(forest_of(self@) == set_active_spec(f0, id, 0));
                }
            },
            Some(wid) => {
                let t = &mut self[wid];
                t.active = true;
                let ghost activated = cleared.update(
                    wid as int,
                    (TaskModel { active: true, ..cleared[wid as int] }),
                );
                proof {
                    assert(forest_of(self@) =~= activated);
                    lemma_wf_same_structure(cleared, activated);
                }
                let now = now_millis();
                recursive_set_last_touched(self, wid, now);
                proof {
                    assert(forest_of(self@) == touch_path(activated, wid, now));
                    assert(forest_of(self@) == set_active_spec(f0, id, now));
                    lemma_touch_path_frame(activated, wid, now);
                    assert(forest_of(self@).len() == f0.len());
                    assert(forall|j: int|
                        0 <= j < n && j != wid ==> !(#[trigger] forest_of(self@)[j]).active);
                    assert(forest_of(self@)[wid as int].active);
                    lemma_first_active_found(forest_of(self@), wid, n as int);
                }
            },
        }
    }

    fn get_root(&self, id: usize) -> (r: Result<usize, RootNotFound>) {
        if id >= self.len() {
            return Err(RootNotFound {});
        }
        let mut cur: usize = id;
        loop
            invariant
                forest_wf(self.forest()),
                cur < self.forest().len(),
                root_of(self.forest(), cur) == root_of(self.forest(), id),
            decreases cur,
        {
            assert(wf_at(self.forest(), cur as int));
            match self[cur].parent {
                None => {
                    return Ok(cur);
                },
                Some(p) => {
                    cur = p;
                },
            }
        }
    }
}

} // verus!

//! Removal from the task tree, stated on the tree as a map: which tasks a
//! render pass prunes, what the tree is without a set of tasks, and why
//! pruning keeps the tree's invariants.
use crate::model::{
    cancelled_all, children_ok, linked, parent_of, well_formed, within, TaskState,
};
use crate::retention::Retention;
use crate::task::TaskId;
use vstd::prelude::*;

verus! {

/// The identities of `s` that are not in `gone`, in the order of `s`.
pub open spec fn keep(s: Seq<TaskId>, gone: Set<TaskId>) -> Seq<TaskId>
    decreases s.len(),
{
    if s.len() == 0 {
        Seq::empty()
    } else if gone.contains(s.last()) {
        keep(s.drop_last(), gone)
    } else {
        keep(s.drop_last(), gone).push(s.last())
    }
}

/// The tree without the tasks of `gone`: they leave the map, and they leave
/// the child set of every task that stays.
pub open spec fn without<T, E>(m: Map<TaskId, TaskState<T, E>>, gone: Set<TaskId>) -> Map<
    TaskId,
    TaskState<T, E>,
> {
    Map::new(
        |id: TaskId| m.contains_key(id) && !gone.contains(id),
        |id: TaskId| TaskState { subtasks: keep(m[id].subtasks, gone), ..m[id] },
    )
}

/// Whether `id` is the task `top` or stands below it.
pub open spec fn below<T, E>(m: Map<TaskId, TaskState<T, E>>, top: TaskId, id: TaskId) -> bool
    decreases m[id].depth,
{
    if !m.contains_key(id) {
        false
    } else if id == top {
        true
    } else {
        match m[id].parent {
            Some(p) => if m.contains_key(p) && m[p].depth < m[id].depth {
                below(m, top, p)
            } else {
                false
            },
            None => false,
        }
    }
}

/// The task `top` and every task below it.
pub open spec fn subtree<T, E>(m: Map<TaskId, TaskState<T, E>>, top: TaskId) -> Set<TaskId> {
    Set::new(|id: TaskId| below(m, top, id))
}

/// Whether a render pass prunes `id`: it is a child of the root that is
/// completed or cancelled, or it stands below such a child.
pub open spec fn doomed<T, E>(m: Map<TaskId, TaskState<T, E>>, id: TaskId) -> bool
    decreases m[id].depth,
{
    if !m.contains_key(id) || id == TaskId::root() {
        false
    } else {
        match m[id].parent {
            Some(p) => if m.contains_key(p) && m[p].depth < m[id].depth {
                doomed(m, p)
            } else {
                false
            },
            None => m[id].done(),
        }
    }
}

/// The tasks that a render pass prunes.
pub open spec fn doomed_set<T, E>(m: Map<TaskId, TaskState<T, E>>) -> Set<TaskId> {
    Set::new(|id: TaskId| doomed(m, id))
}

/// The tree after the root's buffer was emptied.
pub open spec fn flushed<T, E>(m: Map<TaskId, TaskState<T, E>>) -> Map<TaskId, TaskState<T, E>> {
    m.insert(TaskId::root(), TaskState { events: Seq::empty(), ..m[TaskId::root()] })
}

/// The tree after a render pass: the root's buffer is empty, and every
/// completed or cancelled child of the root is gone with all that stood
/// below it.
pub open spec fn pruned<T, E>(m: Map<TaskId, TaskState<T, E>>) -> Map<TaskId, TaskState<T, E>> {
    without(flushed(m), doomed_set(m))
}

/// The tree without the childless task `x`.
pub open spec fn dropped<T, E>(m: Map<TaskId, TaskState<T, E>>, x: TaskId) -> Map<
    TaskId,
    TaskState<T, E>,
> {
    let p = parent_of(m, x);
    let kids = m[p].subtasks;
    m.remove(x).insert(p, TaskState { subtasks: kids.remove(kids.index_of(x)), ..m[p] })
}

/// What `keep` holds: the identities of `s` outside `gone`, none twice if
/// `s` has none twice.
pub proof fn lemma_keep(s: Seq<TaskId>, gone: Set<TaskId>)
    ensures
        keep(s, gone).len() <= s.len(),
        forall|c: TaskId| #[trigger] keep(s, gone).contains(c) <==> s.contains(c) && !gone.contains(c),
        s.no_duplicates() ==> keep(s, gone).no_duplicates(),
    decreases s.len(),
{
    if s.len() > 0 {
        let t = s.drop_last();
        let last = s.last();
        lemma_keep(t, gone);
        let r = keep(t, gone);
        assert forall|c: TaskId| #[trigger] keep(s, gone).contains(c) <==> s.contains(c)
            && !gone.contains(c) by {
            if s.contains(c) {
                let i = choose|i: int| 0 <= i < s.len() && s[i] == c;
                if i < t.len() {
                    assert(t[i] == c);
                }
            }
            if t.contains(c) {
                let i = choose|i: int| 0 <= i < t.len() && t[i] == c;
                assert(s[i] == c);
            }
            assert(s[s.len() - 1] == last);
            if !gone.contains(last) {
                assert(keep(s, gone) == r.push(last));
                if r.contains(c) {
                    let i = choose|i: int| 0 <= i < r.len() && r[i] == c;
                    assert(r.push(last)[i] == c);
                }
                if c == last {
                    assert(r.push(last)[r.len() as int] == c);
                }
                if r.push(last).contains(c) {
                    let i = choose|i: int| 0 <= i < r.push(last).len() && r.push(last)[i] == c;
                    if i < r.len() {
                        assert(r[i] == c);
                    }
                }
            }
        }
        if s.no_duplicates() {
            assert(t.no_duplicates());
            if !gone.contains(last) {
                if r.contains(last) {
                    let i = choose|i: int| 0 <= i < t.len() && t[i] == last;
                    assert(s[i] == s[s.len() - 1]);
                }
                assert(r.push(last).no_duplicates());
            }
        }
    }
}

/// An identity that `s` does not hold makes no difference to what is kept.
pub proof fn lemma_keep_absent(s: Seq<TaskId>, gone: Set<TaskId>, x: TaskId)
    requires
        !s.contains(x),
    ensures
        keep(s, gone.insert(x)) == keep(s, gone),
    decreases s.len(),
{
    if s.len() > 0 {
        let t = s.drop_last();
        assert(s[s.len() - 1] == s.last());
        assert forall|i: int| 0 <= i < t.len() implies t[i] != x by {
            assert(s[i] == t[i]);
        }
        lemma_keep_absent(t, gone, x);
    }
}

/// Taking one more identity of `s` out removes it from what was kept and
/// leaves the others in place.
pub proof fn lemma_keep_present(s: Seq<TaskId>, gone: Set<TaskId>, x: TaskId)
    requires
        s.no_duplicates(),
        s.contains(x),
        !gone.contains(x),
    ensures
        keep(s, gone).contains(x),
        keep(s, gone.insert(x)) == keep(s, gone).remove(keep(s, gone).index_of(x)),
    decreases s.len(),
{
    let t = s.drop_last();
    let last = s.last();
    let r = keep(s, gone);
    let rt = keep(t, gone);
    lemma_keep(s, gone);
    lemma_keep(t, gone);
    assert(t.no_duplicates());
    assert(r.contains(x));
    assert(r.no_duplicates());
    let j = r.index_of(x);
    assert(0 <= j < r.len() && r[j] == x);
    if last == x {
        assert(!t.contains(x)) by {
            if t.contains(x) {
                let i = choose|i: int| 0 <= i < t.len() && t[i] == x;
                assert(s[i] == s[s.len() - 1]);
            }
        }
        lemma_keep_absent(t, gone, x);
        assert(r == rt.push(x));
        assert(r[rt.len() as int] == x);
        assert(j == rt.len());
        assert(r.remove(j) =~= rt);
    } else {
        assert(t.contains(x)) by {
            let i = choose|i: int| 0 <= i < s.len() && s[i] == x;
            assert(t[i] == x);
        }
        lemma_keep_present(t, gone, x);
        assert(rt.contains(x));
        let jt = rt.index_of(x);
        assert(0 <= jt < rt.len() && rt[jt] == x);
        if gone.contains(last) {
        } else {
            assert(r == rt.push(last));
            assert(r[jt] == x);
            assert(j == jt);
            assert(keep(s, gone.insert(x)) == rt.remove(jt).push(last));
            assert(rt.remove(jt).push(last) =~= r.remove(j));
        }
    }
}

/// Nothing is kept of a sequence whose identities are all gone.
pub proof fn lemma_keep_none(s: Seq<TaskId>, gone: Set<TaskId>)
    requires
        forall|i: int| 0 <= i < s.len() ==> gone.contains(#[trigger] s[i]),
    ensures
        keep(s, gone) == Seq::<TaskId>::empty(),
    decreases s.len(),
{
    if s.len() > 0 {
        let t = s.drop_last();
        assert(gone.contains(s[s.len() - 1]));
        assert forall|i: int| 0 <= i < t.len() implies gone.contains(#[trigger] t[i]) by {
            assert(t[i] == s[i]);
        }
        lemma_keep_none(t, gone);
    }
}

/// All is kept of a sequence none of whose identities is gone.
pub proof fn lemma_keep_all(s: Seq<TaskId>, gone: Set<TaskId>)
    requires
        forall|i: int| 0 <= i < s.len() ==> !gone.contains(#[trigger] s[i]),
    ensures
        keep(s, gone) == s,
    decreases s.len(),
{
    if s.len() > 0 {
        let t = s.drop_last();
        assert(!gone.contains(s[s.len() - 1]));
        assert forall|i: int| 0 <= i < t.len() implies !gone.contains(#[trigger] t[i]) by {
            assert(t[i] == s[i]);
        }
        lemma_keep_all(t, gone);
        assert(t.push(s.last()) =~= s);
    }
}

/// Dropping a childless task other than the root keeps the tree's
/// invariants and every buffer's bound.
pub proof fn lemma_dropped<T, E>(m: Map<TaskId, TaskState<T, E>>, x: TaskId)
    requires
        well_formed(m),
        m.contains_key(x),
        x != TaskId::root(),
        m[x].subtasks.len() == 0,
    ensures
        well_formed(dropped(m, x)),
        dropped(m, x).dom() == m.dom().remove(x),
        forall|rule: Retention| within(m, rule) ==> within(dropped(m, x), rule),
{
    let n = dropped(m, x);
    let p = parent_of(m, x);
    assert(linked(m, x));
    assert(children_ok(m, p));
    let kids = m[p].subtasks;
    let j = kids.index_of(x);
    assert(0 <= j < kids.len() && kids[j] == x);
    let rest = kids.remove(j);
    assert(n.dom() =~= m.dom().remove(x));
    assert(n[p].subtasks == rest);
    assert forall|q: TaskId| #[trigger] n.contains_key(q) && q != TaskId::root() implies linked(
        n,
        q,
    ) by {
        assert(m.contains_key(q));
        assert(linked(m, q));
        let pq = parent_of(m, q);
        assert(parent_of(n, q) == pq);
        let k = choose|k: int| 0 <= k < m[pq].subtasks.len() && m[pq].subtasks[k] == q;
        assert(pq != x);
        if pq == p {
            if k < j {
                assert(rest[k] == q);
            } else {
                assert(rest[k - 1] == q);
            }
        }
    }
    assert forall|q: TaskId| #[trigger] n.contains_key(q) implies children_ok(n, q) by {
        assert(m.contains_key(q));
        assert(children_ok(m, q));
        if q == p {
            assert forall|i: int| 0 <= i < rest.len() implies {
                let c = #[trigger] rest[i];
                n.contains_key(c) && c != TaskId::root() && parent_of(n, c) == q
            } by {
                if i < j {
                    assert(rest[i] == kids[i]);
                } else {
                    assert(rest[i] == kids[i + 1]);
                }
            }
            assert(rest.no_duplicates());
        } else {
            assert forall|i: int| 0 <= i < n[q].subtasks.len() implies {
                let c = #[trigger] n[q].subtasks[i];
                n.contains_key(c) && c != TaskId::root() && parent_of(n, c) == q
            } by {
                let c = m[q].subtasks[i];
                assert(m.contains_key(c) && parent_of(m, c) == q);
            }
        }
    }
    assert forall|rule: Retention| within(m, rule) implies within(n, rule) by {
        assert forall|q: TaskId| #[trigger]
            n.contains_key(q) && q != TaskId::root() implies rule.admits(n[q].events.len()) by {
            assert(m.contains_key(q));
        }
    }
}

/// Dropping one more task from a tree that is already without the tasks of
/// `gone` gives the tree without `gone` and that task.
pub proof fn lemma_without_step<T, E>(
    m: Map<TaskId, TaskState<T, E>>,
    gone: Set<TaskId>,
    x: TaskId,
)
    requires
        well_formed(m),
        m.contains_key(x),
        x != TaskId::root(),
        !gone.contains(x),
        !gone.contains(parent_of(m, x)),
    ensures
        dropped(without(m, gone), x) == without(m, gone.insert(x)),
{
    let m1 = without(m, gone);
    let p = parent_of(m, x);
    assert(linked(m, x));
    assert(children_ok(m, p));
    assert(parent_of(m1, x) == p);
    let left = dropped(m1, x);
    let right = without(m, gone.insert(x));
    lemma_keep_present(m[p].subtasks, gone, x);
    assert forall|k: TaskId| right.contains_key(k) implies left[k] == right[k] by {
        if k != p {
            assert(children_ok(m, k));
            if m[k].subtasks.contains(x) {
                let i = choose|i: int| 0 <= i < m[k].subtasks.len() && m[k].subtasks[i] == x;
                assert(parent_of(m, m[k].subtasks[i]) == k);
            }
            lemma_keep_absent(m[k].subtasks, gone, x);
        }
    }
    assert(left =~= right);
}

/// Emptying the root's buffer does not change which tasks a render pass
/// prunes.
pub proof fn lemma_doomed_flushed<T, E>(m: Map<TaskId, TaskState<T, E>>, id: TaskId)
    requires
        m.contains_key(TaskId::root()),
    ensures
        doomed(flushed(m), id) == doomed(m, id),
    decreases m[id].depth,
{
    if m.contains_key(id) && id != TaskId::root() {
        match m[id].parent {
            Some(p) => {
                if m.contains_key(p) && m[p].depth < m[id].depth {
                    lemma_doomed_flushed(m, p);
                }
            },
            None => {},
        }
    }
}

/// The tree without a set of tasks keeps the tree's invariants, provided
/// the set spares the root and holds every child of a task it holds.
pub proof fn lemma_without<T, E>(m: Map<TaskId, TaskState<T, E>>, gone: Set<TaskId>)
    requires
        well_formed(m),
        !gone.contains(TaskId::root()),
        forall|id: TaskId|
            m.contains_key(id) && id != TaskId::root() && gone.contains(#[trigger] parent_of(m, id))
                ==> gone.contains(id),
    ensures
        well_formed(without(m, gone)),
        forall|rule: Retention| within(m, rule) ==> within(without(m, gone), rule),
{
    let n = without(m, gone);
    assert(n.dom().subset_of(m.dom()));
    vstd::set_lib::lemma_len_subset(n.dom(), m.dom());
    assert forall|q: TaskId| #[trigger] n.contains_key(q) && q != TaskId::root() implies linked(
        n,
        q,
    ) by {
        assert(m.contains_key(q));
        assert(linked(m, q));
        let pq = parent_of(m, q);
        assert(!gone.contains(pq));
        lemma_keep(m[pq].subtasks, gone);
        assert(keep(m[pq].subtasks, gone).contains(q));
    }
    assert forall|q: TaskId| #[trigger] n.contains_key(q) implies children_ok(n, q) by {
        assert(m.contains_key(q));
        assert(children_ok(m, q));
        lemma_keep(m[q].subtasks, gone);
        let kept = keep(m[q].subtasks, gone);
        assert forall|i: int| 0 <= i < kept.len() implies {
            let c = #[trigger] kept[i];
            n.contains_key(c) && c != TaskId::root() && parent_of(n, c) == q
        } by {
            let c = kept[i];
            assert(kept.contains(c));
            assert(m[q].subtasks.contains(c));
            let k = choose|k: int| 0 <= k < m[q].subtasks.len() && m[q].subtasks[k] == c;
            assert(m.contains_key(m[q].subtasks[k]));
        }
    }
    assert forall|rule: Retention| within(m, rule) implies within(n, rule) by {
        assert forall|q: TaskId| #[trigger]
            n.contains_key(q) && q != TaskId::root() implies rule.admits(n[q].events.len()) by {
            assert(m.contains_key(q));
        }
    }
}

/// A task below a pruned task is pruned with it.
pub proof fn lemma_doomed_below<T, E>(m: Map<TaskId, TaskState<T, E>>, top: TaskId, id: TaskId)
    requires
        well_formed(m),
        doomed(m, top),
        below(m, top, id),
    ensures
        doomed(m, id),
    decreases m[id].depth,
{
    if id != top {
        assert(m.contains_key(id));
        if id != TaskId::root() {
            assert(linked(m, id));
        }
        match m[id].parent {
            Some(p) => {
                lemma_doomed_below(m, top, p);
            },
            None => {},
        }
    }
}

/// What a render pass does to a well-formed tree.
///
/// The pruned tree is well formed again. A child of the root that was
/// completed or cancelled is gone, and so is every task that stood below
/// it. The root keeps its place with an empty buffer; every other task
/// that was not pruned keeps its state, child set included.
pub proof fn lemma_pruned<T, E>(m: Map<TaskId, TaskState<T, E>>)
    requires
        well_formed(m),
    ensures
        well_formed(pruned(m)),
        forall|rule: Retention| within(m, rule) ==> within(pruned(m), rule),
        pruned(m)[TaskId::root()].events == Seq::<E>::empty(),
        forall|top: TaskId, id: TaskId|
            m.contains_key(top) && top != TaskId::root() && m[top].parent.is_none()
                && m[top].done() && #[trigger] below(m, top, id) ==> !pruned(m).contains_key(id),
        forall|id: TaskId|
            m.contains_key(id) && !doomed(m, id) ==> #[trigger] pruned(m).contains_key(id),
        forall|id: TaskId|
            id != TaskId::root() && #[trigger] pruned(m).contains_key(id) ==> pruned(m)[id]
                == m[id],
{
    let f = flushed(m);
    let gone = doomed_set(m);
    assert(f.dom() =~= m.dom());
    lemma_same_shape_flushed(m);
    assert forall|id: TaskId|
        f.contains_key(id) && id != TaskId::root() && gone.contains(
            #[trigger] parent_of(f, id),
        ) implies gone.contains(id) by {
        assert(m.contains_key(id));
        assert(linked(m, id));
    }
    lemma_without(f, gone);
    assert forall|rule: Retention| within(m, rule) implies within(pruned(m), rule) by {
        assert forall|q: TaskId| #[trigger]
            pruned(m).contains_key(q) && q != TaskId::root() implies rule.admits(
            pruned(m)[q].events.len(),
        ) by {
            assert(m.contains_key(q));
        }
    }
    assert forall|top: TaskId, id: TaskId|
        m.contains_key(top) && top != TaskId::root() && m[top].parent.is_none() && m[top].done()
            && #[trigger] below(m, top, id) implies !pruned(m).contains_key(id) by {
        lemma_doomed_below(m, top, id);
    }
    assert forall|id: TaskId|
        id != TaskId::root() && #[trigger] pruned(m).contains_key(id) implies pruned(m)[id]
            == m[id] by {
        assert(m.contains_key(id));
        assert(children_ok(m, id));
        assert forall|i: int| 0 <= i < m[id].subtasks.len() implies !gone.contains(
            #[trigger] m[id].subtasks[i],
        ) by {
            let c = m[id].subtasks[i];
            assert(m.contains_key(c) && c != TaskId::root() && parent_of(m, c) == id);
            assert(linked(m, c));
        }
        lemma_keep_all(m[id].subtasks, gone);
    }
}

/// Emptying the root's buffer keeps the tree's invariants.
pub proof fn lemma_same_shape_flushed<T, E>(m: Map<TaskId, TaskState<T, E>>)
    requires
        well_formed(m),
    ensures
        well_formed(flushed(m)),
{
    assert(flushed(m).dom() =~= m.dom());
    crate::model::lemma_same_shape(m, flushed(m));
}

/// Once every task is cancelled, one render pass leaves only the root: the
/// closing frame shows every open task as cancelled, and nothing is left
/// to draw after it.
pub proof fn lemma_cancel_then_prune<T, E>(m: Map<TaskId, TaskState<T, E>>)
    requires
        well_formed(m),
    ensures
        pruned(cancelled_all(m)).dom() == set![TaskId::root()],
{
    let c = cancelled_all(m);
    crate::model::lemma_cancelled_all(m);
    assert forall|id: TaskId| c.contains_key(id) && id != TaskId::root() implies doomed(c, id) by {
        lemma_all_doomed(m, id);
    }
    assert(pruned(c).dom() =~= set![TaskId::root()]);
}

/// In a tree where every task is cancelled, every task but the root is
/// pruned.
proof fn lemma_all_doomed<T, E>(m: Map<TaskId, TaskState<T, E>>, id: TaskId)
    requires
        well_formed(m),
        well_formed(cancelled_all(m)),
        m.contains_key(id),
        id != TaskId::root(),
    ensures
        doomed(cancelled_all(m), id),
    decreases m[id].depth,
{
    let c = cancelled_all(m);
    assert(c.contains_key(id));
    assert(linked(c, id));
    match c[id].parent {
        Some(p) => {
            assert(p == parent_of(c, id));
            assert(c.contains_key(p));
            lemma_all_doomed(m, p);
        },
        None => {},
    }
}

/// The child of the root at or above `id`.
pub open spec fn top_of<T, E>(m: Map<TaskId, TaskState<T, E>>, id: TaskId) -> TaskId
    decreases m[id].depth,
{
    match m[id].parent {
        Some(p) => if m.contains_key(p) && m[p].depth < m[id].depth {
            top_of(m, p)
        } else {
            id
        },
        None => id,
    }
}

/// Every task but the root is reached from the root's child set: it is a
/// child of the root or stands below one. A task is pruned exactly when
/// that child is completed or cancelled.
pub proof fn lemma_rooted<T, E>(m: Map<TaskId, TaskState<T, E>>, id: TaskId)
    requires
        well_formed(m),
        m.contains_key(id),
        id != TaskId::root(),
    ensures
        m[TaskId::root()].subtasks.contains(top_of(m, id)),
        below(m, top_of(m, id), id),
        doomed(m, id) == m[top_of(m, id)].done(),
    decreases m[id].depth,
{
    assert(linked(m, id));
    match m[id].parent {
        Some(p) => {
            assert(p == parent_of(m, id));
            lemma_rooted(m, p);
        },
        None => {},
    }
}

/// The identities of `s` whose task is completed or cancelled, where
/// `done` asks for those, or the others, in the order of `s`.
pub open spec fn settled<T, E>(m: Map<TaskId, TaskState<T, E>>, s: Seq<TaskId>, done: bool) -> Seq<
    TaskId,
>
    decreases s.len(),
{
    if s.len() == 0 {
        Seq::empty()
    } else if m[s.last()].done() == done {
        settled(m, s.drop_last(), done).push(s.last())
    } else {
        settled(m, s.drop_last(), done)
    }
}

/// Of children of the root, a render pass keeps those that are neither
/// completed nor cancelled.
pub proof fn lemma_keep_open<T, E>(m: Map<TaskId, TaskState<T, E>>, s: Seq<TaskId>)
    requires
        forall|i: int|
            0 <= i < s.len() ==> m.contains_key(#[trigger] s[i]) && s[i] != TaskId::root()
                && m[s[i]].parent.is_none(),
    ensures
        keep(s, doomed_set(m)) == settled(m, s, false),
    decreases s.len(),
{
    if s.len() > 0 {
        let t = s.drop_last();
        assert forall|i: int| 0 <= i < t.len() implies m.contains_key(#[trigger] t[i]) && t[i]
            != TaskId::root() && m[t[i]].parent.is_none() by {
            assert(t[i] == s[i]);
        }
        lemma_keep_open(m, t);
        assert(s[s.len() - 1] == s.last());
        assert(doomed(m, s.last()) == m[s.last()].done());
    }
}

/// After a render pass, the root's children are those that were neither
/// completed nor cancelled, in the order they had: the tasks of the live
/// region.
pub proof fn lemma_pruned_root<T, E>(m: Map<TaskId, TaskState<T, E>>)
    requires
        well_formed(m),
    ensures
        pruned(m)[TaskId::root()].subtasks == settled(m, m[TaskId::root()].subtasks, false),
{
    let kids = m[TaskId::root()].subtasks;
    assert(children_ok(m, TaskId::root()));
    assert forall|i: int| 0 <= i < kids.len() implies m.contains_key(#[trigger] kids[i])
        && kids[i] != TaskId::root() && m[kids[i]].parent.is_none() by {
        let c = kids[i];
        assert(m.contains_key(c) && parent_of(m, c) == TaskId::root());
        assert(linked(m, c));
    }
    lemma_keep_open(m, kids);
}

/// Each identity that was picked stands in the sequence it was picked
/// from.
pub proof fn lemma_settled<T, E>(
    m: Map<TaskId, TaskState<T, E>>,
    s: Seq<TaskId>,
    done: bool,
    i: int,
)
    requires
        0 <= i < settled(m, s, done).len(),
    ensures
        s.contains(settled(m, s, done)[i]),
        m[settled(m, s, done)[i]].done() == done,
    decreases s.len(),
{
    if s.len() > 0 {
        let t = s.drop_last();
        assert(s[s.len() - 1] == s.last());
        if i < settled(m, t, done).len() {
            lemma_settled(m, t, done, i);
            let c = settled(m, t, done)[i];
            let k = choose|k: int| 0 <= k < t.len() && t[k] == c;
            assert(s[k] == c);
        }
    }
}

/// Emptying the root's buffer does not change which children are picked.
pub proof fn lemma_settled_flushed<T, E>(m: Map<TaskId, TaskState<T, E>>, s: Seq<TaskId>, done: bool)
    ensures
        settled(flushed(m), s, done) == settled(m, s, done),
    decreases s.len(),
{
    if s.len() > 0 {
        lemma_settled_flushed(m, s.drop_last(), done);
    }
}

} // verus!

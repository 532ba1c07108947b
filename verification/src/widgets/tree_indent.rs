//! Tree-drawing prefixes.
use crate::model::{children_ok, linked, parent_of, well_formed, TaskState};
use crate::task::TaskId;
use crate::view::TaskView;
use vstd::prelude::*;
use vstd::string::StringExecFns;

verus! {

/// Whether `id` is the last child of its parent.
pub open spec fn is_last<T, E>(m: Map<TaskId, TaskState<T, E>>, id: TaskId) -> bool {
    let kids = m[parent_of(m, id)].subtasks;
    kids.len() > 0 && kids[kids.len() - 1] == id
}

/// For each task on the way from the root's child down to `id`, whether it
/// is the last child of its parent. Empty for the root.
pub open spec fn branch<T, E>(m: Map<TaskId, TaskState<T, E>>, id: TaskId) -> Seq<bool>
    decreases m[id].depth,
{
    if !m.contains_key(id) || id == TaskId::root() {
        Seq::empty()
    } else {
        match m[id].parent {
            Some(p) => if m.contains_key(p) && m[p].depth < m[id].depth {
                branch(m, p).push(is_last(m, id))
            } else {
                seq![is_last(m, id)]
            },
            None => seq![is_last(m, id)],
        }
    }
}

/// The columns drawn for the ancestors of a task: blank below an ancestor
/// that was a last child, a vertical bar below any other.
pub open spec fn stem(flags: Seq<bool>) -> Seq<char>
    decreases flags.len(),
{
    if flags.len() == 0 {
        Seq::empty()
    } else {
        stem(flags.drop_last()) + if flags.last() {
            "    "@
        } else {
            "│   "@
        }
    }
}

/// The prefix drawn before a task: the columns of its ancestors, then a
/// corner for a last child or a tee for any other. Nothing for the root.
pub open spec fn prefix(flags: Seq<bool>) -> Seq<char> {
    if flags.len() == 0 {
        Seq::empty()
    } else {
        stem(flags.drop_last()) + if flags.last() {
            "└── "@
        } else {
            "├── "@
        }
    }
}

/// The flags of `s`, last first.
pub open spec fn reversed(s: Seq<bool>) -> Seq<bool> {
    Seq::new(s.len(), |i: int| s[s.len() - 1 - i])
}

/// Tree-drawing characters for a task's position in the hierarchy.
///
/// ```text
/// root task
/// ├── child 1
/// │   ├── grandchild a
/// │   └── grandchild b
/// └── child 2
/// ```
pub struct TreeIndent(pub String);

impl View for TreeIndent {
    type V = Seq<char>;

    open spec fn view(&self) -> Seq<char> {
        self.0@
    }
}

impl TreeIndent {
    /// The prefix for `task`: one column for each task on the way from the
    /// root's child down to it.
    pub fn of<T, E>(task: &TaskView<'_, T, E>) -> (r: Self)
        requires
            task.valid(),
        ensures
            r@ == prefix(branch(task.tree(), task.task_id())),
    {
        let ghost tree = task.tree();
        let ghost start = task.task_id();
        proof {
            task.lemma_valid();
        }
        if task.id().is_root() {
            return Self(String::new());
        }
        // Walk up the tree by identity. At each level, record whether the
        // node is the last sibling.

        let mut segments: Vec<bool> = Vec::new();
        let mut current = task.view(task.id());
        let mut climbing = true;
        assert(branch(tree, start) =~= branch(tree, start) + reversed(segments@));
        while climbing
            invariant
                task.valid(),
                tree == task.tree(),
                start == task.task_id(),
                well_formed(tree),
                current.valid(),
                current.tree() == tree,
                current.task_id() != TaskId::root(),
                climbing ==> branch(tree, start) == branch(tree, current.task_id()) + reversed(
                    segments@,
                ),
                !climbing ==> branch(tree, start) == reversed(segments@),
            decreases current.state().depth + if climbing { 1nat } else { 0nat },
        {
            let ghost id = current.task_id();
            let ghost before = segments@;
            proof {
                current.lemma_valid();
                assert(linked(tree, id));
                assert(children_ok(tree, parent_of(tree, id)));
            }
            let index = current.index();
            let above = match current.parent() {
                Some(parent) => Some((parent.id(), parent.subtask_count())),
                None => None,
            };
            match above {
                Some((pid, count)) => {
                    let last = index == count - 1;
                    segments.push(last);
                    proof {
                        assert(last == is_last(tree, id));
                        assert(reversed(segments@) =~= seq![last] + reversed(before));
                        assert(branch(tree, id) == branch(tree, pid).push(last));
                        assert(branch(tree, pid).push(last) + reversed(before) =~= branch(
                            tree,
                            pid,
                        ) + reversed(segments@));
                        assert(linked(tree, id));
                    }
                    current = task.view(pid);
                },
                None => {
                    let count = task.view(TaskId::root()).subtask_count();
                    let last = index == count - 1;
                    segments.push(last);
                    proof {
                        assert(last == is_last(tree, id));
                        assert(reversed(segments@) =~= seq![last] + reversed(before));
                        assert(branch(tree, id) == seq![last]);
                    }
                    climbing = false;
                },
            }
        }
        let ghost flags = branch(tree, start);
        let count = segments.len();
        let mut out = String::new();
        let mut i: usize = 0;
        while i + 1 < count
            invariant
                count == segments@.len(),
                flags == reversed(segments@),
                i < count,
                out@ == stem(flags.take(i as int)),
            decreases count - i,
        {
            let last = segments[count - 1 - i];
            proof {
                assert(flags.take(i + 1).drop_last() =~= flags.take(i as int));
                assert(flags.take(i + 1).last() == last);
            }
            if last {
                out.append("    ");
            } else {
                out.append("│   ");
            }
            i += 1;
        }
        proof {
            assert(flags.drop_last() =~= flags.take(i as int));
            assert(flags.last() == segments@[0]);
        }
        if segments[0] {
            out.append("└── ");
        } else {
            out.append("├── ");
        }
        Self(out)
    }

    /// The prefix as text.
    pub fn as_str(&self) -> (r: &str)
        ensures
            r@ == self@,
    {
        self.0.as_str()
    }
}

} // verus!

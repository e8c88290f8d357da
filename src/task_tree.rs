//! The hierarchy of an indented list of lines: each line becomes a node,
//! under the nearest earlier line that is indented less.

use vstd::prelude::*;
use vstd::pervasive::VecAdditionalExecFns;
use crate::scanner::{first_line, line_step, StrScanner};
use crate::task::{task_of, Task, TaskView};
use crate::text::{chars_of, string_of, string_range, trim, trim_range};
use crate::utils::{tab_len, tab_len_in};

verus! {

/// What a line of the hierarchy holds.
#[derive(Debug, PartialEq, Clone)]
pub enum TaskTreeNode {
    Task(Task),
    Label(String),
    CommitNote(String),
}

/// A node as plain values.
pub enum NodeView {
    Task(TaskView),
    Label(Seq<char>),
    CommitNote(Seq<char>),
}

impl View for TaskTreeNode {
    type V = NodeView;

    open spec fn view(&self) -> NodeView {
        match self {
            TaskTreeNode::Task(t) => NodeView::Task(t@),
            TaskTreeNode::Label(l) => NodeView::Label(l@),
            TaskTreeNode::CommitNote(c) => NodeView::CommitNote(c@),
        }
    }
}

/// A node of the arena: its value, its indentation, the index of its
/// parent and the indices of its children in source order.
#[derive(Debug, PartialEq, Clone)]
pub struct TreeNode {
    pub value: TaskTreeNode,
    pub depth: usize,
    pub parent: usize,
    pub children: Vec<usize>,
}

/// A tree of lines; node 0 is the root, `Label("root")`, and node `i` is
/// the `i`-th non-blank line.
#[derive(Debug, PartialEq, Clone)]
pub struct TaskTree {
    pub nodes: Vec<TreeNode>,
}

/// The non-blank lines of `s` from position `pos`, without trailing whitespace.
pub open spec fn tree_lines(s: Seq<char>, pos: int) -> Seq<Seq<char>>
    decreases s.len() - pos,
{
    if pos < 0 || pos >= s.len() {
        Seq::empty()
    } else {
        let r = s.skip(pos);
        let l = first_line(r);
        let step = line_step(r);
        if step <= 0 || pos + step > s.len() {
            Seq::empty()
        } else if trim(l).len() == 0 {
            tree_lines(s, pos + step)
        } else {
            seq![l] + tree_lines(s, pos + step)
        }
    }
}

/// The node that a line makes: a task where it parses as one, else a label
/// holding the trimmed text.
pub open spec fn node_of(l: Seq<char>) -> NodeView {
    match task_of(l) {
        Ok(t) => NodeView::Task(t),
        Err(_) => NodeView::Label(trim(l)),
    }
}

impl TaskTree {
    /// Node `p` is the parent that node `i` must have: the nearest earlier
    /// node indented less, or the root.
    pub open spec fn is_parent(&self, i: int, p: int) -> bool {
        &&& 0 <= p < i
        &&& (p == 0 || self.nodes@[p].depth < self.nodes@[i].depth)
        &&& forall|j: int| p < j < i ==> self.nodes@[j].depth >= #[trigger] self.nodes@[i].depth
    }

    /// Parents are as `is_parent` says, and each node lists exactly its
    /// children, in increasing order.
    pub open spec fn wf(&self) -> bool {
        &&& self.nodes@.len() >= 1
        &&& self.nodes@[0].parent == 0
        &&& forall|i: int| 1 <= i < self.nodes@.len() ==> self.is_parent(i, #[trigger] self.nodes@[i].parent as int)
        &&& forall|k: int, x: usize|
            0 <= k < self.nodes@.len() ==> (#[trigger] self.nodes@[k].children@.contains(x) <==> (1
                <= x < self.nodes@.len() && self.nodes@[x as int].parent == k))
        &&& forall|k: int, a: int, b: int|
            0 <= k < self.nodes@.len() && 0 <= a < b < self.nodes@[k].children@.len()
                ==> #[trigger] self.nodes@[k].children@[a] < #[trigger] self.nodes@[k].children@[b]
    }

    /// Node `i` stands for the line `l`.
    pub open spec fn holds_line(&self, i: int, l: Seq<char>) -> bool {
        &&& self.nodes@[i].value@ == node_of(l)
        &&& self.nodes@[i].depth == tab_len(l)
    }

    /// Builds the tree of the lines of `s`. Blank lines are skipped; a line
    /// goes under the nearest earlier line indented less, after its
    /// earlier children.
    pub fn parse(s: &str) -> (r: TaskTree)
        ensures
            r.wf(),
            r.nodes@[0].value@ == NodeView::Label("root"@),
            r.nodes@.len() == tree_lines(s@, 0).len() + 1,
            forall|i: int|
                1 <= i < r.nodes@.len() ==> r.holds_line(i, #[trigger] tree_lines(s@, 0)[i - 1]),
    {
        let root = TreeNode {
            value: TaskTreeNode::Label(string_of(chars_of("root"))),
            depth: 0,
            parent: 0,
            children: Vec::new(),
        };
        let mut tree = TaskTree { nodes: vec![root] };
        let mut scan = StrScanner::create(s);
        let ghost whole = s@;
        let ghost mut done: Seq<Seq<char>> = Seq::empty();
        assert(scan.rest() =~= whole.skip(0));
        loop
            invariant
                scan.wf(),
                scan.stream == s,
                whole == s@,
                tree.wf(),
                tree.nodes@[0].value@ == NodeView::Label("root"@),
                tree.nodes@.len() == done.len() + 1,
                done + tree_lines(whole, scan.cur as int) == tree_lines(whole, 0),
                forall|i: int| 1 <= i < tree.nodes@.len() ==> tree.holds_line(i, #[trigger] done[i - 1]),
            ensures
                tree.wf(),
                tree.nodes@[0].value@ == NodeView::Label("root"@),
                tree.nodes@.len() == done.len() + 1,
                done == tree_lines(whole, 0),
                forall|i: int| 1 <= i < tree.nodes@.len() ==> tree.holds_line(i, #[trigger] done[i - 1]),
            decreases whole.len() - scan.cur,
        {
            let ghost pos = scan.cur as int;
            let ghost rest = scan.rest();
            assert(rest == whole.skip(pos));
            let line = match scan.next_line() {
                Ok(l) => l,
                Err(()) => {
                    assert(tree_lines(whole, pos) =~= Seq::<Seq<char>>::empty());
                    assert(done + tree_lines(whole, pos) =~= done);
                    break;
                },
            };
            proof {
                crate::text::lemma_find_facts(rest, '\n');
            }
            let v = chars_of(line.as_str());
            let n = v.len();
            assert(v@.subrange(0, n as int) =~= v@);
            let (a, b) = trim_range(&v, 0, n);
            if a == b {
                continue;
            }
            let depth = tab_len_in(&v, 0, n);
            let value = match Task::parse(line.as_str()) {
                Ok(t) => TaskTreeNode::Task(t),
                Err(_) => TaskTreeNode::Label(string_range(&v, a, b)),
            };
            proof {
                assert(seq![line@] + tree_lines(whole, scan.cur as int) == tree_lines(whole, pos));
                assert(done.push(line@) + tree_lines(whole, scan.cur as int) =~= done + tree_lines(
                    whole,
                    pos,
                ));
            }
            tree.insert(value, depth);
            proof {
                done = done.push(line@);
            }
        }
        tree
    }

    /// Adds a node of indentation `depth` after all others, under the
    /// nearest node indented less, found by walking up from the last node.
    fn insert(&mut self, value: TaskTreeNode, depth: usize)
        requires
            old(self).wf(),
        ensures
            final(self).wf(),
            final(self).nodes@.len() == old(self).nodes@.len() + 1,
            forall|i: int|
                0 <= i < old(self).nodes@.len() ==> (#[trigger] final(self).nodes@[i]).value == old(
                    self,
                ).nodes@[i].value && final(self).nodes@[i].depth == old(self).nodes@[i].depth,
            final(self).nodes@.last().value == value,
            final(self).nodes@.last().depth == depth,
    {
        let n = self.nodes.len();
        let mut p = n - 1;
        while p != 0 && self.nodes[p].depth >= depth
            invariant
                self.wf(),
                self.nodes@.len() == n,
                0 <= p < n,
                forall|j: int| p < j < n ==> #[trigger] self.nodes@[j].depth >= depth,
            decreases p,
        {
            let q = self.nodes[p].parent;
            assert(self.is_parent(p as int, q as int));
            assert forall|j: int| q < j < n implies #[trigger] self.nodes@[j].depth >= depth by {
                if j < p {
                    assert(self.nodes@[j].depth >= self.nodes@[p as int].depth);
                }
            }
            p = q;
        }
        let ghost old_tree = *self;
        let ghost old_nodes = self.nodes@;
        assert(old_tree.wf());
        self.nodes.push(TreeNode { value, depth, parent: p, children: Vec::new() });
        let mut slot = TreeNode {
            value: TaskTreeNode::Label(string_of(Vec::new())),
            depth: 0,
            parent: 0,
            children: Vec::new(),
        };
        self.nodes.set_and_swap(p, &mut slot);
        slot.children.push(n);
        self.nodes.set_and_swap(p, &mut slot);
        let ghost nodes = self.nodes@;
        assert(nodes.len() == n + 1);
        assert forall|i: int| 0 <= i < n && i != p implies nodes[i] == old_nodes[i] by {}
        assert(nodes[p as int].parent == old_nodes[p as int].parent);
        assert(nodes[p as int].depth == old_nodes[p as int].depth);
        assert(nodes[p as int].value == old_nodes[p as int].value);
        assert forall|x: int| 0 <= x < n implies #[trigger] nodes[x].parent == old_nodes[x].parent by {}
        assert(nodes[p as int].children@ == old_nodes[p as int].children@.push(n));
        assert(nodes[n as int].parent == p && nodes[n as int].depth == depth);
        assert forall|i: int| 1 <= i < nodes.len() implies self.is_parent(
            i,
            #[trigger] nodes[i].parent as int,
        ) by {
            if i < n {
                assert(nodes[i].parent == old_nodes[i].parent);
                assert forall|j: int| nodes[i].parent < j < i implies nodes[j].depth
                    >= #[trigger] nodes[i].depth by {
                    assert(old_nodes[j].depth >= old_nodes[i].depth);
                }
            }
        }
        assert forall|k: int, x: usize| 0 <= k < nodes.len() implies (
        #[trigger] nodes[k].children@.contains(x) <==> (1 <= x < nodes.len() && nodes[x as int].parent
            == k)) by {
            let xi = x as int;
            if k == p {
                assert(nodes[k].children@ == old_nodes[k].children@.push(n));
                if nodes[k].children@.contains(x) && x != n {
                    let m = choose|m: int| 0 <= m < nodes[k].children@.len() && nodes[k].children@[m] == x;
                    assert(old_nodes[k].children@[m] == x);
                    assert(old_nodes[k].children@.contains(x));
                }
                if 1 <= x < nodes.len() && nodes[xi].parent == k {
                    if x == n {
                        assert(nodes[k].children@[old_nodes[k].children@.len() as int] == x);
                    } else {
                        assert(old_nodes[k].children@.contains(x));
                        let m = choose|m: int| 0 <= m < old_nodes[k].children@.len() && old_nodes[k].children@[m] == x;
                        assert(nodes[k].children@[m] == x);
                    }
                }
            } else if k < n {
                assert(nodes[k] == old_nodes[k]);
                if x == n {
                    assert(!old_nodes[k].children@.contains(x));
                }
            } else {
                assert(nodes[k].children@ =~= Seq::<usize>::empty());
                if 1 <= x < n {
                    assert(old_tree.is_parent(xi, old_nodes[xi].parent as int));
                }
            }
        }
        assert forall|k: int, a: int, b: int|
            0 <= k < nodes.len() && 0 <= a < b < nodes[k].children@.len() implies #[trigger] nodes[k].children@[a]
            < #[trigger] nodes[k].children@[b] by {
            if k == p && b == nodes[k].children@.len() - 1 {
                assert(old_nodes[k].children@.contains(nodes[k].children@[a]));
            }
        }
    }
}

} // verus!

use vstd::prelude::*;

use crate::level::Level;
use crate::level::LevelView;
use crate::level::Topic;

verus! {

/// A value stored in the tree: an opaque identifier that supports an
/// equality test and a cheap independent copy, both faithful to
/// mathematical equality.
pub trait TreeValue: Sized {
    /// Equality test on stored values.
    fn eq_value(&self, other: &Self) -> (r: bool)
        ensures
            r == (self == other),
    ;

    /// An independent copy of this value.
    fn dup(&self) -> (r: Self)
        ensures
            r == self,
    ;
}

impl TreeValue for u64 {
    fn eq_value(&self, other: &Self) -> (r: bool)
        ensures
            r == (self == other),
    {
        *self == *other
    }

    fn dup(&self) -> (r: Self)
        ensures
            r == self,
    {
        *self
    }
}

/// Mathematical image of a trie node: its value set as a sequence in
/// insertion order, and its branch map as a sequence of (level, child)
/// entries with unique keys.
#[verifier::ext_equal]
pub struct NodeView<V> {
    pub values: Seq<V>,
    pub branches: Seq<(LevelView, NodeView<V>)>,
}

impl<V> NodeView<V> {
    /// The node with no values and no branches.
    pub open spec fn empty() -> NodeView<V> {
        NodeView { values: Seq::empty(), branches: Seq::empty() }
    }

    /// A node holding nothing; such a node is never retained as a child.
    pub open spec fn is_empty(self) -> bool {
        self.values.len() == 0 && self.branches.len() == 0
    }

    /// Whether some branch is keyed by `l`.
    pub open spec fn has_branch(self, l: LevelView) -> bool {
        exists|i: int| 0 <= i < self.branches.len() && self.branches[i].0 == l
    }

    /// The index of the branch keyed by `l`.
    pub open spec fn branch_index(self, l: LevelView) -> int {
        choose|i: int| 0 <= i < self.branches.len() && self.branches[i].0 == l
    }

    /// The child node under the branch keyed by `l`.
    pub open spec fn child(self, l: LevelView) -> NodeView<V> {
        self.branches[self.branch_index(l)].1
    }

    /// Well-formedness: values unique, branch keys unique, every child
    /// well-formed and non-empty (empty nodes are pruned immediately).
    pub open spec fn wf(self) -> bool
        decreases self,
    {
        &&& (forall|i: int, j: int|
            0 <= i < j < self.values.len() ==> self.values[i] != self.values[j])
        &&& (forall|i: int, j: int|
            0 <= i < j < self.branches.len() ==> self.branches[i].0 != self.branches[j].0)
        &&& (forall|i: int|
            0 <= i < self.branches.len() ==> (#[trigger] self.branches[i].1).wf()
                && !self.branches[i].1.is_empty())
    }

    /// The values registered under the filter path `f`, in insertion order;
    /// empty when no node sits at `f`.
    pub open spec fn stored(self, f: Seq<LevelView>) -> Seq<V>
        decreases f.len(),
    {
        if f.len() == 0 {
            self.values
        } else if self.has_branch(f[0]) {
            self.child(f[0]).stored(f.skip(1))
        } else {
            Seq::empty()
        }
    }

    /// The tree after registering value `v` under filter path `f`:
    /// missing nodes are created along the path, and `v` joins the leaf's
    /// value set unless already present.
    pub open spec fn ins(self, f: Seq<LevelView>, v: V) -> NodeView<V>
        decreases f.len(),
    {
        if f.len() == 0 {
            if self.values.contains(v) {
                self
            } else {
                NodeView { values: self.values.push(v), branches: self.branches }
            }
        } else if self.has_branch(f[0]) {
            let i = self.branch_index(f[0]);
            NodeView {
                values: self.values,
                branches: self.branches.update(i, (f[0], self.branches[i].1.ins(f.skip(1), v))),
            }
        } else {
            NodeView {
                values: self.values,
                branches: self.branches.push((f[0], NodeView::empty().ins(f.skip(1), v))),
            }
        }
    }

    /// The tree after removing value `v` from under filter path `f`:
    /// the value leaves the leaf's set, and a child left with no values
    /// and no branches is deleted from its parent, bottom-up.
    pub open spec fn del(self, f: Seq<LevelView>, v: V) -> NodeView<V>
        decreases f.len(),
    {
        if f.len() == 0 {
            NodeView { values: self.values.remove_value(v), branches: self.branches }
        } else if self.has_branch(f[0]) {
            let i = self.branch_index(f[0]);
            let c = self.branches[i].1.del(f.skip(1), v);
            if c.is_empty() {
                NodeView { values: self.values, branches: self.branches.remove(i) }
            } else {
                NodeView { values: self.values, branches: self.branches.update(i, (f[0], c)) }
            }
        } else {
            self
        }
    }
}

/// A trie node: its value set (insertion-ordered, unique) and its
/// level-keyed branches to child nodes.
#[derive(Debug)]
pub struct Node<V> {
    values: Vec<V>,
    branches: Vec<(Level, Node<V>)>,
}

/// The mathematical image of a node, taken recursively.
pub closed spec fn node_view<V>(n: Node<V>) -> NodeView<V>
    decreases n,
{
    NodeView {
        values: n.values@,
        branches: Seq::new(
            n.branches@.len(),
            |i: int|
                if 0 <= i < n.branches@.len() {
                    (n.branches@[i].0@, node_view(n.branches@[i].1))
                } else {
                    (LevelView::Blank, NodeView::empty())
                },
        ),
    }
}

impl<V> View for Node<V> {
    type V = NodeView<V>;

    open spec fn view(&self) -> NodeView<V> {
        node_view(*self)
    }
}

/// The index the mathematical branch map assigns to key `l` is the index
/// where a branch with that key stands, whenever keys are unique.
pub proof fn lemma_branch_index_is<V>(nv: NodeView<V>, l: LevelView, j: int)
    requires
        forall|i: int, k: int|
            0 <= i < k < nv.branches.len() ==> nv.branches[i].0 != nv.branches[k].0,
        0 <= j < nv.branches.len(),
        nv.branches[j].0 == l,
    ensures
        nv.has_branch(l),
        nv.branch_index(l) == j,
        nv.child(l) == nv.branches[j].1,
{
    assert(nv.has_branch(l));
    let i = nv.branch_index(l);
    if i < j {
        assert(nv.branches[i].0 != nv.branches[j].0);
    } else if i > j {
        assert(nv.branches[j].0 != nv.branches[i].0);
    }
}

impl<V: TreeValue> Node<V> {
    /// The empty tree.
    pub fn empty() -> (r: Node<V>)
        ensures
            r@ == NodeView::<V>::empty(),
    {
        let n = Node { values: Vec::new(), branches: Vec::new() };
        proof {
            assert(n@.values =~= Seq::<V>::empty());
            assert(n@.branches =~= Seq::<(LevelView, NodeView<V>)>::empty());
            assert(n@ =~= NodeView::<V>::empty());
        }
        n
    }

    /// Whether this node holds no values and no branches.
    pub(crate) fn is_empty_node(&self) -> (r: bool)
        ensures
            r == self@.is_empty(),
    {
        self.values.len() == 0 && self.branches.len() == 0
    }

    /// A node assembled from its parts.
    pub(crate) fn from_parts(values: Vec<V>, branches: Vec<(Level, Node<V>)>) -> (r: Node<V>)
        ensures
            r@.values == values@,
            r@.branches.len() == branches@.len(),
            forall|i: int| 0 <= i < branches@.len()
                ==> r@.branches[i] == ((#[trigger] branches@[i]).0@, branches@[i].1@),
    {
        Node { values, branches }
    }

    /// The index of the branch keyed by `l`, if one exists.
    fn find_branch(&self, l: &Level) -> (r: Option<usize>)
        ensures
            match r {
                Some(j) => j < self@.branches.len() && self@.branches[j as int].0 == l@,
                None => !self@.has_branch(l@),
            },
    {
        let mut i: usize = 0;
        while i < self.branches.len()
            invariant
                i <= self.branches@.len(),
                self@.branches.len() == self.branches@.len(),
                forall|k: int| 0 <= k < self.branches@.len()
                    ==> #[trigger] self@.branches[k] == (self.branches@[k].0@, node_view(self.branches@[k].1)),
                forall|k: int| 0 <= k < i ==> self.branches@[k].0@ != l@,
            decreases self.branches@.len() - i,
        {
            let entry = &self.branches[i];
            if entry.0.eq_level(l) {
                return Some(i);
            }
            i += 1;
        }
        proof {
            assert(forall|k: int| 0 <= k < self@.branches.len() ==> self@.branches[k].0 != l@);
        }
        None
    }

    /// Registers `value` under the filter `topic_filter`, creating any
    /// missing nodes along its path; reports whether the value was not
    /// already present there.
    pub fn insert(&mut self, topic_filter: &Topic, value: V) -> (r: bool)
        requires
            old(self)@.wf(),
        ensures
            final(self)@ == old(self)@.ins(topic_filter@, value),
            final(self)@.wf(),
            r == !old(self)@.stored(topic_filter@).contains(value),
    {
        proof {
            assert(topic_filter@.skip(0) =~= topic_filter@);
            crate::laws::lemma_ins_wf(old(self)@, topic_filter@, value);
        }
        self.insert_at(&topic_filter.levels, 0, value)
    }

    /// Registers `value` under the path suffix `path[i..]`.
    fn insert_at(&mut self, path: &Vec<Level>, i: usize, value: V) -> (r: bool)
        requires
            old(self)@.wf(),
            i <= path@.len(),
        ensures
            final(self)@ == old(self)@.ins(path@.map_values(|l: Level| l@).skip(i as int), value),
            r == !old(self)@.stored(path@.map_values(|l: Level| l@).skip(i as int)).contains(value),
        decreases path@.len() - i,
    {
        let ghost f = path@.map_values(|l: Level| l@).skip(i as int);
        if i < path.len() {
            proof {
                assert(f[0] == path@[i as int]@);
                assert(f.skip(1) =~= path@.map_values(|l: Level| l@).skip(i as int + 1));
            }
            let l = &path[i];
            match self.find_branch(l) {
                Some(j) => {
                    proof {
                        lemma_branch_index_is(old(self)@, l@, j as int);
                        assert(old(self)@.branches[j as int].1.wf());
                    }
                    let mut entry = self.branches.remove(j);
                    let r = entry.1.insert_at(path, i + 1, value);
                    self.branches.insert(j, entry);
                    proof {
                        let ov = old(self)@;
                        assert(final(self)@.values =~= ov.values);
                        assert(final(self)@.branches =~= ov.branches.update(
                            j as int,
                            (f[0], ov.branches[j as int].1.ins(f.skip(1), value)),
                        ));
                        assert(final(self)@ =~= ov.ins(f, value));
                    }
                    r
                }
                None => {
                    let mut child = Node::empty();
                    let r = child.insert_at(path, i + 1, value);
                    self.branches.push((l.dup(), child));
                    proof {
                        let ov = old(self)@;
                        assert(final(self)@.values =~= ov.values);
                        assert(final(self)@.branches =~= ov.branches.push(
                            (f[0], NodeView::empty().ins(f.skip(1), value)),
                        ));
                        assert(final(self)@ =~= ov.ins(f, value));
                        assert(ov.stored(f) =~= Seq::<V>::empty());
                    }
                    r
                }
            }
        } else {
            proof {
                assert(f.len() == 0);
            }
            if Self::contains_value(&self.values, &value) {
                proof {
                    assert(final(self)@ =~= old(self)@.ins(f, value));
                }
                false
            } else {
                self.values.push(value);
                proof {
                    assert(final(self)@.values =~= old(self)@.values.push(value));
                    assert(final(self)@.branches =~= old(self)@.branches);
                    assert(final(self)@ =~= old(self)@.ins(f, value));
                }
                true
            }
        }
    }

    /// Whether `v` occurs in `values`.
    fn contains_value(values: &Vec<V>, v: &V) -> (r: bool)
        ensures
            r == values@.contains(*v),
    {
        let mut i: usize = 0;
        while i < values.len()
            invariant
                i <= values@.len(),
                forall|k: int| 0 <= k < i ==> values@[k] != *v,
            decreases values@.len() - i,
        {
            if values[i].eq_value(v) {
                return true;
            }
            i += 1;
        }
        false
    }

    /// The index of the first occurrence of `v` in `values`, if any.
    fn index_of_value(values: &Vec<V>, v: &V) -> (r: Option<usize>)
        ensures
            match r {
                Some(k) => k < values@.len() && values@[k as int] == *v
                    && forall|j: int| 0 <= j < k ==> values@[j] != *v,
                None => !values@.contains(*v),
            },
    {
        let mut i: usize = 0;
        while i < values.len()
            invariant
                i <= values@.len(),
                forall|k: int| 0 <= k < i ==> values@[k] != *v,
            decreases values@.len() - i,
        {
            if values[i].eq_value(v) {
                return Some(i);
            }
            i += 1;
        }
        None
    }

    /// Unregisters `value` from under the filter `topic_filter`, pruning
    /// any node the removal leaves empty; reports whether the value was
    /// present there.
    pub fn remove(&mut self, topic_filter: &Topic, value: &V) -> (r: bool)
        requires
            old(self)@.wf(),
        ensures
            final(self)@ == old(self)@.del(topic_filter@, *value),
            final(self)@.wf(),
            r == old(self)@.stored(topic_filter@).contains(*value),
    {
        proof {
            assert(topic_filter@.skip(0) =~= topic_filter@);
            crate::laws::lemma_del_wf(old(self)@, topic_filter@, *value);
        }
        self.remove_at(&topic_filter.levels, 0, value)
    }

    /// Unregisters `value` from under the path suffix `path[i..]`.
    fn remove_at(&mut self, path: &Vec<Level>, i: usize, value: &V) -> (r: bool)
        requires
            old(self)@.wf(),
            i <= path@.len(),
        ensures
            final(self)@ == old(self)@.del(path@.map_values(|l: Level| l@).skip(i as int), *value),
            r == old(self)@.stored(path@.map_values(|l: Level| l@).skip(i as int)).contains(*value),
        decreases path@.len() - i,
    {
        let ghost f = path@.map_values(|l: Level| l@).skip(i as int);
        if i < path.len() {
            proof {
                assert(f[0] == path@[i as int]@);
                assert(f.skip(1) =~= path@.map_values(|l: Level| l@).skip(i as int + 1));
            }
            let l = &path[i];
            match self.find_branch(l) {
                Some(j) => {
                    proof {
                        lemma_branch_index_is(old(self)@, l@, j as int);
                        assert(old(self)@.branches[j as int].1.wf());
                    }
                    let mut entry = self.branches.remove(j);
                    let r = entry.1.remove_at(path, i + 1, value);
                    let ghost ov = old(self)@;
                    let ghost c = ov.branches[j as int].1.del(f.skip(1), *value);
                    if entry.1.is_empty_node() {
                        proof {
                            assert(final(self)@.values =~= ov.values);
                            assert(final(self)@.branches =~= ov.branches.remove(j as int));
                            assert(final(self)@ =~= ov.del(f, *value));
                        }
                        r
                    } else {
                        self.branches.insert(j, entry);
                        proof {
                            assert(final(self)@.values =~= ov.values);
                            assert(final(self)@.branches =~= ov.branches.update(
                                j as int,
                                (f[0], c),
                            ));
                            assert(final(self)@ =~= ov.del(f, *value));
                        }
                        r
                    }
                }
                None => {
                    false
                }
            }
        } else {
            proof {
                assert(f.len() == 0);
            }
            match Self::index_of_value(&self.values, value) {
                Some(k) => {
                    self.values.remove(k);
                    proof {
                        old(self)@.values.index_of_first_ensures(*value);
                        assert(old(self)@.values.index_of_first(*value) == Some(k as int));
                        assert(final(self)@.values =~= old(self)@.values.remove_value(*value));
                        assert(final(self)@.branches =~= old(self)@.branches);
                        assert(final(self)@ =~= old(self)@.del(f, *value));
                    }
                    true
                }
                None => {
                    proof {
                        old(self)@.values.index_of_first_ensures(*value);
                        assert(final(self)@ =~= old(self)@.del(f, *value));
                    }
                    false
                }
            }
        }
    }
}

impl<V: TreeValue> Node<V> {
    /// The value set registered at this node, in insertion order.
    pub fn values(&self) -> (r: &Vec<V>)
        ensures
            r@ == self@.values,
    {
        &self.values
    }

    /// The branch entries of this node.
    pub fn children(&self) -> (r: &Vec<(Level, Node<V>)>)
        ensures
            r@.len() == self@.branches.len(),
            forall|i: int| 0 <= i < r@.len()
                ==> (#[trigger] r@[i]).0@ == self@.branches[i].0 && r@[i].1@ == self@.branches[i].1,
    {
        &self.branches
    }

    /// The child node under the branch keyed by `l`, if one exists.
    pub fn child(&self, l: &Level) -> (r: Option<&Node<V>>)
        requires
            self@.wf(),
        ensures
            match r {
                Some(c) => self@.has_branch(l@) && c@ == self@.child(l@),
                None => !self@.has_branch(l@),
            },
    {
        match self.find_branch(l) {
            Some(j) => {
                proof {
                    lemma_branch_index_is(self@, l@, j as int);
                }
                Some(&self.branches[j].1)
            }
            None => None,
        }
    }

    /// An independent copy of the whole subtree rooted here.
    pub fn deep_dup(&self) -> (r: Node<V>)
        ensures
            r@ == self@,
        decreases self,
    {
        let mut values: Vec<V> = Vec::new();
        let mut i: usize = 0;
        while i < self.values.len()
            invariant
                i <= self.values@.len(),
                values@ =~= self.values@.subrange(0, i as int),
            decreases self.values@.len() - i,
        {
            values.push(self.values[i].dup());
            i += 1;
        }
        let mut branches: Vec<(Level, Node<V>)> = Vec::new();
        let mut j: usize = 0;
        while j < self.branches.len()
            invariant
                j <= self.branches@.len(),
                branches@.len() == j,
                forall|k: int| 0 <= k < j
                    ==> (#[trigger] branches@[k]).0@ == self.branches@[k].0@
                        && node_view(branches@[k].1) == node_view(self.branches@[k].1),
            decreases self.branches@.len() - j,
        {
            let entry = &self.branches[j];
            let lvl = entry.0.dup();
            let sub = entry.1.deep_dup();
            branches.push((lvl, sub));
            j += 1;
        }
        let r = Node { values, branches };
        proof {
            assert(values@ =~= self.values@);
            assert(r@.values =~= self@.values);
            assert(r@.branches =~= self@.branches);
            assert(r@ =~= self@);
        }
        r
    }
}

impl<V: TreeValue> Default for Node<V> {
    /// The empty tree.
    fn default() -> (r: Node<V>)
        ensures
            r@ == NodeView::<V>::empty(),
    {
        Node::empty()
    }
}


/// Total values stored in all the nodes of a branch list.
pub open spec fn vc_branches<V>(bs: Seq<(LevelView, NodeView<V>)>) -> nat
    decreases bs,
{
    if bs.len() == 0 {
        0
    } else {
        bs[0].1.values_count() + vc_branches(bs.skip(1))
    }
}

/// Total nodes in all the subtrees of a branch list.
pub open spec fn nc_branches<V>(bs: Seq<(LevelView, NodeView<V>)>) -> nat
    decreases bs,
{
    if bs.len() == 0 {
        0
    } else {
        bs[0].1.nodes_count() + nc_branches(bs.skip(1))
    }
}

impl<V> NodeView<V> {
    /// Total values stored in the whole tree.
    pub open spec fn values_count(self) -> nat
        decreases self,
    {
        self.values.len() + vc_branches(self.branches)
    }

    /// Total nodes below this one, this node not counted.
    pub open spec fn nodes_count(self) -> nat
        decreases self,
    {
        self.branches.len() + nc_branches(self.branches)
    }
}

/// A count clipped to what a machine word can report.
pub open spec fn cap_usize(x: nat) -> nat {
    if x > usize::MAX as nat {
        usize::MAX as nat
    } else {
        x
    }
}

proof fn lemma_vc_branches_push<V>(bs: Seq<(LevelView, NodeView<V>)>, e: (LevelView, NodeView<V>))
    ensures
        vc_branches(bs.push(e)) == vc_branches(bs) + e.1.values_count(),
    decreases bs.len(),
{
    if bs.len() == 0 {
        assert(bs.push(e)[0] == e);
        assert(bs.push(e).skip(1) =~= Seq::<(LevelView, NodeView<V>)>::empty());
        assert(vc_branches(Seq::<(LevelView, NodeView<V>)>::empty()) == 0);
    } else {
        assert(bs.push(e)[0] == bs[0]);
        assert(bs.push(e).skip(1) =~= bs.skip(1).push(e));
        lemma_vc_branches_push(bs.skip(1), e);
    }
}

proof fn lemma_nc_branches_push<V>(bs: Seq<(LevelView, NodeView<V>)>, e: (LevelView, NodeView<V>))
    ensures
        nc_branches(bs.push(e)) == nc_branches(bs) + e.1.nodes_count(),
    decreases bs.len(),
{
    if bs.len() == 0 {
        assert(bs.push(e)[0] == e);
        assert(bs.push(e).skip(1) =~= Seq::<(LevelView, NodeView<V>)>::empty());
        assert(nc_branches(Seq::<(LevelView, NodeView<V>)>::empty()) == 0);
    } else {
        assert(bs.push(e)[0] == bs[0]);
        assert(bs.push(e).skip(1) =~= bs.skip(1).push(e));
        lemma_nc_branches_push(bs.skip(1), e);
    }
}

/// Addition clipped at the largest machine word.
fn sat_add(a: usize, b: usize) -> (r: usize)
    ensures
        r as nat == cap_usize(a as nat + b as nat),
{
    if a > usize::MAX - b {
        usize::MAX
    } else {
        a + b
    }
}

impl<V: TreeValue> Node<V> {
    /// Total values stored in the whole tree, clipped at the largest
    /// machine word.
    pub fn values_size(&self) -> (r: usize)
        ensures
            r as nat == cap_usize(self@.values_count()),
        decreases *self,
    {
        let mut acc: usize = self.values.len();
        let mut j: usize = 0;
        while j < self.branches.len()
            invariant
                j <= self.branches@.len(),
                self@.branches.len() == self.branches@.len(),
                forall|k: int| 0 <= k < self.branches@.len()
                    ==> #[trigger] self@.branches[k] == (self.branches@[k].0@, node_view(
                        self.branches@[k].1,
                    )),
                acc as nat == cap_usize(
                    self@.values.len() + vc_branches(self@.branches.subrange(0, j as int)),
                ),
            decreases self.branches@.len() - j,
        {
            let entry = &self.branches[j];
            let cs = entry.1.values_size();
            proof {
                assert(self@.branches.subrange(0, j as int + 1) =~= self@.branches.subrange(
                    0,
                    j as int,
                ).push(self@.branches[j as int]));
                lemma_vc_branches_push(
                    self@.branches.subrange(0, j as int),
                    self@.branches[j as int],
                );
            }
            acc = sat_add(acc, cs);
            j += 1;
        }
        proof {
            assert(self@.branches.subrange(0, self@.branches.len() as int) =~= self@.branches);
        }
        acc
    }

    /// Total nodes below the root, clipped at the largest machine word.
    pub fn nodes_size(&self) -> (r: usize)
        ensures
            r as nat == cap_usize(self@.nodes_count()),
        decreases *self,
    {
        let mut acc: usize = self.branches.len();
        let mut j: usize = 0;
        while j < self.branches.len()
            invariant
                j <= self.branches@.len(),
                self@.branches.len() == self.branches@.len(),
                forall|k: int| 0 <= k < self.branches@.len()
                    ==> #[trigger] self@.branches[k] == (self.branches@[k].0@, node_view(
                        self.branches@[k].1,
                    )),
                acc as nat == cap_usize(
                    self@.branches.len() + nc_branches(self@.branches.subrange(0, j as int)),
                ),
            decreases self.branches@.len() - j,
        {
            let entry = &self.branches[j];
            let cs = entry.1.nodes_size();
            proof {
                assert(self@.branches.subrange(0, j as int + 1) =~= self@.branches.subrange(
                    0,
                    j as int,
                ).push(self@.branches[j as int]));
                lemma_nc_branches_push(
                    self@.branches.subrange(0, j as int),
                    self@.branches[j as int],
                );
            }
            acc = sat_add(acc, cs);
            j += 1;
        }
        proof {
            assert(self@.branches.subrange(0, self@.branches.len() as int) =~= self@.branches);
        }
        acc
    }
}


/// The decimal digits of a count, most significant first, in ASCII.
pub open spec fn decimal(x: nat) -> Seq<u8>
    decreases x,
{
    if x < 10 {
        seq![(48 + x) as u8]
    } else {
        decimal(x / 10).push((48 + x % 10) as u8)
    }
}

/// One line of the bounded dump: the indent for the depth, the branch's
/// level text, then the number of values its node holds.
pub open spec fn dump_line(depth: nat, l: LevelView, count: nat) -> Seq<u8> {
    Seq::new(3 * depth, |i: int| 32u8) + crate::render::level_text(l) + seq![44u8, 32u8]
        + decimal(count)
}

/// The lines a bounded dump prints for a branch list: one per branch, then
/// the branch's subtree one level deeper, depth-first.
pub open spec fn dl_branches<V>(
    bs: Seq<(LevelView, NodeView<V>)>,
    top: nat,
    depth: nat,
) -> Seq<Seq<u8>>
    decreases top, 0int, bs.len(),
{
    if bs.len() == 0 || top == 0 {
        Seq::empty()
    } else {
        seq![dump_line(depth, bs[0].0, bs[0].1.values.len())] + bs[0].1.dump_lines(
            (top - 1) as nat,
            depth + 1,
        ) + dl_branches(bs.skip(1), top, depth)
    }
}

impl<V> NodeView<V> {
    /// The lines a bounded dump prints for this subtree, down to `top`
    /// levels.
    pub open spec fn dump_lines(self, top: nat, depth: nat) -> Seq<Seq<u8>>
        decreases top, 1int, 0int,
    {
        if top == 0 {
            Seq::empty()
        } else {
            dl_branches(self.branches, top, depth)
        }
    }
}

proof fn lemma_dl_branches_push<V>(
    bs: Seq<(LevelView, NodeView<V>)>,
    e: (LevelView, NodeView<V>),
    top: nat,
    depth: nat,
)
    requires
        top >= 1,
    ensures
        dl_branches(bs.push(e), top, depth) == dl_branches(bs, top, depth) + seq![
            dump_line(depth, e.0, e.1.values.len()),
        ] + e.1.dump_lines((top - 1) as nat, depth + 1),
    decreases bs.len(),
{
    if bs.len() == 0 {
        assert(bs.push(e)[0] == e);
        assert(bs.push(e).skip(1) =~= Seq::<(LevelView, NodeView<V>)>::empty());
        assert(dl_branches(Seq::<(LevelView, NodeView<V>)>::empty(), top, depth) == Seq::<
            Seq<u8>,
        >::empty());
        assert(dl_branches(bs.push(e), top, depth) =~= dl_branches(bs, top, depth) + seq![
            dump_line(depth, e.0, e.1.values.len()),
        ] + e.1.dump_lines((top - 1) as nat, depth + 1));
    } else {
        assert(bs.push(e)[0] == bs[0]);
        assert(bs.push(e).skip(1) =~= bs.skip(1).push(e));
        lemma_dl_branches_push(bs.skip(1), e, top, depth);
        assert(dl_branches(bs.push(e), top, depth) =~= dl_branches(bs, top, depth) + seq![
            dump_line(depth, e.0, e.1.values.len()),
        ] + e.1.dump_lines((top - 1) as nat, depth + 1));
    }
}

/// The decimal digits of a count, appended most significant first.
fn push_decimal(out: &mut Vec<u8>, x: usize)
    ensures
        final(out)@ == old(out)@ + decimal(x as nat),
{
    let mut digits: Vec<u8> = Vec::new();
    let mut y: usize = x;
    while y >= 10
        invariant
            decimal(x as nat) == decimal(y as nat) + digits@.reverse(),
        decreases y,
    {
        let ghost before = digits@;
        digits.push(48u8 + (y % 10) as u8);
        proof {
            assert(digits@.reverse() =~= seq![(48 + (y as nat) % 10) as u8] + before.reverse());
            assert(decimal(y as nat) == decimal((y as nat) / 10).push(
                (48 + (y as nat) % 10) as u8,
            ));
            assert(decimal((y as nat) / 10) + digits@.reverse() =~= decimal(y as nat)
                + before.reverse());
        }
        y = y / 10;
    }
    let ghost before = digits@;
    digits.push(48u8 + (y % 10) as u8);
    proof {
        assert((y as nat) % 10 == y as nat);
        assert(decimal(y as nat) =~= seq![(48 + (y as nat) % 10) as u8]);
        assert(digits@.reverse() =~= seq![(48 + (y as nat) % 10) as u8] + before.reverse());
        assert(decimal(x as nat) =~= digits@.reverse());
    }
    let ghost base = out@;
    let mut i: usize = digits.len();
    while i > 0
        invariant
            i <= digits@.len(),
            out@.len() == base.len() + (digits@.len() - i),
            forall|j: int| 0 <= j < base.len() ==> out@[j] == base[j],
            forall|j: int| 0 <= j < digits@.len() - i ==> (#[trigger] out@[base.len() + j])
                == digits@[digits@.len() - 1 - j],
        decreases i,
    {
        i -= 1;
        out.push(digits[i]);
    }
    proof {
        assert(digits@.len() > 0);
        assert(digits@.reverse() =~= Seq::new(
            digits@.len(),
            |q: int| digits@[digits@.len() - 1 - q],
        ));
        assert forall|q: int| 0 <= q < out@.len() implies out@[q] == (base
            + digits@.reverse())[q] by {
            if base.len() <= q {
                let j = q - base.len();
                assert(out@[base.len() + j] == digits@[digits@.len() - 1 - j]);
            }
        }
        assert(out@ =~= base + digits@.reverse());
    }
}

impl<V: TreeValue> Node<V> {
    /// A bounded diagnostic dump: one line per branch, depth-first down to
    /// `top` levels, each line carrying the branch's level text and how
    /// many values its node holds, decoded from UTF-8 (a line whose level
    /// text is not valid UTF-8 comes out empty). Purely for introspection.
    pub fn list(&self, top: usize) -> (r: Vec<String>)
        ensures
            ({
                let lines = self@.dump_lines(top as nat, 0);
                &&& r@.len() == lines.len()
                &&& forall|i: int| 0 <= i < lines.len()
                    ==> (vstd::utf8::valid_utf8(lines[i]) ==> (#[trigger] r@[i])@
                        == vstd::utf8::decode_utf8(lines[i]))
            }),
    {
        let mut out: Vec<String> = Vec::new();
        self.list_into(&mut out, top, 0);
        proof {
            let lines = self@.dump_lines(top as nat, 0);
            assert(out@.len() == lines.len());
            assert forall|i: int| 0 <= i < lines.len() implies (vstd::utf8::valid_utf8(
                lines[i],
            ) ==> (#[trigger] out@[i])@ == vstd::utf8::decode_utf8(lines[i])) by {
                assert(out@[0 + i] == out@[i]);
            }
        }
        out
    }

    #[verifier::loop_isolation(false)]
    fn list_into(&self, out: &mut Vec<String>, top: usize, depth: usize)
        requires
            depth + top <= usize::MAX,
        ensures
            ({
                let lines = self@.dump_lines(top as nat, depth as nat);
                &&& final(out)@.len() == old(out)@.len() + lines.len()
                &&& forall|j: int| 0 <= j < old(out)@.len() ==> final(out)@[j] == old(out)@[j]
                &&& forall|i: int| 0 <= i < lines.len()
                    ==> (vstd::utf8::valid_utf8(lines[i]) ==> (#[trigger] final(out)@[old(
                        out,
                    )@.len() + i])@ == vstd::utf8::decode_utf8(lines[i]))
            }),
        decreases *self,
    {
        if top == 0 {
            return;
        }
        let ghost base = out@;
        let mut j: usize = 0;
        while j < self.branches.len()
            invariant
                j <= self.branches@.len(),
                out@.len() == base.len() + dl_branches(
                    self@.branches.subrange(0, j as int),
                    top as nat,
                    depth as nat,
                ).len(),
                forall|q: int| 0 <= q < base.len() ==> out@[q] == base[q],
                forall|i: int| 0 <= i < dl_branches(
                    self@.branches.subrange(0, j as int),
                    top as nat,
                    depth as nat,
                ).len() ==> (vstd::utf8::valid_utf8(
                    dl_branches(
                        self@.branches.subrange(0, j as int),
                        top as nat,
                        depth as nat,
                    )[i],
                ) ==> (#[trigger] out@[base.len() + i])@ == vstd::utf8::decode_utf8(
                    dl_branches(
                        self@.branches.subrange(0, j as int),
                        top as nat,
                        depth as nat,
                    )[i],
                )),
            decreases self.branches@.len() - j,
        {
            let ghost done = dl_branches(
                self@.branches.subrange(0, j as int),
                top as nat,
                depth as nat,
            );
            let entry = &self.branches[j];
            let mut line: Vec<u8> = Vec::new();
            let mut d: usize = 0;
            while d < depth
                invariant
                    d <= depth,
                    line@ =~= Seq::new(3 * d as nat, |i: int| 32u8),
                decreases depth - d,
            {
                line.push(32u8);
                line.push(32u8);
                line.push(32u8);
                proof {
                    assert(line@ =~= Seq::new(3 * (d + 1) as nat, |i: int| 32u8));
                }
                d += 1;
            }
            crate::render::push_level_text(&mut line, &entry.0);
            line.push(44u8);
            line.push(32u8);
            push_decimal(&mut line, entry.1.values().len());
            let ghost lv = entry.0@;
            let ghost cv = node_view(entry.1);
            proof {
                assert((lv, cv) == self@.branches[j as int]);
                assert(line@ =~= dump_line(depth as nat, lv, cv.values.len()));
            }
            out.push(crate::render::bytes_to_string(line));
            let ghost mid = out@;
            entry.1.list_into(out, top - 1, depth + 1);
            proof {
                assert(self@.branches.subrange(0, j as int + 1) =~= self@.branches.subrange(
                    0,
                    j as int,
                ).push(self@.branches[j as int]));
                lemma_dl_branches_push(
                    self@.branches.subrange(0, j as int),
                    self@.branches[j as int],
                    top as nat,
                    depth as nat,
                );
                let sub = cv.dump_lines((top - 1) as nat, depth as nat + 1);
                let now = dl_branches(
                    self@.branches.subrange(0, j as int + 1),
                    top as nat,
                    depth as nat,
                );
                assert(now =~= done + seq![dump_line(depth as nat, lv, cv.values.len())] + sub);
                assert(out@.len() == base.len() + now.len());
                assert forall|i: int| 0 <= i < now.len() implies (vstd::utf8::valid_utf8(
                    now[i],
                ) ==> (#[trigger] out@[base.len() + i])@ == vstd::utf8::decode_utf8(now[i])) by {
                    if i < done.len() {
                        assert(now[i] == done[i]);
                        assert(mid[base.len() + i] == out@[base.len() + i]);
                    } else if i == done.len() {
                        assert(now[i] == dump_line(depth as nat, lv, cv.values.len()));
                        assert(mid[base.len() + i] == out@[base.len() + i]);
                        assert(mid[mid.len() - 1] == out@[base.len() + i]);
                    } else {
                        assert(now[i] == sub[i - done.len() - 1]);
                        assert(out@[mid.len() + (i - done.len() - 1)] == out@[base.len() + i]);
                    }
                }
            }
            j += 1;
        }
        proof {
            assert(self@.branches.subrange(0, self@.branches.len() as int) =~= self@.branches);
        }
    }
}

} // verus!

use vstd::prelude::*;

use crate::level::LevelView;
use crate::node::NodeView;

verus! {

/// A node holding nothing stores nothing under any path.
pub proof fn lemma_empty_stored<V>(n: NodeView<V>, g: Seq<LevelView>)
    requires
        n.is_empty(),
    ensures
        n.stored(g) == Seq::<V>::empty(),
{
    if g.len() == 0 {
        assert(n.values =~= Seq::<V>::empty());
    } else {
        assert(!n.has_branch(g[0]));
    }
}

/// Law: registering a value under a filter makes exactly that value appear
/// at exactly that path. The leaf's set gains `v` at its end unless already
/// present, and every other path stores exactly what it stored before.
pub proof fn lemma_ins_stored<V>(n: NodeView<V>, f: Seq<LevelView>, v: V, g: Seq<LevelView>)
    requires
        n.wf(),
    ensures
        n.ins(f, v).stored(f) == if n.stored(f).contains(v) {
            n.stored(f)
        } else {
            n.stored(f).push(v)
        },
        g != f ==> n.ins(f, v).stored(g) == n.stored(g),
    decreases f.len(),
{
    let r = n.ins(f, v);
    if f.len() == 0 {
        if g != f {
            if g.len() == 0 {
                assert(g =~= f);
            } else {
                assert(r.branches == n.branches);
            }
        }
    } else if n.has_branch(f[0]) {
        let i = n.branch_index(f[0]);
        assert(0 <= i < n.branches.len() && n.branches[i].0 == f[0]);
        let child = n.branches[i].1;
        assert(child.wf());
        crate::node::lemma_branch_index_is(n, f[0], i);
        assert(forall|k: int| 0 <= k < r.branches.len() ==> r.branches[k].0 == n.branches[k].0);
        crate::node::lemma_branch_index_is(r, f[0], i);
        lemma_ins_stored(child, f.skip(1), v, f.skip(1));
        assert(r.stored(f) == r.branches[i].1.stored(f.skip(1)));
        assert(n.stored(f) == child.stored(f.skip(1)));
        if g != f {
            if g.len() == 0 {
            } else if g[0] != f[0] {
                if n.has_branch(g[0]) {
                    let j = n.branch_index(g[0]);
                    crate::node::lemma_branch_index_is(n, g[0], j);
                    assert(j != i);
                    crate::node::lemma_branch_index_is(r, g[0], j);
                    assert(r.branches[j].1 == n.branches[j].1);
                } else {
                    assert(!r.has_branch(g[0]));
                }
            } else {
                assert(g.len() > 0);
                if g.skip(1) == f.skip(1) {
                    assert(g.len() == f.len());
                    assert forall|x: int| 0 <= x < g.len() implies g[x] == f[x] by {
                        if x > 0 {
                            assert(g.skip(1)[x - 1] == f.skip(1)[x - 1]);
                        }
                    }
                    assert(g =~= f);
                    assert(false);
                }
                lemma_ins_stored(child, f.skip(1), v, g.skip(1));
                crate::node::lemma_branch_index_is(r, g[0], i);
            }
        }
    } else {
        let e = NodeView::<V>::empty();
        assert(e.wf());
        lemma_ins_stored(e, f.skip(1), v, f.skip(1));
        lemma_empty_stored(e, f.skip(1));
        let i = n.branches.len() as int;
        assert(r.branches[i].0 == f[0]);
        assert(forall|k: int| 0 <= k < n.branches.len() ==> r.branches[k].0 == n.branches[k].0);
        crate::node::lemma_branch_index_is(r, f[0], i);
        assert(n.stored(f) =~= Seq::<V>::empty());
        assert(r.stored(f) == e.ins(f.skip(1), v).stored(f.skip(1)));
        assert(r.stored(f) =~= n.stored(f).push(v));
        if g != f {
            if g.len() == 0 {
            } else if g[0] != f[0] {
                if n.has_branch(g[0]) {
                    let j = n.branch_index(g[0]);
                    crate::node::lemma_branch_index_is(n, g[0], j);
                    crate::node::lemma_branch_index_is(r, g[0], j);
                    assert(r.branches[j].1 == n.branches[j].1);
                } else {
                    assert(!r.has_branch(g[0]));
                }
            } else {
                if g.skip(1) == f.skip(1) {
                    assert(g.len() == f.len());
                    assert forall|x: int| 0 <= x < g.len() implies g[x] == f[x] by {
                        if x > 0 {
                            assert(g.skip(1)[x - 1] == f.skip(1)[x - 1]);
                        }
                    }
                    assert(g =~= f);
                    assert(false);
                }
                lemma_ins_stored(e, f.skip(1), v, g.skip(1));
                lemma_empty_stored(e, g.skip(1));
                crate::node::lemma_branch_index_is(r, g[0], i);
                assert(n.stored(g) =~= Seq::<V>::empty());
            }
        }
    }
}

/// Law: registering a value keeps the tree well-formed and never leaves it
/// empty.
pub proof fn lemma_ins_wf<V>(n: NodeView<V>, f: Seq<LevelView>, v: V)
    requires
        n.wf(),
    ensures
        n.ins(f, v).wf(),
        !n.ins(f, v).is_empty(),
    decreases f.len(),
{
    let r = n.ins(f, v);
    if f.len() == 0 {
        if !n.values.contains(v) {
            assert(forall|i: int, j: int|
                0 <= i < j < r.values.len() ==> r.values[i] != r.values[j]);
        }
    } else if n.has_branch(f[0]) {
        let i = n.branch_index(f[0]);
        crate::node::lemma_branch_index_is(n, f[0], i);
        lemma_ins_wf(n.branches[i].1, f.skip(1), v);
        assert(forall|k: int|
            0 <= k < r.branches.len() && k != i ==> r.branches[k] == n.branches[k]);
    } else {
        let e = NodeView::<V>::empty();
        assert(e.wf());
        lemma_ins_wf(e, f.skip(1), v);
        assert(forall|k: int| 0 <= k < n.branches.len() ==> r.branches[k] == n.branches[k]);
        assert(forall|k: int| 0 <= k < n.branches.len() ==> n.branches[k].0 != f[0]);
    }
}

/// Law: unregistering a value removes exactly that value from exactly that
/// path and nothing else; removing an absent value stores nothing new.
pub proof fn lemma_del_stored<V>(n: NodeView<V>, f: Seq<LevelView>, v: V, g: Seq<LevelView>)
    requires
        n.wf(),
    ensures
        n.del(f, v).stored(f) == n.stored(f).remove_value(v),
        g != f ==> n.del(f, v).stored(g) == n.stored(g),
    decreases f.len(),
{
    let r = n.del(f, v);
    if f.len() == 0 {
        if g != f {
            if g.len() == 0 {
                assert(g =~= f);
            } else {
                assert(r.branches == n.branches);
            }
        }
    } else if n.has_branch(f[0]) {
        let i = n.branch_index(f[0]);
        crate::node::lemma_branch_index_is(n, f[0], i);
        let child = n.branches[i].1;
        assert(child.wf());
        let c = child.del(f.skip(1), v);
        lemma_del_stored(child, f.skip(1), v, f.skip(1));
        if c.is_empty() {
            // the emptied child is pruned from the branch map
            assert(r.branches =~= n.branches.remove(i));
            assert(forall|k: int|
                0 <= k < r.branches.len() ==> r.branches[k] == (if k < i {
                    n.branches[k]
                } else {
                    n.branches[k + 1]
                }));
            assert(!r.has_branch(f[0]));
            lemma_empty_stored(c, f.skip(1));
            assert(r.stored(f) =~= Seq::<V>::empty());
            assert(n.stored(f).remove_value(v) == c.stored(f.skip(1)));
            if g != f {
                if g.len() == 0 {
                } else if g[0] != f[0] {
                    if n.has_branch(g[0]) {
                        let j = n.branch_index(g[0]);
                        crate::node::lemma_branch_index_is(n, g[0], j);
                        let j2: int = if j < i {
                            j
                        } else {
                            j - 1
                        };
                        assert(r.branches[j2].0 == g[0] && r.branches[j2].1 == n.branches[j].1);
                        crate::node::lemma_branch_index_is(r, g[0], j2);
                    } else {
                        assert(!r.has_branch(g[0]));
                    }
                } else {
                    if g.skip(1) == f.skip(1) {
                        assert(g.len() == f.len());
                        assert forall|x: int| 0 <= x < g.len() implies g[x] == f[x] by {
                            if x > 0 {
                                assert(g.skip(1)[x - 1] == f.skip(1)[x - 1]);
                            }
                        }
                        assert(g =~= f);
                        assert(false);
                    }
                    lemma_del_stored(child, f.skip(1), v, g.skip(1));
                    lemma_empty_stored(c, g.skip(1));
                    assert(n.stored(g) == child.stored(g.skip(1)));
                    assert(child.stored(g.skip(1)) == c.stored(g.skip(1)));
                    assert(r.stored(g) =~= Seq::<V>::empty());
                }
            }
        } else {
            assert(forall|k: int|
                0 <= k < r.branches.len() ==> r.branches[k].0 == n.branches[k].0);
            crate::node::lemma_branch_index_is(r, f[0], i);
            assert(r.stored(f) == c.stored(f.skip(1)));
            if g != f {
                if g.len() == 0 {
                } else if g[0] != f[0] {
                    if n.has_branch(g[0]) {
                        let j = n.branch_index(g[0]);
                        crate::node::lemma_branch_index_is(n, g[0], j);
                        assert(j != i);
                        crate::node::lemma_branch_index_is(r, g[0], j);
                        assert(r.branches[j].1 == n.branches[j].1);
                    } else {
                        assert(!r.has_branch(g[0]));
                    }
                } else {
                    if g.skip(1) == f.skip(1) {
                        assert(g.len() == f.len());
                        assert forall|x: int| 0 <= x < g.len() implies g[x] == f[x] by {
                            if x > 0 {
                                assert(g.skip(1)[x - 1] == f.skip(1)[x - 1]);
                            }
                        }
                        assert(g =~= f);
                        assert(false);
                    }
                    lemma_del_stored(child, f.skip(1), v, g.skip(1));
                    crate::node::lemma_branch_index_is(r, g[0], i);
                }
            }
        }
    } else {
        assert(n.stored(f) =~= Seq::<V>::empty());
        n.stored(f).index_of_first_ensures(v);
        if g != f && g.len() != 0 {
        }
    }
}

/// Law: unregistering a value keeps the tree well-formed; in particular no
/// emptied node is retained anywhere.
pub proof fn lemma_del_wf<V>(n: NodeView<V>, f: Seq<LevelView>, v: V)
    requires
        n.wf(),
    ensures
        n.del(f, v).wf(),
    decreases f.len(),
{
    let r = n.del(f, v);
    if f.len() == 0 {
        n.values.index_of_first_ensures(v);
        match n.values.index_of_first(v) {
            Some(i) => {
                assert(r.values =~= n.values.remove(i));
                assert(forall|a: int, b: int|
                    0 <= a < b < r.values.len() ==> r.values[a] != r.values[b]);
            },
            None => {},
        }
    } else if n.has_branch(f[0]) {
        let i = n.branch_index(f[0]);
        crate::node::lemma_branch_index_is(n, f[0], i);
        let child = n.branches[i].1;
        lemma_del_wf(child, f.skip(1), v);
        let c = child.del(f.skip(1), v);
        if c.is_empty() {
            assert(forall|k: int|
                0 <= k < r.branches.len() ==> r.branches[k] == (if k < i {
                    n.branches[k]
                } else {
                    n.branches[k + 1]
                }));
        } else {
            assert(forall|k: int|
                0 <= k < r.branches.len() && k != i ==> r.branches[k] == n.branches[k]);
        }
    }
}

/// Law: unregistering a value that is not stored under the path leaves the
/// tree exactly as it was.
pub proof fn lemma_del_absent<V>(n: NodeView<V>, f: Seq<LevelView>, v: V)
    requires
        n.wf(),
        !n.stored(f).contains(v),
    ensures
        n.del(f, v) == n,
    decreases f.len(),
{
    if f.len() == 0 {
        n.values.index_of_first_ensures(v);
        assert(n.del(f, v) =~= n);
    } else if n.has_branch(f[0]) {
        let i = n.branch_index(f[0]);
        crate::node::lemma_branch_index_is(n, f[0], i);
        let child = n.branches[i].1;
        assert(n.stored(f) == child.stored(f.skip(1)));
        lemma_del_absent(child, f.skip(1), v);
        let c = child.del(f.skip(1), v);
        assert(c == child);
        assert(!c.is_empty());
        assert(n.branches.update(i, (f[0], c)) =~= n.branches);
        assert(n.del(f, v) =~= n);
    }
}


/// Law: registering a value already stored under the filter changes
/// nothing.
pub proof fn lemma_ins_present<V>(n: NodeView<V>, f: Seq<LevelView>, v: V)
    requires
        n.wf(),
        n.stored(f).contains(v),
    ensures
        n.ins(f, v) == n,
    decreases f.len(),
{
    if f.len() > 0 {
        if n.has_branch(f[0]) {
            let i = n.branch_index(f[0]);
            crate::node::lemma_branch_index_is(n, f[0], i);
            let child = n.branches[i].1;
            assert(n.stored(f) == child.stored(f.skip(1)));
            lemma_ins_present(child, f.skip(1), v);
            assert(n.branches.update(i, (f[0], child.ins(f.skip(1), v))) =~= n.branches);
            assert(n.ins(f, v) =~= n);
        } else {
            assert(n.stored(f) == Seq::<V>::empty());
        }
    }
}

/// Law: registering a fresh value under a filter after another keeps both
/// present, the newer one at the end of the value set; registering the
/// first value once more changes nothing, so that call is reported as
/// already present.
pub proof fn lemma_insert_registers_both<V>(n: NodeView<V>, f: Seq<LevelView>, v1: V, v2: V)
    requires
        n.wf(),
        v1 != v2,
        !n.stored(f).contains(v2),
    ensures
        ({
            let n2 = n.ins(f, v1).ins(f, v2);
            &&& n2.wf()
            &&& n2.stored(f).contains(v1)
            &&& n2.stored(f).contains(v2)
            &&& n2.stored(f).len() > 0 && n2.stored(f).last() == v2
            &&& !n.ins(f, v1).stored(f).contains(v2)
            &&& n2.ins(f, v1) == n2
        }),
{
    let n1 = n.ins(f, v1);
    lemma_ins_wf(n, f, v1);
    lemma_ins_stored(n, f, v1, f);
    let s1 = n1.stored(f);
    assert(s1.contains(v1)) by {
        if n.stored(f).contains(v1) {
        } else {
            assert(s1 == n.stored(f).push(v1));
            assert(s1[s1.len() - 1] == v1);
        }
    }
    assert(!s1.contains(v2)) by {
        if !n.stored(f).contains(v1) {
            if s1.contains(v2) {
                let idx = choose|idx: int| 0 <= idx < s1.len() && s1[idx] == v2;
                if idx < s1.len() - 1 {
                    assert(n.stored(f)[idx] == v2);
                }
            }
        }
    }
    let n2 = n1.ins(f, v2);
    lemma_ins_wf(n1, f, v2);
    lemma_ins_stored(n1, f, v2, f);
    assert(n2.stored(f) == s1.push(v2));
    assert(n2.stored(f).contains(v1)) by {
        let idx = choose|idx: int| 0 <= idx < s1.len() && s1[idx] == v1;
        assert(s1.push(v2)[idx] == v1);
    }
    assert(n2.stored(f)[n2.stored(f).len() - 1] == v2);
    lemma_ins_present(n2, f, v1);
}

} // verus!

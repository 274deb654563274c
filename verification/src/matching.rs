use vstd::prelude::*;

use crate::level::Level;
use crate::level::LevelView;
use crate::level::Topic;
use crate::node::Node;
use crate::node::NodeView;
use crate::node::TreeValue;

verus! {

/// Mathematical image of one reported match: the filter's level path and
/// the values registered under it.
pub open spec fn item_view<V>(it: (Vec<Level>, Vec<V>)) -> (Seq<LevelView>, Seq<V>) {
    (it.0@.map_values(|l: Level| l@), it.1@)
}

/// `pre` prepended to the path of every item.
pub open spec fn prefix_items<V>(
    pre: Seq<LevelView>,
    items: Seq<(Seq<LevelView>, Seq<V>)>,
) -> Seq<(Seq<LevelView>, Seq<V>)> {
    items.map_values(|it: (Seq<LevelView>, Seq<V>)| (pre + it.0, it.1))
}

/// Whether the first level of a topic marks it as a reserved/system name.
/// Such a topic is kept away from the bare-wildcard branches at the root
/// of the traversal: it reaches only filters that spell the prefix out.
pub open spec fn root_excluded(t: Seq<LevelView>) -> bool {
    t.len() > 0 && t[0].is_metadata() && !t[0].is_blank()
}

/// The matches the subtree `n` reports for the remaining topic levels `t`,
/// in traversal order. At every depth three branches are considered
/// together: the multi-level wildcard child's values are reported at once;
/// the single-level wildcard child consumes one topic level and is walked
/// to exhaustion; then the branch keyed by the literal topic level is
/// walked. When the topic is exhausted, the node's own values complete the
/// matches after its multi-level wildcard child's. `at_root` is true only
/// before any level has been consumed, where the reserved-name exclusion
/// applies.
pub open spec fn match_items<V>(n: NodeView<V>, t: Seq<LevelView>, at_root: bool) -> Seq<
    (Seq<LevelView>, Seq<V>),
>
    decreases t.len(),
{
    if t.len() == 0 {
        let mw = if n.has_branch(LevelView::MultiWildcard) && n.child(
            LevelView::MultiWildcard,
        ).values.len() > 0 {
            seq![(seq![LevelView::MultiWildcard], n.child(LevelView::MultiWildcard).values)]
        } else {
            Seq::empty()
        };
        let own = if n.values.len() > 0 {
            seq![(Seq::<LevelView>::empty(), n.values)]
        } else {
            Seq::empty()
        };
        mw + own
    } else {
        let excluded = at_root && root_excluded(t);
        let mw = if !excluded && n.has_branch(LevelView::MultiWildcard) && n.child(
            LevelView::MultiWildcard,
        ).values.len() > 0 {
            seq![(seq![LevelView::MultiWildcard], n.child(LevelView::MultiWildcard).values)]
        } else {
            Seq::empty()
        };
        let sw = if !excluded && n.has_branch(LevelView::SingleWildcard) {
            prefix_items(
                seq![LevelView::SingleWildcard],
                match_items(n.child(LevelView::SingleWildcard), t.skip(1), false),
            )
        } else {
            Seq::empty()
        };
        let lit = if n.has_branch(t[0]) {
            prefix_items(seq![t[0]], match_items(n.child(t[0]), t.skip(1), false))
        } else {
            Seq::empty()
        };
        mw + sw + lit
    }
}

/// Bound on the state-machine steps a pending frame over `k` topic levels
/// can take before exhaustion.
spec fn vm(k: nat) -> nat
    decreases k,
{
    if k == 0 {
        5
    } else {
        5 + 2 * vm((k - 1) as nat)
    }
}

proof fn lemma_vm_ge(k: nat)
    ensures
        vm(k) >= 5,
    decreases k,
{
    if k > 0 {
        lemma_vm_ge((k - 1) as nat);
    }
}

proof fn lemma_prefix_app<V>(
    p: Seq<LevelView>,
    x: Seq<(Seq<LevelView>, Seq<V>)>,
    y: Seq<(Seq<LevelView>, Seq<V>)>,
)
    ensures
        prefix_items(p, x + y) == prefix_items(p, x) + prefix_items(p, y),
{
    assert(prefix_items(p, x + y) =~= prefix_items(p, x) + prefix_items(p, y));
}

proof fn lemma_prefix_compose<V>(
    a: Seq<LevelView>,
    b: Seq<LevelView>,
    x: Seq<(Seq<LevelView>, Seq<V>)>,
)
    ensures
        prefix_items(a, prefix_items(b, x)) == prefix_items(a + b, x),
{
    assert forall|i: int| 0 <= i < x.len() implies prefix_items(a, prefix_items(b, x))[i]
        == prefix_items(a + b, x)[i] by {
        assert(a + (b + x[i].0) =~= (a + b) + x[i].0);
    }
    assert(prefix_items(a, prefix_items(b, x)) =~= prefix_items(a + b, x));
}

proof fn lemma_prefix_empty<V>(x: Seq<(Seq<LevelView>, Seq<V>)>)
    ensures
        prefix_items(Seq::empty(), x) == x,
{
    assert forall|i: int| 0 <= i < x.len() implies prefix_items(Seq::<LevelView>::empty(), x)[i]
        == x[i] by {
        assert(Seq::<LevelView>::empty() + x[i].0 =~= x[i].0);
    }
    assert(prefix_items(Seq::empty(), x) =~= x);
}

proof fn lemma_concat_skip1<V>(x: Seq<(Seq<LevelView>, Seq<V>)>, y: Seq<(Seq<LevelView>, Seq<V>)>)
    requires
        x.len() > 0,
    ensures
        (x + y).skip(1) == x.skip(1) + y,
        (x + y)[0] == x[0],
{
    assert((x + y).skip(1) =~= x.skip(1) + y);
}

/// An independent copy of a value list.
fn dup_values<V: TreeValue>(v: &Vec<V>) -> (r: Vec<V>)
    ensures
        r@ == v@,
{
    let mut r: Vec<V> = Vec::new();
    let mut i: usize = 0;
    while i < v.len()
        invariant
            i <= v@.len(),
            r@ =~= v@.subrange(0, i as int),
        decreases v@.len() - i,
    {
        r.push(v[i].dup());
        i += 1;
    }
    proof {
        assert(r@ =~= v@);
    }
    r
}

fn dup_levels(v: &Vec<Level>) -> (r: Vec<Level>)
    ensures
        r@.map_values(|l: Level| l@) == v@.map_values(|l: Level| l@),
        r@.len() == v@.len(),
{
    let mut r: Vec<Level> = Vec::new();
    let mut i: usize = 0;
    while i < v.len()
        invariant
            i <= v@.len(),
            r@.len() == i,
            forall|k: int| 0 <= k < i ==> (#[trigger] r@[k])@ == v@[k]@,
        decreases v@.len() - i,
    {
        r.push(v[i].dup());
        i += 1;
    }
    proof {
        assert(r@.map_values(|l: Level| l@) =~= v@.map_values(|l: Level| l@));
    }
    r
}

fn dup_levels_suffix(v: &Vec<Level>, from: usize) -> (r: Vec<Level>)
    requires
        from <= v@.len(),
    ensures
        r@.map_values(|l: Level| l@) == v@.map_values(|l: Level| l@).skip(from as int),
        r@.len() == v@.len() - from,
{
    let mut r: Vec<Level> = Vec::new();
    let mut i: usize = from;
    while i < v.len()
        invariant
            from <= i <= v@.len(),
            r@.len() == i - from,
            forall|k: int| 0 <= k < i - from ==> (#[trigger] r@[k])@ == v@[k + from]@,
        decreases v@.len() - i,
    {
        r.push(v[i].dup());
        i += 1;
    }
    proof {
        assert(r@.map_values(|l: Level| l@) =~= v@.map_values(|l: Level| l@).skip(from as int));
    }
    r
}

/// The lazy matching traversal: an explicit state machine over traversal
/// frames. A frame starts pending, holding the subtree to walk, the
/// unconsumed topic suffix and the path walked so far; on first pull it is
/// prepared once into a small queue of ready items and an ordered list of
/// child frames (the single-level wildcard child before the literal one),
/// which are then drained in order.
///
/// Frames own independent copies of the subtrees they still have to walk,
/// rather than borrowing into the tree: the tree stays free for the caller
/// while a traversal is alive, at the price of copying the visited part.
/// The yielded sequence is exactly the one the borrowed walk would give.
pub struct MatchedIter<V> {
    node: Node<V>,
    path: Vec<Level>,
    sub_path: Option<Vec<Level>>,
    curr_items: Vec<(Vec<Level>, Vec<V>)>,
    sub_iters: Vec<MatchedIter<V>>,
}

spec fn iters_remaining<V>(s: Seq<MatchedIter<V>>) -> Seq<(Seq<LevelView>, Seq<V>)>
    decreases s,
{
    if s.len() == 0 {
        Seq::empty()
    } else {
        s[0].remaining() + iters_remaining(s.skip(1))
    }
}

spec fn iters_inv<V>(s: Seq<MatchedIter<V>>) -> bool
    decreases s,
{
    s.len() == 0 || (s[0].inv() && iters_inv(s.skip(1)))
}

spec fn iters_measure<V>(s: Seq<MatchedIter<V>>) -> nat
    decreases s,
{
    if s.len() == 0 {
        0
    } else {
        s[0].measure() + iters_measure(s.skip(1))
    }
}

impl<V> MatchedIter<V> {
    /// The items this traversal has yet to yield, in order.
    pub closed spec fn remaining(self) -> Seq<(Seq<LevelView>, Seq<V>)>
        decreases self,
    {
        match self.sub_path {
            Some(pre) => prefix_items(
                pre@.map_values(|l: Level| l@),
                match_items(
                    self.node@,
                    self.path@.map_values(|l: Level| l@),
                    pre@.len() == 0,
                ),
            ),
            None => self.curr_items@.map_values(|it: (Vec<Level>, Vec<V>)| item_view(it))
                + iters_remaining(self.sub_iters@),
        }
    }

    /// Internal validity of the traversal state.
    pub closed spec fn inv(self) -> bool
        decreases self,
    {
        match self.sub_path {
            Some(_) => self.node@.wf() && self.curr_items@.len() == 0 && self.sub_iters@.len()
                == 0,
            None => iters_inv(self.sub_iters@),
        }
    }

    /// Bound on the steps left before exhaustion.
    pub closed spec fn measure(self) -> nat
        decreases self,
    {
        match self.sub_path {
            Some(_) => vm(self.path@.len()),
            None => 2 + self.curr_items@.len() + iters_measure(self.sub_iters@),
        }
    }

    /// The already-prepared part of `remaining`.
    spec fn ready(self) -> Seq<(Seq<LevelView>, Seq<V>)> {
        self.curr_items@.map_values(|it: (Vec<Level>, Vec<V>)| item_view(it)) + iters_remaining(
            self.sub_iters@,
        )
    }
}

proof fn lemma_measure_pos<V>(it: MatchedIter<V>)
    ensures
        it.measure() >= 2,
{
    if it.sub_path is Some {
        lemma_vm_ge(it.path@.map_values(|l: Level| l@).len());
        lemma_vm_ge(it.path@.len());
    }
}

proof fn lemma_iters_remaining_push<V>(s: Seq<MatchedIter<V>>, e: MatchedIter<V>)
    ensures
        iters_remaining(s.push(e)) == iters_remaining(s) + e.remaining(),
    decreases s.len(),
{
    if s.len() == 0 {
        assert(s.push(e)[0] == e);
        assert(s.push(e).skip(1) =~= Seq::<MatchedIter<V>>::empty());
        assert(iters_remaining(Seq::<MatchedIter<V>>::empty()) =~= Seq::<(Seq<LevelView>, Seq<V>)>::empty());
        assert(iters_remaining(s.push(e)) == s.push(e)[0].remaining() + iters_remaining(s.push(e).skip(1)));
        assert(iters_remaining(s.push(e)) =~= iters_remaining(s) + e.remaining());
    } else {
        assert(s.push(e)[0] == s[0]);
        assert(s.push(e).skip(1) =~= s.skip(1).push(e));
        lemma_iters_remaining_push(s.skip(1), e);
        assert(iters_remaining(s.push(e)) =~= iters_remaining(s) + e.remaining());
    }
}

proof fn lemma_iters_measure_push<V>(s: Seq<MatchedIter<V>>, e: MatchedIter<V>)
    ensures
        iters_measure(s.push(e)) == iters_measure(s) + e.measure(),
    decreases s.len(),
{
    if s.len() == 0 {
        assert(s.push(e)[0] == e);
        assert(s.push(e).skip(1) =~= Seq::<MatchedIter<V>>::empty());
        assert(iters_measure(Seq::<MatchedIter<V>>::empty()) == 0);
        assert(iters_measure(s.push(e)) == s.push(e)[0].measure() + iters_measure(s.push(e).skip(1)));
    } else {
        assert(s.push(e)[0] == s[0]);
        assert(s.push(e).skip(1) =~= s.skip(1).push(e));
        lemma_iters_measure_push(s.skip(1), e);
        assert(iters_measure(s.push(e)) == s.push(e)[0].measure() + iters_measure(s.push(e).skip(1)));
        assert(iters_measure(s) == s[0].measure() + iters_measure(s.skip(1)));
    }
}

proof fn lemma_iters_inv_push<V>(s: Seq<MatchedIter<V>>, e: MatchedIter<V>)
    requires
        iters_inv(s),
        e.inv(),
    ensures
        iters_inv(s.push(e)),
    decreases s.len(),
{
    if s.len() == 0 {
        assert(s.push(e)[0] == e);
        assert(s.push(e).skip(1) =~= Seq::<MatchedIter<V>>::empty());
        assert(iters_inv(Seq::<MatchedIter<V>>::empty()));
        assert(iters_inv(s.push(e)) == (s.push(e)[0].inv() && iters_inv(s.push(e).skip(1))));
    } else {
        assert(s.push(e)[0] == s[0]);
        assert(s.push(e).skip(1) =~= s.skip(1).push(e));
        lemma_iters_inv_push(s.skip(1), e);
        assert(iters_inv(s.push(e)) == (s.push(e)[0].inv() && iters_inv(s.push(e).skip(1))));
        assert(s[0].inv() && iters_inv(s.skip(1)));
    }
}

impl<V: TreeValue> MatchedIter<V> {
    /// A pending frame over the subtree `node`, topic suffix `path`, and
    /// walked prefix `sub_path`.
    fn new(node: Node<V>, path: Vec<Level>, sub_path: Vec<Level>) -> (r: Self)
        requires
            node@.wf(),
        ensures
            r.inv(),
            r.measure() == vm(path@.len()),
            r.remaining() == prefix_items(
                sub_path@.map_values(|l: Level| l@),
                match_items(
                    node@,
                    path@.map_values(|l: Level| l@),
                    sub_path@.len() == 0,
                ),
            ),
    {
        MatchedIter {
            node,
            path,
            sub_path: Some(sub_path),
            curr_items: Vec::new(),
            sub_iters: Vec::new(),
        }
    }

    /// An item ready to be yielded for the walked path `levels`, unless the
    /// value set is empty.
    fn ready_item(levels: Vec<Level>, v_set: &Vec<V>) -> (r: Option<(Vec<Level>, Vec<V>)>)
        ensures
            match r {
                Some(it) => v_set@.len() > 0 && item_view(it) == (
                    levels@.map_values(|l: Level| l@),
                    v_set@,
                ),
                None => v_set@.len() == 0,
            },
    {
        if v_set.len() > 0 {
            Some((levels, dup_values(v_set)))
        } else {
            None
        }
    }
}


impl<V: TreeValue> MatchedIter<V> {
    /// Expands a pending frame once: queues the items directly available at
    /// this node, and opens the child frames to drain afterwards, the
    /// single-level wildcard branch before the literal branch.
    fn prepare(&mut self)
        requires
            old(self).inv(),
            old(self).sub_path is Some,
        ensures
            final(self).inv(),
            final(self).sub_path is None,
            final(self).remaining() == old(self).remaining(),
            final(self).measure() < old(self).measure(),
    {
        let ghost nv = old(self).node@;
        let ghost t = old(self).path@.map_values(|l: Level| l@);
        let pre: Vec<Level> = match &self.sub_path {
            Some(p) => dup_levels(p),
            None => {
                proof {
                    assert(false);
                }
                Vec::new()
            },
        };
        let ghost pre_v = pre@.map_values(|l: Level| l@);
        let ghost root = pre_v.len() == 0;
        let ghost target = prefix_items(pre_v, match_items(nv, t, root));
        proof {
            assert(old(self).remaining() == target);
        }
        let mut new_items: Vec<(Vec<Level>, Vec<V>)> = Vec::new();
        let mut new_iters: Vec<MatchedIter<V>> = Vec::new();
        let mwl = Level::MultiWildcard;
        let swl = Level::SingleWildcard;
        if self.path.len() == 0 {
            let ghost mw_s = if nv.has_branch(LevelView::MultiWildcard) && nv.child(
                LevelView::MultiWildcard,
            ).values.len() > 0 {
                seq![(seq![LevelView::MultiWildcard], nv.child(LevelView::MultiWildcard).values)]
            } else {
                Seq::<(Seq<LevelView>, Seq<V>)>::empty()
            };
            let ghost own_s = if nv.values.len() > 0 {
                seq![(Seq::<LevelView>::empty(), nv.values)]
            } else {
                Seq::<(Seq<LevelView>, Seq<V>)>::empty()
            };
            proof {
                assert(t.len() == 0);
                assert(match_items(nv, t, root) == mw_s + own_s);
            }
            match self.node.child(&mwl) {
                Some(b) => {
                    let mut lv = dup_levels(&pre);
                    lv.push(Level::MultiWildcard);
                    proof {
                        assert(lv@.map_values(|l: Level| l@) =~= pre_v + seq![
                            LevelView::MultiWildcard,
                        ]);
                    }
                    match Self::ready_item(lv, b.values()) {
                        Some(it) => {
                            new_items.push(it);
                        },
                        None => {},
                    }
                },
                None => {},
            }
            match Self::ready_item(pre, self.node.values()) {
                Some(it) => {
                    new_items.push(it);
                },
                None => {},
            }
            proof {
                assert(new_items@.map_values(|it: (Vec<Level>, Vec<V>)| item_view(it)) =~=
                    prefix_items(pre_v, mw_s) + prefix_items(pre_v, own_s));
                lemma_prefix_app(pre_v, mw_s, own_s);
            }
        } else {
            let ghost excluded_s = root && root_excluded(t);
            let ghost mw_s = if !excluded_s && nv.has_branch(LevelView::MultiWildcard) && nv.child(
                LevelView::MultiWildcard,
            ).values.len() > 0 {
                seq![(seq![LevelView::MultiWildcard], nv.child(LevelView::MultiWildcard).values)]
            } else {
                Seq::<(Seq<LevelView>, Seq<V>)>::empty()
            };
            let ghost sw_s = if !excluded_s && nv.has_branch(LevelView::SingleWildcard) {
                prefix_items(
                    seq![LevelView::SingleWildcard],
                    match_items(nv.child(LevelView::SingleWildcard), t.skip(1), false),
                )
            } else {
                Seq::<(Seq<LevelView>, Seq<V>)>::empty()
            };
            let ghost lit_s = if nv.has_branch(t[0]) {
                prefix_items(seq![t[0]], match_items(nv.child(t[0]), t.skip(1), false))
            } else {
                Seq::<(Seq<LevelView>, Seq<V>)>::empty()
            };
            proof {
                assert(t.len() > 0);
                assert(match_items(nv, t, root) == mw_s + sw_s + lit_s);
            }
            let excluded = {
                let p0 = &self.path[0];
                pre.len() == 0 && !p0.is_blank() && p0.is_metadata() && (self.node.child(
                    &mwl,
                ).is_some() || self.node.child(&swl).is_some())
            };
            proof {
                assert(self.path@[0]@ == t[0]);
                if excluded {
                    assert(excluded_s);
                }
                if excluded_s && !excluded {
                    assert(!nv.has_branch(LevelView::MultiWildcard) && !nv.has_branch(
                        LevelView::SingleWildcard,
                    ));
                }
            }
            if !excluded {
                match self.node.child(&mwl) {
                    Some(b) => {
                        let mut lv = dup_levels(&pre);
                        lv.push(Level::MultiWildcard);
                        proof {
                            assert(lv@.map_values(|l: Level| l@) =~= pre_v + seq![
                                LevelView::MultiWildcard,
                            ]);
                        }
                        match Self::ready_item(lv, b.values()) {
                            Some(it) => {
                                new_items.push(it);
                            },
                            None => {},
                        }
                    },
                    None => {},
                }
                match self.node.child(&swl) {
                    Some(b) => {
                        proof {
                            let bi = nv.branch_index(LevelView::SingleWildcard);
                            assert(0 <= bi < nv.branches.len() && nv.branches[bi].0
                                == LevelView::SingleWildcard);
                            assert(nv.branches[bi].1.wf());
                        }
                        let mut spath = dup_levels(&pre);
                        spath.push(Level::SingleWildcard);
                        let rest = dup_levels_suffix(&self.path, 1);
                        let frame = MatchedIter::new(b.deep_dup(), rest, spath);
                        proof {
                            lemma_iters_remaining_push(new_iters@, frame);
                            lemma_iters_measure_push(new_iters@, frame);
                            lemma_iters_inv_push(new_iters@, frame);
                            assert(spath@.map_values(|l: Level| l@) =~= pre_v.push(
                                LevelView::SingleWildcard,
                            ));
                            assert(frame.remaining() == prefix_items(
                                pre_v.push(LevelView::SingleWildcard),
                                match_items(nv.child(LevelView::SingleWildcard), t.skip(1), false),
                            ));
                            assert(pre_v + seq![LevelView::SingleWildcard] =~= pre_v.push(
                                LevelView::SingleWildcard,
                            ));
                            lemma_prefix_compose(
                                pre_v,
                                seq![LevelView::SingleWildcard],
                                match_items(nv.child(LevelView::SingleWildcard), t.skip(1), false),
                            );
                            assert(frame.remaining() == prefix_items(pre_v, sw_s));
                        }
                        new_iters.push(frame);
                    },
                    None => {},
                }
            }
            let p0 = {
                let r = &self.path[0];
                r.dup()
            };
            match self.node.child(&p0) {
                Some(b) => {
                    proof {
                        let bi = nv.branch_index(t[0]);
                        assert(0 <= bi < nv.branches.len() && nv.branches[bi].0 == t[0]);
                        assert(nv.branches[bi].1.wf());
                    }
                    let mut spath = dup_levels(&pre);
                    spath.push(p0.dup());
                    let rest = dup_levels_suffix(&self.path, 1);
                    let frame = MatchedIter::new(b.deep_dup(), rest, spath);
                    proof {
                        lemma_iters_remaining_push(new_iters@, frame);
                        lemma_iters_measure_push(new_iters@, frame);
                        lemma_iters_inv_push(new_iters@, frame);
                        assert(spath@.map_values(|l: Level| l@) =~= pre_v.push(t[0]));
                        assert(frame.remaining() == prefix_items(
                            pre_v.push(t[0]),
                            match_items(nv.child(t[0]), t.skip(1), false),
                        ));
                        assert(pre_v + seq![t[0]] =~= pre_v.push(t[0]));
                        lemma_prefix_compose(
                            pre_v,
                            seq![t[0]],
                            match_items(nv.child(t[0]), t.skip(1), false),
                        );
                        assert(frame.remaining() == prefix_items(pre_v, lit_s));
                    }
                    new_iters.push(frame);
                },
                None => {},
            }
            proof {
                assert(new_items@.map_values(|it: (Vec<Level>, Vec<V>)| item_view(it)) =~=
                    prefix_items(pre_v, mw_s));
                assert(iters_remaining(new_iters@) =~= prefix_items(pre_v, sw_s) + prefix_items(
                    pre_v,
                    lit_s,
                ));
                lemma_prefix_app(pre_v, mw_s + sw_s, lit_s);
                lemma_prefix_app(pre_v, mw_s, sw_s);
                assert(prefix_items(pre_v, mw_s + sw_s + lit_s) == prefix_items(pre_v, mw_s)
                    + prefix_items(pre_v, sw_s) + prefix_items(pre_v, lit_s));
            }
        }
        self.curr_items = new_items;
        self.sub_iters = new_iters;
        self.sub_path = None;
        proof {
            assert(old(self).path@.len() == t.len());
            if self.sub_iters@.len() == 0 {
                assert(iters_remaining(self.sub_iters@) =~= Seq::<(Seq<LevelView>, Seq<V>)>::empty());
                assert(iters_measure(self.sub_iters@) == 0);
                assert(iters_inv(self.sub_iters@));
            }
            assert(final(self).remaining() =~= target);
            if t.len() > 0 {
                assert(vm(t.len()) == 5 + 2 * vm((t.len() - 1) as nat));
            } else {
                assert(vm(t.len()) == 5);
            }
            assert(final(self).measure() < old(self).measure());
        }
    }
}


impl<V: TreeValue> MatchedIter<V> {
    /// Yields the next already-prepared item: the frame's own queue first,
    /// then the child frames in order, dropping each as it exhausts.
    fn next_item(&mut self) -> (r: Option<(Vec<Level>, Vec<V>)>)
        requires
            old(self).inv(),
        ensures
            final(self).inv(),
            final(self).sub_path == old(self).sub_path,
            final(self).node == old(self).node,
            final(self).path == old(self).path,
            final(self).measure() <= old(self).measure(),
            match r {
                Some(item) => old(self).ready().len() > 0 && item_view(item) == old(
                    self,
                ).ready()[0] && final(self).ready() == old(self).ready().skip(1),
                None => old(self).ready().len() == 0 && final(self).ready() == old(self).ready(),
            },
        decreases self.measure(), 0int,
    {
        let ghost q0 = old(self).curr_items@.map_values(|it: (Vec<Level>, Vec<V>)| item_view(it));
        if self.curr_items.len() > 0 {
            let item = self.curr_items.remove(0);
            proof {
                let q1 = final(self).curr_items@.map_values(
                    |it: (Vec<Level>, Vec<V>)| item_view(it),
                );
                assert(q1 =~= q0.skip(1));
                assert(final(self).ready() =~= old(self).ready().skip(1));
                if old(self).sub_path is Some {
                    assert(false);
                }
            }
            return Some(item);
        }
        if self.sub_iters.len() == 0 {
            proof {
                assert(iters_remaining(self.sub_iters@) =~= Seq::<(Seq<LevelView>, Seq<V>)>::empty());
                assert(old(self).ready() =~= Seq::<(Seq<LevelView>, Seq<V>)>::empty());
            }
            return None;
        }
        proof {
            if old(self).sub_path is Some {
                assert(false);
            }
            assert(iters_inv(self.sub_iters@));
            assert(self.sub_iters@[0].inv());
            assert(self.sub_iters@[0].measure() <= iters_measure(self.sub_iters@));
        }
        let ghost iters0 = self.sub_iters@;
        let mut head = self.sub_iters.remove(0);
        let ghost head0 = head;
        let ghost rest = iters_remaining(iters0.skip(1));
        proof {
            assert(self.sub_iters@ =~= iters0.skip(1));
            assert(q0 =~= Seq::<(Seq<LevelView>, Seq<V>)>::empty());
            assert(old(self).ready() =~= head0.remaining() + rest);
        }
        let got = head.next();
        match got {
            Some(item) => {
                proof {
                    lemma_concat_skip1(head0.remaining(), rest);
                }
                self.sub_iters.insert(0, head);
                proof {
                    assert(self.sub_iters@ =~= iters0.skip(1).insert(0, head));
                    assert(self.sub_iters@[0] == head);
                    assert(self.sub_iters@.skip(1) =~= iters0.skip(1));
                    assert(iters_remaining(self.sub_iters@) == head.remaining() + iters_remaining(
                        iters0.skip(1),
                    ));
                    assert(iters_measure(self.sub_iters@) == head.measure() + iters_measure(
                        iters0.skip(1),
                    ));
                    assert(iters_inv(self.sub_iters@) == (head.inv() && iters_inv(
                        iters0.skip(1),
                    )));
                    assert(final(self).ready() =~= head.remaining() + rest);
                    assert(head.remaining() + rest =~= (head0.remaining() + rest).skip(1));
                    assert(old(self).ready().skip(1) =~= (head0.remaining() + rest).skip(1));
                }
                Some(item)
            },
            None => {
                proof {
                    assert(head.remaining().len() == 0);
                    assert(head0.remaining() + rest =~= rest);
                    assert(self.ready() =~= rest);
                    lemma_measure_pos(head0);
                    assert(self.measure() < old(self).measure());
                }
                let deeper = self.next_item();
                proof {
                    assert(old(self).ready() =~= rest);
                }
                deeper
            },
        }
    }

    /// Yields the next match, or reports permanent exhaustion. The first
    /// pull expands this frame once; afterwards the prepared queue and the
    /// child frames are drained in order.
    pub fn next(&mut self) -> (r: Option<(Vec<Level>, Vec<V>)>)
        requires
            old(self).inv(),
        ensures
            final(self).inv(),
            final(self).measure() <= old(self).measure(),
            match r {
                Some(item) => old(self).remaining().len() > 0 && item_view(item) == old(
                    self,
                ).remaining()[0] && final(self).remaining() == old(self).remaining().skip(1),
                None => old(self).remaining().len() == 0 && final(self).remaining().len() == 0,
            },
        decreases self.measure(), 1int,
    {
        let first_try = self.next_item();
        match first_try {
            Some(item) => {
                proof {
                    if old(self).sub_path is Some {
                        assert(old(self).curr_items@.len() == 0 && old(self).sub_iters@.len()
                            == 0);
                        assert(iters_remaining(old(self).sub_iters@) =~= Seq::<(
                            Seq<LevelView>,
                            Seq<V>,
                        )>::empty());
                        assert(old(self).ready().len() == 0);
                        assert(false);
                    }
                    assert(old(self).remaining() == old(self).ready());
                    assert(final(self).remaining() == final(self).ready());
                }
                Some(item)
            },
            None => {
                if self.sub_path.is_none() {
                    proof {
                        assert(old(self).remaining() == old(self).ready());
                        assert(final(self).remaining() == final(self).ready());
                    }
                    None
                } else {
                    let ghost mid = *self;
                    proof {
                        assert(mid.remaining() == old(self).remaining());
                    }
                    self.prepare();
                    let second = self.next_item();
                    proof {
                        assert(final(self).remaining() == final(self).ready());
                    }
                    second
                }
            },
        }
    }
}


/// A pending match query: the tree and the concrete topic to match,
/// from which lazy traversals are started.
pub struct Matcher<V> {
    node: Node<V>,
    path: Vec<Level>,
}

impl<V> Matcher<V> {
    /// The tree being matched against.
    pub closed spec fn tree(self) -> NodeView<V> {
        self.node@
    }

    /// The topic's level sequence.
    pub closed spec fn topic(self) -> Seq<LevelView> {
        self.path@.map_values(|l: Level| l@)
    }

    /// Validity of the held tree.
    pub closed spec fn wf(self) -> bool {
        self.node@.wf()
    }
}

impl<V: TreeValue> Matcher<V> {
    /// Starts a fresh traversal over the matches, in traversal order.
    pub fn iter(&self) -> (it: MatchedIter<V>)
        requires
            self.wf(),
        ensures
            it.inv(),
            it.remaining() == match_items(self.tree(), self.topic(), true),
    {
        let it = MatchedIter::new(self.node.deep_dup(), dup_levels(&self.path), Vec::new());
        proof {
            assert(Seq::<Level>::empty().map_values(|l: Level| l@) =~= Seq::<LevelView>::empty());
            lemma_prefix_empty(match_items(self.tree(), self.topic(), true));
        }
        it
    }

    /// The first match only; later matches are left uncomputed.
    pub fn first(&self) -> (r: Option<(Vec<Level>, Vec<V>)>)
        requires
            self.wf(),
        ensures
            match r {
                Some(item) => match_items(self.tree(), self.topic(), true).len() > 0 && item_view(
                    item,
                ) == match_items(self.tree(), self.topic(), true)[0],
                None => match_items(self.tree(), self.topic(), true).len() == 0,
            },
    {
        let mut it = self.iter();
        it.next()
    }
}

impl<V: TreeValue> Node<V> {
    /// A lazy matching query of the concrete topic against this tree:
    /// a finite pull-based sequence of (matched filter path, values) pairs.
    /// The query and its traversals work on their own copy of the tree, so
    /// the tree is not borrowed while they live.
    pub fn matches(&self, topic: &Topic) -> (m: Matcher<V>)
        requires
            self@.wf(),
        ensures
            m.wf(),
            m.tree() == self@,
            m.topic() == topic@,
    {
        Matcher { node: self.deep_dup(), path: dup_levels(&topic.levels) }
    }

    /// Whether at least one filter in the tree matches the topic; only the
    /// first match is computed.
    pub fn is_match(&self, topic: &Topic) -> (r: bool)
        requires
            self@.wf(),
        ensures
            r == (match_items(self@, topic@, true).len() > 0),
    {
        self.matches(topic).first().is_some()
    }
}


/// Law: a multi-level wildcard branch with registered values matches every
/// topic that is not excluded as a reserved name, the zero-level topic
/// included, and its item is always reported first.
pub proof fn lemma_multi_wildcard_matches_all<V>(n: NodeView<V>, t: Seq<LevelView>)
    requires
        n.has_branch(LevelView::MultiWildcard),
        n.child(LevelView::MultiWildcard).values.len() > 0,
        !root_excluded(t),
    ensures
        match_items(n, t, true).len() > 0,
        match_items(n, t, true)[0] == (
            seq![LevelView::MultiWildcard],
            n.child(LevelView::MultiWildcard).values,
        ),
{
    let mw = seq![
        (seq![LevelView::MultiWildcard], n.child(LevelView::MultiWildcard).values),
    ];
    if t.len() == 0 {
        let own = if n.values.len() > 0 {
            seq![(Seq::<LevelView>::empty(), n.values)]
        } else {
            Seq::<(Seq<LevelView>, Seq<V>)>::empty()
        };
        assert(match_items(n, t, true) == mw + own);
        assert((mw + own)[0] == mw[0]);
    } else {
        assert(!(true && root_excluded(t)));
        let rest = match_items(n, t, true).skip(1);
        assert(match_items(n, t, true)[0] == mw[0]);
    }
}

/// Law: a topic whose first level is a reserved name never reaches the
/// bare-wildcard branches at the root; every match it produces spells the
/// reserved first level out literally.
pub proof fn lemma_root_exclusion<V>(n: NodeView<V>, t: Seq<LevelView>)
    requires
        root_excluded(t),
    ensures
        forall|k: int| 0 <= k < match_items(n, t, true).len()
            ==> (#[trigger] match_items(n, t, true)[k]).0.len() > 0 && match_items(
                n,
                t,
                true,
            )[k].0[0] == t[0],
{
    let lit = if n.has_branch(t[0]) {
        prefix_items(seq![t[0]], match_items(n.child(t[0]), t.skip(1), false))
    } else {
        Seq::<(Seq<LevelView>, Seq<V>)>::empty()
    };
    let e = Seq::<(Seq<LevelView>, Seq<V>)>::empty();
    assert(match_items(n, t, true) == e + e + lit);
    assert(e + e + lit =~= lit);
    assert forall|k: int| 0 <= k < lit.len() implies (#[trigger] lit[k]).0.len() > 0 && lit[k].0[0]
        == t[0] by {
        if n.has_branch(t[0]) {
            let inner = match_items(n.child(t[0]), t.skip(1), false);
            assert(lit[k] == (seq![t[0]] + inner[k].0, inner[k].1));
            assert((seq![t[0]] + inner[k].0)[0] == t[0]);
        }
    }
}


/// Law: every reported match is genuine. The item at any position of the
/// match sequence names a path under which the tree really stores values,
/// and carries exactly that value set, never an empty one.
pub proof fn lemma_matches_are_stored<V>(n: NodeView<V>, t: Seq<LevelView>, at_root: bool, k: int)
    requires
        n.wf(),
        0 <= k < match_items(n, t, at_root).len(),
    ensures
        match_items(n, t, at_root)[k].1.len() > 0,
        match_items(n, t, at_root)[k].1 == n.stored(match_items(n, t, at_root)[k].0),
    decreases t.len(),
{
    let items = match_items(n, t, at_root);
    let mwl = LevelView::MultiWildcard;
    let swl = LevelView::SingleWildcard;
    if t.len() == 0 {
        let mw = if n.has_branch(mwl) && n.child(mwl).values.len() > 0 {
            seq![(seq![mwl], n.child(mwl).values)]
        } else {
            Seq::<(Seq<LevelView>, Seq<V>)>::empty()
        };
        let own = if n.values.len() > 0 {
            seq![(Seq::<LevelView>::empty(), n.values)]
        } else {
            Seq::<(Seq<LevelView>, Seq<V>)>::empty()
        };
        assert(items == mw + own);
        if k < mw.len() {
            assert(items[k] == mw[0]);
            assert(seq![mwl].skip(1) =~= Seq::<LevelView>::empty());
            assert(n.child(mwl).stored(Seq::<LevelView>::empty()) == n.child(mwl).values);
            assert(n.stored(seq![mwl]) == n.child(mwl).values);
        } else {
            assert(items[k] == own[k - mw.len()]);
            assert(items[k] == (Seq::<LevelView>::empty(), n.values));
        }
    } else {
        let excluded = at_root && root_excluded(t);
        let mw = if !excluded && n.has_branch(mwl) && n.child(mwl).values.len() > 0 {
            seq![(seq![mwl], n.child(mwl).values)]
        } else {
            Seq::<(Seq<LevelView>, Seq<V>)>::empty()
        };
        let sw = if !excluded && n.has_branch(swl) {
            prefix_items(seq![swl], match_items(n.child(swl), t.skip(1), false))
        } else {
            Seq::<(Seq<LevelView>, Seq<V>)>::empty()
        };
        let lit = if n.has_branch(t[0]) {
            prefix_items(seq![t[0]], match_items(n.child(t[0]), t.skip(1), false))
        } else {
            Seq::<(Seq<LevelView>, Seq<V>)>::empty()
        };
        assert(items == mw + sw + lit);
        if k < mw.len() {
            assert(items[k] == mw[0]);
            assert(seq![mwl].skip(1) =~= Seq::<LevelView>::empty());
            assert(n.child(mwl).stored(Seq::<LevelView>::empty()) == n.child(mwl).values);
            assert(n.stored(seq![mwl]) == n.child(mwl).values);
        } else if k < mw.len() + sw.len() {
            let j = k - mw.len();
            assert(items[k] == (mw + sw)[k]);
            assert(items[k] == sw[j]);
            let inner = match_items(n.child(swl), t.skip(1), false);
            assert(sw[j] == (seq![swl] + inner[j].0, inner[j].1));
            let i = n.branch_index(swl);
            assert(0 <= i < n.branches.len() && n.branches[i].0 == swl);
            assert(n.branches[i].1.wf());
            lemma_matches_are_stored(n.child(swl), t.skip(1), false, j);
            let f = seq![swl] + inner[j].0;
            assert(f[0] == swl);
            assert(f.skip(1) =~= inner[j].0);
            assert(n.stored(f) == n.child(swl).stored(inner[j].0));
        } else {
            let j = k - mw.len() - sw.len();
            assert(items[k] == lit[j]);
            let inner = match_items(n.child(t[0]), t.skip(1), false);
            assert(lit[j] == (seq![t[0]] + inner[j].0, inner[j].1));
            let i = n.branch_index(t[0]);
            assert(0 <= i < n.branches.len() && n.branches[i].0 == t[0]);
            assert(n.branches[i].1.wf());
            lemma_matches_are_stored(n.child(t[0]), t.skip(1), false, j);
            let f = seq![t[0]] + inner[j].0;
            assert(f[0] == t[0]);
            assert(f.skip(1) =~= inner[j].0);
            assert(n.stored(f) == n.child(t[0]).stored(inner[j].0));
        }
    }
}

} // verus!

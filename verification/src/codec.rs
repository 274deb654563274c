use vstd::prelude::*;

use crate::level::Level;
use crate::level::LevelView;
use crate::node::Node;
use crate::node::NodeView;

verus! {

/// Decoding failed: the bytes are not a canonical tree snapshot.
#[derive(Debug, PartialEq, Eq)]
pub struct DecodeError;

/// A machine word as eight bytes, least significant first.
pub open spec fn enc_u64(x: u64) -> Seq<u8> {
    seq![
        (x & 0xff) as u8,
        ((x >> 8) & 0xff) as u8,
        ((x >> 16) & 0xff) as u8,
        ((x >> 24) & 0xff) as u8,
        ((x >> 32) & 0xff) as u8,
        ((x >> 40) & 0xff) as u8,
        ((x >> 48) & 0xff) as u8,
        ((x >> 56) & 0xff) as u8,
    ]
}

/// A level as a tag byte, followed for named levels by the length and the
/// text.
pub open spec fn enc_level(l: LevelView) -> Seq<u8> {
    match l {
        LevelView::Normal(s) => seq![0u8] + enc_u64(s.len() as u64) + s,
        LevelView::Metadata(s) => seq![1u8] + enc_u64(s.len() as u64) + s,
        LevelView::Blank => seq![2u8],
        LevelView::SingleWildcard => seq![3u8],
        LevelView::MultiWildcard => seq![4u8],
    }
}

/// A value list, each value as a machine word.
pub open spec fn enc_values(vs: Seq<u64>) -> Seq<u8>
    decreases vs.len(),
{
    if vs.len() == 0 {
        Seq::empty()
    } else {
        enc_u64(vs[0]) + enc_values(vs.skip(1))
    }
}

/// A branch list, each entry as its level followed by its subtree.
pub open spec fn enc_branches(bs: Seq<(LevelView, NodeView<u64>)>) -> Seq<u8>
    decreases bs,
{
    if bs.len() == 0 {
        Seq::empty()
    } else {
        enc_level(bs[0].0) + enc_node(bs[0].1) + enc_branches(bs.skip(1))
    }
}

/// A whole tree: the counted value list, then the counted branch list,
/// each descendant encoded recursively in place.
pub open spec fn enc_node(n: NodeView<u64>) -> Seq<u8>
    decreases n,
{
    enc_u64(n.values.len() as u64) + enc_values(n.values) + enc_u64(n.branches.len() as u64)
        + enc_branches(n.branches)
}

proof fn lemma_enc_values_push(vs: Seq<u64>, x: u64)
    ensures
        enc_values(vs.push(x)) == enc_values(vs) + enc_u64(x),
    decreases vs.len(),
{
    if vs.len() == 0 {
        assert(vs.push(x)[0] == x);
        assert(vs.push(x).skip(1) =~= Seq::<u64>::empty());
        assert(enc_values(Seq::<u64>::empty()) == Seq::<u8>::empty());
        assert(enc_values(vs.push(x)) =~= enc_values(vs) + enc_u64(x));
    } else {
        assert(vs.push(x)[0] == vs[0]);
        assert(vs.push(x).skip(1) =~= vs.skip(1).push(x));
        lemma_enc_values_push(vs.skip(1), x);
        assert(enc_values(vs.push(x)) =~= enc_values(vs) + enc_u64(x));
    }
}

proof fn lemma_enc_branches_push(bs: Seq<(LevelView, NodeView<u64>)>, e: (LevelView, NodeView<u64>))
    ensures
        enc_branches(bs.push(e)) == enc_branches(bs) + enc_level(e.0) + enc_node(e.1),
    decreases bs.len(),
{
    if bs.len() == 0 {
        assert(bs.push(e)[0] == e);
        assert(bs.push(e).skip(1) =~= Seq::<(LevelView, NodeView<u64>)>::empty());
        assert(enc_branches(Seq::<(LevelView, NodeView<u64>)>::empty()) == Seq::<u8>::empty());
        assert(enc_branches(bs.push(e)) =~= enc_branches(bs) + enc_level(e.0) + enc_node(e.1));
    } else {
        assert(bs.push(e)[0] == bs[0]);
        assert(bs.push(e).skip(1) =~= bs.skip(1).push(e));
        lemma_enc_branches_push(bs.skip(1), e);
        assert(enc_branches(bs.push(e)) =~= enc_branches(bs) + enc_level(e.0) + enc_node(e.1));
    }
}

proof fn lemma_skip_skip(s: Seq<u8>, a: int, b: int)
    requires
        0 <= a,
        0 <= b,
        a + b <= s.len(),
    ensures
        s.skip(a).skip(b) == s.skip(a + b),
{
    assert(s.skip(a).skip(b) =~= s.skip(a + b));
}

/// Every fact a prefix gives pointwise and on subranges.
proof fn lemma_prefix_sub(pre: Seq<u8>, s: Seq<u8>, a: int, b: int)
    requires
        pre.is_prefix_of(s),
        0 <= a <= b <= pre.len(),
    ensures
        pre.subrange(a, b) == s.subrange(a, b),
{
    assert(pre.subrange(a, b) =~= s.subrange(a, b));
}

/// A concatenation that prefixes a sequence splits into a prefix and a
/// prefix of the remainder.
proof fn lemma_prefix_drop(x: Seq<u8>, y: Seq<u8>, s: Seq<u8>)
    requires
        (x + y).is_prefix_of(s),
    ensures
        x.is_prefix_of(s),
        y.is_prefix_of(s.skip(x.len() as int)),
{
    assert(x.len() + y.len() <= s.len());
    assert forall|i: int| 0 <= i < x.len() implies x[i] == s.subrange(0, x.len() as int)[i] by {
        assert((x + y)[i] == x[i]);
        assert(s.subrange(0, (x + y).len() as int)[i] == s[i]);
    }
    assert(x =~= s.subrange(0, x.len() as int));
    assert forall|i: int| 0 <= i < y.len() implies y[i] == s.skip(x.len() as int).subrange(
        0,
        y.len() as int,
    )[i] by {
        assert((x + y)[x.len() + i] == y[i]);
        assert(s.subrange(0, (x + y).len() as int)[x.len() + i] == s[x.len() + i]);
    }
    assert(y =~= s.skip(x.len() as int).subrange(0, y.len() as int));
}

/// The first byte and full layout of an encoded level.
proof fn lemma_enc_level_shape(lv: LevelView)
    ensures
        enc_level(lv).len() >= 1,
        enc_level(lv)[0] == (match lv {
            LevelView::Normal(_) => 0u8,
            LevelView::Metadata(_) => 1u8,
            LevelView::Blank => 2u8,
            LevelView::SingleWildcard => 3u8,
            LevelView::MultiWildcard => 4u8,
        }),
        match lv {
            LevelView::Normal(s) => enc_level(lv).len() == 9 + s.len() && enc_level(lv).subrange(
                1,
                9,
            ) == enc_u64(s.len() as u64) && enc_level(lv).subrange(9, 9 + s.len() as int) == s,
            LevelView::Metadata(s) => enc_level(lv).len() == 9 + s.len() && enc_level(
                lv,
            ).subrange(1, 9) == enc_u64(s.len() as u64) && enc_level(lv).subrange(
                9,
                9 + s.len() as int,
            ) == s,
            _ => enc_level(lv).len() == 1,
        },
{
    match lv {
        LevelView::Normal(s) => {
            assert(enc_level(lv).subrange(1, 9) =~= enc_u64(s.len() as u64));
            assert(enc_level(lv).subrange(9, 9 + s.len() as int) =~= s);
        },
        LevelView::Metadata(s) => {
            assert(enc_level(lv).subrange(1, 9) =~= enc_u64(s.len() as u64));
            assert(enc_level(lv).subrange(9, 9 + s.len() as int) =~= s);
        },
        _ => {},
    }
}

proof fn lemma_enc_values_len(vs: Seq<u64>)
    ensures
        enc_values(vs).len() == 8 * vs.len(),
    decreases vs.len(),
{
    if vs.len() > 0 {
        lemma_enc_values_len(vs.skip(1));
    }
}

/// Where each value sits inside an encoded value list.
proof fn lemma_enc_values_index(vs: Seq<u64>, j: int)
    requires
        0 <= j < vs.len(),
    ensures
        enc_values(vs).subrange(8 * j, 8 * j + 8) == enc_u64(vs[j]),
    decreases j,
{
    lemma_enc_values_len(vs);
    lemma_enc_values_len(vs.skip(1));
    if j == 0 {
        assert(enc_values(vs).subrange(0, 8) =~= enc_u64(vs[0]));
    } else {
        lemma_enc_values_index(vs.skip(1), j - 1);
        assert(vs.skip(1)[j - 1] == vs[j]);
        assert(enc_values(vs).subrange(8 * j, 8 * j + 8) =~= enc_values(vs.skip(1)).subrange(
            8 * (j - 1),
            8 * (j - 1) + 8,
        ));
    }
}

/// An encoded branch list splits at any position.
proof fn lemma_enc_branches_split(bs: Seq<(LevelView, NodeView<u64>)>, j: int)
    requires
        0 <= j <= bs.len(),
    ensures
        enc_branches(bs) == enc_branches(bs.subrange(0, j)) + enc_branches(bs.skip(j)),
    decreases j,
{
    if j == 0 {
        assert(bs.subrange(0, 0) =~= Seq::<(LevelView, NodeView<u64>)>::empty());
        assert(enc_branches(Seq::<(LevelView, NodeView<u64>)>::empty()) == Seq::<u8>::empty());
        assert(bs.skip(0) =~= bs);
        assert(enc_branches(bs) =~= enc_branches(bs.subrange(0, 0)) + enc_branches(bs.skip(0)));
    } else {
        lemma_enc_branches_split(bs, j - 1);
        assert(bs.subrange(0, j) =~= bs.subrange(0, j - 1).push(bs[j - 1]));
        lemma_enc_branches_push(bs.subrange(0, j - 1), bs[j - 1]);
        let tail = bs.skip(j - 1);
        assert(tail[0] == bs[j - 1]);
        assert(tail.skip(1) =~= bs.skip(j));
        assert(enc_branches(tail) == enc_level(bs[j - 1].0) + enc_node(bs[j - 1].1)
            + enc_branches(bs.skip(j)));
        assert(enc_branches(bs) =~= enc_branches(bs.subrange(0, j)) + enc_branches(bs.skip(j)));
    }
}

/// The layout of an encoded tree at the head of a byte sequence.
proof fn lemma_node_layout(m: NodeView<u64>, tail: Seq<u8>)
    requires
        node_bounded(m),
        enc_node(m).is_prefix_of(tail),
    ensures
        ({
            let l = m.values.len() as int;
            &&& enc_node(m).len() == 16 + 8 * l + enc_branches(m.branches).len()
            &&& tail.len() >= 16 + 8 * l
            &&& tail.subrange(0, 8) == enc_u64(m.values.len() as u64)
            &&& tail.subrange(8, 8 + 8 * l) == enc_values(m.values)
            &&& tail.subrange(8 + 8 * l, 16 + 8 * l) == enc_u64(m.branches.len() as u64)
            &&& enc_branches(m.branches).is_prefix_of(tail.skip(16 + 8 * l))
        }),
{
    let l = m.values.len() as int;
    lemma_enc_values_len(m.values);
    assert(enc_node(m).len() == 16 + 8 * l + enc_branches(m.branches).len());
    assert(enc_node(m).subrange(0, 8) =~= enc_u64(m.values.len() as u64));
    assert(enc_node(m).subrange(8, 8 + 8 * l) =~= enc_values(m.values));
    assert(enc_node(m).subrange(8 + 8 * l, 16 + 8 * l) =~= enc_u64(m.branches.len() as u64));
    lemma_prefix_sub(enc_node(m), tail, 0, 8);
    lemma_prefix_sub(enc_node(m), tail, 8, 8 + 8 * l);
    lemma_prefix_sub(enc_node(m), tail, 8 + 8 * l, 16 + 8 * l);
    assert(enc_node(m).subrange(16 + 8 * l, enc_node(m).len() as int) =~= enc_branches(
        m.branches,
    ));
    lemma_prefix_sub(enc_node(m), tail, 16 + 8 * l, enc_node(m).len() as int);
    assert(enc_branches(m.branches) =~= tail.skip(16 + 8 * l).subrange(
        0,
        enc_branches(m.branches).len() as int,
    ));
}

fn push_u64(out: &mut Vec<u8>, x: u64)
    ensures
        final(out)@ == old(out)@ + enc_u64(x),
{
    let ghost base = out@;
    out.push((x & 0xff) as u8);
    out.push(((x >> 8) & 0xff) as u8);
    out.push(((x >> 16) & 0xff) as u8);
    out.push(((x >> 24) & 0xff) as u8);
    out.push(((x >> 32) & 0xff) as u8);
    out.push(((x >> 40) & 0xff) as u8);
    out.push(((x >> 48) & 0xff) as u8);
    out.push(((x >> 56) & 0xff) as u8);
    proof {
        assert(out@ =~= base + enc_u64(x));
    }
}

fn read_u64(bytes: &Vec<u8>, pos: usize) -> (r: u64)
    requires
        pos + 8 <= bytes@.len(),
    ensures
        enc_u64(r) == bytes@.subrange(pos as int, pos as int + 8),
{
    let n = bytes.len();
    let b0: u64 = bytes[pos] as u64;
    let b1: u64 = bytes[pos + 1] as u64;
    let b2: u64 = bytes[pos + 2] as u64;
    let b3: u64 = bytes[pos + 3] as u64;
    let b4: u64 = bytes[pos + 4] as u64;
    let b5: u64 = bytes[pos + 5] as u64;
    let b6: u64 = bytes[pos + 6] as u64;
    let b7: u64 = bytes[pos + 7] as u64;
    let r: u64 = b0 | (b1 << 8) | (b2 << 16) | (b3 << 24) | (b4 << 32) | (b5 << 40) | (b6 << 48)
        | (b7 << 56);
    proof {
        assert((r & 0xff) == b0 && ((r >> 8) & 0xff) == b1 && ((r >> 16) & 0xff) == b2 && ((r
            >> 24) & 0xff) == b3 && ((r >> 32) & 0xff) == b4 && ((r >> 40) & 0xff) == b5 && ((r
            >> 48) & 0xff) == b6 && ((r >> 56) & 0xff) == b7) by (bit_vector)
            requires
                r == b0 | (b1 << 8) | (b2 << 16) | (b3 << 24) | (b4 << 32) | (b5 << 40) | (b6
                    << 48) | (b7 << 56),
                b0 < 256 && b1 < 256 && b2 < 256 && b3 < 256 && b4 < 256 && b5 < 256 && b6 < 256
                    && b7 < 256,
        ;
        assert(enc_u64(r) =~= bytes@.subrange(pos as int, pos as int + 8));
    }
    r
}

impl Node<u64> {
    /// The byte snapshot of the whole tree.
    pub fn encode(&self) -> (r: Vec<u8>)
        ensures
            r@ == enc_node(self@),
            node_bounded(self@),
    {
        let mut out: Vec<u8> = Vec::new();
        self.encode_into(&mut out);
        proof {
            assert(out@ =~= enc_node(self@));
        }
        out
    }

    #[verifier::loop_isolation(false)]
    fn encode_into(&self, out: &mut Vec<u8>)
        ensures
            final(out)@ == old(out)@ + enc_node(self@),
            node_bounded(self@),
        decreases self@,
    {
        let ghost base = out@;
        let vals = self.values();
        push_u64(out, vals.len() as u64);
        let mut i: usize = 0;
        while i < vals.len()
            invariant
                i <= vals@.len(),
                vals@ == self@.values,
                out@ == base + enc_u64(self@.values.len() as u64) + enc_values(
                    self@.values.subrange(0, i as int),
                ),
            decreases vals@.len() - i,
        {
            push_u64(out, vals[i]);
            proof {
                assert(self@.values.subrange(0, i as int + 1) =~= self@.values.subrange(
                    0,
                    i as int,
                ).push(self@.values[i as int]));
                lemma_enc_values_push(self@.values.subrange(0, i as int), self@.values[i as int]);
                assert(out@ =~= base + enc_u64(self@.values.len() as u64) + enc_values(
                    self@.values.subrange(0, i as int + 1),
                ));
            }
            i += 1;
        }
        proof {
            assert(self@.values.subrange(0, self@.values.len() as int) =~= self@.values);
        }
        let ghost base2 = out@;
        let kids = self.children();
        push_u64(out, kids.len() as u64);
        let mut j: usize = 0;
        while j < kids.len()
            invariant
                j <= kids@.len(),
                kids@.len() == self@.branches.len(),
                forall|k: int| 0 <= k < kids@.len()
                    ==> (#[trigger] kids@[k]).0@ == self@.branches[k].0 && kids@[k].1@
                        == self@.branches[k].1,
                out@ == base2 + enc_u64(self@.branches.len() as u64) + enc_branches(
                    self@.branches.subrange(0, j as int),
                ),
                forall|k: int| 0 <= k < j ==> level_bounded((#[trigger] self@.branches[k]).0)
                    && node_bounded(self@.branches[k].1),
            decreases kids@.len() - j,
        {
            let entry = &kids[j];
            let ghost mid = out@;
            entry.0.encode_level_into(out);
            proof {
                assert(entry.0@ == self@.branches[j as int].0);
                assert(entry.1@ == self@.branches[j as int].1);
            }
            entry.1.encode_into(out);
            proof {
                assert(self@.branches.subrange(0, j as int + 1) =~= self@.branches.subrange(
                    0,
                    j as int,
                ).push(self@.branches[j as int]));
                lemma_enc_branches_push(
                    self@.branches.subrange(0, j as int),
                    self@.branches[j as int],
                );
                assert(out@ =~= base2 + enc_u64(self@.branches.len() as u64) + enc_branches(
                    self@.branches.subrange(0, j as int + 1),
                ));
            }
            j += 1;
        }
        proof {
            assert(self@.branches.subrange(0, self@.branches.len() as int) =~= self@.branches);
            assert(out@ =~= base + enc_node(self@));
            assert(node_bounded(self@));
        }
    }
}

impl Level {
    fn encode_level_into(&self, out: &mut Vec<u8>)
        ensures
            final(out)@ == old(out)@ + enc_level(self@),
            level_bounded(self@),
    {
        let ghost base = out@;
        match self {
            Level::Normal(s) => {
                out.push(0u8);
                push_u64(out, s.len() as u64);
                let ghost mid = out@;
                let mut i: usize = 0;
                while i < s.len()
                    invariant
                        i <= s@.len(),
                        out@ =~= mid + s@.subrange(0, i as int),
                    decreases s@.len() - i,
                {
                    out.push(s[i]);
                    i += 1;
                }
                proof {
                    assert(out@ =~= base + enc_level(self@));
                }
            },
            Level::Metadata(s) => {
                out.push(1u8);
                push_u64(out, s.len() as u64);
                let ghost mid = out@;
                let mut i: usize = 0;
                while i < s.len()
                    invariant
                        i <= s@.len(),
                        out@ =~= mid + s@.subrange(0, i as int),
                    decreases s@.len() - i,
                {
                    out.push(s[i]);
                    i += 1;
                }
                proof {
                    assert(out@ =~= base + enc_level(self@));
                }
            },
            Level::Blank => {
                out.push(2u8);
                proof {
                    assert(out@ =~= base + enc_level(self@));
                }
            },
            Level::SingleWildcard => {
                out.push(3u8);
                proof {
                    assert(out@ =~= base + enc_level(self@));
                }
            },
            Level::MultiWildcard => {
                out.push(4u8);
                proof {
                    assert(out@ =~= base + enc_level(self@));
                }
            },
        }
    }
}


fn contains_u64(values: &Vec<u64>, v: u64) -> (r: bool)
    ensures
        r == values@.contains(v),
{
    let mut i: usize = 0;
    while i < values.len()
        invariant
            i <= values@.len(),
            forall|k: int| 0 <= k < i ==> values@[k] != v,
        decreases values@.len() - i,
    {
        if values[i] == v {
            return true;
        }
        i += 1;
    }
    false
}

fn level_key_present(branches: &Vec<(Level, Node<u64>)>, l: &Level) -> (r: bool)
    ensures
        r == exists|i: int| 0 <= i < branches@.len() && (#[trigger] branches@[i]).0@ == l@,
{
    let mut i: usize = 0;
    while i < branches.len()
        invariant
            i <= branches@.len(),
            forall|k: int| 0 <= k < i ==> (#[trigger] branches@[k]).0@ != l@,
        decreases branches@.len() - i,
    {
        let entry = &branches[i];
        if entry.0.eq_level(l) {
            return true;
        }
        i += 1;
    }
    false
}

fn decode_level_at(bytes: &Vec<u8>, pos: usize, Ghost(ol): Ghost<Option<LevelView>>) -> (r:
    Result<(Level, usize), DecodeError>)
    requires
        pos <= bytes@.len(),
        match ol {
            Some(lv) => level_bounded(lv) && enc_level(lv).is_prefix_of(
                bytes@.skip(pos as int),
            ),
            None => true,
        },
    ensures
        match r {
            Ok(p) => pos < p.1 <= bytes@.len() && bytes@.subrange(pos as int, p.1 as int)
                == enc_level(p.0@) && level_bounded(p.0@),
            Err(_) => true,
        },
        match ol {
            Some(lv) => match r {
                Ok(p) => p.0@ == lv && p.1 == pos + enc_level(lv).len(),
                Err(_) => false,
            },
            None => true,
        },
{
    let ghost tail = bytes@.skip(pos as int);
    proof {
        match ol {
            Some(lv) => {
                lemma_enc_level_shape(lv);
                assert(enc_level(lv)[0] == tail[0]);
                assert(tail.len() == bytes@.len() - pos);
                assert(tail[0] == bytes@[pos as int]);
            },
            None => {},
        }
    }
    let n = bytes.len();
    if n - pos < 1 {
        proof {
            match ol {
                Some(lv) => {
                    assert(false);
                },
                None => {},
            }
        }
        return Err(DecodeError);
    }
    let tag = bytes[pos];
    if tag == 2 {
        proof {
            assert(bytes@.subrange(pos as int, pos as int + 1) =~= enc_level(LevelView::Blank));
            match ol {
                Some(lv) => {
                    assert(lv == LevelView::Blank);
                },
                None => {},
            }
        }
        return Ok((Level::Blank, pos + 1));
    }
    if tag == 3 {
        proof {
            assert(bytes@.subrange(pos as int, pos as int + 1) =~= enc_level(
                LevelView::SingleWildcard,
            ));
            match ol {
                Some(lv) => {
                    assert(lv == LevelView::SingleWildcard);
                },
                None => {},
            }
        }
        return Ok((Level::SingleWildcard, pos + 1));
    }
    if tag == 4 {
        proof {
            assert(bytes@.subrange(pos as int, pos as int + 1) =~= enc_level(
                LevelView::MultiWildcard,
            ));
            match ol {
                Some(lv) => {
                    assert(lv == LevelView::MultiWildcard);
                },
                None => {},
            }
        }
        return Ok((Level::MultiWildcard, pos + 1));
    }
    if tag == 0 || tag == 1 {
        if n - (pos + 1) < 8 {
            proof {
                match ol {
                    Some(lv) => {
                        assert(lv is Normal || lv is Metadata);
                        assert(tail.len() >= enc_level(lv).len());
                        assert(false);
                    },
                    None => {},
                }
            }
            return Err(DecodeError);
        }
        let ln = read_u64(bytes, pos + 1);
        proof {
            match ol {
                Some(lv) => {
                    assert(lv is Normal || lv is Metadata);
                    assert(tail.len() >= enc_level(lv).len());
                    lemma_prefix_sub(enc_level(lv), tail, 1, 9);
                    assert(tail.subrange(1, 9) =~= bytes@.subrange(
                        pos as int + 1,
                        pos as int + 9,
                    ));
                    match lv {
                        LevelView::Normal(sx) => {
                            lemma_enc_u64_inj(ln, sx.len() as u64);
                            assert(ln as nat == sx.len());
                        },
                        LevelView::Metadata(sx) => {
                            lemma_enc_u64_inj(ln, sx.len() as u64);
                            assert(ln as nat == sx.len());
                        },
                        _ => {},
                    }
                },
                None => {},
            }
        }
        let rem = n - (pos + 9);
        if ln > rem as u64 {
            proof {
                match ol {
                    Some(lv) => {
                        assert(false);
                    },
                    None => {},
                }
            }
            return Err(DecodeError);
        }
        let l_us = ln as usize;
        let mut s: Vec<u8> = Vec::new();
        let mut i: usize = 0;
        while i < l_us
            invariant
                pos + 9 + l_us <= n,
                n == bytes@.len(),
                i <= l_us,
                s@ =~= bytes@.subrange(pos as int + 9, pos as int + 9 + i as int),
            decreases l_us - i,
        {
            s.push(bytes[pos + 9 + i]);
            i += 1;
        }
        let ghost sv = s@;
        let lvl = if tag == 0 {
            Level::Normal(s)
        } else {
            Level::Metadata(s)
        };
        proof {
            assert(sv.len() as u64 == ln);
            assert(enc_u64(ln) == bytes@.subrange(pos as int + 1, pos as int + 9));
            assert(bytes@.subrange(pos as int, pos as int + 9 + l_us as int) =~= enc_level(lvl@));
            match ol {
                Some(lv) => {
                    lemma_prefix_sub(enc_level(lv), tail, 9, enc_level(lv).len() as int);
                    match lv {
                        LevelView::Normal(sx) => {
                            assert(tail.subrange(9, 9 + sx.len() as int) == sx);
                            assert(tail.subrange(9, 9 + sx.len() as int) =~= bytes@.subrange(
                                pos as int + 9,
                                pos as int + 9 + sx.len() as int,
                            ));
                            assert(sv =~= sx);
                        },
                        LevelView::Metadata(sx) => {
                            assert(tail.subrange(9, 9 + sx.len() as int) == sx);
                            assert(tail.subrange(9, 9 + sx.len() as int) =~= bytes@.subrange(
                                pos as int + 9,
                                pos as int + 9 + sx.len() as int,
                            ));
                            assert(sv =~= sx);
                        },
                        _ => {},
                    }
                    assert(lvl@ == lv);
                },
                None => {},
            }
        }
        return Ok((lvl, pos + 9 + l_us));
    }
    proof {
        match ol {
            Some(lv) => {
                assert(false);
            },
            None => {},
        }
    }
    Err(DecodeError)
}

#[verifier::rlimit(100)]
#[verifier::loop_isolation(false)]
fn decode_node_at(
    bytes: &Vec<u8>,
    pos: usize,
    Ghost(om): Ghost<Option<NodeView<u64>>>,
) -> (r: Result<(Node<u64>, usize), DecodeError>)
    requires
        pos <= bytes@.len(),
        match om {
            Some(m) => m.wf() && node_bounded(m) && enc_node(m).is_prefix_of(
                bytes@.skip(pos as int),
            ),
            None => true,
        },
    ensures
        match r {
            Ok(p) => pos <= p.1 <= bytes@.len() && bytes@.subrange(pos as int, p.1 as int)
                == enc_node(p.0@) && p.0@.wf() && node_bounded(p.0@),
            Err(_) => true,
        },
        match om {
            Some(m) => match r {
                Ok(p) => p.0@ == m && p.1 == pos + enc_node(m).len(),
                Err(_) => false,
            },
            None => true,
        },
    decreases bytes@.len() - pos,
{
    let ghost tail = bytes@.skip(pos as int);
    proof {
        match om {
            Some(m) => {
                lemma_node_layout(m, tail);
                assert(tail.len() == bytes@.len() - pos);
            },
            None => {},
        }
    }
    let n = bytes.len();
    if n - pos < 8 {
        proof {
            match om {
                Some(m) => {
                    assert(false);
                },
                None => {},
            }
        }
        return Err(DecodeError);
    }
    let cnt = read_u64(bytes, pos);
    proof {
        match om {
            Some(m) => {
                assert(tail.subrange(0, 8) =~= bytes@.subrange(pos as int, pos as int + 8));
                lemma_enc_u64_inj(cnt, m.values.len() as u64);
                assert(cnt as nat == m.values.len());
            },
            None => {},
        }
    }
    let mut p: usize = pos + 8;
    let mut values: Vec<u64> = Vec::new();
    let mut k: u64 = 0;
    proof {
        assert(enc_values(values@) == Seq::<u8>::empty());
        assert(bytes@.subrange(pos as int + 8, p as int) =~= enc_values(values@));
        match om {
            Some(m) => {
                assert(values@ =~= m.values.subrange(0, 0));
            },
            None => {},
        }
    }
    while k < cnt
        invariant
            pos + 8 <= p <= n,
            k <= cnt,
            p as int == pos + 8 + 8 * (k as int),
            values@.len() == k as nat,
            bytes@.subrange(pos as int + 8, p as int) == enc_values(values@),
            forall|a: int, b: int| 0 <= a < b < values@.len() ==> values@[a] != values@[b],
            match om {
                Some(m) => values@ == m.values.subrange(0, k as int),
                None => true,
            },
        decreases cnt - k,
    {
        if n - p < 8 {
            proof {
                match om {
                    Some(m) => {
                        assert(tail.len() >= 16 + 8 * (m.values.len() as int));
                        assert(false);
                    },
                    None => {},
                }
            }
            return Err(DecodeError);
        }
        let v = read_u64(bytes, p);
        proof {
            match om {
                Some(m) => {
                    let l = m.values.len() as int;
                    let kk = k as int;
                    assert(bytes@.subrange(p as int, p as int + 8) =~= tail.subrange(
                        8 + 8 * kk,
                        8 + 8 * kk + 8,
                    ));
                    assert(enc_values(m.values).subrange(8 * kk, 8 * kk + 8) =~= tail.subrange(
                        8 + 8 * kk,
                        8 + 8 * kk + 8,
                    ));
                    lemma_enc_values_index(m.values, kk);
                    lemma_enc_u64_inj(v, m.values[kk]);
                    assert(v == m.values[kk]);
                },
                None => {},
            }
        }
        if contains_u64(&values, v) {
            proof {
                match om {
                    Some(m) => {
                        let j = choose|j: int| 0 <= j < values@.len() && values@[j] == v;
                        assert(values@[j] == m.values[j]);
                        assert(m.values[j] == m.values[k as int]);
                        assert(false);
                    },
                    None => {},
                }
            }
            return Err(DecodeError);
        }
        proof {
            lemma_enc_values_push(values@, v);
            assert(bytes@.subrange(pos as int + 8, p as int + 8) =~= enc_values(
                values@.push(v),
            ));
            match om {
                Some(m) => {
                    assert(values@.push(v) =~= m.values.subrange(0, k as int + 1));
                },
                None => {},
            }
        }
        values.push(v);
        p = p + 8;
        k = k + 1;
    }
    let ghost vend: int = p as int;
    proof {
        match om {
            Some(m) => {
                assert(values@ =~= m.values);
            },
            None => {},
        }
    }
    if n - p < 8 {
        proof {
            match om {
                Some(m) => {
                    assert(tail.len() >= 16 + 8 * (m.values.len() as int));
                    assert(false);
                },
                None => {},
            }
        }
        return Err(DecodeError);
    }
    let bcnt = read_u64(bytes, p);
    let ghost pos_b: int = p as int + 8;
    proof {
        match om {
            Some(m) => {
                let l = m.values.len() as int;
                assert(bytes@.subrange(p as int, p as int + 8) =~= tail.subrange(
                    8 + 8 * l,
                    16 + 8 * l,
                ));
                lemma_enc_u64_inj(bcnt, m.branches.len() as u64);
                assert(bcnt as nat == m.branches.len());
                assert(pos_b == pos + 16 + 8 * l);
            },
            None => {},
        }
    }
    p = p + 8;
    let mut branches: Vec<(Level, Node<u64>)> = Vec::new();
    let ghost mut encd: Seq<(LevelView, NodeView<u64>)> = Seq::empty();
    let mut kb: u64 = 0;
    proof {
        assert(enc_branches(encd) == Seq::<u8>::empty());
        assert(bytes@.subrange(pos_b, p as int) =~= enc_branches(encd));
        match om {
            Some(m) => {
                assert(encd =~= m.branches.subrange(0, 0));
            },
            None => {},
        }
    }
    while kb < bcnt
        invariant
            pos < pos_b <= p as int,
            p <= n,
            kb <= bcnt,
            branches@.len() == kb as nat,
            encd.len() == kb as nat,
            forall|i: int| 0 <= i < branches@.len()
                ==> (#[trigger] branches@[i]).0@ == encd[i].0 && branches@[i].1@ == encd[i].1,
            bytes@.subrange(pos_b, p as int) == enc_branches(encd),
            forall|a: int, b: int| 0 <= a < b < encd.len() ==> encd[a].0 != encd[b].0,
            forall|i: int| 0 <= i < encd.len() ==> (#[trigger] encd[i]).1.wf()
                && !encd[i].1.is_empty(),
            forall|i: int| 0 <= i < encd.len() ==> level_bounded((#[trigger] encd[i]).0)
                && node_bounded(encd[i].1),
            match om {
                Some(m) => encd == m.branches.subrange(0, kb as int),
                None => true,
            },
        decreases bcnt - kb,
    {
        let ghost ol: Option<LevelView> = match om {
            Some(m) => Some(m.branches[kb as int].0),
            None => None,
        };
        proof {
            match om {
                Some(m) => {
                    let l = m.values.len() as int;
                    let e = m.branches[kb as int];
                    let sub = tail.skip(16 + 8 * l);
                    lemma_skip_skip(bytes@, pos as int, 16 + 8 * l);
                    assert(sub == bytes@.skip(pos_b));
                    lemma_enc_branches_split(m.branches, kb as int);
                    lemma_prefix_drop(
                        enc_branches(encd),
                        enc_branches(m.branches.skip(kb as int)),
                        sub,
                    );
                    assert(enc_branches(encd).len() == p - pos_b);
                    lemma_skip_skip(bytes@, pos_b, p - pos_b);
                    assert(sub.skip(p - pos_b) == bytes@.skip(p as int));
                    let rest = m.branches.skip(kb as int);
                    assert(rest[0] == e);
                    assert(rest.skip(1) =~= m.branches.skip(kb as int + 1));
                    assert(enc_branches(rest) == enc_level(e.0) + enc_node(e.1) + enc_branches(
                        m.branches.skip(kb as int + 1),
                    ));
                    assert(enc_level(e.0) + (enc_node(e.1) + enc_branches(
                        m.branches.skip(kb as int + 1),
                    )) =~= enc_branches(rest));
                    lemma_prefix_drop(
                        enc_level(e.0),
                        enc_node(e.1) + enc_branches(m.branches.skip(kb as int + 1)),
                        bytes@.skip(p as int),
                    );
                },
                None => {},
            }
        }
        let lr = decode_level_at(bytes, p, Ghost(ol));
        let (lvl, p2) = match lr {
            Ok(x) => x,
            Err(e) => {
                proof {
                    match om {
                        Some(m) => {
                            assert(false);
                        },
                        None => {},
                    }
                }
                return Err(e);
            },
        };
        let ghost oc: Option<NodeView<u64>> = match om {
            Some(m) => Some(m.branches[kb as int].1),
            None => None,
        };
        proof {
            match om {
                Some(m) => {
                    let e = m.branches[kb as int];
                    lemma_skip_skip(bytes@, p as int, enc_level(e.0).len() as int);
                    assert(bytes@.skip(p as int).skip(enc_level(e.0).len() as int) == bytes@.skip(
                        p2 as int,
                    ));
                    lemma_prefix_drop(
                        enc_node(e.1),
                        enc_branches(m.branches.skip(kb as int + 1)),
                        bytes@.skip(p2 as int),
                    );
                },
                None => {},
            }
        }
        if level_key_present(&branches, &lvl) {
            proof {
                match om {
                    Some(m) => {
                        let i = choose|i: int|
                            0 <= i < branches@.len() && branches@[i].0@ == lvl@;
                        assert(encd[i].0 == m.branches[i].0);
                        assert(m.branches[i].0 == m.branches[kb as int].0);
                        assert(false);
                    },
                    None => {},
                }
            }
            return Err(DecodeError);
        }
        let nr = decode_node_at(bytes, p2, Ghost(oc));
        let (child, p3) = match nr {
            Ok(x) => x,
            Err(e) => {
                proof {
                    match om {
                        Some(m) => {
                            assert(false);
                        },
                        None => {},
                    }
                }
                return Err(e);
            },
        };
        if child.is_empty_node() {
            proof {
                match om {
                    Some(m) => {
                        assert(!m.branches[kb as int].1.is_empty());
                        assert(false);
                    },
                    None => {},
                }
            }
            return Err(DecodeError);
        }
        let ghost lv = lvl@;
        let ghost cv = child@;
        proof {
            lemma_enc_branches_push(encd, (lv, cv));
            assert(bytes@.subrange(pos_b, p3 as int) =~= enc_branches(encd.push((lv, cv))));
            assert forall|i: int| 0 <= i < encd.len() implies encd[i].0 != lv by {
                assert(branches@[i].0@ == encd[i].0);
            }
            assert(forall|i: int| 0 <= i < encd.len() ==> encd.push((lv, cv))[i] == encd[i]);
            assert(encd.push((lv, cv))[encd.len() as int] == (lv, cv));
            match om {
                Some(m) => {
                    assert(encd.push((lv, cv)) =~= m.branches.subrange(0, kb as int + 1));
                },
                None => {},
            }
        }
        branches.push((lvl, child));
        proof {
            encd = encd.push((lv, cv));
        }
        p = p3;
        kb = kb + 1;
    }
    let ghost valsv = values@;
    let nd = Node::from_parts(values, branches);
    proof {
        assert forall|i: int| 0 <= i < encd.len() implies nd@.branches[i] == encd[i] by {
            assert(nd@.branches[i] == (branches@[i].0@, branches@[i].1@));
            assert(branches@[i].0@ == encd[i].0 && branches@[i].1@ == encd[i].1);
        }
        assert(nd@.branches =~= encd);
        assert(nd@.wf());
        assert(node_bounded(nd@));
        assert(valsv.len() as u64 == cnt);
        assert(encd.len() as u64 == bcnt);
        assert(bytes@.subrange(pos as int, pos as int + 8) == enc_u64(cnt));
        assert(bytes@.subrange(vend, vend + 8) == enc_u64(bcnt));
        assert(bytes@.subrange(pos as int, p as int) =~= enc_node(nd@));
        match om {
            Some(m) => {
                assert(encd =~= m.branches);
                assert(nd@ =~= m);
                lemma_enc_values_len(m.values);
                assert(p == pos + enc_node(m).len());
            },
            None => {},
        }
    }
    Ok((nd, p))
}

impl Node<u64> {
    /// Rebuilds a tree from its byte snapshot. It succeeds exactly on a
    /// whole, canonical snapshot — in particular on everything `encode`
    /// produces — and returns the well-formed tree whose encoding is the
    /// input.
    pub fn decode(bytes: &Vec<u8>) -> (r: Result<Node<u64>, DecodeError>)
        ensures
            match r {
                Ok(nd) => nd@.wf() && node_bounded(nd@) && bytes@ == enc_node(nd@),
                Err(_) => true,
            },
            (exists|m: NodeView<u64>|
                m.wf() && node_bounded(m) && bytes@ == #[trigger] enc_node(m)) ==> r is Ok,
    {
        let ghost om: Option<NodeView<u64>> = if exists|m: NodeView<u64>|
            m.wf() && node_bounded(m) && bytes@ == #[trigger] enc_node(m) {
            Some(
                choose|m: NodeView<u64>|
                    m.wf() && node_bounded(m) && bytes@ == #[trigger] enc_node(m),
            )
        } else {
            None
        };
        proof {
            match om {
                Some(m) => {
                    assert(bytes@.skip(0) =~= bytes@);
                    assert(enc_node(m).is_prefix_of(bytes@.skip(0)));
                },
                None => {},
            }
        }
        match decode_node_at(bytes, 0, Ghost(om)) {
            Ok((nd, p)) => {
                if p == bytes.len() {
                    proof {
                        assert(bytes@.subrange(0, p as int) =~= bytes@);
                    }
                    Ok(nd)
                } else {
                    proof {
                        match om {
                            Some(m) => {
                                assert(false);
                            },
                            None => {},
                        }
                    }
                    Err(DecodeError)
                }
            },
            Err(e) => {
                proof {
                    match om {
                        Some(m) => {
                            assert(false);
                        },
                        None => {},
                    }
                }
                Err(e)
            },
        }
    }
}


/// A level whose text a machine vector can hold.
pub open spec fn level_bounded(l: LevelView) -> bool {
    match l {
        LevelView::Normal(s) => s.len() <= u64::MAX,
        LevelView::Metadata(s) => s.len() <= u64::MAX,
        _ => true,
    }
}

/// A tree whose counts machine words can hold, as every tree held in
/// memory is.
pub open spec fn node_bounded(n: NodeView<u64>) -> bool
    decreases n,
{
    &&& n.values.len() <= u64::MAX
    &&& n.branches.len() <= u64::MAX
    &&& forall|i: int| 0 <= i < n.branches.len() ==> level_bounded(
        (#[trigger] n.branches[i]).0,
    ) && node_bounded(n.branches[i].1)
}

proof fn lemma_split_concat<T>(x: Seq<T>, y: Seq<T>, z: Seq<T>, w: Seq<T>)
    requires
        x + y == z + w,
        x.len() == z.len(),
    ensures
        x == z,
        y == w,
{
    assert forall|i: int| 0 <= i < x.len() implies x[i] == z[i] by {
        assert((x + y)[i] == x[i]);
        assert((z + w)[i] == z[i]);
    }
    assert(x =~= z);
    assert((x + y).len() == x.len() + y.len());
    assert((z + w).len() == z.len() + w.len());
    assert((x + y).len() == (z + w).len());
    assert(y.len() == w.len());
    assert forall|i: int| 0 <= i < y.len() implies y[i] == w[i] by {
        assert((x + y)[x.len() + i] == y[i]);
        assert((z + w)[z.len() + i] == w[i]);
    }
    assert(y =~= w);
}

proof fn lemma_enc_u64_inj(x: u64, y: u64)
    requires
        enc_u64(x) == enc_u64(y),
    ensures
        x == y,
{
    assert(enc_u64(x)[0] == enc_u64(y)[0] && enc_u64(x)[1] == enc_u64(y)[1] && enc_u64(x)[2]
        == enc_u64(y)[2] && enc_u64(x)[3] == enc_u64(y)[3] && enc_u64(x)[4] == enc_u64(y)[4]
        && enc_u64(x)[5] == enc_u64(y)[5] && enc_u64(x)[6] == enc_u64(y)[6] && enc_u64(x)[7]
        == enc_u64(y)[7]);
    assert(x == y) by (bit_vector)
        requires
            ((x & 0xff) as u8) == ((y & 0xff) as u8),
            (((x >> 8) & 0xff) as u8) == (((y >> 8) & 0xff) as u8),
            (((x >> 16) & 0xff) as u8) == (((y >> 16) & 0xff) as u8),
            (((x >> 24) & 0xff) as u8) == (((y >> 24) & 0xff) as u8),
            (((x >> 32) & 0xff) as u8) == (((y >> 32) & 0xff) as u8),
            (((x >> 40) & 0xff) as u8) == (((y >> 40) & 0xff) as u8),
            (((x >> 48) & 0xff) as u8) == (((y >> 48) & 0xff) as u8),
            (((x >> 56) & 0xff) as u8) == (((y >> 56) & 0xff) as u8),
    ;
}



proof fn lemma_enc_values_inj(a: Seq<u64>, b: Seq<u64>)
    requires
        a.len() == b.len(),
        enc_values(a) == enc_values(b),
    ensures
        a == b,
    decreases a.len(),
{
    if a.len() == 0 {
        assert(a =~= b);
    } else {
        lemma_split_concat(enc_u64(a[0]), enc_values(a.skip(1)), enc_u64(b[0]), enc_values(
            b.skip(1),
        ));
        lemma_enc_u64_inj(a[0], b[0]);
        lemma_enc_values_inj(a.skip(1), b.skip(1));
        assert forall|i: int| 0 <= i < a.len() implies a[i] == b[i] by {
            if i > 0 {
                assert(a.skip(1)[i - 1] == b.skip(1)[i - 1]);
            }
        }
        assert(a =~= b);
    }
}

proof fn lemma_enc_level_prefix(la: LevelView, lb: LevelView, ra: Seq<u8>, rb: Seq<u8>)
    requires
        level_bounded(la),
        level_bounded(lb),
        enc_level(la) + ra == enc_level(lb) + rb,
    ensures
        la == lb,
        ra == rb,
{
    let ta = enc_level(la) + ra;
    assert(ta[0] == enc_level(la)[0]);
    assert(ta[0] == enc_level(lb)[0]);
    match (la, lb) {
        (LevelView::Normal(sa), LevelView::Normal(sb)) => {
            lemma_level_text_prefix(0u8, sa, sb, ra, rb);
        },
        (LevelView::Metadata(sa), LevelView::Metadata(sb)) => {
            lemma_level_text_prefix(1u8, sa, sb, ra, rb);
        },
        (LevelView::Blank, LevelView::Blank) => {
            lemma_split_concat(enc_level(la), ra, enc_level(lb), rb);
        },
        (LevelView::SingleWildcard, LevelView::SingleWildcard) => {
            lemma_split_concat(enc_level(la), ra, enc_level(lb), rb);
        },
        (LevelView::MultiWildcard, LevelView::MultiWildcard) => {
            lemma_split_concat(enc_level(la), ra, enc_level(lb), rb);
        },
        _ => {
            assert(false);
        },
    }
}

proof fn lemma_level_text_prefix(tag: u8, sa: Seq<u8>, sb: Seq<u8>, ra: Seq<u8>, rb: Seq<u8>)
    requires
        sa.len() <= u64::MAX,
        sb.len() <= u64::MAX,
        seq![tag] + enc_u64(sa.len() as u64) + sa + ra == seq![tag] + enc_u64(sb.len() as u64)
            + sb + rb,
    ensures
        sa == sb,
        ra == rb,
{
    let xa = seq![tag] + enc_u64(sa.len() as u64);
    let xb = seq![tag] + enc_u64(sb.len() as u64);
    assert(xa + (sa + ra) =~= seq![tag] + enc_u64(sa.len() as u64) + sa + ra);
    assert(xb + (sb + rb) =~= seq![tag] + enc_u64(sb.len() as u64) + sb + rb);
    lemma_split_concat(xa, sa + ra, xb, sb + rb);
    lemma_split_concat(seq![tag], enc_u64(sa.len() as u64), seq![tag], enc_u64(sb.len() as u64));
    lemma_enc_u64_inj(sa.len() as u64, sb.len() as u64);
    lemma_split_concat(sa, ra, sb, rb);
}

proof fn lemma_enc_node_prefix(a: NodeView<u64>, b: NodeView<u64>, ra: Seq<u8>, rb: Seq<u8>)
    requires
        node_bounded(a),
        node_bounded(b),
        enc_node(a) + ra == enc_node(b) + rb,
    ensures
        a == b,
        ra == rb,
    decreases a,
{
    let va = enc_u64(a.values.len() as u64);
    let vb = enc_u64(b.values.len() as u64);
    let ta = enc_values(a.values) + (enc_u64(a.branches.len() as u64) + (enc_branches(a.branches)
        + ra));
    let tb = enc_values(b.values) + (enc_u64(b.branches.len() as u64) + (enc_branches(b.branches)
        + rb));
    assert(va + ta =~= enc_node(a) + ra);
    assert(vb + tb =~= enc_node(b) + rb);
    lemma_split_concat(va, ta, vb, tb);
    lemma_enc_u64_inj(a.values.len() as u64, b.values.len() as u64);
    assert(a.values.len() == b.values.len());
    lemma_enc_values_len(a.values);
    lemma_enc_values_len(b.values);
    lemma_split_concat(
        enc_values(a.values),
        enc_u64(a.branches.len() as u64) + (enc_branches(a.branches) + ra),
        enc_values(b.values),
        enc_u64(b.branches.len() as u64) + (enc_branches(b.branches) + rb),
    );
    lemma_enc_values_inj(a.values, b.values);
    lemma_split_concat(
        enc_u64(a.branches.len() as u64),
        enc_branches(a.branches) + ra,
        enc_u64(b.branches.len() as u64),
        enc_branches(b.branches) + rb,
    );
    lemma_enc_u64_inj(a.branches.len() as u64, b.branches.len() as u64);
    assert(a.branches.len() == b.branches.len());
    lemma_enc_branches_prefix(a.branches, b.branches, ra, rb);
    assert(a =~= b);
}

proof fn lemma_enc_branches_prefix(
    abs: Seq<(LevelView, NodeView<u64>)>,
    bbs: Seq<(LevelView, NodeView<u64>)>,
    ra: Seq<u8>,
    rb: Seq<u8>,
)
    requires
        abs.len() == bbs.len(),
        forall|i: int| 0 <= i < abs.len() ==> level_bounded((#[trigger] abs[i]).0)
            && node_bounded(abs[i].1),
        forall|i: int| 0 <= i < bbs.len() ==> level_bounded((#[trigger] bbs[i]).0)
            && node_bounded(bbs[i].1),
        enc_branches(abs) + ra == enc_branches(bbs) + rb,
    ensures
        abs == bbs,
        ra == rb,
    decreases abs,
{
    if abs.len() == 0 {
        assert(abs =~= bbs);
        lemma_split_concat(enc_branches(abs), ra, enc_branches(bbs), rb);
    } else {
        assert(enc_level(abs[0].0) + (enc_node(abs[0].1) + (enc_branches(abs.skip(1)) + ra)) =~=
            enc_branches(abs) + ra);
        assert(enc_level(bbs[0].0) + (enc_node(bbs[0].1) + (enc_branches(bbs.skip(1)) + rb)) =~=
            enc_branches(bbs) + rb);
        lemma_enc_level_prefix(
            abs[0].0,
            bbs[0].0,
            enc_node(abs[0].1) + (enc_branches(abs.skip(1)) + ra),
            enc_node(bbs[0].1) + (enc_branches(bbs.skip(1)) + rb),
        );
        lemma_enc_node_prefix(
            abs[0].1,
            bbs[0].1,
            enc_branches(abs.skip(1)) + ra,
            enc_branches(bbs.skip(1)) + rb,
        );
        lemma_enc_branches_prefix(abs.skip(1), bbs.skip(1), ra, rb);
        assert(abs[0] == bbs[0]);
        assert forall|i: int| 0 <= i < abs.len() implies abs[i] == bbs[i] by {
            if i > 0 {
                assert(abs.skip(1)[i - 1] == bbs.skip(1)[i - 1]);
            }
        }
        assert(abs =~= bbs);
    }
}

/// Law: a byte snapshot determines the tree. Two bounded trees with the
/// same encoding are the same tree; so whatever a successful decode of an
/// encoded tree returns reports, for every probe topic, exactly the
/// matches the encoded tree reports.
pub proof fn lemma_snapshot_determines_tree(a: NodeView<u64>, b: NodeView<u64>)
    requires
        node_bounded(a),
        node_bounded(b),
        enc_node(a) == enc_node(b),
    ensures
        a == b,
{
    lemma_enc_node_prefix(a, b, Seq::empty(), Seq::empty());
}

} // verus!

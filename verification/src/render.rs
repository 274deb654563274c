use vstd::prelude::*;

use crate::level::Level;
use crate::level::LevelView;
use crate::level::Topic;

verus! {

/// The text of one level: its bytes for named levels, nothing for a blank
/// level, and the wildcard tokens for the wildcards.
pub open spec fn level_text(l: LevelView) -> Seq<u8> {
    match l {
        LevelView::Normal(s) => s,
        LevelView::Metadata(s) => s,
        LevelView::Blank => Seq::empty(),
        LevelView::SingleWildcard => seq![43u8],
        LevelView::MultiWildcard => seq![35u8],
    }
}

/// The levels after the first, each preceded by the separator.
pub open spec fn render_tail(ls: Seq<LevelView>) -> Seq<u8>
    decreases ls.len(),
{
    if ls.len() == 0 {
        Seq::empty()
    } else {
        seq![47u8] + level_text(ls[0]) + render_tail(ls.skip(1))
    }
}

/// The textual form of a level sequence: the levels' texts joined by the
/// separator byte.
pub open spec fn render(ls: Seq<LevelView>) -> Seq<u8> {
    if ls.len() == 0 {
        Seq::empty()
    } else {
        level_text(ls[0]) + render_tail(ls.skip(1))
    }
}

proof fn lemma_render_tail_push(s: Seq<LevelView>, e: LevelView)
    ensures
        render_tail(s.push(e)) == render_tail(s) + seq![47u8] + level_text(e),
    decreases s.len(),
{
    if s.len() == 0 {
        assert(s.push(e)[0] == e);
        assert(s.push(e).skip(1) =~= Seq::<LevelView>::empty());
        assert(render_tail(Seq::<LevelView>::empty()) == Seq::<u8>::empty());
        assert(render_tail(s.push(e)) == seq![47u8] + level_text(e) + Seq::<u8>::empty());
        assert(render_tail(s.push(e)) =~= render_tail(s) + seq![47u8] + level_text(e));
    } else {
        assert(s.push(e)[0] == s[0]);
        assert(s.push(e).skip(1) =~= s.skip(1).push(e));
        lemma_render_tail_push(s.skip(1), e);
        assert(render_tail(s.push(e)) =~= render_tail(s) + seq![47u8] + level_text(e));
    }
}

pub(crate) fn push_level_text(out: &mut Vec<u8>, l: &Level)
    ensures
        final(out)@ == old(out)@ + level_text(l@),
{
    let ghost base = out@;
    match l {
        Level::Normal(s) => {
            let mut i: usize = 0;
            while i < s.len()
                invariant
                    i <= s@.len(),
                    out@ =~= base + s@.subrange(0, i as int),
                decreases s@.len() - i,
            {
                out.push(s[i]);
                i += 1;
            }
            proof {
                assert(out@ =~= base + s@);
            }
        },
        Level::Metadata(s) => {
            let mut i: usize = 0;
            while i < s.len()
                invariant
                    i <= s@.len(),
                    out@ =~= base + s@.subrange(0, i as int),
                decreases s@.len() - i,
            {
                out.push(s[i]);
                i += 1;
            }
            proof {
                assert(out@ =~= base + s@);
            }
        },
        Level::Blank => {
            proof {
                assert(out@ =~= base + level_text(l@));
            }
        },
        Level::SingleWildcard => {
            out.push(43u8);
            proof {
                assert(out@ =~= base + level_text(l@));
            }
        },
        Level::MultiWildcard => {
            out.push(35u8);
            proof {
                assert(out@ =~= base + level_text(l@));
            }
        },
    }
}

/// The textual bytes of a level sequence, joined by the separator.
pub fn render_levels(v: &Vec<Level>) -> (r: Vec<u8>)
    ensures
        r@ == render(v@.map_values(|l: Level| l@)),
{
    let ghost lsv = v@.map_values(|l: Level| l@);
    let mut out: Vec<u8> = Vec::new();
    if v.len() == 0 {
        proof {
            assert(out@ =~= render(lsv));
        }
        return out;
    }
    push_level_text(&mut out, &v[0]);
    let mut i: usize = 1;
    while i < v.len()
        invariant
            1 <= i <= v@.len(),
            lsv == v@.map_values(|l: Level| l@),
            lsv.len() == v@.len(),
            out@ == level_text(lsv[0]) + render_tail(lsv.subrange(1, i as int)),
        decreases v@.len() - i,
    {
        let ghost before = lsv.subrange(1, i as int);
        out.push(47u8);
        push_level_text(&mut out, &v[i]);
        proof {
            assert(lsv.subrange(1, i as int + 1) =~= before.push(lsv[i as int]));
            lemma_render_tail_push(before, lsv[i as int]);
            assert(out@ =~= level_text(lsv[0]) + render_tail(lsv.subrange(1, i as int + 1)));
        }
        i += 1;
    }
    proof {
        assert(lsv.subrange(1, lsv.len() as int) =~= lsv.skip(1));
        assert(out@ =~= render(lsv));
    }
    out
}

/// Relies on String::from_utf8: it accepts exactly the valid UTF-8 byte
/// sequences and turns one into the string of the scalar values it
/// encodes; on any other bytes the error is absorbed into the empty
/// string.
#[verifier::external_body]
pub(crate) fn bytes_to_string(v: Vec<u8>) -> (r: String)
    ensures
        vstd::utf8::valid_utf8(v@) ==> r@ == vstd::utf8::decode_utf8(v@),
        !vstd::utf8::valid_utf8(v@) ==> r@ == Seq::<char>::empty(),
{
    String::from_utf8(v).unwrap_or_default()
}

/// The textual form of a walked filter path, levels joined by the
/// separator.
pub trait VecToString {
    fn to_string(&self) -> String;
}

impl VecToString for Vec<Level> {
    /// Spells the level sequence out: the levels' texts joined by the
    /// separator, decoded from UTF-8; empty where the texts are not valid
    /// UTF-8.
    fn to_string(&self) -> (r: String)
        ensures
            ({
                let b = render(self@.map_values(|l: Level| l@));
                &&& vstd::utf8::valid_utf8(b) ==> r@ == vstd::utf8::decode_utf8(b)
                &&& !vstd::utf8::valid_utf8(b) ==> r@ == Seq::<char>::empty()
            }),
    {
        bytes_to_string(render_levels(self))
    }
}

/// Rebuilding a topic from a walked filter path.
pub trait VecToTopic {
    fn to_topic(&self) -> Topic;
}

impl VecToTopic for Vec<Level> {
    /// The topic spelling this level sequence.
    fn to_topic(&self) -> (r: Topic)
        ensures
            r@ == self@.map_values(|l: Level| l@),
    {
        let mut levels: Vec<Level> = Vec::new();
        let mut i: usize = 0;
        while i < self.len()
            invariant
                i <= self@.len(),
                levels@.len() == i,
                forall|k: int| 0 <= k < i ==> (#[trigger] levels@[k])@ == self@[k]@,
            decreases self@.len() - i,
        {
            levels.push(self[i].dup());
            i += 1;
        }
        let t = Topic { levels };
        proof {
            assert(t@ =~= self@.map_values(|l: Level| l@));
        }
        t
    }
}

} // verus!

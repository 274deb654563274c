use vstd::prelude::*;

verus! {

/// One delimiter-separated segment of a topic or filter.
///
/// A segment is either ordinary text, text that marks a reserved/system
/// topic (recognised by the topic model from the first level of the name),
/// an empty segment from adjacent or boundary delimiters, or one of the two
/// wildcard tokens a filter may carry.
#[derive(Debug)]
pub enum Level {
    Normal(Vec<u8>),
    Metadata(Vec<u8>),
    Blank,
    SingleWildcard,
    MultiWildcard,
}

/// Mathematical image of a `Level`: the same shape over `Seq<u8>`.
pub enum LevelView {
    Normal(Seq<u8>),
    Metadata(Seq<u8>),
    Blank,
    SingleWildcard,
    MultiWildcard,
}

impl LevelView {
    pub open spec fn is_metadata(self) -> bool {
        self is Metadata
    }

    pub open spec fn is_blank(self) -> bool {
        self is Blank
    }

    pub open spec fn is_single_wildcard(self) -> bool {
        self is SingleWildcard
    }

    pub open spec fn is_multi_wildcard(self) -> bool {
        self is MultiWildcard
    }
}

impl View for Level {
    type V = LevelView;

    open spec fn view(&self) -> LevelView {
        match self {
            Level::Normal(s) => LevelView::Normal(s@),
            Level::Metadata(s) => LevelView::Metadata(s@),
            Level::Blank => LevelView::Blank,
            Level::SingleWildcard => LevelView::SingleWildcard,
            Level::MultiWildcard => LevelView::MultiWildcard,
        }
    }
}

/// Byte-for-byte equality of two byte vectors.
fn bytes_eq(a: &Vec<u8>, b: &Vec<u8>) -> (r: bool)
    ensures
        r == (a@ == b@),
{
    if a.len() != b.len() {
        return false;
    }
    let mut i: usize = 0;
    while i < a.len()
        invariant
            i <= a@.len(),
            a@.len() == b@.len(),
            forall|j: int| 0 <= j < i ==> a@[j] == b@[j],
        decreases a@.len() - i,
    {
        if a[i] != b[i] {
            return false;
        }
        i += 1;
    }
    proof {
        assert(a@ =~= b@);
    }
    true
}

impl Level {
    /// Whether this level marks a reserved/system topic.
    pub fn is_metadata(&self) -> (r: bool)
        ensures
            r == self@.is_metadata(),
    {
        matches!(self, Level::Metadata(_))
    }

    /// Whether this level is the empty segment.
    pub fn is_blank(&self) -> (r: bool)
        ensures
            r == self@.is_blank(),
    {
        matches!(self, Level::Blank)
    }

    /// Whether this level is the single-level wildcard.
    pub fn is_single_wildcard(&self) -> (r: bool)
        ensures
            r == self@.is_single_wildcard(),
    {
        matches!(self, Level::SingleWildcard)
    }

    /// Whether this level is the multi-level wildcard.
    pub fn is_multi_wildcard(&self) -> (r: bool)
        ensures
            r == self@.is_multi_wildcard(),
    {
        matches!(self, Level::MultiWildcard)
    }

    /// Equality of two levels, decided on their mathematical images.
    pub fn eq_level(&self, other: &Level) -> (r: bool)
        ensures
            r == (self@ == other@),
    {
        match (self, other) {
            (Level::Normal(a), Level::Normal(b)) => bytes_eq(a, b),
            (Level::Metadata(a), Level::Metadata(b)) => bytes_eq(a, b),
            (Level::Blank, Level::Blank) => true,
            (Level::SingleWildcard, Level::SingleWildcard) => true,
            (Level::MultiWildcard, Level::MultiWildcard) => true,
            _ => false,
        }
    }

    /// An independent copy of this level.
    pub fn dup(&self) -> (r: Level)
        ensures
            r@ == self@,
    {
        match self {
            Level::Normal(s) => {
                let mut t: Vec<u8> = Vec::new();
                let mut i: usize = 0;
                while i < s.len()
                    invariant
                        i <= s@.len(),
                        t@ == s@.subrange(0, i as int),
                    decreases s@.len() - i,
                {
                    t.push(s[i]);
                    i += 1;
                }
                proof {
                    assert(t@ =~= s@);
                }
                Level::Normal(t)
            }
            Level::Metadata(s) => {
                let mut t: Vec<u8> = Vec::new();
                let mut i: usize = 0;
                while i < s.len()
                    invariant
                        i <= s@.len(),
                        t@ == s@.subrange(0, i as int),
                    decreases s@.len() - i,
                {
                    t.push(s[i]);
                    i += 1;
                }
                proof {
                    assert(t@ =~= s@);
                }
                Level::Metadata(t)
            }
            Level::Blank => Level::Blank,
            Level::SingleWildcard => Level::SingleWildcard,
            Level::MultiWildcard => Level::MultiWildcard,
        }
    }
}

/// An ordered sequence of levels: a filter pattern when registering,
/// a concrete name when matching.
#[derive(Debug)]
pub struct Topic {
    pub levels: Vec<Level>,
}

impl View for Topic {
    type V = Seq<LevelView>;

    open spec fn view(&self) -> Seq<LevelView> {
        self.levels@.map_values(|l: Level| l@)
    }
}

impl Topic {
    /// Builds a topic from its level sequence.
    pub fn from_levels(levels: Vec<Level>) -> (r: Topic)
        ensures
            r.levels@ == levels@,
    {
        Topic { levels }
    }

    /// The level sequence of this topic.
    pub fn levels(&self) -> (r: &Vec<Level>)
        ensures
            r@ == self.levels@,
    {
        &self.levels
    }
}

} // verus!

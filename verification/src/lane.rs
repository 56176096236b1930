//! The lookup lanes. Every keystroke runs all of them and merges what they find.
//!
//! Latin input is ambiguous by nature (`man` is an English word and the pinyin of màn and
//! mǎn), so no lane is guessed. Only Han characters in the input rule the English side out.
use crate::single::Single;
use vstd::prelude::*;

verus! {

#[derive(Copy, Clone, Debug, PartialEq, Eq, Hash, Structural)]
pub enum Lane {
    /// Prefix of a Chinese headword.
    Zh,
    /// Inside a Chinese headword: the index of its proper suffixes.
    ZhSub,
    /// Prefix of an English headword.
    Enw,
    /// Plain pinyin, `zhonggu`.
    Py,
    /// Pinyin initials, `zg`.
    Ini,
    /// English glosses of Chinese words; second class.
    Gloss,
    /// Chinese glosses of English words; second class.
    Trans,
}

pub const LANES: [Lane; 7] = [
    Lane::Zh,
    Lane::ZhSub,
    Lane::Enw,
    Lane::Py,
    Lane::Ini,
    Lane::Gloss,
    Lane::Trans,
];

impl Lane {
    pub open spec fn idx_spec(self) -> nat {
        match self {
            Lane::Zh => 0,
            Lane::ZhSub => 1,
            Lane::Enw => 2,
            Lane::Py => 3,
            Lane::Ini => 4,
            Lane::Gloss => 5,
            Lane::Trans => 6,
        }
    }

    pub fn idx(self) -> (r: usize)
        ensures
            r == self.idx_spec(),
            r < 7,
    {
        match self {
            Lane::Zh => 0,
            Lane::ZhSub => 1,
            Lane::Enw => 2,
            Lane::Py => 3,
            Lane::Ini => 4,
            Lane::Gloss => 5,
            Lane::Trans => 6,
        }
    }

    pub open spec fn file_stem_spec(self) -> Seq<char> {
        match self {
            Lane::Zh => "zh"@,
            Lane::ZhSub => "zhsub"@,
            Lane::Enw => "enw"@,
            Lane::Py => "py"@,
            Lane::Ini => "ini"@,
            Lane::Gloss => "gloss"@,
            Lane::Trans => "trans"@,
        }
    }

    pub fn file_stem(self) -> (r: &'static str)
        ensures
            r@ == self.file_stem_spec(),
    {
        match self {
            Lane::Zh => "zh",
            Lane::ZhSub => "zhsub",
            Lane::Enw => "enw",
            Lane::Py => "py",
            Lane::Ini => "ini",
            Lane::Gloss => "gloss",
            Lane::Trans => "trans",
        }
    }

    /// The bits of the lane's weight: 1.00, 0.95, 0.85, 0.70 and 0.50.
    pub open spec fn weight_spec(self) -> Single {
        match self {
            Lane::Zh => Single { bits: 0x3F80_0000 },
            Lane::Enw => Single { bits: 0x3F80_0000 },
            Lane::Py => Single { bits: 0x3F73_3333 },
            Lane::ZhSub => Single { bits: 0x3F59_999A },
            Lane::Ini => Single { bits: 0x3F33_3333 },
            Lane::Gloss => Single { bits: 0x3F00_0000 },
            Lane::Trans => Single { bits: 0x3F00_0000 },
        }
    }

    /// A hit on a headword counts in full, one on a gloss by half: that is how English input
    /// gets English words first.
    pub fn weight(self) -> (r: Single)
        ensures
            r == self.weight_spec(),
    {
        match self {
            Lane::Zh => Single { bits: 0x3F80_0000 },
            Lane::Enw => Single { bits: 0x3F80_0000 },
            Lane::Py => Single { bits: 0x3F73_3333 },
            Lane::ZhSub => Single { bits: 0x3F59_999A },
            Lane::Ini => Single { bits: 0x3F33_3333 },
            Lane::Gloss => Single { bits: 0x3F00_0000 },
            Lane::Trans => Single { bits: 0x3F00_0000 },
        }
    }

    pub open spec fn is_secondary_spec(self) -> bool {
        self == Lane::Gloss || self == Lane::Trans
    }

    /// A lane of the second class, through glosses.
    pub fn is_secondary(self) -> (r: bool)
        ensures
            r == self.is_secondary_spec(),
    {
        match self {
            Lane::Gloss => true,
            Lane::Trans => true,
            _ => false,
        }
    }

    /// A hit inside a headword earns no bonus for matching the key in full.
    pub fn allows_exact_bonus(self) -> (r: bool)
        ensures
            r == (self != Lane::ZhSub),
    {
        match self {
            Lane::ZhSub => false,
            _ => true,
        }
    }

    pub open spec fn label_spec(self) -> Seq<char> {
        match self {
            Lane::Zh => "汉字"@,
            Lane::ZhSub => "汉字中"@,
            Lane::Enw => "英文"@,
            Lane::Py => "全拼"@,
            Lane::Ini => "简拼"@,
            Lane::Gloss => "释义→中"@,
            Lane::Trans => "释义→英"@,
        }
    }

    pub fn label(self) -> (r: &'static str)
        ensures
            r@ == self.label_spec(),
    {
        match self {
            Lane::Zh => "汉字",
            Lane::ZhSub => "汉字中",
            Lane::Enw => "英文",
            Lane::Py => "全拼",
            Lane::Ini => "简拼",
            Lane::Gloss => "释义→中",
            Lane::Trans => "释义→英",
        }
    }
}

/// Lanes with one number are one lane, and `LANES` lists them by number.
pub proof fn law_lanes_are_numbered()
    ensures
        forall|a: Lane, b: Lane| a.idx_spec() == b.idx_spec() ==> a == b,
        LANES@.len() == 7,
        forall|i: int| 0 <= i < 7 ==> (#[trigger] LANES@[i]).idx_spec() == i,
{
}

/// A lane of the first class weighs more than one of the second.
pub proof fn law_headwords_outweigh_glosses(a: Lane, b: Lane)
    requires
        !a.is_secondary_spec(),
        b.is_secondary_spec(),
    ensures
        b.weight_spec().less_spec(a.weight_spec()),
{
}

} // verus!

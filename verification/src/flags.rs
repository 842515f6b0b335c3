use vstd::prelude::*;

use crate::text::{next_field, remaining_fields, split, str_chars};

verus! {

/// Flags of one value (a hit or a heal tick) of the combat log, one bit each.
#[derive(Debug, Clone, Copy, PartialEq, Eq, Structural)]
pub struct ValueFlags {
    pub bits: u8,
}

/// The flags that a name was seen with, one bit each.
#[derive(Debug, Clone, Copy, PartialEq, Eq, Structural, Hash, Default)]
pub struct NameFlags {
    pub bits: u8,
}

/// The bit of a single value flag named in the log, or 0 for an unknown name.
pub open spec fn value_flag_bits(name: Seq<char>) -> u8 {
    if name == "Critical"@ {
        1
    } else if name == "Flank"@ {
        2
    } else if name == "Kill"@ {
        4
    } else if name == "Immune"@ {
        8
    } else if name == "ShieldBreak"@ {
        16
    } else {
        0
    }
}

/// The union of the bits of all flag names in `names`.
pub open spec fn value_flags_union(names: Seq<Seq<char>>) -> u8
    decreases names.len(),
{
    if names.len() == 0 {
        0
    } else {
        value_flags_union(names.drop_last()) | value_flag_bits(names.last())
    }
}

/// Whether `chars[a..b]` spells `word`.
pub fn chars_equal_str(chars: &Vec<char>, a: usize, b: usize, word: &str) -> (res: bool)
    requires
        a <= b <= chars@.len(),
    ensures
        res == (chars@.subrange(a as int, b as int) == word@),
{
    let w = str_chars(word);
    if b - a != w.len() {
        return false;
    }
    let mut i: usize = 0;
    while i < w.len()
        invariant
            a <= b <= chars@.len(),
            b - a == w@.len(),
            i <= w@.len(),
            w@ == word@,
            forall|j: int| 0 <= j < i ==> chars@[a + j] == w@[j],
        decreases w@.len() - i,
    {
        if chars[a + i] != w[i] {
            assert(chars@.subrange(a as int, b as int)[i as int] != word@[i as int]);
            return false;
        }
        i = i + 1;
    }
    assert(chars@.subrange(a as int, b as int) =~= word@);
    true
}

impl ValueFlags {
    pub const NONE: u8 = 0;
    pub const CRITICAL: u8 = 1;
    pub const FLANK: u8 = 2;
    pub const KILL: u8 = 4;
    pub const IMMUNE: u8 = 8;
    pub const SHIELD_BREAK: u8 = 16;

    /// Whether every bit of `flag` is set in `self`.
    pub open spec fn has(self, flag: u8) -> bool {
        self.bits & flag == flag
    }

    /// Whether all bits of `flag` are set.
    pub fn contains(&self, flag: u8) -> (res: bool)
        ensures
            res == self.has(flag),
    {
        self.bits & flag == flag
    }

    /// The bit of one flag name of the log.
    fn flag_of(chars: &Vec<char>, a: usize, b: usize) -> (res: u8)
        requires
            a <= b <= chars@.len(),
        ensures
            res == value_flag_bits(chars@.subrange(a as int, b as int)),
    {
        if chars_equal_str(chars, a, b, "Critical") {
            1
        } else if chars_equal_str(chars, a, b, "Flank") {
            2
        } else if chars_equal_str(chars, a, b, "Kill") {
            4
        } else if chars_equal_str(chars, a, b, "Immune") {
            8
        } else if chars_equal_str(chars, a, b, "ShieldBreak") {
            16
        } else {
            0
        }
    }

    /// Parses the `|`-separated flag names of a log record; unknown names add nothing.
    pub fn parse(input: &str) -> (res: Self)
        ensures
            res.bits == value_flags_union(split(input@, '|')),
    {
        let chars = str_chars(input);
        let mut cursor: Option<usize> = Some(0);
        let mut bits: u8 = 0;
        let ghost mut seen: Seq<Seq<char>> = Seq::empty();
        loop
            invariant
                chars@ == input@,
                cursor matches Some(start) ==> start <= chars@.len(),
                split(input@, '|') == seen + remaining_fields(chars@, '|', cursor),
                bits == value_flags_union(seen),
            ensures
                bits == value_flags_union(split(input@, '|')),
            decreases remaining_fields(chars@, '|', cursor).len(),
        {
            match next_field(&chars, '|', &mut cursor) {
                None => {
                    assert(seen + Seq::<Seq<char>>::empty() == seen);
                    break ;
                },
                Some((a, b)) => {
                    let flag = Self::flag_of(&chars, a, b);
                    bits = bits | flag;
                    proof {
                        let piece = chars@.subrange(a as int, b as int);
                        assert((seen.push(piece)).drop_last() == seen);
                        assert(seen + remaining_fields(chars@, '|', cursor).insert(0, piece) == seen.push(piece) + remaining_fields(chars@, '|', cursor));
                        assert(seq![piece] + remaining_fields(chars@, '|', cursor) == remaining_fields(chars@, '|', cursor).insert(0, piece));
                        seen = seen.push(piece);
                    }
                },
            }
        }
        ValueFlags { bits }
    }
}

impl Default for ValueFlags {
    fn default() -> (res: Self)
        ensures
            res.bits == 0,
    {
        ValueFlags { bits: Self::NONE }
    }
}

impl NameFlags {
    /// The flags with exactly the bits `bits`.
    pub fn from_bits(bits: u8) -> (res: Self)
        ensures
            res.bits == bits,
    {
        NameFlags { bits }
    }

    pub const NONE: u8 = 0;
    pub const PLAYER: u8 = 1;
    pub const SOURCE: u8 = 2;
    pub const SOURCE_UNIQUE: u8 = 4;
    pub const INDIRECT_SOURCE: u8 = 8;
    pub const INDIRECT_SOURCE_UNIQUE: u8 = 16;
    pub const TARGET: u8 = 32;
    pub const TARGET_UNIQUE: u8 = 64;
    pub const VALUE: u8 = 128;

    /// `self` with the bits of `other` set when `value` holds and cleared otherwise.
    pub fn set_if(self, other: Self, value: bool) -> (res: Self)
        ensures
            res.bits == (if value {
                self.bits | other.bits
            } else {
                self.bits & !other.bits
            }),
    {
        if value {
            NameFlags { bits: self.bits | other.bits }
        } else {
            NameFlags { bits: self.bits & !other.bits }
        }
    }

    /// The union of both sets of flags.
    pub fn union(self, other: Self) -> (res: Self)
        ensures
            res.bits == self.bits | other.bits,
    {
        NameFlags { bits: self.bits | other.bits }
    }

    /// Whether `self` and `other` share a bit.
    pub open spec fn meets(self, other: NameFlags) -> bool {
        self.bits & other.bits != 0
    }

    /// Whether `self` and `other` share a bit.
    pub fn intersects(self, other: Self) -> (res: bool)
        ensures
            res == self.meets(other),
    {
        self.bits & other.bits != 0
    }
}

} // verus!

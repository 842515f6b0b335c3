use vstd::prelude::*;

use crate::flags::{chars_equal_str, ValueFlags};
use crate::text::str_chars;

verus! {

/// What the two numbers of a record describe.
#[derive(Debug, Clone, Copy, PartialEq, Eq, Structural)]
pub enum ValueKind {
    /// Hull healed by the first number.
    HullHeal,
    /// Shields healed by the first number.
    ShieldHeal,
    /// Shields drained by the first number.
    ShieldDrain,
    /// Shield damage of the first number; the second is the damage that the shields
    /// kept from the hull.
    ShieldDamage,
    /// Hull damage of the first number; its base damage is the first number where
    /// `base_from_first` holds, else the second.
    HullDamage { base_from_first: bool },
}

/// How the two numbers of a record compare with zero (a number that is not a number
/// compares as neither).
#[derive(Debug, Clone, Copy, PartialEq, Eq, Structural)]
pub struct ValueSigns {
    pub first_negative: bool,
    pub first_positive: bool,
    pub first_zero: bool,
    pub second_zero: bool,
}

/// The kind of a record's value from its value type, the signs of its numbers and its
/// flags: negative hit points heal the hull; a shield value without a second number
/// and without a shield break heals (negative) or drains (positive) the shields, and
/// is shield damage otherwise; every other value is hull damage, whose base damage is
/// the second number unless that is zero.
pub open spec fn spec_classify(value_type: Seq<char>, signs: ValueSigns, flags: u8) -> ValueKind {
    if signs.first_negative && value_type == "HitPoints"@ {
        ValueKind::HullHeal
    } else if value_type == "Shield"@ {
        if signs.second_zero && flags & ValueFlags::SHIELD_BREAK != ValueFlags::SHIELD_BREAK && signs.first_negative {
            ValueKind::ShieldHeal
        } else if signs.second_zero && flags & ValueFlags::SHIELD_BREAK != ValueFlags::SHIELD_BREAK && signs.first_positive {
            ValueKind::ShieldDrain
        } else {
            ValueKind::ShieldDamage
        }
    } else {
        ValueKind::HullDamage { base_from_first: signs.second_zero }
    }
}

/// Whether all numbers of a value of this kind are zero: the amount, and the damage
/// kept from the hull of shield damage or the base damage of hull damage.
pub open spec fn spec_all_zero(kind: ValueKind, signs: ValueSigns) -> bool {
    match kind {
        ValueKind::HullHeal | ValueKind::ShieldHeal | ValueKind::ShieldDrain => signs.first_zero,
        ValueKind::ShieldDamage => signs.first_zero && signs.second_zero,
        ValueKind::HullDamage { base_from_first } => signs.first_zero && (base_from_first
            || signs.second_zero),
    }
}

impl ValueKind {
    /// The kind of a record's value (see `spec_classify`).
    pub fn classify(value_type: &str, signs: ValueSigns, flags: ValueFlags) -> (res: Self)
        ensures
            res == spec_classify(value_type@, signs, flags.bits),
    {
        let chars = str_chars(value_type);
        let n = chars.len();
        if signs.first_negative && chars_equal_str(&chars, 0, n, "HitPoints") {
            assert(chars@.subrange(0, n as int) == value_type@);
            return ValueKind::HullHeal;
        }
        assert(chars@.subrange(0, n as int) == value_type@);
        if chars_equal_str(&chars, 0, n, "Shield") {
            if signs.second_zero && !flags.contains(ValueFlags::SHIELD_BREAK) {
                if signs.first_negative {
                    return ValueKind::ShieldHeal;
                }
                if signs.first_positive {
                    return ValueKind::ShieldDrain;
                }
            }
            return ValueKind::ShieldDamage;
        }
        ValueKind::HullDamage { base_from_first: signs.second_zero }
    }

    /// Whether all numbers of a value of this kind are zero (see `spec_all_zero`).
    pub fn is_all_zero(&self, signs: ValueSigns) -> (res: bool)
        ensures
            res == spec_all_zero(*self, signs),
    {
        match self {
            ValueKind::HullHeal | ValueKind::ShieldHeal | ValueKind::ShieldDrain => signs.first_zero,
            ValueKind::ShieldDamage => signs.first_zero && signs.second_zero,
            ValueKind::HullDamage { base_from_first } => signs.first_zero && (*base_from_first
                || signs.second_zero),
        }
    }

    /// Whether the value is damage.
    pub fn is_damage(&self) -> (res: bool)
        ensures
            res == !(*self is HullHeal || *self is ShieldHeal),
    {
        match self {
            ValueKind::HullHeal | ValueKind::ShieldHeal => false,
            _ => true,
        }
    }
}

} // verus!

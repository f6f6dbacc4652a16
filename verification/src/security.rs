//! Security statuses and the classes they fall into.

use vstd::prelude::*;

verus! {

/// Bit pattern of the single-precision value `0.5`.
pub const HALF_BITS: u32 = 0x3F00_0000;

/// Bit pattern of positive infinity; larger magnitudes are not numbers.
pub const INFINITY_BITS: u32 = 0x7F80_0000;

/// Bit pattern of negative zero: the sign bit alone.
pub const SIGN_BIT: u32 = 0x8000_0000;

/// Bit pattern of negative infinity.
pub const NEG_INFINITY_BITS: u32 = 0xFF80_0000;

/// Bit pattern of the single-precision value `-0.99`, the security status
/// that marks wormhole space.
pub const JSPACE_BITS: u32 = 0xBF7D_70A4;

/// Pochven, the region whose systems are [`SystemSecurity::Special`]
/// unless their security status is above zero.
pub const POCHVEN: i64 = 10000070;

/// Thera, a system that is [`SystemSecurity::Special`].
pub const THERA: i64 = 31000005;

/// Turnur, a system that is [`SystemSecurity::Special`].
pub const TURNUR: i64 = 30002086;

/// Zarzakh, a system that is [`SystemSecurity::Special`].
pub const ZARZAKH: i64 = 30100000;

/// A security status: an IEEE 754 single-precision number held by its bit
/// pattern, so that its class can be decided with integer comparisons.
///
/// For numbers of one sign the order of the bit patterns is the order of the
/// magnitudes, which is all the classification needs.
#[derive(Clone, Copy, Debug, PartialEq, Eq, Structural)]
pub struct Security {
    pub bits: u32,
}

/// The coarse class of a system, by which a policy allows or forbids it.
#[derive(Clone, Copy, Debug, PartialEq, Eq, Hash, Structural)]
pub enum SystemSecurity {
    Highsec,
    Lowsec,
    Nullsec,
    Jspace,
    Special,
}

impl Security {
    /// The number is at least `0.5` (positive infinity included).
    pub open spec fn at_least_half(self) -> bool {
        HALF_BITS <= self.bits <= INFINITY_BITS
    }

    /// The number lies strictly between `0.0` and `0.5`.
    pub open spec fn between_zero_and_half(self) -> bool {
        0 < self.bits < HALF_BITS
    }

    /// The number is exactly `-0.99`.
    pub open spec fn is_jspace_value(self) -> bool {
        self.bits == JSPACE_BITS
    }

    /// The number is strictly below `0.0` (negative infinity included,
    /// negative zero excluded).
    pub open spec fn below_zero(self) -> bool {
        SIGN_BIT < self.bits <= NEG_INFINITY_BITS
    }

    /// The value is a zero of either sign, or not a number: the values that
    /// compare neither above nor below zero.
    pub open spec fn is_unordered_or_zero(self) -> bool {
        !self.at_least_half() && !self.between_zero_and_half() && !self.below_zero()
    }

    pub fn from_bits(bits: u32) -> (s: Security)
        ensures
            s.bits == bits,
    {
        Security { bits }
    }

    pub fn to_bits(self) -> (bits: u32)
        ensures
            bits == self.bits,
    {
        self.bits
    }
}

/// Whether the region or the system is one of those singled out as special.
pub open spec fn is_special_place(region_id: i64, id: i64) -> bool {
    region_id == POCHVEN || id == THERA || id == TURNUR || id == ZARZAKH
}

/// The class of a system with the given security status, region and
/// identifier, or `None` where no class is defined.
///
/// The rules apply in this order: high security, low security, the special
/// places, wormhole space, null security.
pub open spec fn security_class_of(security: Security, region_id: i64, id: i64) -> Option<
    SystemSecurity,
> {
    if security.at_least_half() {
        Some(SystemSecurity::Highsec)
    } else if security.between_zero_and_half() {
        Some(SystemSecurity::Lowsec)
    } else if is_special_place(region_id, id) {
        Some(SystemSecurity::Special)
    } else if security.is_jspace_value() {
        Some(SystemSecurity::Jspace)
    } else if security.below_zero() {
        Some(SystemSecurity::Nullsec)
    } else {
        None
    }
}

/// Classifies a system by its security status, region and identifier.
pub fn classify(security: Security, region_id: i64, id: i64) -> (class: Option<SystemSecurity>)
    ensures
        class == security_class_of(security, region_id, id),
{
    let bits: u32 = security.bits;
    if HALF_BITS <= bits && bits <= INFINITY_BITS {
        return Some(SystemSecurity::Highsec);
    }
    if 0 < bits && bits < HALF_BITS {
        return Some(SystemSecurity::Lowsec);
    }
    if region_id == POCHVEN {
        return Some(SystemSecurity::Special);
    }
    if id == THERA || id == TURNUR || id == ZARZAKH {
        return Some(SystemSecurity::Special);
    }
    if bits == JSPACE_BITS {
        return Some(SystemSecurity::Jspace);
    }
    if SIGN_BIT < bits && bits <= NEG_INFINITY_BITS {
        return Some(SystemSecurity::Nullsec);
    }
    None
}

/// Every security status that is a number other than zero has a class, and
/// so has every status at all in a special place.
pub proof fn lemma_classification_total(security: Security, region_id: i64, id: i64)
    requires
        !security.is_unordered_or_zero() || is_special_place(region_id, id),
    ensures
        security_class_of(security, region_id, id) is Some,
{
}

/// The only inputs without a class are zeros and non-numbers outside the
/// special places.
pub proof fn lemma_unclassified_inputs(security: Security, region_id: i64, id: i64)
    ensures
        security_class_of(security, region_id, id) is None <==> security.is_unordered_or_zero()
            && !is_special_place(region_id, id),
{
}

} // verus!

//! The units time spans are shown in.

use vstd::prelude::*;

pub use crate::util::double::{Float64, Second};
use crate::util::double::{product_text, push_product_text};

verus! {

/// A unit in which time spans are shown.
#[derive(Debug, Clone, Copy, PartialEq, Eq, Structural)]
pub enum Unit {
    Second,
    MilliSecond,
    MicroSecond,
}

impl Unit {
    /// The symbol of the unit.
    pub open spec fn symbol(self) -> Seq<char> {
        match self {
            Unit::Second => seq!['s'],
            Unit::MilliSecond => seq!['m', 's'],
            Unit::MicroSecond => seq!['µ', 's'],
        }
    }

    /// How a span in seconds is shown in this unit: the factor it is
    /// multiplied by (in double precision), and the number of decimals.
    pub open spec fn scale(self) -> (nat, nat) {
        match self {
            Unit::Second => (1, 3),
            Unit::MilliSecond => (1000, 1),
            Unit::MicroSecond => (1_000_000, 1),
        }
    }

    /// The text of a span in this unit: seconds with three decimals,
    /// the span times 1e3 or 1e6 with one decimal for milliseconds and
    /// microseconds.
    pub open spec fn value_text(self, value: Second) -> Seq<char> {
        product_text(value, self.scale().0, self.scale().1)
    }

    /// The symbol of the unit ("s", "ms" or "µs").
    pub fn short_name(self) -> (s: String)
        ensures
            s@ == self.symbol(),
    {
        match self {
            Unit::Second => {
                proof { reveal_strlit("s"); }
                String::from_str("s")
            },
            Unit::MilliSecond => {
                proof { reveal_strlit("ms"); }
                String::from_str("ms")
            },
            Unit::MicroSecond => {
                proof { reveal_strlit("µs"); }
                String::from_str("µs")
            },
        }
    }

    /// The number that shows `value` in this unit, without the symbol.
    pub fn format(self, value: Second) -> (s: String)
        ensures
            s@ == self.value_text(value),
    {
        let mut s = String::new();
        match self {
            Unit::Second => push_product_text(&mut s, value, 1, 3),
            Unit::MilliSecond => push_product_text(&mut s, value, 1000, 1),
            Unit::MicroSecond => push_product_text(&mut s, value, 1_000_000, 1),
        }
        assert(s@ =~= self.value_text(value));
        s
    }
}

} // verus!

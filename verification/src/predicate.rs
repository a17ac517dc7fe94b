//! Predicates: the keep-or-despawn decisions of retain commands.
//!
//! A predicate is a closed set of decision rules over a component value.
//! Each rule yields the value the component moves to when the predicate is
//! given mutable access, and the boolean keep decision, which is read after
//! that mutation. A retain command without mutable access applies the same
//! decision but leaves the stored value untouched.

use vstd::prelude::*;

verus! {

/// Clamp a mathematical integer into the `i64` range.
pub open spec fn clamp_i64(x: int) -> i64 {
    if x < i64::MIN {
        i64::MIN
    } else if x > i64::MAX {
        i64::MAX
    } else {
        x as i64
    }
}

/// A keep-or-despawn rule over a component value.
#[derive(Clone, Copy, PartialEq, Eq, Structural, Debug)]
pub enum Predicate {
    /// Keep the entity while the value is below the bound.
    KeepLess(i64),
    /// Keep the entity while the value is at least the bound.
    KeepAtLeast(i64),
    /// Subtract the delta from the value (saturating), then keep the
    /// entity while the new value is positive.
    DecrementKeepPositive(i64),
}

impl Predicate {
    /// The value the component moves to when the predicate runs with
    /// mutable access.
    pub open spec fn next_value(self, v: i64) -> i64 {
        match self {
            Predicate::KeepLess(_) => v,
            Predicate::KeepAtLeast(_) => v,
            Predicate::DecrementKeepPositive(d) => clamp_i64(v - d),
        }
    }

    /// The keep decision, read after the mutation `next_value` describes.
    pub open spec fn keeps(self, v: i64) -> bool {
        match self {
            Predicate::KeepLess(b) => v < b,
            Predicate::KeepAtLeast(b) => v >= b,
            Predicate::DecrementKeepPositive(_) => self.next_value(v) > 0,
        }
    }

    /// Run the predicate on a component value: the value it moves to and
    /// the keep decision.
    pub fn evaluate(&self, v: i64) -> (r: (i64, bool))
        ensures
            r.0 == self.next_value(v),
            r.1 == self.keeps(v),
    {
        match *self {
            Predicate::KeepLess(b) => (v, v < b),
            Predicate::KeepAtLeast(b) => (v, v >= b),
            Predicate::DecrementKeepPositive(d) => {
                let wide: i128 = v as i128 - d as i128;
                let next: i64 = if wide < i64::MIN as i128 {
                    i64::MIN
                } else if wide > i64::MAX as i128 {
                    i64::MAX
                } else {
                    wide as i64
                };
                (next, next > 0)
            },
        }
    }
}

} // verus!

//! Time stamps: the order of a stream and the marks of its life.
//!
//! The values of `i64` are split into a few marks at both ends and the data
//! range in the middle:
//!
//! ```text
//!  MIN      MIN+1       MIN+2      MIN+3  ..  MAX-3      MAX-2            MAX-1          MAX
//!  Unset  Unstarted   PreStream     Min        Max     PostStream   OneOverPostStream    Done
//! ```
//!
//! `PreStream` and `PostStream` are the places of a single packet before and
//! after the data. `Done` says that no more packets come.

use crate::text::{decimal_of_signed, signed_decimal};
use core::cmp::Ordering;
use vstd::prelude::*;
use vstd::std_specs::cmp::PartialOrdSpecImpl;
use vstd::std_specs::ops::{AddSpecImpl, SubSpecImpl};

verus! {

/// A time stamp. The number is public: it crosses the boundary as it is.
#[derive(Clone, Copy, PartialEq, Eq, Structural, Ord, Hash, Debug)]
pub struct Timestamp(pub i64);

/// `x`, or the end of the `i64` range that it lies beyond.
pub open spec fn clamped(x: int) -> int {
    if x > i64::MAX {
        i64::MAX as int
    } else if x < i64::MIN {
        i64::MIN as int
    } else {
        x
    }
}

/// The time stamp `by` after `t`, held between the two ends.
pub open spec fn moved(t: Timestamp, by: int) -> Timestamp {
    Timestamp(clamped(t.0 + by) as i64)
}

/// The text of a time stamp: the name of a mark, else the number.
pub open spec fn shown(t: Timestamp) -> Seq<char> {
    if t.0 == i64::MIN {
        "Unset"@
    } else if t.0 == i64::MIN + 1 {
        "Unstarted"@
    } else if t.0 == i64::MIN + 2 {
        "PreStream"@
    } else if t.0 == i64::MAX - 2 {
        "PostStream"@
    } else if t.0 == i64::MAX - 1 {
        "OneOverPostStream"@
    } else if t.0 == i64::MAX {
        "Done"@
    } else {
        signed_decimal(t.0 as int)
    }
}

impl Default for Timestamp {
    fn default() -> (t: Timestamp)
        ensures
            t.0 == i64::MIN,
    {
        Timestamp::unset()
    }
}

impl PartialOrd for Timestamp {
    fn partial_cmp(&self, other: &Timestamp) -> (r: Option<Ordering>) {
        if self.0 < other.0 {
            Some(Ordering::Less)
        } else if self.0 == other.0 {
            Some(Ordering::Equal)
        } else {
            Some(Ordering::Greater)
        }
    }
}

impl PartialOrdSpecImpl for Timestamp {
    open spec fn obeys_partial_cmp_spec() -> bool {
        true
    }

    open spec fn partial_cmp_spec(&self, other: &Timestamp) -> Option<Ordering> {
        if self.0 < other.0 {
            Some(Ordering::Less)
        } else if self.0 == other.0 {
            Some(Ordering::Equal)
        } else {
            Some(Ordering::Greater)
        }
    }
}

impl core::ops::Add<i64> for Timestamp {
    type Output = Timestamp;

    fn add(self, rhs: i64) -> (r: Timestamp) {
        if rhs > 0 && self.0 > i64::MAX - rhs {
            Timestamp(i64::MAX)
        } else if rhs < 0 && self.0 < i64::MIN - rhs {
            Timestamp(i64::MIN)
        } else {
            Timestamp(self.0 + rhs)
        }
    }
}

impl AddSpecImpl<i64> for Timestamp {
    open spec fn obeys_add_spec() -> bool {
        true
    }

    open spec fn add_req(self, rhs: i64) -> bool {
        true
    }

    open spec fn add_spec(self, rhs: i64) -> Timestamp {
        moved(self, rhs as int)
    }
}

impl core::ops::Sub<i64> for Timestamp {
    type Output = Timestamp;

    fn sub(self, rhs: i64) -> (r: Timestamp) {
        if rhs < 0 && self.0 > i64::MAX + rhs {
            Timestamp(i64::MAX)
        } else if rhs > 0 && self.0 < i64::MIN + rhs {
            Timestamp(i64::MIN)
        } else {
            Timestamp(self.0 - rhs)
        }
    }
}

impl SubSpecImpl<i64> for Timestamp {
    open spec fn obeys_sub_spec() -> bool {
        true
    }

    open spec fn sub_req(self, rhs: i64) -> bool {
        true
    }

    open spec fn sub_spec(self, rhs: i64) -> Timestamp {
        moved(self, -rhs)
    }
}

impl Timestamp {
    /// No time stamp was given.
    pub fn unset() -> (t: Timestamp)
        ensures
            t.0 == i64::MIN,
    {
        Timestamp(i64::MIN)
    }

    /// The stream has not begun.
    pub fn unstarted() -> (t: Timestamp)
        ensures
            t.0 == i64::MIN + 1,
    {
        Timestamp(i64::MIN + 1)
    }

    /// The place before the data.
    pub fn pre_stream() -> (t: Timestamp)
        ensures
            t.0 == i64::MIN + 2,
    {
        Timestamp(i64::MIN + 2)
    }

    /// The least time stamp of the data range.
    pub fn min() -> (t: Timestamp)
        ensures
            t.0 == i64::MIN + 3,
    {
        Timestamp(i64::MIN + 3)
    }

    /// The greatest time stamp of the data range.
    pub fn max() -> (t: Timestamp)
        ensures
            t.0 == i64::MAX - 3,
    {
        Timestamp(i64::MAX - 3)
    }

    /// The place after the data.
    pub fn post_stream() -> (t: Timestamp)
        ensures
            t.0 == i64::MAX - 2,
    {
        Timestamp(i64::MAX - 2)
    }

    /// The bound of a stream that takes no more packets.
    pub fn one_over_post_stream() -> (t: Timestamp)
        ensures
            t.0 == i64::MAX - 1,
    {
        Timestamp(i64::MAX - 1)
    }

    /// The stream is closed.
    pub fn done() -> (t: Timestamp)
        ensures
            t.0 == i64::MAX,
    {
        Timestamp(i64::MAX)
    }

    /// Whether the time stamp lies in the data range.
    pub open spec fn in_range(self) -> bool {
        i64::MIN + 3 <= self.0 <= i64::MAX - 3
    }

    /// Whether a packet of a stream may carry the time stamp.
    pub open spec fn in_stream(self) -> bool {
        i64::MIN + 2 <= self.0 <= i64::MAX - 2
    }

    /// The bound after a packet with this time stamp: the next time stamp
    /// that the stream may carry. Nothing may follow a packet before or after
    /// the data, nor the last of the data range.
    pub open spec fn next(self) -> Timestamp {
        if self.0 >= i64::MAX - 3 || self.0 == i64::MIN + 2 {
            Timestamp((i64::MAX - 1) as i64)
        } else if self.0 < i64::MIN + 3 {
            Timestamp((i64::MIN + 3) as i64)
        } else {
            Timestamp((self.0 + 1) as i64)
        }
    }

    /// The time stamp before this one that the stream may carry.
    pub open spec fn previous(self) -> Timestamp {
        if self.0 <= i64::MIN + 3 || self.0 == i64::MAX - 2 {
            Timestamp((i64::MIN + 1) as i64)
        } else if self.0 > i64::MAX - 3 {
            Timestamp((i64::MAX - 3) as i64)
        } else {
            Timestamp((self.0 - 1) as i64)
        }
    }

    /// Whether the time stamp lies in the data range.
    pub fn is_range_value(self) -> (r: bool)
        ensures
            r == self.in_range(),
    {
        self >= Timestamp::min() && self <= Timestamp::max()
    }

    /// Whether a packet of a stream may carry the time stamp.
    pub fn is_allowed_in_stream(self) -> (r: bool)
        ensures
            r == self.in_stream(),
    {
        self >= Timestamp::pre_stream() && self <= Timestamp::post_stream()
    }

    /// The next time stamp that a stream may carry after this one, else
    /// `OneOverPostStream`.
    pub fn next_allowed_in_stream(self) -> (r: Timestamp)
        ensures
            r == self.next(),
    {
        if self >= Timestamp::max() || self == Timestamp::pre_stream() {
            Timestamp::one_over_post_stream()
        } else if self < Timestamp::min() {
            Timestamp::min()
        } else {
            Timestamp(self.0 + 1)
        }
    }

    /// Whether a stream may carry a time stamp after this one.
    pub fn has_next_allowed_in_stream(self) -> (r: bool)
        ensures
            r == (self.next().0 != i64::MAX - 1),
    {
        self < Timestamp::max() && self != Timestamp::pre_stream()
    }

    /// The time stamp before this one that a stream may carry, else
    /// `Unstarted`.
    pub fn previous_allowed_in_stream(self) -> (r: Timestamp)
        ensures
            r == self.previous(),
    {
        if self <= Timestamp::min() || self == Timestamp::post_stream() {
            Timestamp::unstarted()
        } else if self > Timestamp::max() {
            Timestamp::max()
        } else {
            Timestamp(self.0 - 1)
        }
    }

    /// The text of the time stamp.
    pub fn text(self) -> (r: String)
        ensures
            r@ == shown(self),
    {
        if self == Timestamp::unset() {
            "Unset".to_owned()
        } else if self == Timestamp::unstarted() {
            "Unstarted".to_owned()
        } else if self == Timestamp::pre_stream() {
            "PreStream".to_owned()
        } else if self == Timestamp::post_stream() {
            "PostStream".to_owned()
        } else if self == Timestamp::one_over_post_stream() {
            "OneOverPostStream".to_owned()
        } else if self == Timestamp::done() {
            "Done".to_owned()
        } else {
            decimal_of_signed(self.0)
        }
    }
}

/// Within the data range, going on and going back undo each other.
pub proof fn next_and_previous_undo(t: Timestamp)
    requires
        t.in_range(),
    ensures
        t.0 < i64::MAX - 3 ==> t.next().in_range() && t.next().previous() == t,
        t.0 > i64::MIN + 3 ==> t.previous().in_range() && t.previous().next() == t,
{
}

/// What follows a time stamp that a stream may carry is greater, and no other
/// time stamp of the data range lies between the two.
pub proof fn next_is_least_greater(t: Timestamp, u: Timestamp)
    requires
        t.in_stream(),
    ensures
        t.0 < t.next().0,
        t.in_range() && u.in_range() && t.0 < u.0 ==> t.next().0 <= u.0,
{
}

/// Moving a time stamp never leaves the `i64` range, and a move that is not
/// held back at an end is undone by the opposite move.
pub proof fn moves_saturate(t: Timestamp, by: i64)
    ensures
        t.0 + by > i64::MAX ==> moved(t, by as int).0 == i64::MAX,
        t.0 + by < i64::MIN ==> moved(t, by as int).0 == i64::MIN,
        i64::MIN <= t.0 + by <= i64::MAX ==> moved(moved(t, by as int), -by) == t,
{
}

} // verus!

//! The day as a ring of 48 half-hour bins.

use vstd::prelude::*;
use vstd::std_specs::ops::AddSpecImpl;
use vstd::std_specs::ops::SubSpecImpl;

verus! {

/// Number of time bins in a day.
pub const COUNT: usize = 48;

/// Length of one time bin in seconds.
pub const TIME_BIN_SECS: u64 = 1800;

/// The bin reached from bin `start` after `secs` seconds: every started half
/// hour advances the bin by one, and the day wraps around.
pub open spec fn bin_after(start: nat, secs: nat) -> nat {
    (start + bins_spanned(secs)) % 48
}

/// Number of bins that `secs` seconds span, a started bin counting as a whole.
pub open spec fn bins_spanned(secs: nat) -> nat {
    (secs + 1799) / 1800
}

/// The number of bins to move forward from bin `from` to reach bin `to`.
/// A bin is a full day away from itself, so the distance is never zero.
pub open spec fn forward_distance(to: nat, from: nat) -> nat {
    if to > from {
        (to - from) as nat
    } else {
        (to + 48 - from) as nat
    }
}

/// A half-hour slot of the day, numbered from 0 to 47.
#[derive(Clone, Copy, PartialEq, Eq, Hash, Debug, Structural)]
pub struct TimeBin(u8);

impl View for TimeBin {
    type V = nat;

    closed spec fn view(&self) -> nat {
        self.0 as nat
    }
}

impl TimeBin {
    #[verifier::type_invariant]
    spec fn in_day(self) -> bool {
        self.0 < 48
    }

    /// The bin numbered `value`, if there is one.
    pub fn new(value: u8) -> (bin: Option<TimeBin>)
        ensures
            value < 48 ==> bin.is_some() && bin.unwrap()@ == value,
            value >= 48 ==> bin.is_none(),
    {
        if value < 48 {
            Some(TimeBin(value))
        } else {
            None
        }
    }

    /// The number of the bin.
    pub fn value(&self) -> (v: usize)
        ensures
            v == self@,
            v < COUNT,
    {
        proof {
            use_type_invariant(self);
        }
        self.0 as usize
    }
}

impl AddSpecImpl<u64> for TimeBin {
    open spec fn obeys_add_spec() -> bool {
        true
    }

    open spec fn add_req(self, rhs: u64) -> bool {
        true
    }

    open spec fn add_spec(self, rhs: u64) -> TimeBin {
        TimeBin::at(bin_after(self@, rhs as nat))
    }
}

impl core::ops::Add<u64> for TimeBin {
    type Output = TimeBin;

    /// Advances the bin by a duration given in seconds.
    fn add(self, secs: u64) -> (bin: TimeBin) {
        proof {
            use_type_invariant(self);
        }
        let whole: u64 = secs / TIME_BIN_SECS;
        let started: u64 = if secs % TIME_BIN_SECS == 0 { 0 } else { 1 };
        let offset: u64 = (whole + started) % 48;
        let sum: u64 = (self.0 as u64 + offset) % 48;
        assert(sum == bin_after(self@, secs as nat)) by (nonlinear_arith)
            requires
                whole == secs / 1800,
                started == (if secs % 1800 == 0 { 0int } else { 1int }),
                offset == (whole + started) % 48,
                sum == (self.0 + offset) % 48,
                self@ == self.0,
        {
            assert(bins_spanned(secs as nat) == whole + started);
        }
        TimeBin(sum as u8)
    }
}

impl SubSpecImpl<TimeBin> for TimeBin {
    open spec fn obeys_sub_spec() -> bool {
        true
    }

    open spec fn sub_req(self, rhs: TimeBin) -> bool {
        true
    }

    open spec fn sub_spec(self, rhs: TimeBin) -> u8 {
        forward_distance(self@, rhs@) as u8
    }
}

impl core::ops::Sub<TimeBin> for TimeBin {
    type Output = u8;

    /// The number of bins from `other` forward to `self`, between 1 and 48.
    fn sub(self, other: TimeBin) -> (bins: u8) {
        proof {
            use_type_invariant(self);
            use_type_invariant(other);
        }
        if self.0 > other.0 {
            self.0 - other.0
        } else {
            self.0 + 48 - other.0
        }
    }
}

impl TimeBin {
    /// The bin with the given number, in specifications.
    pub closed spec fn at(value: nat) -> TimeBin {
        TimeBin(value as u8)
    }

    /// The bin numbered `value` is the only one whose view is `value`.
    pub proof fn lemma_at_view(value: nat)
        requires
            value < 48,
        ensures
            TimeBin::at(value)@ == value,
    {
    }

    /// Two bins with the same number are the same bin.
    pub proof fn lemma_view_injective(a: TimeBin, b: TimeBin)
        requires
            a@ == b@,
        ensures
            a == b,
    {
    }
}

/// The cyclic distance between two bins of the day lies between 1 and 48.
pub proof fn lemma_forward_distance_bounds(to: nat, from: nat)
    requires
        to < 48,
        from < 48,
    ensures
        1 <= forward_distance(to, from) <= 48,
{
}

/// All bins of the day in order.
pub fn time_bins() -> (bins: Vec<TimeBin>)
    ensures
        bins.len() == COUNT,
        forall|i: int| 0 <= i < 48 ==> (#[trigger] bins[i])@ == i,
{
    let mut bins: Vec<TimeBin> = Vec::new();
    let mut i: u8 = 0;
    while i < 48
        invariant
            i <= 48,
            bins.len() == i,
            forall|j: int| 0 <= j < i ==> (#[trigger] bins[j])@ == j,
        decreases 48 - i,
    {
        bins.push(TimeBin(i));
        i = i + 1;
    }
    bins
}

} // verus!

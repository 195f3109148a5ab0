//! Modular 32-bit simulation time.

use vstd::prelude::*;

verus! {

/// Absolute tick in modular 32-bit time.
#[derive(Copy, Clone, Eq, PartialEq, Hash, PartialOrd, Ord, Debug, Structural)]
pub struct Tick(pub u32);

/// Signed linear delta between two ticks, in `-(2^31) ..= 2^31 - 1`.
#[derive(Copy, Clone, Eq, PartialEq, Hash, Debug, Structural)]
pub struct TickDelta(pub i32);

/// The signed reading of a 32-bit pattern (two's complement).
pub open spec fn signed_of(bits: u32) -> int {
    if bits < 0x8000_0000u32 {
        bits as int
    } else {
        bits as int - 0x1_0000_0000
    }
}

/// The 32-bit pattern of a signed value (two's complement).
pub open spec fn bits_of(value: i32) -> int {
    if value >= 0 {
        value as int
    } else {
        value as int + 0x1_0000_0000
    }
}

/// `a - b` reduced modulo 2^32.
pub open spec fn wrapped_sub(a: u32, b: u32) -> int {
    if a >= b {
        a - b
    } else {
        a - b + 0x1_0000_0000
    }
}

/// `a + b` reduced modulo 2^32, for `0 <= b < 2^32`.
pub open spec fn wrapped_add(a: u32, b: int) -> int {
    if a + b < 0x1_0000_0000 {
        a + b
    } else {
        a + b - 0x1_0000_0000
    }
}

/// The bits of a `u32` read as an `i32` in two's complement.
fn reinterpret_signed(bits: u32) -> (r: i32)
    ensures
        r as int == signed_of(bits),
{
    let r: i32 = #[verifier::truncate] (bits as i32);
    assert(bits < 0x8000_0000u32 ==> (bits as i32) as int == bits as int) by (bit_vector);
    assert(bits >= 0x8000_0000u32 ==> (bits as i32) as int == bits as int - 0x1_0000_0000)
        by (bit_vector);
    r
}

/// The bits of an `i32` in two's complement read as a `u32`.
fn reinterpret_unsigned(value: i32) -> (r: u32)
    ensures
        r as int == bits_of(value),
{
    let r: u32 = #[verifier::truncate] (value as u32);
    assert(value >= 0 ==> (value as u32) as int == value as int) by (bit_vector);
    assert(value < 0 ==> (value as u32) as int == value as int + 0x1_0000_0000) by (bit_vector);
    r
}

impl Tick {
    /// Create a tick.
    pub fn new(value: u32) -> (t: Tick)
        ensures
            t.0 == value,
    {
        Tick(value)
    }

    /// Return the raw value.
    pub fn value(self) -> (v: u32)
        ensures
            v == self.0,
    {
        self.0
    }

    /// The wrap-aware signed difference `self - other`, as a mathematical integer.
    pub open spec fn spec_diff(self, other: Tick) -> int {
        signed_of(wrapped_sub(self.0, other.0) as u32)
    }

    /// Whether `self` happens after `other` in wrap-aware tick time.
    pub open spec fn spec_is_after(self, other: Tick) -> bool {
        self.spec_diff(other) > 0
    }

    /// Compute a wrap-aware signed difference: `self - other`.
    /// Positive means `self` is after `other`.
    pub fn diff(self, other: Tick) -> (d: TickDelta)
        ensures
            d.0 as int == self.spec_diff(other),
    {
        TickDelta(reinterpret_signed(self.0.wrapping_sub(other.0)))
    }

    /// Returns true if `self` happens after `other` in tick-time.
    pub fn is_after(self, other: Tick) -> (r: bool)
        ensures
            r == self.spec_is_after(other),
    {
        self.diff(other).0 > 0
    }

    /// Returns true if `self` happens before `other`.
    pub fn is_before(self, other: Tick) -> (r: bool)
        ensures
            r == (self.spec_diff(other) < 0),
    {
        self.diff(other).0 < 0
    }

    /// The tick `delta` steps after `self`, wrapping modulo 2^32.
    pub open spec fn spec_plus(self, delta: TickDelta) -> Tick {
        Tick(wrapped_add(self.0, bits_of(delta.0)) as u32)
    }

    /// The tick `delta` steps before `self`, wrapping modulo 2^32.
    pub open spec fn spec_minus(self, delta: TickDelta) -> Tick {
        Tick(wrapped_sub(self.0, bits_of(delta.0) as u32) as u32)
    }

    /// Add a tick delta with wrapping.
    pub fn add(self, delta: TickDelta) -> (t: Tick)
        ensures
            t == self.spec_plus(delta),
    {
        Tick(self.0.wrapping_add(reinterpret_unsigned(delta.0)))
    }

    /// Subtract a tick delta with wrapping.
    pub fn sub(self, delta: TickDelta) -> (t: Tick)
        ensures
            t == self.spec_minus(delta),
    {
        Tick(self.0.wrapping_sub(reinterpret_unsigned(delta.0)))
    }
}

impl TickDelta {
    /// Create a tick delta.
    pub fn new(v: i32) -> (d: TickDelta)
        ensures
            d.0 == v,
    {
        TickDelta(v)
    }

    /// The signed number of ticks.
    pub fn value(self) -> (v: i32)
        ensures
            v == self.0,
    {
        self.0
    }
}

/// Allow `tick + delta`.
impl core::ops::Add<TickDelta> for Tick {
    type Output = Tick;

    fn add(self, delta: TickDelta) -> (t: Tick) {
        Tick::add(self, delta)
    }
}

impl vstd::std_specs::ops::AddSpecImpl<TickDelta> for Tick {
    open spec fn obeys_add_spec() -> bool {
        true
    }

    open spec fn add_req(self, delta: TickDelta) -> bool {
        true
    }

    open spec fn add_spec(self, delta: TickDelta) -> Tick {
        self.spec_plus(delta)
    }
}

/// Allow `tick - delta`.
impl core::ops::Sub<TickDelta> for Tick {
    type Output = Tick;

    fn sub(self, delta: TickDelta) -> (t: Tick) {
        Tick::sub(self, delta)
    }
}

impl vstd::std_specs::ops::SubSpecImpl<TickDelta> for Tick {
    open spec fn obeys_sub_spec() -> bool {
        true
    }

    open spec fn sub_req(self, delta: TickDelta) -> bool {
        true
    }

    open spec fn sub_spec(self, delta: TickDelta) -> Tick {
        self.spec_minus(delta)
    }
}

/// Allow `new_tick - old_tick = delta`.
impl core::ops::Sub<Tick> for Tick {
    type Output = TickDelta;

    fn sub(self, other: Tick) -> (d: TickDelta) {
        self.diff(other)
    }
}

impl vstd::std_specs::ops::SubSpecImpl<Tick> for Tick {
    open spec fn obeys_sub_spec() -> bool {
        true
    }

    open spec fn sub_req(self, other: Tick) -> bool {
        true
    }

    open spec fn sub_spec(self, other: Tick) -> TickDelta {
        TickDelta(self.spec_diff(other) as i32)
    }
}

} // verus!

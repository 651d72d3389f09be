//! Utility structures not strongly connected to text editing
use vstd::prelude::*;

verus! {

/// A wrapper that guarantees that the underlying `usize` is greater than 0.
/// Creation from 0 and subtraction below 1 both yield 1.
#[derive(Clone, Copy, Debug, PartialEq, Eq, PartialOrd, Ord)]
pub struct PositiveUsize(usize);

impl View for PositiveUsize {
    type V = int;

    closed spec fn view(&self) -> int {
        self.0 as int
    }
}

/// `max(1, v)`: what a one-based index saturates to.
pub open spec fn at_least_one(v: int) -> int {
    if v >= 1 {
        v
    } else {
        1
    }
}

/// The digit for a number below ten.
pub open spec fn digit(d: nat) -> char {
    (d + 48) as u8 as char
}

/// The decimal digits of a number, without leading zeros.
pub open spec fn decimal_digits(n: nat) -> Seq<char>
    decreases n,
{
    if n < 10 {
        seq![digit(n)]
    } else {
        decimal_digits(n / 10).push(digit(n % 10))
    }
}

/// The `Display` of a `usize`, through `to_string`: its decimal digits.
#[verifier::external_body]
fn decimal(value: usize) -> (r: String)
    ensures
        r@ == decimal_digits(value as nat),
{
    value.to_string()
}

/// The value of a `PositiveUsize` is a number of the machine.
pub proof fn lemma_view_is_usize(p: PositiveUsize)
    ensures
        0 <= p@ <= usize::MAX,
{
}

impl Default for PositiveUsize {
    fn default() -> (r: Self)
        ensures
            r@ == 1,
    {
        PositiveUsize(1)
    }
}

impl core::ops::Sub for PositiveUsize {
    type Output = Self;

    fn sub(self, other: Self) -> (r: Self)
        ensures
            r@ == at_least_one(self@ - other@),
    {
        if self.0 <= other.0 {
            PositiveUsize(1)
        } else {
            PositiveUsize(self.0 - other.0)
        }
    }
}

impl vstd::std_specs::ops::SubSpecImpl for PositiveUsize {
    open spec fn obeys_sub_spec() -> bool {
        true
    }

    open spec fn sub_req(self, rhs: Self) -> bool {
        true
    }

    closed spec fn sub_spec(self, rhs: Self) -> Self {
        if self.0 <= rhs.0 {
            PositiveUsize(1)
        } else {
            PositiveUsize((self.0 - rhs.0) as usize)
        }
    }
}

impl core::ops::Add for PositiveUsize {
    type Output = Self;

    fn add(self, other: Self) -> (r: Self)
        ensures
            r@ == self@ + other@,
    {
        proof {
            use_type_invariant(&self);
        }
        PositiveUsize(self.0 + other.0)
    }
}

impl vstd::std_specs::ops::AddSpecImpl for PositiveUsize {
    open spec fn obeys_add_spec() -> bool {
        true
    }

    open spec fn add_req(self, rhs: Self) -> bool {
        self@ + rhs@ <= usize::MAX
    }

    closed spec fn add_spec(self, rhs: Self) -> Self {
        PositiveUsize((self.0 + rhs.0) as usize)
    }
}

impl From<usize> for PositiveUsize {
    fn from(value: usize) -> (r: Self)
        ensures
            r@ == at_least_one(value as int),
    {
        PositiveUsize(
            if value > 0 {
                value
            } else {
                1
            },
        )
    }
}

impl vstd::std_specs::convert::FromSpecImpl<usize> for PositiveUsize {
    open spec fn obeys_from_spec() -> bool {
        true
    }

    closed spec fn from_spec(value: usize) -> Self {
        PositiveUsize(
            if value > 0 {
                value
            } else {
                1
            },
        )
    }
}

impl From<PositiveUsize> for usize {
    fn from(value: PositiveUsize) -> (r: usize)
        ensures
            r == value@,
            r >= 1,
    {
        value.get()
    }
}

impl vstd::std_specs::convert::FromSpecImpl<PositiveUsize> for usize {
    open spec fn obeys_from_spec() -> bool {
        true
    }

    closed spec fn from_spec(value: PositiveUsize) -> usize {
        value.0
    }
}

impl PositiveUsize {
    #[verifier::type_invariant]
    spec fn positive(&self) -> bool {
        self.0 >= 1
    }

    /// Subtracts `value`, stopping at 1.
    pub fn sub_assign(&mut self, value: usize)
        ensures
            final(self)@ == at_least_one(old(self)@ - value),
    {
        if self.0 > value {
            self.0 -= value;
        } else {
            self.0 = 1;
        }
    }

    /// Adds `value`.
    pub fn add_assign(&mut self, value: usize)
        requires
            old(self)@ + value <= usize::MAX,
        ensures
            final(self)@ == old(self)@ + value,
    {
        proof {
            use_type_invariant(&*self);
        }
        self.0 += value
    }

    /// The value in decimal digits.
    pub fn to_string(&self) -> (r: String)
        ensures
            r@ == decimal_digits(self@ as nat),
    {
        decimal(self.0)
    }

    /// The underlying value.
    pub fn get(&self) -> (r: usize)
        ensures
            r == self@,
            r >= 1,
    {
        proof {
            use_type_invariant(self);
        }
        self.0
    }
}

} // verus!

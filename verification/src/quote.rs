use vstd::prelude::*;
use vstd::string::StringExecFns;

verus! {

/// The two sides of an order book.
#[derive(Clone, Copy, Debug, PartialEq, Eq, Structural)]
pub enum Side {
    BID,
    ASK,
}

/// The name under which a side is printed.
pub open spec fn side_name(side: Side) -> Seq<char> {
    match side {
        Side::BID => "BID"@,
        Side::ASK => "ASK"@,
    }
}

impl Side {
    /// The name under which the side is printed: `BID` or `ASK`.
    pub fn name(&self) -> (name: String)
        ensures
            name@ == side_name(*self),
    {
        match self {
            Side::BID => String::from_str("BID"),
            Side::ASK => String::from_str("ASK"),
        }
    }
}

/// One resting order: its id, and its price and size as they were quoted.
///
/// The price and the size are carried as the bit patterns of the quoted
/// IEEE-754 doubles (`f64::to_bits`); the book orders and finds quotes by
/// their integer price key and by `id` alone. Two quotes are `==` when their
/// ids are equal and their prices and sizes compare equal as doubles.
#[derive(Clone, Copy, Debug)]
pub struct L3Quote {
    pub id: i64,
    pub price_bits: u64,
    pub size_bits: u64,
}

/// Whether the bit pattern holds a NaN: all exponent bits set and a
/// non-zero fraction.
pub open spec fn bits_are_nan(x: u64) -> bool {
    x & 0x7FF0_0000_0000_0000 == 0x7FF0_0000_0000_0000 && x & 0x000F_FFFF_FFFF_FFFF != 0
}

/// Whether two bit patterns hold doubles that compare equal: neither is a
/// NaN, and they are the same pattern or both are zeros (`0.0 == -0.0`).
pub open spec fn bits_eq_as_doubles(x: u64, y: u64) -> bool {
    !bits_are_nan(x) && !bits_are_nan(y) && (x == y || (x & 0x7FFF_FFFF_FFFF_FFFF == 0 && y & 0x7FFF_FFFF_FFFF_FFFF == 0))
}

/// Compares two bit patterns as doubles (see `bits_eq_as_doubles`).
pub fn doubles_equal(x: u64, y: u64) -> (r: bool)
    ensures
        r == bits_eq_as_doubles(x, y),
{
    let x_nan = x & 0x7FF0_0000_0000_0000 == 0x7FF0_0000_0000_0000 && x & 0x000F_FFFF_FFFF_FFFF != 0;
    let y_nan = y & 0x7FF0_0000_0000_0000 == 0x7FF0_0000_0000_0000 && y & 0x000F_FFFF_FFFF_FFFF != 0;
    !x_nan && !y_nan && (x == y || (x & 0x7FFF_FFFF_FFFF_FFFF == 0 && y & 0x7FFF_FFFF_FFFF_FFFF == 0))
}

impl PartialEq for L3Quote {
    fn eq(&self, other: &Self) -> (r: bool) {
        self.id == other.id && doubles_equal(self.price_bits, other.price_bits)
            && doubles_equal(self.size_bits, other.size_bits)
    }
}

impl vstd::std_specs::cmp::PartialEqSpecImpl for L3Quote {
    open spec fn obeys_eq_spec() -> bool {
        true
    }

    open spec fn eq_spec(&self, other: &Self) -> bool {
        self.id == other.id && bits_eq_as_doubles(self.price_bits, other.price_bits)
            && bits_eq_as_doubles(self.size_bits, other.size_bits)
    }
}

/// A quote together with the key of the price level it belongs to.
#[derive(Clone, Copy, Debug, PartialEq)]
pub struct PricedQuote {
    pub price_key: i64,
    pub quote: L3Quote,
}

} // verus!

use vstd::prelude::*;

verus! {

/// A projection from a value to the key that orders it.
///
/// `order_key` is the projection as a function of the value; `ord_by`
/// computes it, and an implementation must make the two agree. Unsigned
/// integers are ordered by themselves.
pub trait OrdBy {
    spec fn order_key(&self) -> u64;

    fn ord_by(&self) -> (r: u64)
        ensures
            r == self.order_key(),
    ;
}

impl OrdBy for u64 {
    open spec fn order_key(&self) -> u64 {
        *self
    }

    fn ord_by(&self) -> (r: u64) {
        *self
    }
}

impl OrdBy for u32 {
    open spec fn order_key(&self) -> u64 {
        *self as u64
    }

    fn ord_by(&self) -> (r: u64) {
        *self as u64
    }
}

impl OrdBy for u16 {
    open spec fn order_key(&self) -> u64 {
        *self as u64
    }

    fn ord_by(&self) -> (r: u64) {
        *self as u64
    }
}

impl OrdBy for u8 {
    open spec fn order_key(&self) -> u64 {
        *self as u64
    }

    fn ord_by(&self) -> (r: u64) {
        *self as u64
    }
}

impl OrdBy for usize {
    open spec fn order_key(&self) -> u64 {
        *self as u64
    }

    fn ord_by(&self) -> (r: u64) {
        *self as u64
    }
}

} // verus!

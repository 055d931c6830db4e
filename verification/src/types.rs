use vstd::prelude::*;

verus! {

/// A limit price in ticks; always strictly positive.
#[derive(Debug, Clone, Copy, PartialEq, Eq, Structural, PartialOrd, Ord, Hash)]
pub struct Price(pub(crate) i64);

impl Price {
    /// The tick value of this price.
    pub closed spec fn value(self) -> i64 {
        self.0
    }

    /// The price whose tick value is `v`.
    pub closed spec fn from_value(v: i64) -> Price {
        Price(v)
    }

    pub broadcast proof fn lemma_from_value(v: i64)
        ensures
            #[trigger] Price::from_value(v).value() == v,
    {
    }

    pub broadcast proof fn lemma_value_injective(p: Price, q: Price)
        ensures
            #[trigger] p.value() == #[trigger] q.value() ==> p == q,
    {
    }

    /// Every price made by `Price::new` is positive.
    pub open spec fn wf(self) -> bool {
        self.value() > 0
    }

    pub fn new(value: i64) -> (r: Option<Self>)
        ensures
            value > 0 ==> r == Some(Price::from_value(value)),
            value <= 0 ==> r is None,
    {
        if value > 0 {
            Some(Price(value))
        } else {
            None
        }
    }

    pub fn raw(self) -> (r: i64)
        ensures
            r == self.value(),
    {
        self.0
    }
}

/// An order quantity; always strictly positive.
#[derive(Debug, Clone, Copy, PartialEq, Eq, Structural, PartialOrd, Ord, Hash)]
pub struct Qty(pub(crate) i64);

impl Qty {
    /// The number of units of this quantity.
    pub closed spec fn value(self) -> i64 {
        self.0
    }

    /// The quantity of `v` units.
    pub closed spec fn from_value(v: i64) -> Qty {
        Qty(v)
    }

    pub broadcast proof fn lemma_from_value(v: i64)
        ensures
            #[trigger] Qty::from_value(v).value() == v,
    {
    }

    pub broadcast proof fn lemma_value_injective(p: Qty, q: Qty)
        ensures
            #[trigger] p.value() == #[trigger] q.value() ==> p == q,
    {
    }

    /// Every quantity made by `Qty::new` is positive.
    pub open spec fn wf(self) -> bool {
        self.value() > 0
    }

    pub fn new(value: i64) -> (r: Option<Self>)
        ensures
            value > 0 ==> r == Some(Qty::from_value(value)),
            value <= 0 ==> r is None,
    {
        if value > 0 {
            Some(Qty(value))
        } else {
            None
        }
    }

    pub fn raw(self) -> (r: i64)
        ensures
            r == self.value(),
    {
        self.0
    }
}

#[derive(Debug, Clone, Copy, PartialEq, Eq, Structural, Hash)]
pub struct OrderId(pub u64);

#[derive(Debug, Clone, Copy, PartialEq, Eq, Structural, Hash)]
pub struct SubaccountId(pub u64);

#[derive(Debug, Clone, Copy, PartialEq, Eq, Structural)]
pub enum Side {
    Bid,
    Ask,
}

#[derive(Debug, Clone, Copy, PartialEq, Eq, Structural)]
pub enum SelfTradeMode {
    ExpireTaker,
    ExpireMaker,
    ExpireBoth,
}

pub broadcast group group_types {
    Price::lemma_from_value,
    Price::lemma_value_injective,
    Qty::lemma_from_value,
    Qty::lemma_value_injective,
}

} // verus!

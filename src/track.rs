use vstd::prelude::*;

verus! {

/// One rung of a ladder: the effect value and the price of the next rung
/// (absent on the last rung).
#[derive(Clone, Copy, Debug)]
pub struct Tier {
    pub value: u64,
    pub upgrade_cost: Option<u64>,
}

/// The mathematical picture of a track: its ladder and the current rung.
pub struct TrackModel {
    pub tiers: Seq<Tier>,
    pub index: nat,
}

/// A ladder is valid when it is non-empty and exactly its last rung has no price.
pub open spec fn valid_ladder(tiers: Seq<Tier>) -> bool {
    &&& tiers.len() > 0
    &&& forall|i: int|
        0 <= i < tiers.len() ==> (#[trigger] tiers[i].upgrade_cost is None <==> i == tiers.len() - 1)
}

impl TrackModel {
    pub open spec fn wf(self) -> bool {
        valid_ladder(self.tiers) && self.index < self.tiers.len()
    }

    pub open spec fn value(self) -> u64 {
        self.tiers[self.index as int].value
    }

    pub open spec fn cost(self) -> Option<u64> {
        self.tiers[self.index as int].upgrade_cost
    }

    pub open spec fn is_final(self) -> bool {
        self.index == self.tiers.len() - 1
    }

    pub open spec fn advanced(self) -> TrackModel {
        TrackModel { tiers: self.tiers, index: self.index + 1 }
    }

    /// The track after offering it `cash`: one rung up when the price is
    /// affordable, else unchanged.
    pub open spec fn after_offer(self, cash: int) -> TrackModel {
        if self.cost() is Some && cash >= self.cost()->0 {
            self.advanced()
        } else {
            self
        }
    }

    /// The cash an offer of `cash` takes: the price when the upgrade happens, else nothing.
    pub open spec fn spent(self, cash: int) -> int {
        if self.charge(cash) is Some {
            self.charge(cash)->0 as int
        } else {
            0
        }
    }

    /// What an offer of `cash` charges: the price when the upgrade happens.
    pub open spec fn charge(self, cash: int) -> Option<u64> {
        if self.cost() is Some && cash >= self.cost()->0 {
            self.cost()
        } else {
            None
        }
    }
}

/// An ordered ladder of tiers with a current position that only moves up.
#[derive(Debug)]
pub struct UpgradeTrack {
    tiers: Vec<Tier>,
    current_index: usize,
}

pub open spec fn tier(value: u64, cost: Option<u64>) -> Tier {
    Tier { value, upgrade_cost: cost }
}

/// Coin ladder, value in cents per head: penny, nickel, dime, quarter, dollar.
pub open spec fn coin_tiers() -> Seq<Tier> {
    seq![
        tier(1, Some(25)),
        tier(5, Some(100)),
        tier(10, Some(625)),
        tier(25, Some(10000)),
        tier(100, None),
    ]
}

/// Heads-chance ladder, value in percent.
pub open spec fn chance_tiers() -> Seq<Tier> {
    seq![
        tier(20, Some(1)),
        tier(25, Some(10)),
        tier(30, Some(100)),
        tier(35, Some(1000)),
        tier(40, Some(10000)),
        tier(45, Some(100000)),
        tier(50, Some(1000000)),
        tier(55, Some(10000000)),
        tier(60, None),
    ]
}

/// Combo-base ladder, value in tenths: 1.0x up to 3.5x.
pub open spec fn combo_tiers() -> Seq<Tier> {
    seq![
        tier(10, Some(100)),
        tier(15, Some(1000)),
        tier(20, Some(10000)),
        tier(25, Some(100000)),
        tier(30, Some(1000000)),
        tier(35, None),
    ]
}

impl View for UpgradeTrack {
    type V = TrackModel;

    closed spec fn view(&self) -> TrackModel {
        TrackModel { tiers: self.tiers@, index: self.current_index as nat }
    }
}

impl UpgradeTrack {
    /// Every track is well formed.
    #[verifier::type_invariant]
    pub open spec fn inv(&self) -> bool {
        self@.wf()
    }

    /// A track on `tiers`, at its first rung; `None` when the ladder is not valid.
    pub fn new(tiers: Vec<Tier>) -> (r: Option<UpgradeTrack>)
        ensures
            r is Some <==> valid_ladder(tiers@),
            r is Some ==> r->0@ == (TrackModel { tiers: tiers@, index: 0 }),
    {
        let n = tiers.len();
        if n == 0 {
            return None;
        }
        let mut i: usize = 0;
        while i < n
            invariant
                n == tiers@.len(),
                0 < n,
                i <= n,
                forall|j: int|
                    0 <= j < i ==> (#[trigger] tiers@[j].upgrade_cost is None <==> j == n - 1),
            decreases n - i,
        {
            let last = i + 1 == n;
            if tiers[i].upgrade_cost.is_none() != last {
                assert(!(tiers@[i as int].upgrade_cost is None <==> i == n - 1));
                return None;
            }
            i = i + 1;
        }
        Some(UpgradeTrack { tiers, current_index: 0 })
    }

    /// The coin track, from a penny to a dollar.
    pub fn coin() -> (r: UpgradeTrack)
        ensures
            r@ == (TrackModel { tiers: coin_tiers(), index: 0 }),
            r@.wf(),
    {
        let tiers = vec![
            Tier { value: 1, upgrade_cost: Some(25) },
            Tier { value: 5, upgrade_cost: Some(100) },
            Tier { value: 10, upgrade_cost: Some(625) },
            Tier { value: 25, upgrade_cost: Some(10000) },
            Tier { value: 100, upgrade_cost: None },
        ];
        assert(tiers@ =~= coin_tiers());
        UpgradeTrack { tiers, current_index: 0 }
    }

    /// The heads-chance track, from 20% to 60%.
    pub fn chance() -> (r: UpgradeTrack)
        ensures
            r@ == (TrackModel { tiers: chance_tiers(), index: 0 }),
            r@.wf(),
    {
        let tiers = vec![
            Tier { value: 20, upgrade_cost: Some(1) },
            Tier { value: 25, upgrade_cost: Some(10) },
            Tier { value: 30, upgrade_cost: Some(100) },
            Tier { value: 35, upgrade_cost: Some(1000) },
            Tier { value: 40, upgrade_cost: Some(10000) },
            Tier { value: 45, upgrade_cost: Some(100000) },
            Tier { value: 50, upgrade_cost: Some(1000000) },
            Tier { value: 55, upgrade_cost: Some(10000000) },
            Tier { value: 60, upgrade_cost: None },
        ];
        assert(tiers@ =~= chance_tiers());
        UpgradeTrack { tiers, current_index: 0 }
    }

    /// The combo-base track, from 1.0x to 3.5x (in tenths).
    pub fn combo() -> (r: UpgradeTrack)
        ensures
            r@ == (TrackModel { tiers: combo_tiers(), index: 0 }),
            r@.wf(),
    {
        let tiers = vec![
            Tier { value: 10, upgrade_cost: Some(100) },
            Tier { value: 15, upgrade_cost: Some(1000) },
            Tier { value: 20, upgrade_cost: Some(10000) },
            Tier { value: 25, upgrade_cost: Some(100000) },
            Tier { value: 30, upgrade_cost: Some(1000000) },
            Tier { value: 35, upgrade_cost: None },
        ];
        assert(tiers@ =~= combo_tiers());
        UpgradeTrack { tiers, current_index: 0 }
    }

    pub fn current_index(&self) -> (r: usize)
        ensures
            r == self@.index,
    {
        self.current_index
    }

    pub fn current_value(&self) -> (r: u64)
        ensures
            r == self@.value(),
    {
        proof {
            use_type_invariant(self);
        }
        self.tiers[self.current_index].value
    }

    /// The price of the next rung; `None` on the last rung.
    pub fn upgrade_cost(&self) -> (r: Option<u64>)
        ensures
            r == self@.cost(),
            r is None <==> self@.is_final(),
    {
        proof {
            use_type_invariant(self);
        }
        self.tiers[self.current_index].upgrade_cost
    }

    /// Moves one rung up; there must be a next rung.
    pub fn upgrade(&mut self)
        requires
            !old(self)@.is_final(),
        ensures
            final(self)@ == old(self)@.advanced(),
            final(self)@.wf(),
    {
        proof {
            use_type_invariant(&*self);
        }
        let n = self.tiers.len();
        assert(self.current_index + 1 < n);
        self.current_index = self.current_index + 1;
    }

    /// Moves one rung up when `available_cash` covers the price, and returns
    /// the price charged; otherwise leaves the track as it is.
    pub fn try_upgrade(&mut self, available_cash: u64) -> (r: Option<u64>)
        ensures
            final(self)@ == old(self)@.after_offer(available_cash as int),
            r == old(self)@.charge(available_cash as int),
            final(self)@.wf(),
    {
        proof {
            use_type_invariant(&*self);
        }
        match self.upgrade_cost() {
            Some(cost) => {
                if available_cash >= cost {
                    self.upgrade();
                    Some(cost)
                } else {
                    None
                }
            },
            None => None,
        }
    }
}

/// An offer never moves a track down, moves it at most one rung, and never
/// succeeds when the cash is short of the price.
pub proof fn lemma_offer_monotone(t: TrackModel, cash: int)
    requires
        t.wf(),
    ensures
        t.after_offer(cash).wf(),
        t.index <= t.after_offer(cash).index <= t.index + 1,
        t.after_offer(cash).tiers == t.tiers,
        t.cost() is Some && cash < t.cost()->0 ==> t.after_offer(cash) == t && t.charge(cash) is None,
        t.charge(cash) is Some ==> cash >= t.charge(cash)->0,
{
}

/// On the last rung there is no price, and an offer of any cash changes nothing.
pub proof fn lemma_final_tier_inert(t: TrackModel, cash: int)
    requires
        t.wf(),
        t.is_final(),
    ensures
        t.cost() is None,
        t.after_offer(cash) == t,
        t.charge(cash) is None,
{
}

} // verus!

use rand::Rng;
use vstd::prelude::*;

use crate::reward::{combo_mult, pow, reward_spec, MAX_STREAK};
use crate::track::{chance_tiers, coin_tiers, combo_tiers, TrackModel, UpgradeTrack};

verus! {

/// A flip's outcome.
#[derive(Clone, Copy, Debug, PartialEq, Eq, Structural)]
pub enum Flip {
    H,
    T,
}

/// A draw `d` below this bound stands for the real number `d / DRAW_SCALE` in `[0, 1)`.
pub const DRAW_SCALE: u64 = 9007199254740992;

/// Slots of the histogram: streak lengths 0 through 10.
pub const HISTO_LEN: usize = 11;

/// A draw gives heads when its real number is at most the heads chance.
pub open spec fn is_heads(draw: u64, heads_percent: u64) -> bool {
    draw as int * 100 <= heads_percent as int * DRAW_SCALE as int
}

/// The outcome of `draw` under a heads chance of `heads_percent` percent.
pub fn flip_outcome(draw: u64, heads_percent: u64) -> (r: Flip)
    ensures
        r == Flip::H <==> is_heads(draw, heads_percent),
{
    assert((heads_percent as u128) * (DRAW_SCALE as u128) <= u64::MAX as int * DRAW_SCALE) by (nonlinear_arith)
        requires heads_percent <= u64::MAX;
    if (draw as u128) * 100 <= (heads_percent as u128) * (DRAW_SCALE as u128) {
        Flip::H
    } else {
        Flip::T
    }
}

/// Relies on rand::rng() and Rng::random_range: a value of the half-open range
/// `0..DRAW_SCALE`, which is not empty.
#[verifier::external_body]
fn random_draw() -> (r: u64)
    ensures
        r < DRAW_SCALE,
{
    rand::rng().random_range(0..DRAW_SCALE)
}

/// Why a run had to stop before its streak of ten.
#[derive(Clone, Copy, Debug, PartialEq, Eq, Structural)]
pub enum SimError {
    /// The flip counter would pass `usize::MAX`.
    FlipLimit,
    /// A reward or the cash after it would not fit in a `u64` of cents.
    CashOverflow,
}

/// The mathematical picture of a game state.
pub struct StateModel {
    pub coin: TrackModel,
    pub chance: TrackModel,
    pub combo: TrackModel,
    pub cash: int,
    pub streak: int,
}

impl StateModel {
    pub open spec fn wf(self) -> bool {
        &&& self.coin.wf()
        &&& self.chance.wf()
        &&& self.combo.wf()
        &&& self.cash >= 0
        &&& 0 <= self.streak <= MAX_STREAK
    }

    /// The state after offering the cash to the coin, chance and combo tracks, in that order.
    pub open spec fn upgraded(self) -> StateModel {
        let c0 = self.cash;
        let c1 = c0 - self.coin.spent(c0);
        let c2 = c1 - self.chance.spent(c1);
        let c3 = c2 - self.combo.spent(c2);
        StateModel {
            coin: self.coin.after_offer(c0),
            chance: self.chance.after_offer(c1),
            combo: self.combo.after_offer(c2),
            cash: c3,
            streak: self.streak,
        }
    }

    /// What the next head pays.
    pub open spec fn next_reward(self) -> int {
        reward_spec(self.coin.value() as nat, self.combo.value() as nat, (self.streak + 1) as nat) as int
    }

    /// Whether the next head's reward and the cash after it stay within a `u64`.
    pub open spec fn reward_fits(self) -> bool {
        &&& pow(self.combo.value() as nat, self.streak as nat) <= u64::MAX
        &&& self.cash + self.next_reward() <= u64::MAX
    }

    /// The state right after a flip, before a finished streak is reset.
    pub open spec fn flipped(self, heads: bool) -> StateModel {
        if heads {
            StateModel { streak: self.streak + 1, cash: self.cash + self.next_reward(), ..self }
        } else {
            self
        }
    }

    /// The state after a flip: a streak ended by tails starts over at zero.
    pub open spec fn after_flip(self, heads: bool) -> StateModel {
        let f = self.flipped(heads);
        if !heads {
            StateModel { streak: 0, ..f }
        } else {
            f
        }
    }
}

/// A streak ends on tails, or when it reaches ten.
pub open spec fn ends_streak(s: StateModel, heads: bool) -> bool {
    !heads || s.flipped(heads).streak == MAX_STREAK
}

/// The histogram after a flip: the ended streak's length is counted once.
pub open spec fn recorded(histo: Seq<usize>, s: StateModel, heads: bool) -> Seq<usize> {
    if ends_streak(s, heads) {
        let k = s.flipped(heads).streak;
        histo.update(k, (histo[k] + 1) as usize)
    } else {
        histo
    }
}

/// Flips a streak of length `i` accounts for: the ended streaks of length `i`
/// took `i` heads and a tails, the terminal one ten heads.
pub open spec fn weight(i: int) -> int {
    if i < MAX_STREAK {
        i + 1
    } else {
        MAX_STREAK as int
    }
}

/// The flips that the first `n` slots of the histogram account for.
pub open spec fn accounted(histo: Seq<usize>, n: nat) -> int
    decreases n,
{
    if n == 0 {
        0
    } else {
        accounted(histo, (n - 1) as nat) + weight(n - 1) * histo[n - 1]
    }
}

pub proof fn lemma_accounted_increment(histo: Seq<usize>, n: nat, j: int)
    requires
        0 <= j < histo.len(),
        n <= histo.len(),
        histo[j] < usize::MAX,
    ensures
        accounted(histo.update(j, (histo[j] + 1) as usize), n) == accounted(histo, n) + (if j < n {
            weight(j)
        } else {
            0
        }),
    decreases n,
{
    if n > 0 {
        lemma_accounted_increment(histo, (n - 1) as nat, j);
        let w = weight(j);
        let h = histo[j] as int;
        assert(w * (h + 1) == w * h + w) by (nonlinear_arith);
    }
}

pub proof fn lemma_accounted_bounds(histo: Seq<usize>, n: nat, j: int)
    requires
        0 <= j < n <= histo.len(),
    ensures
        histo[j] <= accounted(histo, n),
    decreases n,
{
    lemma_accounted_nonneg(histo, (n - 1) as nat);
    if j < n - 1 {
        lemma_accounted_bounds(histo, (n - 1) as nat, j);
    }
    let w = weight(n - 1);
    let h = histo[n - 1] as int;
    assert(w * h >= 0 && (w * h >= h)) by (nonlinear_arith)
        requires w >= 1, h >= 0;
}

proof fn lemma_terminal_flips(histo: Seq<usize>)
    requires
        histo.len() == HISTO_LEN,
        histo[MAX_STREAK as int] == 1,
    ensures
        accounted(histo, HISTO_LEN as nat) >= MAX_STREAK,
{
    lemma_accounted_nonneg(histo, MAX_STREAK as nat);
    assert(accounted(histo, HISTO_LEN as nat) == accounted(histo, MAX_STREAK as nat) + weight(MAX_STREAK as int)
        * histo[MAX_STREAK as int]);
}

pub proof fn lemma_accounted_nonneg(histo: Seq<usize>, n: nat)
    requires
        n <= histo.len(),
    ensures
        accounted(histo, n) >= 0,
    decreases n,
{
    if n > 0 {
        lemma_accounted_nonneg(histo, (n - 1) as nat);
        let w = weight(n - 1);
        let h = histo[n - 1] as int;
        assert(w * h >= 0) by (nonlinear_arith)
            requires w >= 1, h >= 0;
    }
}

/// The picture of a run in progress: the game state, the flips so far, and the
/// histogram of ended streaks.
pub struct RunModel {
    pub state: StateModel,
    pub flips: int,
    pub histo: Seq<usize>,
}

/// One round on `draw`: upgrades, then a flip with the upgraded chance.
pub open spec fn round(m: RunModel, draw: u64) -> RunModel {
    let u = m.state.upgraded();
    let heads = is_heads(draw, u.chance.value());
    RunModel { state: u.after_flip(heads), flips: m.flips + 1, histo: recorded(m.histo, u, heads) }
}

/// The run after a round on each of `draws` in turn.
pub open spec fn played(m: RunModel, draws: Seq<u64>) -> RunModel
    decreases draws.len(),
{
    if draws.len() == 0 {
        m
    } else {
        round(played(m, draws.drop_last()), draws.last())
    }
}

/// What a run has counted: its flips, and how often each streak length ended.
#[derive(Debug)]
pub struct SimResults {
    pub flips: usize,
    pub histo: Vec<usize>,
}

impl SimResults {
    /// A run that has not flipped yet.
    pub fn new() -> (r: SimResults)
        ensures
            r.flips == 0,
            r.histo@ == Seq::new(HISTO_LEN as nat, |i: int| 0usize),
            accounted(r.histo@, HISTO_LEN as nat) == 0,
    {
        let histo = vec![0usize; HISTO_LEN];
        assert(histo@ =~= Seq::new(HISTO_LEN as nat, |i: int| 0usize));
        proof {
            lemma_accounted_zero(histo@, HISTO_LEN as nat);
        }
        SimResults { flips: 0, histo }
    }

    pub open spec fn model(&self, s: StateModel) -> RunModel {
        RunModel { state: s, flips: self.flips as int, histo: self.histo@ }
    }

    /// Every flip counted is accounted for by the histogram and the streak in
    /// progress (a streak of ten is already in the histogram).
    pub open spec fn consistent(&self, s: StateModel) -> bool {
        &&& self.histo@.len() == HISTO_LEN
        &&& self.flips == accounted(self.histo@, HISTO_LEN as nat) + (if s.streak < MAX_STREAK {
            s.streak
        } else {
            0
        })
    }
}

/// The game: cash in cents, the three tracks, and the streak in progress.
#[derive(Debug)]
pub struct State {
    heads_chance: UpgradeTrack,
    coin: UpgradeTrack,
    heads_combo_mult: UpgradeTrack,
    cash: u64,
    streak: u64,
}

impl View for State {
    type V = StateModel;

    closed spec fn view(&self) -> StateModel {
        StateModel {
            coin: self.coin@,
            chance: self.heads_chance@,
            combo: self.heads_combo_mult@,
            cash: self.cash as int,
            streak: self.streak as int,
        }
    }
}

impl State {
    /// A fresh game: no cash, no streak, every track on its first rung.
    pub fn new() -> (r: State)
        ensures
            r@ == (StateModel {
                coin: TrackModel { tiers: coin_tiers(), index: 0 },
                chance: TrackModel { tiers: chance_tiers(), index: 0 },
                combo: TrackModel { tiers: combo_tiers(), index: 0 },
                cash: 0,
                streak: 0,
            }),
            r@.wf(),
    {
        State {
            heads_chance: UpgradeTrack::chance(),
            coin: UpgradeTrack::coin(),
            heads_combo_mult: UpgradeTrack::combo(),
            cash: 0,
            streak: 0,
        }
    }

    /// A fresh game on the given tracks, with no cash and no streak.
    pub fn with_tracks(coin: UpgradeTrack, heads_chance: UpgradeTrack, heads_combo_mult: UpgradeTrack) -> (r: State)
        ensures
            r@ == (StateModel { coin: coin@, chance: heads_chance@, combo: heads_combo_mult@, cash: 0, streak: 0 }),
            r@.wf(),
    {
        proof {
            use_type_invariant(&coin);
            use_type_invariant(&heads_chance);
            use_type_invariant(&heads_combo_mult);
        }
        State { heads_chance, coin, heads_combo_mult, cash: 0, streak: 0 }
    }

    /// The cash, in cents.
    pub fn cash(&self) -> (r: u64)
        ensures
            r == self@.cash,
    {
        self.cash
    }

    pub fn streak(&self) -> (r: u64)
        ensures
            r == self@.streak,
    {
        self.streak
    }

    pub fn coin(&self) -> (r: &UpgradeTrack)
        ensures
            r@ == self@.coin,
    {
        &self.coin
    }

    pub fn heads_chance(&self) -> (r: &UpgradeTrack)
        ensures
            r@ == self@.chance,
    {
        &self.heads_chance
    }

    pub fn heads_combo_mult(&self) -> (r: &UpgradeTrack)
        ensures
            r@ == self@.combo,
    {
        &self.heads_combo_mult
    }

    /// Offers the cash to the coin, chance and combo tracks in that order;
    /// each upgrade that happens is paid at once, before the next offer.
    pub fn try_upgrade(&mut self)
        requires
            old(self)@.wf(),
        ensures
            final(self)@ == old(self)@.upgraded(),
            final(self)@.wf(),
    {
        if let Some(cost) = self.coin.try_upgrade(self.cash) {
            self.cash = self.cash - cost;
        }
        if let Some(cost) = self.heads_chance.try_upgrade(self.cash) {
            self.cash = self.cash - cost;
        }
        if let Some(cost) = self.heads_combo_mult.try_upgrade(self.cash) {
            self.cash = self.cash - cost;
        }
    }

    /// One round of the game on the uniform draw `draw`: offer upgrades, flip
    /// with the chance that results, pay a head, and count a streak that ends.
    /// Returns whether the run has reached its streak of ten.
    pub fn step(&mut self, results: &mut SimResults, draw: u64) -> (r: Result<bool, SimError>)
        requires
            old(self)@.wf(),
            old(self)@.streak < MAX_STREAK,
            old(results).consistent(old(self)@),
            old(results).histo@[MAX_STREAK as int] == 0,
        ensures
            ({
                let u = old(self)@.upgraded();
                let heads = is_heads(draw, u.chance.value());
                &&& u.wf()
                &&& r is Ok <==> old(results).flips < usize::MAX && (!heads || u.reward_fits())
                &&& r == Err::<bool, SimError>(SimError::FlipLimit) <==> old(results).flips == usize::MAX
                &&& r == Err::<bool, SimError>(SimError::CashOverflow) <==> (old(results).flips < usize::MAX
                    && heads && !u.reward_fits())
                &&& r is Err ==> final(self)@ == u && *final(results) == *old(results)
                &&& r is Ok ==> {
                    &&& final(self)@ == u.after_flip(heads)
                    &&& final(results).flips == old(results).flips + 1
                    &&& final(results).histo@ == recorded(old(results).histo@, u, heads)
                    &&& r->Ok_0 == (u.flipped(heads).streak == MAX_STREAK)
                }
            }),
            final(self)@.wf(),
            r is Ok ==> final(results).consistent(final(self)@),
            r is Ok ==> final(results).model(final(self)@) == round(old(results).model(old(self)@), draw),
            r == Ok::<bool, SimError>(false) ==> final(self)@.streak < MAX_STREAK
                && final(results).histo@[MAX_STREAK as int] == 0,
    {
        self.try_upgrade();
        if results.flips == usize::MAX {
            return Err(SimError::FlipLimit);
        }
        let chance = self.heads_chance.current_value();
        let next = flip_outcome(draw, chance);
        if next == Flip::H {
            let streak = self.streak + 1;
            let mult = match combo_mult(self.heads_combo_mult.current_value(), streak) {
                Some(m) => m,
                None => {
                    return Err(SimError::CashOverflow);
                },
            };
            let gain = match self.coin.current_value().checked_mul(mult) {
                Some(g) => g,
                None => {
                    return Err(SimError::CashOverflow);
                },
            };
            let cash = match self.cash.checked_add(gain) {
                Some(c) => c,
                None => {
                    return Err(SimError::CashOverflow);
                },
            };
            self.streak = streak;
            self.cash = cash;
        }
        results.flips = results.flips + 1;
        if next == Flip::T || self.streak == MAX_STREAK {
            let k = self.streak as usize;
            let ghost h0 = results.histo@;
            proof {
                lemma_accounted_bounds(h0, HISTO_LEN as nat, k as int);
                lemma_accounted_increment(h0, HISTO_LEN as nat, k as int);
            }
            let count = results.histo[k] + 1;
            results.histo.set(k, count);
            assert(results.histo@ == h0.update(k as int, count));
            if self.streak == MAX_STREAK {
                return Ok(true);
            }
            self.streak = 0;
        }
        Ok(false)
    }

    /// Plays rounds on uniform random draws until a streak of ten, and returns
    /// what the run counted. Tracks only ever move up their own ladders.
    /// Whatever the draws, a result is the replay of some sequence of valid
    /// draws; and where heads is certain on every rung of the chance track and
    /// every reward of an all-heads run fits, the run ends in ten flips.
    pub fn flip_until_10(&mut self) -> (r: Result<SimResults, SimError>)
        requires
            old(self)@.wf(),
            old(self)@.streak == 0,
        ensures
            final(self)@.wf(),
            tracks_advanced(old(self)@, final(self)@),
            r is Ok ==> {
                let res = r->Ok_0;
                &&& final(self)@.streak == MAX_STREAK
                &&& res.histo@.len() == HISTO_LEN
                &&& res.histo@[MAX_STREAK as int] == 1
                &&& res.flips == accounted(res.histo@, HISTO_LEN as nat)
                &&& res.flips >= MAX_STREAK
                &&& exists|draws: Seq<u64>|
                    #[trigger] plausible(initial_run(old(self)@), draws)
                    && played(initial_run(old(self)@), draws) == res.model(final(self)@)
                    && total(res.histo@, HISTO_LEN as nat) == endings(initial_run(old(self)@), draws)
                    && endings(initial_run(old(self)@), draws) == tails(initial_run(old(self)@), draws) + 1
            },
            r is Err ==> exists|draws: Seq<u64>| {
                let m = played(initial_run(old(self)@), draws);
                let u = m.state.upgraded();
                &&& #[trigger] plausible(initial_run(old(self)@), draws)
                &&& m.state.streak < MAX_STREAK
                &&& final(self)@ == u
                &&& r == Err::<SimResults, SimError>(SimError::FlipLimit) ==> m.flips == usize::MAX
                &&& r == Err::<SimResults, SimError>(SimError::CashOverflow) ==> !u.reward_fits()
                    && exists|d: u64| d < DRAW_SCALE && #[trigger] is_heads(d, u.chance.value())
            },
            certain_heads(old(self)@) && heads_run_fits(old(self)@) ==> {
                &&& r is Ok
                &&& r->Ok_0.flips == MAX_STREAK
                &&& r->Ok_0.histo@ == Seq::new(
                    HISTO_LEN as nat,
                    |i: int|
                        if i == MAX_STREAK {
                            1usize
                        } else {
                            0usize
                        },
                )
            },
    {
        let ghost init = initial_run(self@);
        let ghost sure = certain_heads(self@) && heads_run_fits(self@);
        let mut results = SimResults::new();
        let ghost mut seen: Seq<u64> = Seq::empty();
        assert(results.model(self@) == init);
        assert(seen.take(0) =~= seen);
        assert(zeros(0) =~= seen);
        loop
            invariant
                init == initial_run(old(self)@),
                sure == (certain_heads(old(self)@) && heads_run_fits(old(self)@)),
                old(self)@.wf(),
                old(self)@.streak == 0,
                self@.wf(),
                self@.streak < MAX_STREAK,
                results.consistent(self@),
                results.histo@[MAX_STREAK as int] == 0,
                tracks_advanced(old(self)@, self@),
                results.flips == seen.len(),
                forall|i: int| 0 <= i < seen.len() ==> #[trigger] seen[i] < DRAW_SCALE,
                played(init, seen) == results.model(self@),
                forall|i: int| 0 <= i <= seen.len() ==> #[trigger] played(init, seen.take(i)).state.streak < MAX_STREAK,
                sure ==> self@.streak == seen.len() && results.histo@ == Seq::new(HISTO_LEN as nat, |i: int| 0usize)
                    && played(init, zeros(seen.len())) == results.model(self@),
            decreases usize::MAX - results.flips,
        {
            let draw = random_draw();
            let ghost before = self@;
            let ghost before_results = results.model(self@);
            let ghost k = seen.len();
            proof {
                if sure {
                    let u = before.upgraded();
                    lemma_cash_never_negative(before, true);
                    let v = u.chance.value();
                    assert(u.chance.tiers == old(self)@.chance.tiers);
                    assert(v >= 100);
                    assert(is_heads(draw, v) && is_heads(0, v)) by (nonlinear_arith)
                        requires v >= 100, draw < DRAW_SCALE, DRAW_SCALE == 9007199254740992u64;
                    assert(played(init, zeros(k)).state.upgraded().reward_fits());
                }
            }
            let done = self.step(&mut results, draw);
            proof {
                lemma_round_advances(before, is_heads(draw, before.upgraded().chance.value()));
                if done is Ok {
                    let next = seen.push(draw);
                    assert(next.drop_last() =~= seen);
                    assert(next.take(next.len() as int) =~= next);
                    assert forall|i: int| 0 <= i <= seen.len() implies next.take(i) =~= seen.take(i) by {}
                    if sure {
                        assert(zeros(k + 1).drop_last() =~= zeros(k));
                        assert(played(init, zeros(k + 1)) == round(played(init, zeros(k)), 0));
                        assert(results.histo@ =~= Seq::new(HISTO_LEN as nat, |i: int| 0usize)
                            || done == Ok::<bool, SimError>(true));
                    }
                    seen = next;
                }
            }
            match done {
                Ok(true) => {
                    proof {
                        let h = results.histo@;
                        assert(played(init, seen) == results.model(self@));
                        lemma_accounted_zero(init.histo, HISTO_LEN as nat);
                        lemma_completed_run(init, seen);
                        assert(plausible(init, seen));
                        assert(total(results.histo@, HISTO_LEN as nat) == endings(init, seen));
                        assert(endings(init, seen) == tails(init, seen) + 1);
                        lemma_terminal_flips(h);
                        assert(self@.streak == MAX_STREAK);
                        if sure {
                            assert(h =~= Seq::new(
                                HISTO_LEN as nat,
                                |i: int|
                                    if i == MAX_STREAK {
                                        1usize
                                    } else {
                                        0usize
                                    },
                            ));
                        }
                    }
                    return Ok(results);
                },
                Ok(false) => {},
                Err(e) => {
                    proof {
                        assert(seen.take(seen.len() as int) =~= seen);
                        assert(plausible(init, seen));
                        let m = played(init, seen);
                        assert(m == before_results);
                        assert(m.state == before);
                        assert(self@ == m.state.upgraded());
                        if e == SimError::CashOverflow {
                            assert(draw < DRAW_SCALE && is_heads(draw, m.state.upgraded().chance.value()));
                        }
                        assert(!sure);
                    }
                    return Err(e);
                },
            }
        }
    }
}

/// Every draw is valid, and no round before the last reached a streak of ten.
pub open spec fn plausible(m: RunModel, draws: Seq<u64>) -> bool {
    &&& forall|i: int| 0 <= i < draws.len() ==> #[trigger] draws[i] < DRAW_SCALE
    &&& forall|i: int| 0 <= i < draws.len() ==> #[trigger] played(m, draws.take(i)).state.streak < MAX_STREAK
}

/// Every rung of the chance track makes heads certain.
pub open spec fn certain_heads(s: StateModel) -> bool {
    forall|i: int| 0 <= i < s.chance.tiers.len() ==> #[trigger] s.chance.tiers[i].value >= 100
}

/// `k` draws of zero, which are heads under any chance.
pub open spec fn zeros(k: nat) -> Seq<u64> {
    Seq::new(k, |j: int| 0u64)
}

/// In a run of heads only from `s`, every reward before the tenth head and the
/// cash after it fit in a `u64`.
pub open spec fn heads_run_fits(s: StateModel) -> bool {
    forall|k: nat| k < MAX_STREAK ==> #[trigger] played(initial_run(s), zeros(k)).state.upgraded().reward_fits()
}

/// A run that has not flipped yet, from state `s`.
pub open spec fn initial_run(s: StateModel) -> RunModel {
    RunModel { state: s, flips: 0, histo: Seq::new(HISTO_LEN as nat, |i: int| 0usize) }
}

/// The first state's tracks are the second's, each at the same rung or higher.
pub open spec fn tracks_advanced(a: StateModel, b: StateModel) -> bool {
    &&& b.coin.tiers == a.coin.tiers && a.coin.index <= b.coin.index
    &&& b.chance.tiers == a.chance.tiers && a.chance.index <= b.chance.index
    &&& b.combo.tiers == a.combo.tiers && a.combo.index <= b.combo.index
}

pub proof fn lemma_accounted_zero(histo: Seq<usize>, n: nat)
    requires
        n <= histo.len(),
        forall|i: int| 0 <= i < histo.len() ==> histo[i] == 0,
    ensures
        accounted(histo, n) == 0,
    decreases n,
{
    if n > 0 {
        lemma_accounted_zero(histo, (n - 1) as nat);
    }
}

proof fn lemma_total_zero(histo: Seq<usize>, n: nat)
    requires
        n <= histo.len(),
        forall|i: int| 0 <= i < histo.len() ==> histo[i] == 0,
    ensures
        total(histo, n) == 0,
    decreases n,
{
    if n > 0 {
        lemma_total_zero(histo, (n - 1) as nat);
    }
}

/// A round moves no track down and off its ladder.
pub proof fn lemma_round_advances(s: StateModel, heads: bool)
    requires
        s.wf(),
    ensures
        tracks_advanced(s, s.upgraded()),
        tracks_advanced(s, s.upgraded().after_flip(heads)),
{
}

/// Cash never goes negative: an upgrade is bought only when the cash covers
/// it, and a flip only adds to the cash.
pub proof fn lemma_cash_never_negative(s: StateModel, heads: bool)
    requires
        s.wf(),
    ensures
        s.upgraded().cash >= 0,
        s.upgraded().wf(),
        s.upgraded().after_flip(heads).cash >= s.upgraded().cash,
{
}

/// Flips the coin once with the game's current heads chance.
pub fn flip(state: &State) -> (r: Flip)
    requires
        state@.wf(),
    ensures
        exists|d: u64| d < DRAW_SCALE && (r == Flip::H <==> #[trigger] is_heads(d, state@.chance.value())),
{
    let draw = random_draw();
    flip_outcome(draw, state.heads_chance.current_value())
}

/// The bookkeeping of a run in progress: valid state, no terminal streak yet,
/// and every flip accounted for.
pub open spec fn in_progress(m: RunModel) -> bool {
    &&& m.state.wf()
    &&& m.state.streak < MAX_STREAK
    &&& m.histo.len() == HISTO_LEN
    &&& m.histo[MAX_STREAK as int] == 0
    &&& m.flips == accounted(m.histo, HISTO_LEN as nat) + m.state.streak
}

/// A round keeps the bookkeeping: either the run is still in progress, or it
/// has just ended with one streak of ten and every flip accounted for.
pub proof fn lemma_round_accounts(m: RunModel, draw: u64)
    requires
        in_progress(m),
        m.flips < usize::MAX,
    ensures
        round(m, draw).state.wf(),
        round(m, draw).flips == m.flips + 1,
        round(m, draw).state.streak < MAX_STREAK ==> in_progress(round(m, draw)),
        round(m, draw).state.streak == MAX_STREAK ==> {
            &&& round(m, draw).histo.len() == HISTO_LEN
            &&& round(m, draw).histo[MAX_STREAK as int] == 1
            &&& round(m, draw).flips == accounted(round(m, draw).histo, HISTO_LEN as nat)
        },
{
    let u = m.state.upgraded();
    let heads = is_heads(draw, u.chance.value());
    lemma_cash_never_negative(m.state, heads);
    if ends_streak(u, heads) {
        let k = u.flipped(heads).streak;
        lemma_accounted_bounds(m.histo, HISTO_LEN as nat, k);
        lemma_accounted_increment(m.histo, HISTO_LEN as nat, k);
    }
}

/// The sum of the first `n` slots of the histogram.
pub open spec fn total(histo: Seq<usize>, n: nat) -> int
    decreases n,
{
    if n == 0 {
        0
    } else {
        total(histo, (n - 1) as nat) + histo[n - 1]
    }
}

/// How many rounds of `draws` ended a streak.
pub open spec fn endings(m: RunModel, draws: Seq<u64>) -> int
    decreases draws.len(),
{
    if draws.len() == 0 {
        0
    } else {
        let before = played(m, draws.drop_last());
        let u = before.state.upgraded();
        endings(m, draws.drop_last()) + (if ends_streak(u, is_heads(draws.last(), u.chance.value())) {
            1int
        } else {
            0
        })
    }
}

/// How many rounds of `draws` came up tails.
pub open spec fn tails(m: RunModel, draws: Seq<u64>) -> int
    decreases draws.len(),
{
    if draws.len() == 0 {
        0
    } else {
        let u = played(m, draws.drop_last()).state.upgraded();
        tails(m, draws.drop_last()) + (if !is_heads(draws.last(), u.chance.value()) {
            1int
        } else {
            0
        })
    }
}

proof fn lemma_total_increment(histo: Seq<usize>, n: nat, j: int)
    requires
        0 <= j < histo.len(),
        n <= histo.len(),
        histo[j] < usize::MAX,
    ensures
        total(histo.update(j, (histo[j] + 1) as usize), n) == total(histo, n) + (if j < n {
            1int
        } else {
            0
        }),
    decreases n,
{
    if n > 0 {
        lemma_total_increment(histo, (n - 1) as nat, j);
    }
}

proof fn lemma_round_total(m: RunModel, draw: u64)
    requires
        in_progress(m),
        m.flips < usize::MAX,
    ensures
        ({
            let u = m.state.upgraded();
            total(round(m, draw).histo, HISTO_LEN as nat) == total(m.histo, HISTO_LEN as nat) + (if ends_streak(
                u,
                is_heads(draw, u.chance.value()),
            ) {
                1int
            } else {
                0
            })
        }),
{
    let u = m.state.upgraded();
    let heads = is_heads(draw, u.chance.value());
    lemma_cash_never_negative(m.state, heads);
    if ends_streak(u, heads) {
        let k = u.flipped(heads).streak;
        lemma_accounted_bounds(m.histo, HISTO_LEN as nat, k);
        lemma_total_increment(m.histo, HISTO_LEN as nat, k);
    }
}

proof fn lemma_prefix_in_progress(m: RunModel, draws: Seq<u64>, k: int)
    requires
        in_progress(m),
        m == initial_run(m.state),
        draws.len() <= usize::MAX,
        0 <= k < draws.len(),
        forall|i: int| 0 <= i < draws.len() ==> #[trigger] played(m, draws.take(i)).state.streak < MAX_STREAK,
    ensures
        in_progress(played(m, draws.take(k))),
        played(m, draws.take(k)).flips == k,
        total(played(m, draws.take(k)).histo, HISTO_LEN as nat) == endings(m, draws.take(k)),
        endings(m, draws.take(k)) == tails(m, draws.take(k)),
    decreases k,
{
    if k == 0 {
        assert(draws.take(0) =~= Seq::<u64>::empty());
        lemma_total_zero(m.histo, HISTO_LEN as nat);
    } else {
        lemma_prefix_in_progress(m, draws, k - 1);
        assert(draws.take(k).drop_last() =~= draws.take(k - 1));
        lemma_round_accounts(played(m, draws.take(k - 1)), draws[k - 1]);
        lemma_round_total(played(m, draws.take(k - 1)), draws[k - 1]);
        assert(played(m, draws.take(k)).state.streak < MAX_STREAK);
    }
}

/// A completed run, one whose last draw gives the first streak of ten, has
/// exactly one streak of ten in its histogram; the histogram's counts add up to
/// the rounds that ended a streak, which are the tails and the final head; and
/// it accounts for every flip: a streak of
/// `i` ended by tails took `i + 1` flips, the last one ten.
pub proof fn lemma_completed_run(m: RunModel, draws: Seq<u64>)
    requires
        in_progress(m),
        m == initial_run(m.state),
        0 < draws.len() <= usize::MAX,
        forall|i: int| 0 <= i < draws.len() ==> #[trigger] played(m, draws.take(i)).state.streak < MAX_STREAK,
        played(m, draws).state.streak == MAX_STREAK,
    ensures
        played(m, draws).histo[MAX_STREAK as int] == 1,
        played(m, draws).flips == draws.len(),
        played(m, draws).flips == accounted(played(m, draws).histo, HISTO_LEN as nat),
        total(played(m, draws).histo, HISTO_LEN as nat) == endings(m, draws),
        endings(m, draws) == tails(m, draws) + 1,
{
    let n = draws.len() - 1;
    lemma_prefix_in_progress(m, draws, n);
    assert(draws.drop_last() =~= draws.take(n));
    lemma_round_accounts(played(m, draws.take(n)), draws.last());
    lemma_round_total(played(m, draws.take(n)), draws.last());
}

} // verus!

use vstd::prelude::*;
use crate::store::KvMap;

verus! {

/// Highest number of targets a single nomination may name.
pub const MAX_NOMINATIONS: usize = 16;

/// Denominator of a `Perbill`: parts per billion.
pub const BILLION: u32 = 1_000_000_000;

/// Typed failure of a staking operation; the state is left unchanged
/// whenever one is returned.
#[derive(Clone, Copy, Debug, PartialEq, Eq, Structural)]
pub enum Error {
    NotController,
    NotStash,
    AlreadyBonded,
    AlreadyPaired,
    InsufficientBond,
    NoUnlockChunk,
    EmptyTargets,
    TooManyTargets,
    DuplicateTarget,
    InvalidEraToReward,
    AlreadyClaimed,
    NotNominated,
    NotSortedAndUnique,
    FundedTarget,
    ErrorsAlreadyApplied,
    InvalidSlashIndex,
    NotEnoughValidators,
}

/// Where a payout for a stash is routed.
#[derive(Clone, Copy, Debug, PartialEq, Eq, Structural)]
pub enum RewardDestination {
    /// Pay into the stash and bond the amount on top of the active stake.
    Staked,
    /// Pay into the stash without bonding.
    Stash,
    /// Pay into the controller account.
    Controller,
}

/// Era-forcing mode flags consulted by the external session scheduler.
#[derive(Clone, Copy, Debug, PartialEq, Eq, Structural)]
pub enum Forcing {
    NotForcing,
    ForceNone,
    ForceNew,
    ForceAlways,
}

/// A fraction in `[0, 1]` held as parts per billion.
#[derive(Clone, Copy, Debug, PartialEq, Eq, Structural)]
pub struct Perbill {
    pub parts: u32,
}

impl Perbill {
    pub open spec fn wf(self) -> bool {
        self.parts <= BILLION
    }

    /// The floor of `self * b` as a mathematical integer.
    pub open spec fn spec_mul(self, b: u64) -> int {
        (self.parts as int) * (b as int) / (BILLION as int)
    }

    pub fn from_parts(parts: u32) -> (r: Self)
        ensures
            r.parts == if parts <= BILLION { parts } else { BILLION },
            r.wf(),
    {
        if parts <= BILLION {
            Perbill { parts }
        } else {
            Perbill { parts: BILLION }
        }
    }

    pub fn from_percent(p: u32) -> (r: Self)
        requires
            p <= 100,
        ensures
            r.parts == p * 10_000_000,
            r.wf(),
    {
        Perbill { parts: p * 10_000_000 }
    }

    /// Floor multiplication of a balance by the fraction.
    pub fn mul_floor(self, b: u64) -> (r: u64)
        requires
            self.wf(),
        ensures
            r as int == self.spec_mul(b),
            r <= b,
    {
        proof {
            assert((b as int) * (self.parts as int) == (self.parts as int) * (b as int)) by (
            nonlinear_arith);
        }
        mul_ratio_u64(b, self.parts as u64, BILLION as u64)
    }
}

/// `a * num / den`, where `num <= den` keeps the result at or under `a`.
pub proof fn lemma_ratio_le(a: int, num: int, den: int)
    requires
        0 <= a,
        0 <= num <= den,
        0 < den,
    ensures
        0 <= a * num / den <= a,
{
    assert(a * num <= a * den && 0 <= a * num) by (nonlinear_arith)
        requires
            0 <= a,
            0 <= num <= den,
    ;
    vstd::arithmetic::div_mod::lemma_div_is_ordered(a * num, a * den, den);
    vstd::arithmetic::div_mod::lemma_div_multiples_vanish(a, den);
    assert(den * a == a * den) by (nonlinear_arith);
    vstd::arithmetic::div_mod::lemma_div_pos_is_pos(a * num, den);
}

/// `a * num / den` computed exactly through a 128-bit intermediate.
pub fn mul_ratio_u64(a: u64, num: u64, den: u64) -> (r: u64)
    requires
        0 < den,
        num <= den,
    ensures
        r as int == (a as int) * (num as int) / (den as int),
        r <= a,
{
    proof {
        lemma_ratio_le(a as int, num as int, den as int);
        assert((a as int) * (num as int) < 0x100000000000000000000000000000000int) by (
        nonlinear_arith)
            requires
                a <= 0xffffffffffffffffu64,
                num <= 0xffffffffffffffffu64,
        ;
    }
    let prod: u128 = (a as u128) * (num as u128);
    let q: u128 = prod / (den as u128);
    q as u64
}

/// `a + b`, stopping at the largest representable value.
pub fn saturating_add_u64(a: u64, b: u64) -> (r: u64)
    ensures
        r as int == if a as int + b as int <= u64::MAX as int {
            a as int + b as int
        } else {
            u64::MAX as int
        },
        r >= a,
        r >= b,
{
    if b <= u64::MAX - a {
        a + b
    } else {
        u64::MAX
    }
}

/// A portion of bonded funds on its way out, withdrawable once `era` is reached.
#[derive(Clone, Copy, Debug, PartialEq, Eq, Structural)]
pub struct UnlockChunk {
    /// Amount waiting to unlock.
    pub value: u64,
    /// First era in which the amount may be withdrawn.
    pub era: u32,
}

/// Total value queued in an unlocking schedule.
pub open spec fn sum_unlock(s: Seq<UnlockChunk>) -> int
    decreases s.len(),
{
    if s.len() == 0 {
        0
    } else {
        sum_unlock(s.drop_last()) + s.last().value
    }
}

pub proof fn lemma_sum_unlock_push(s: Seq<UnlockChunk>, c: UnlockChunk)
    ensures
        sum_unlock(s.push(c)) == sum_unlock(s) + c.value,
{
    assert(s.push(c).drop_last() =~= s);
}

pub proof fn lemma_sum_unlock_drop_first(s: Seq<UnlockChunk>)
    requires
        s.len() > 0,
    ensures
        sum_unlock(s) == s[0].value + sum_unlock(s.subrange(1, s.len() as int)),
    decreases s.len(),
{
    if s.len() == 1 {
        assert(s.subrange(1, 1) =~= Seq::<UnlockChunk>::empty());
        assert(s.drop_last() =~= Seq::<UnlockChunk>::empty());
    } else {
        let t = s.drop_last();
        lemma_sum_unlock_drop_first(t);
        assert(t.subrange(1, t.len() as int) =~= s.subrange(1, s.len() as int).drop_last());
        assert(s.subrange(1, s.len() as int).last() == s.last());
    }
}

pub proof fn lemma_sum_unlock_update(s: Seq<UnlockChunk>, i: int, c: UnlockChunk)
    requires
        0 <= i < s.len(),
    ensures
        sum_unlock(s.update(i, c)) == sum_unlock(s) - s[i].value + c.value,
    decreases s.len(),
{
    if i == s.len() - 1 {
        assert(s.update(i, c).drop_last() =~= s.drop_last());
        assert(s.update(i, c).last() == c);
    } else {
        lemma_sum_unlock_update(s.drop_last(), i, c);
        assert(s.update(i, c).drop_last() =~= s.drop_last().update(i, c));
        assert(s.update(i, c).last() == s.last());
    }
}

pub proof fn lemma_sum_unlock_nonneg(s: Seq<UnlockChunk>)
    ensures
        sum_unlock(s) >= 0,
    decreases s.len(),
{
    if s.len() > 0 {
        lemma_sum_unlock_nonneg(s.drop_last());
    }
}

/// Bonded-balance record of one stash, keyed in the store by its controller.
#[derive(Debug)]
pub struct StakingLedger {
    /// Stash whose funds are at stake.
    pub stash: u64,
    /// Everything bonded: active stake plus all value still unlocking.
    pub total: u64,
    /// Stake counted for election, rewards and the first round of slashing.
    pub active: u64,
    /// Pending unlocks, ordered by strictly increasing target era.
    pub unlocking: Vec<UnlockChunk>,
}

impl StakingLedger {
    /// `total` accounts for exactly the active stake and the unlocking queue,
    /// and the queue is ordered by strictly increasing target era.
    pub open spec fn wf(self) -> bool {
        &&& self.total as int == self.active as int + sum_unlock(self.unlocking@)
        &&& forall|i: int, j: int|
            0 <= i < j < self.unlocking@.len() ==> (#[trigger] self.unlocking@[i]).era < (
            #[trigger] self.unlocking@[j]).era
    }

    /// `active <= total` holds of every well-formed ledger.
    pub proof fn lemma_active_le_total(self)
        requires
            self.wf(),
        ensures
            self.active <= self.total,
    {
        lemma_sum_unlock_nonneg(self.unlocking@);
    }
}

/// Election/commission preferences of a stash intending to validate.
#[derive(Clone, Copy, Debug, PartialEq, Eq, Structural)]
pub struct ValidatorPrefs {
    /// Fraction of the reward share kept before nominator distribution.
    pub commission: Perbill,
}

/// Nomination intent of a stash: distinct targets, bounded in number.
#[derive(Debug)]
pub struct Nominations {
    /// Nominated validator stashes.
    pub targets: Vec<u64>,
    /// Era in which the nomination was submitted.
    pub submitted_in: u32,
}

impl Nominations {
    pub open spec fn wf(self) -> bool {
        &&& 0 < self.targets@.len() <= MAX_NOMINATIONS
        &&& self.targets@.no_duplicates()
    }
}

/// One nominator's stake backing a validator in an era snapshot.
#[derive(Clone, Copy, Debug, PartialEq, Eq, Structural)]
pub struct IndividualExposure {
    /// Nominator stash.
    pub who: u64,
    /// Active stake the nominator put behind the validator.
    pub value: u64,
}

pub open spec fn sum_exposure(s: Seq<IndividualExposure>) -> int
    decreases s.len(),
{
    if s.len() == 0 {
        0
    } else {
        sum_exposure(s.drop_last()) + s.last().value
    }
}

pub proof fn lemma_sum_exposure_push(s: Seq<IndividualExposure>, e: IndividualExposure)
    ensures
        sum_exposure(s.push(e)) == sum_exposure(s) + e.value,
{
    assert(s.push(e).drop_last() =~= s);
}

pub proof fn lemma_sum_exposure_nonneg(s: Seq<IndividualExposure>)
    ensures
        sum_exposure(s) >= 0,
    decreases s.len(),
{
    if s.len() > 0 {
        lemma_sum_exposure_nonneg(s.drop_last());
    }
}

/// Every single contribution stays at or under the sum of all of them.
pub proof fn lemma_sum_exposure_bounds_each(s: Seq<IndividualExposure>, i: int)
    requires
        0 <= i < s.len(),
    ensures
        s[i].value <= sum_exposure(s),
    decreases s.len(),
{
    lemma_sum_exposure_nonneg(s.drop_last());
    if i < s.len() - 1 {
        lemma_sum_exposure_bounds_each(s.drop_last(), i);
    }
}

/// A prefix of the contributions never sums to more than all of them.
pub proof fn lemma_sum_exposure_prefix(s: Seq<IndividualExposure>, i: int)
    requires
        0 <= i <= s.len(),
    ensures
        sum_exposure(s.subrange(0, i)) <= sum_exposure(s),
    decreases s.len() - i,
{
    if i == s.len() {
        assert(s.subrange(0, i) =~= s);
    } else {
        assert(s.subrange(0, i + 1).drop_last() =~= s.subrange(0, i));
        assert(s.subrange(0, i + 1).last() == s[i]);
        lemma_sum_exposure_prefix(s, i + 1);
    }
}

/// Stake backing a validator in one era: own stake plus nominator contributions.
#[derive(Debug)]
pub struct Exposure {
    /// Own stake plus the sum of all listed nominator contributions.
    pub total: u64,
    /// The validator's own active stake.
    pub own: u64,
    /// Contributions of the nominators, one entry per nominator.
    pub others: Vec<IndividualExposure>,
}

impl Exposure {
    pub open spec fn wf(self) -> bool {
        self.total as int == self.own as int + sum_exposure(self.others@)
    }
}

/// Sum of the recorded per-validator points.
pub open spec fn sum_points(s: Seq<(u64, u32)>) -> int
    decreases s.len(),
{
    if s.len() == 0 {
        0
    } else {
        sum_points(s.drop_last()) + s.last().1
    }
}

pub proof fn lemma_sum_points_push(s: Seq<(u64, u32)>, p: (u64, u32))
    ensures
        sum_points(s.push(p)) == sum_points(s) + p.1,
{
    assert(s.push(p).drop_last() =~= s);
}

pub proof fn lemma_sum_points_nonneg(s: Seq<(u64, u32)>)
    ensures
        sum_points(s) >= 0,
    decreases s.len(),
{
    if s.len() > 0 {
        lemma_sum_points_nonneg(s.drop_last());
    }
}

pub proof fn lemma_sum_points_bounds_each(s: Seq<(u64, u32)>, i: int)
    requires
        0 <= i < s.len(),
    ensures
        s[i].1 <= sum_points(s),
    decreases s.len(),
{
    lemma_sum_points_nonneg(s.drop_last());
    if i < s.len() - 1 {
        lemma_sum_points_bounds_each(s.drop_last(), i);
    }
}

/// Authorship points credited for one era.
#[derive(Debug)]
pub struct EraRewardPoints {
    /// Sum of all individual points.
    pub total: u32,
    /// Points per validator stash.
    pub individual: KvMap<u32>,
}

impl EraRewardPoints {
    pub open spec fn wf(self) -> bool {
        &&& self.individual.wf()
        &&& self.total as int == sum_points(self.individual.entries())
    }
}

/// Reward claims already made against one validator's era snapshot.
#[derive(Debug)]
pub struct ClaimRecord {
    /// The validator's own payout was taken.
    pub validator_claimed: bool,
    /// Nominator stashes that already claimed their share.
    pub nominator_claims: Vec<u64>,
}

/// A computed slash held back for the dispute window before application.
#[derive(Debug)]
pub struct UnappliedSlash {
    /// The offending validator's stash.
    pub validator: u64,
    /// Slash against the validator's own stake.
    pub own: u64,
    /// Proportional slashes against the nominators, as (stash, amount).
    pub others: Vec<(u64, u64)>,
    /// Accounts that reported the offence.
    pub reporters: Vec<u64>,
    /// Amount set aside to reward the reporters.
    pub payout: u64,
}

/// Sum of the amounts in a sequence of (account, amount) pairs.
pub open spec fn sum_amounts(s: Seq<(u64, u64)>) -> int
    decreases s.len(),
{
    if s.len() == 0 {
        0
    } else {
        sum_amounts(s.drop_last()) + s.last().1
    }
}

pub proof fn lemma_sum_amounts_push(s: Seq<(u64, u64)>, p: (u64, u64))
    ensures
        sum_amounts(s.push(p)) == sum_amounts(s) + p.1,
{
    assert(s.push(p).drop_last() =~= s);
}

/// An element-wise copy of a vector of account ids.
pub fn copy_vec_u64(v: &Vec<u64>) -> (r: Vec<u64>)
    ensures
        r@ == v@,
{
    let mut r: Vec<u64> = Vec::new();
    let n = v.len();
    let mut i: usize = 0;
    while i < n
        invariant
            n == v@.len(),
            i <= n,
            r@ == v@.subrange(0, i as int),
        decreases n - i,
    {
        r.push(v[i]);
        proof {
            assert(r@ =~= v@.subrange(0, i + 1));
        }
        i += 1;
    }
    proof {
        assert(r@ =~= v@);
    }
    r
}

/// Everything recorded for one era at election time, pruned as one unit.
#[derive(Debug)]
pub struct EraSnapshot {
    /// The elected validator set, by descending backing stake.
    pub elected: Vec<u64>,
    /// Full exposure per elected validator, authoritative for slashing.
    pub stakers: KvMap<Exposure>,
    /// Exposure clipped to the highest nominator contributions, for rewards.
    pub stakers_clipped: KvMap<Exposure>,
    /// Commission preferences of the elected validators, as of election.
    pub validator_prefs: KvMap<ValidatorPrefs>,
    /// Authorship points credited during the era.
    pub reward_points: EraRewardPoints,
    /// Total payout available for the era's rewards.
    pub validator_reward: u64,
    /// Sum of all elected validators' exposure totals.
    pub total_stake: u64,
    /// Session index at which the era began.
    pub start_session_index: u32,
    /// Claims already made against this snapshot.
    pub claims: KvMap<ClaimRecord>,
}

impl EraSnapshot {
    pub open spec fn wf(self) -> bool {
        &&& self.stakers.wf()
        &&& self.stakers_clipped.wf()
        &&& self.validator_prefs.wf()
        &&& self.reward_points.wf()
        &&& self.claims.wf()
        &&& forall|v: u64|
            self.stakers.contains_key(v) ==> (#[trigger] self.stakers.spec_get(
                v,
            )).unwrap().wf()
        &&& forall|v: u64|
            self.stakers_clipped.contains_key(v) ==> (#[trigger] self.stakers_clipped.spec_get(
                v,
            )).unwrap().wf()
        &&& forall|v: u64|
            self.validator_prefs.contains_key(v) ==> (#[trigger] self.validator_prefs.spec_get(
                v,
            )).unwrap().commission.wf()
    }
}

} // verus!

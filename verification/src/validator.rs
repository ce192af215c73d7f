//! The validator: the epoch-indexed ledger and the reward-distribution
//! state machine.
//!
//! Epochs are contiguous, so the per-epoch ledger is a vector indexed by
//! epoch.  Epoch `current_epoch` is the one still open; a reward event
//! attributes its user share to the epoch it closes and opens the next one
//! with the closed epoch's support base carried forward.  Support filed at
//! epoch `e` therefore earns from the rewards of epochs `e`, `e + 1`, ...,
//! each frozen once its epoch closes.
//!
//! The settlement facility and the signature scheme stay outside: an
//! operation takes the signature verdict as a `bool`, and an operation
//! that pays out is called only after the caller's transfer has been
//! confirmed, in the order the contracts describe.  Every refusal leaves
//! the ledger untouched.

use vstd::prelude::*;

use crate::errors::EngineError;
use crate::indexes::ilookup;
use crate::indexes::index_add;
use crate::indexes::index_get;
use crate::indexes::index_remove;
use crate::indexes::records_added;
use crate::indexes::records_removed;
use crate::indexes::wf_indexes;
use crate::support::lemma_entry_le_sum;
use crate::support::lemma_slookup_positive;
use crate::support::lemma_sum_nonneg;
use crate::support::slookup;
use crate::support::sum_amounts;
use crate::support::support_add;
use crate::support::support_get;
use crate::support::support_sub;
use crate::support::wf_supports;
use crate::Address;
use crate::Index;
use crate::Value;
use crate::INDEX_MAX_DELTA;
use crate::VALIDATOR_SHARE_DEN;
use crate::VALIDATOR_SHARE_NUM;

verus! {

/// One epoch of the ledger.
pub struct EpochRecord {
    /// Total delegated stake as of this epoch (copy-forward semantics).
    pub total_support: Value,
    /// The users' share of the reward attributed to this epoch; zero while
    /// the epoch is still open.
    pub reward: Value,
    /// The part of `reward` not yet paid out to users.
    pub reward_remaining: Value,
    /// The support filed at this epoch, per address, each entry positive.
    pub supports: Vec<(Address, Value)>,
}

/// The validator: owner identity, global balances, and the epoch ledger.
pub struct Validator {
    /// The owner's address; fixed at creation.
    pub owner_address: Address,
    /// This validator's own address; fixed at creation.
    pub validator_address: Address,
    /// Sum of all currently open user support across all epochs.
    pub total_delegated: Value,
    /// Delegated stake plus the undistributed reward pool plus the
    /// unclaimed owner share.
    pub total_balance: Value,
    /// Reward owed to the owner; grows with each reward event, shrinks
    /// only by a confirmed owner withdrawal.
    pub owner_reward_accrued: Value,
    /// The epoch still open; incremented once per reward event.
    pub current_epoch: Index,
    /// The per-epoch ledger: entry `e` is epoch `e`.
    pub epochs: Vec<EpochRecord>,
    /// For each address, the epochs at which it has open support.
    pub support_indexes: Vec<(Address, Vec<Index>)>,
}

/// The support filed at epochs `0 ..= i`.
pub open spec fn prefix_filed(es: Seq<EpochRecord>, i: int) -> int
    decreases i + 1,
{
    if i < 0 {
        0
    } else {
        prefix_filed(es, i - 1) + sum_amounts(es[i].supports@)
    }
}

/// The undistributed reward left in epochs `0 ..= i`.
pub open spec fn prefix_remaining(es: Seq<EpochRecord>, i: int) -> int
    decreases i + 1,
{
    if i < 0 {
        0
    } else {
        prefix_remaining(es, i - 1) + es[i].reward_remaining
    }
}

/// What a single withdrawal pays out of epoch `j`'s reward for a claim of
/// `amount`: the claim's proportional share, rounded down.
pub open spec fn pay_of(es: Seq<EpochRecord>, amount: Value, j: int) -> int {
    es[j].reward * amount / (es[j].total_support as int)
}

/// The reward accrued over epochs `from ..< end` for a claim of `amount`.
pub open spec fn accrued(es: Seq<EpochRecord>, amount: Value, from: int, end: int) -> int
    decreases end - from,
{
    if from >= end {
        0
    } else {
        pay_of(es, amount, from) + accrued(es, amount, from + 1, end)
    }
}

/// The last epoch a withdrawal starting at `from_epoch` processes
/// (exclusive): at most `INDEX_MAX_DELTA` epochs beyond `from_epoch`, and
/// never beyond the open epoch.
pub open spec fn end_epoch_of(from_epoch: Index, current: Index) -> int {
    if current - from_epoch > INDEX_MAX_DELTA {
        from_epoch + INDEX_MAX_DELTA
    } else {
        current as int
    }
}

/// The owner's share of a reward of `amount`.
pub open spec fn owner_share(amount: Value) -> int {
    amount * VALIDATOR_SHARE_NUM / (VALIDATOR_SHARE_DEN as int)
}

impl Validator {
    /// The number of ledger epochs.
    pub open spec fn epoch_count(self) -> int {
        self.epochs@.len() as int
    }

    /// The support `a` has filed at epoch `e`; zero when absent.
    pub open spec fn support_of(self, e: int, a: Address) -> int {
        if 0 <= e < self.epochs@.len() {
            match slookup(self.epochs@[e].supports@, a) {
                Some(v) => v as int,
                None => 0,
            }
        } else {
            0
        }
    }

    /// Whether `a` has a support record at epoch `e`.
    pub open spec fn has_support(self, e: int, a: Address) -> bool {
        0 <= e < self.epochs@.len() && slookup(self.epochs@[e].supports@, a) is Some
    }

    /// The total support base of epoch `e`.
    pub open spec fn total_support_at(self, e: int) -> int {
        self.epochs@[e].total_support as int
    }

    /// The users' share of the reward attributed to epoch `e`.
    pub open spec fn reward_at(self, e: int) -> int {
        self.epochs@[e].reward as int
    }

    /// The part of epoch `e`'s reward not yet paid out.
    pub open spec fn remaining_at(self, e: int) -> int {
        self.epochs@[e].reward_remaining as int
    }

    /// The epochs at which `a` has open support, as recorded in the index.
    pub open spec fn open_epochs_of(self, a: Address) -> Seq<Index> {
        ilookup(self.support_indexes@, a)
    }

    /// Well-formedness of the ledger.  This is the induction hypothesis of
    /// every operation: among other things it carries the conservation
    /// equality `total_balance == total_delegated + owner_reward_accrued +
    /// undistributed reward`, from which conservation follows, and the
    /// per-epoch guarantee that what is left of a reward covers every
    /// claim the support filed up to that epoch can still make.
    pub open spec fn wf_ledger(self) -> bool {
        let es = self.epochs@;
        let n = es.len() as int;
        &&& n == self.current_epoch + 1
        &&& forall|e: int| 0 <= e < n ==> wf_supports((#[trigger] es[e]).supports@)
        &&& forall|e: int|
            0 <= e < n - 1 ==> (#[trigger] es[e]).total_support <= es[e + 1].total_support
        &&& forall|e: int| 0 <= e < n ==> prefix_filed(es, e) <= (#[trigger] es[e]).total_support
        &&& forall|e: int|
            0 <= e < n ==> (#[trigger] es[e]).reward_remaining * es[e].total_support
                >= es[e].reward * prefix_filed(es, e)
        &&& es[n - 1].reward == 0
        &&& es[n - 1].reward_remaining == 0
        &&& self.total_delegated == prefix_filed(es, n - 1)
        &&& self.total_balance == self.total_delegated + self.owner_reward_accrued
            + prefix_remaining(es, n - 1)
        &&& wf_indexes(self.support_indexes@)
        &&& forall|a: Address, x: Index|
            #[trigger] ilookup(self.support_indexes@, a).contains(x) ==> 0 <= x < n && slookup(
                es[x as int].supports@,
                a,
            ) is Some
        &&& forall|e: int, a: Address|
            0 <= e < n && #[trigger] slookup(es[e].supports@, a) is Some ==> ilookup(
                self.support_indexes@,
                a,
            ).contains(e as Index)
    }

    /// Why a withdrawal request is refused, if it is.
    pub open spec fn withdraw_refusal(
        self,
        user_address: Address,
        from_epoch: Index,
        amount: Value,
        sig_ok: bool,
    ) -> Option<EngineError> {
        if !sig_ok {
            Some(EngineError::Unauthorized)
        } else if !self.has_support(from_epoch as int, user_address) {
            Some(EngineError::NoSuchSupport)
        } else if amount > self.support_of(from_epoch as int, user_address) {
            Some(EngineError::InsufficientSupport)
        } else {
            None
        }
    }
}

pub proof fn lemma_prefix_filed_nonneg(es: Seq<EpochRecord>, i: int)
    ensures
        prefix_filed(es, i) >= 0,
    decreases i + 1,
{
    if i >= 0 {
        lemma_prefix_filed_nonneg(es, i - 1);
        lemma_sum_nonneg(es[i].supports@);
    }
}

pub proof fn lemma_prefix_filed_monotone(es: Seq<EpochRecord>, i1: int, i2: int)
    requires
        i1 <= i2,
    ensures
        prefix_filed(es, i1) <= prefix_filed(es, i2),
    decreases i2 - i1,
{
    if i1 < i2 {
        lemma_prefix_filed_monotone(es, i1, i2 - 1);
        lemma_sum_nonneg(es[i2].supports@);
    }
}

pub proof fn lemma_prefix_remaining_nonneg(es: Seq<EpochRecord>, i: int)
    ensures
        prefix_remaining(es, i) >= 0,
    decreases i + 1,
{
    if i >= 0 {
        lemma_prefix_remaining_nonneg(es, i - 1);
    }
}

pub proof fn lemma_prefix_remaining_monotone(es: Seq<EpochRecord>, i1: int, i2: int)
    requires
        i1 <= i2,
    ensures
        prefix_remaining(es, i1) <= prefix_remaining(es, i2),
    decreases i2 - i1,
{
    if i1 < i2 {
        lemma_prefix_remaining_monotone(es, i1, i2 - 1);
    }
}

/// A change confined to the supports of epoch `k` shifts every prefix from
/// `k` on by the change of that epoch's sum, and no earlier prefix.
pub proof fn lemma_prefix_filed_change(es1: Seq<EpochRecord>, es2: Seq<EpochRecord>, k: int, i: int)
    requires
        es1.len() == es2.len(),
        0 <= k < es1.len(),
        i < es1.len(),
        forall|j: int|
            0 <= j < es1.len() && j != k ==> (#[trigger] es2[j]).supports@ == es1[j].supports@,
    ensures
        prefix_filed(es2, i) == prefix_filed(es1, i) + if i >= k {
            sum_amounts(es2[k].supports@) - sum_amounts(es1[k].supports@)
        } else {
            0
        },
    decreases i + 1,
{
    if i >= 0 {
        lemma_prefix_filed_change(es1, es2, k, i - 1);
    }
}

/// The same, for a change confined to the remaining reward of epoch `k`.
pub proof fn lemma_prefix_remaining_change(
    es1: Seq<EpochRecord>,
    es2: Seq<EpochRecord>,
    k: int,
    i: int,
)
    requires
        es1.len() == es2.len(),
        0 <= k < es1.len(),
        i < es1.len(),
        forall|j: int|
            0 <= j < es1.len() && j != k ==> (#[trigger] es2[j]).reward_remaining == es1[j].reward_remaining,
    ensures
        prefix_remaining(es2, i) == prefix_remaining(es1, i) + if i >= k {
            es2[k].reward_remaining - es1[k].reward_remaining
        } else {
            0
        },
    decreases i + 1,
{
    if i >= 0 {
        lemma_prefix_remaining_change(es1, es2, k, i - 1);
    }
}

/// Prefixes agree wherever the supports agree pointwise.
pub proof fn lemma_prefix_filed_congruent(es1: Seq<EpochRecord>, es2: Seq<EpochRecord>, i: int)
    requires
        forall|j: int| 0 <= j <= i ==> (#[trigger] es2[j]).supports@ == es1[j].supports@,
    ensures
        prefix_filed(es2, i) == prefix_filed(es1, i),
    decreases i + 1,
{
    if i >= 0 {
        lemma_prefix_filed_congruent(es1, es2, i - 1);
    }
}

/// Prefixes agree wherever the remaining rewards agree pointwise.
pub proof fn lemma_prefix_remaining_congruent(es1: Seq<EpochRecord>, es2: Seq<EpochRecord>, i: int)
    requires
        forall|j: int|
            0 <= j <= i ==> (#[trigger] es2[j]).reward_remaining == es1[j].reward_remaining,
    ensures
        prefix_remaining(es2, i) == prefix_remaining(es1, i),
    decreases i + 1,
{
    if i >= 0 {
        lemma_prefix_remaining_congruent(es1, es2, i - 1);
    }
}

/// The support base never shrinks from one epoch to the next, so it never
/// shrinks across any gap.
pub proof fn lemma_total_support_monotone(es: Seq<EpochRecord>, e1: int, e2: int)
    requires
        0 <= e1 <= e2 < es.len(),
        forall|e: int|
            0 <= e < es.len() - 1 ==> (#[trigger] es[e]).total_support <= es[e + 1].total_support,
    ensures
        es[e1].total_support <= es[e2].total_support,
    decreases e2 - e1,
{
    if e1 < e2 {
        lemma_total_support_monotone(es, e1, e2 - 1);
        assert(es[e2 - 1].total_support <= es[e2].total_support);
    }
}

/// Extending the claimed range by one epoch adds that epoch's payout.
pub proof fn lemma_accrued_snoc(es: Seq<EpochRecord>, amount: Value, from: int, end: int)
    requires
        from <= end,
    ensures
        accrued(es, amount, from, end + 1) == accrued(es, amount, from, end) + pay_of(
            es,
            amount,
            end,
        ),
    decreases end - from,
{
    if from < end {
        lemma_accrued_snoc(es, amount, from + 1, end);
    } else {
        assert(accrued(es, amount, from, end) == 0);
        assert(accrued(es, amount, end + 1, end + 1) == 0);
        assert(accrued(es, amount, from, end + 1) == pay_of(es, amount, end));
    }
}

/// The arithmetic heart of a claim step: what is paid out of one epoch
/// fits in what is left of it, and what is left afterwards still covers
/// every claim the remaining eligible support can make.
proof fn lemma_claim_step(r: int, a: int, t: int, rem: int, pf: int, p: int) by (nonlinear_arith)
    requires
        r >= 0,
        t > 0,
        rem >= 0,
        0 <= a <= pf,
        pf <= t,
        p >= 0,
        p * t <= r * a,
        rem * t >= r * pf,
    ensures
        p <= rem,
        p <= r,
        (rem - p) * t >= r * (pf - a),
{
}

/// Floor division against a positive divisor, stated multiplicatively.
proof fn lemma_div_mul_le(x: int, d: int) by (nonlinear_arith)
    requires
        x >= 0,
        d > 0,
    ensures
        (x / d) * d <= x,
        x / d >= 0,
{
}

/// After a claim over epochs `f ..< e` of `amount`, with the filed
/// prefixes reduced by `amount` on `f ..< upto`: what is left of every
/// epoch's reward still covers every claim its eligible support can make.
proof fn lemma_claims_cover(
    oes: Seq<EpochRecord>,
    es: Seq<EpochRecord>,
    amount: Value,
    f: int,
    e: int,
    upto: int,
)
    requires
        oes.len() == es.len(),
        0 <= f <= e <= upto <= oes.len(),
        amount <= prefix_filed(oes, f),
        1 <= prefix_filed(oes, f),
        forall|j: int|
            0 <= j < oes.len() - 1 ==> (#[trigger] oes[j]).total_support <= oes[
                j + 1
            ].total_support,
        forall|j: int|
            0 <= j < oes.len() ==> prefix_filed(oes, j) <= (#[trigger] oes[j]).total_support,
        forall|j: int|
            0 <= j < oes.len() ==> (#[trigger] oes[j]).reward_remaining * oes[j].total_support
                >= oes[j].reward * prefix_filed(oes, j),
        forall|j: int|
            0 <= j < oes.len() ==> (#[trigger] es[j]).total_support == oes[j].total_support
                && es[j].reward == oes[j].reward,
        forall|j: int|
            f <= j < e ==> (#[trigger] es[j]).reward_remaining == oes[j].reward_remaining
                - pay_of(oes, amount, j),
        forall|j: int|
            0 <= j < oes.len() && !(f <= j < e) ==> (#[trigger] es[j]).reward_remaining == oes[
                j
            ].reward_remaining,
        forall|j: int|
            0 <= j < oes.len() ==> prefix_filed(es, j) == prefix_filed(oes, j) - (if f <= j
                < upto {
                amount as int
            } else {
                0
            }),
    ensures
        forall|j: int|
            0 <= j < es.len() ==> (#[trigger] es[j]).reward_remaining * es[j].total_support
                >= es[j].reward * prefix_filed(es, j),
{
    assert forall|j: int|
        0 <= j < es.len() implies (#[trigger] es[j]).reward_remaining * es[j].total_support
        >= es[j].reward * prefix_filed(es, j) by {
        if f <= j < e {
            let gt = oes[j].total_support as int;
            let gr = oes[j].reward as int;
            let ga = amount as int;
            let pf = prefix_filed(oes, j);
            let rem = oes[j].reward_remaining as int;
            lemma_prefix_filed_monotone(oes, f, j);
            lemma_div_mul_le(gr * ga, gt);
            lemma_claim_step(gr, ga, gt, rem, pf, gr * ga / gt);
        } else {
            assert(es[j].reward_remaining == oes[j].reward_remaining);
            assert(es[j].reward * prefix_filed(es, j) <= es[j].reward * prefix_filed(
                oes,
                j,
            )) by (nonlinear_arith)
                requires
                    es[j].reward >= 0,
                    prefix_filed(es, j) <= prefix_filed(oes, j),
            {}
        }
    }
}

/// After a claim: the per-user index of open epochs still mirrors the
/// support records exactly.  `six0` is the index before the claim, `six1`
/// after the possible removal of `from_epoch`, `six2` after the possible
/// re-filing at `end`.
proof fn lemma_claim_correspondence(
    oes: Seq<EpochRecord>,
    es: Seq<EpochRecord>,
    six0: Seq<(Address, Vec<Index>)>,
    six1: Seq<(Address, Vec<Index>)>,
    six2: Seq<(Address, Vec<Index>)>,
    ua: Address,
    from_epoch: Index,
    end: Index,
    removed: bool,
    refile: bool,
)
    requires
        oes.len() == es.len(),
        oes.len() <= u32::MAX as int + 1,
        0 <= from_epoch < oes.len(),
        refile ==> 0 <= end < oes.len() && end != from_epoch,
        forall|j: int|
            0 <= j < oes.len() && j != from_epoch && !(refile && j == end) ==> (#[trigger] es[
                j
            ]).supports@ == oes[j].supports@,
        forall|b: Address|
            b != ua ==> #[trigger] slookup(es[from_epoch as int].supports@, b) == slookup(
                oes[from_epoch as int].supports@,
                b,
            ),
        refile ==> forall|b: Address|
            b != ua ==> #[trigger] slookup(es[end as int].supports@, b) == slookup(
                oes[end as int].supports@,
                b,
            ),
        slookup(oes[from_epoch as int].supports@, ua) is Some,
        removed <==> slookup(es[from_epoch as int].supports@, ua) is None,
        refile ==> slookup(es[end as int].supports@, ua) is Some,
        removed ==> records_removed(six0, six1, ua, from_epoch) && (forall|b: Address|
            b != ua ==> #[trigger] ilookup(six1, b) == ilookup(six0, b)),
        !removed ==> six1 == six0,
        refile ==> records_added(six1, six2, ua, end) && (forall|b: Address|
            b != ua ==> #[trigger] ilookup(six2, b) == ilookup(six1, b)),
        !refile ==> six2 == six1,
        forall|a: Address, x: Index|
            #[trigger] ilookup(six0, a).contains(x) ==> 0 <= x < oes.len() && slookup(
                oes[x as int].supports@,
                a,
            ) is Some,
        forall|j: int, a: Address|
            0 <= j < oes.len() && #[trigger] slookup(oes[j].supports@, a) is Some ==> ilookup(
                six0,
                a,
            ).contains(j as Index),
    ensures
        forall|a: Address, x: Index|
            #[trigger] ilookup(six2, a).contains(x) ==> 0 <= x < es.len() && slookup(
                es[x as int].supports@,
                a,
            ) is Some,
        forall|j: int, a: Address|
            0 <= j < es.len() && #[trigger] slookup(es[j].supports@, a) is Some ==> ilookup(
                six2,
                a,
            ).contains(j as Index),
{
    assert forall|a: Address, x: Index| #[trigger]
        ilookup(six2, a).contains(x) implies 0 <= x < es.len() && slookup(
        es[x as int].supports@,
        a,
    ) is Some by {
        if a != ua {
            assert(ilookup(six2, a) == ilookup(six0, a));
            assert(slookup(oes[x as int].supports@, a) is Some);
            if x as int == from_epoch {
            } else if refile && x as int == end {
            } else {
                assert(es[x as int].supports@ == oes[x as int].supports@);
            }
        } else if refile && x == end {
            assert(slookup(es[end as int].supports@, ua) is Some);
        } else {
            if refile {
                assert(records_added(six1, six2, ua, end));
            }
            assert(ilookup(six1, a).contains(x));
            if removed {
                assert(records_removed(six0, six1, ua, from_epoch));
                assert(ilookup(six0, a).contains(x) && x != from_epoch);
            } else {
                assert(ilookup(six0, a).contains(x));
            }
            assert(slookup(oes[x as int].supports@, a) is Some);
            if x as int == from_epoch {
                assert(!removed);
            } else {
                assert(es[x as int].supports@ == oes[x as int].supports@);
            }
        }
    }
    assert forall|j: int, a: Address|
        0 <= j < es.len() && #[trigger] slookup(es[j].supports@, a) is Some implies ilookup(
        six2,
        a,
    ).contains(j as Index) by {
        if a != ua {
            if j == from_epoch {
                assert(slookup(oes[j].supports@, a) is Some);
            } else if refile && j == end {
                assert(slookup(oes[j].supports@, a) is Some);
            } else {
                assert(es[j].supports@ == oes[j].supports@);
            }
            assert(ilookup(six0, a).contains(j as Index));
            assert(ilookup(six2, a) == ilookup(six0, a));
        } else {
            if refile && j == end {
                assert(records_added(six1, six2, ua, end));
                assert(ilookup(six2, a).contains(end));
            } else {
                if j == from_epoch {
                    assert(!removed);
                } else {
                    assert(es[j].supports@ == oes[j].supports@);
                }
                assert(slookup(oes[j].supports@, a) is Some);
                assert(ilookup(six0, a).contains(j as Index));
                if removed {
                    assert(records_removed(six0, six1, ua, from_epoch));
                    assert(ilookup(six1, a).contains(j as Index));
                } else {
                    assert(ilookup(six1, a).contains(j as Index));
                }
                if refile {
                    assert(records_added(six1, six2, ua, end));
                }
                assert(ilookup(six2, a).contains(j as Index));
            }
        }
    }
}

impl Validator {
    /// Creates a validator with a fixed owner and validator address, an
    /// empty ledger, and epoch 0 open.
    pub fn create(owner_address: Address, validator_address: Address) -> (v: Validator)
        ensures
            v.wf_ledger(),
            v.owner_address == owner_address,
            v.validator_address == validator_address,
            v.total_delegated == 0,
            v.total_balance == 0,
            v.owner_reward_accrued == 0,
            v.current_epoch == 0,
            v.total_support_at(0) == 0,
            forall|e: int, a: Address| #[trigger] v.support_of(e, a) == 0,
            forall|a: Address| #[trigger] v.open_epochs_of(a) == Seq::<Index>::empty(),
    {
        let mut epochs: Vec<EpochRecord> = Vec::new();
        epochs.push(
            EpochRecord {
                total_support: 0,
                reward: 0,
                reward_remaining: 0,
                supports: Vec::new(),
            },
        );
        let v = Validator {
            owner_address,
            validator_address,
            total_delegated: 0,
            total_balance: 0,
            owner_reward_accrued: 0,
            current_epoch: 0,
            epochs,
            support_indexes: Vec::new(),
        };
        proof {
            assert(v.epochs@.len() == 1);
            assert(sum_amounts(v.epochs@[0].supports@) == 0);
            assert(prefix_filed(v.epochs@, -1) == 0);
            assert(prefix_remaining(v.epochs@, -1) == 0);
            assert(prefix_filed(v.epochs@, 0) == 0);
            assert(prefix_remaining(v.epochs@, 0) == 0);
            assert(forall|a: Address| #[trigger]
                ilookup(v.support_indexes@, a) == Seq::<Index>::empty());
            assert forall|e: int, a: Address| #[trigger] v.support_of(e, a) == 0 by {
                if 0 <= e < 1 {
                    assert(slookup(v.epochs@[e].supports@, a) is None);
                }
            }
            assert forall|e: int, a: Address| #[trigger]
                v.has_support(e, a) implies ilookup(v.support_indexes@, a).contains(
                e as Index,
            ) by {
                assert(slookup(v.epochs@[0].supports@, a) is None);
            }
        }
        v
    }

    /// The epochs at which `user_address` currently has withdrawable
    /// support; empty for an unknown address.
    pub fn get_support_indexes(&self, user_address: Address) -> (r: Vec<Index>)
        requires
            self.wf_ledger(),
        ensures
            r@ == self.open_epochs_of(user_address),
            forall|x: Index|
                #[trigger] r@.contains(x) <==> self.has_support(x as int, user_address),
    {
        index_get(&self.support_indexes, user_address)
    }

    /// Accrues a reward event of `amount`: the owner's share goes to her
    /// accrued reward, the rest becomes the user reward of the closing
    /// epoch, and the next epoch opens with the same support base.  Never
    /// fails and never settles.
    pub fn new_reward(&mut self, amount: Value)
        requires
            old(self).wf_ledger(),
            old(self).total_balance + amount <= u64::MAX,
            old(self).current_epoch < u32::MAX,
        ensures
            final(self).wf_ledger(),
            final(self).current_epoch == old(self).current_epoch + 1,
            final(self).owner_reward_accrued == old(self).owner_reward_accrued + owner_share(
                amount,
            ),
            final(self).total_balance == old(self).total_balance + amount,
            final(self).total_delegated == old(self).total_delegated,
            final(self).owner_address == old(self).owner_address,
            final(self).validator_address == old(self).validator_address,
            final(self).reward_at(old(self).current_epoch as int) == amount - owner_share(amount),
            final(self).remaining_at(old(self).current_epoch as int) == amount - owner_share(
                amount,
            ),
            forall|e: int|
                0 <= e < old(self).epoch_count() && e != old(self).current_epoch ==> final(self).reward_at(e) == old(self).reward_at(e) && final(self).remaining_at(e) == old(self).remaining_at(e),
            forall|e: int|
                0 <= e < old(self).epoch_count() ==> final(self).total_support_at(e) == old(self).total_support_at(e),
            final(self).total_support_at(final(self).current_epoch as int) == old(self).total_support_at(old(self).current_epoch as int),
            forall|e: int, a: Address| #[trigger]
                final(self).support_of(e, a) == old(self).support_of(e, a),
            forall|a: Address| #[trigger]
                final(self).open_epochs_of(a) == old(self).open_epochs_of(a),
    {
        proof {
            lemma_prefix_filed_nonneg(old(self).epochs@, old(self).epoch_count() - 1);
            lemma_prefix_remaining_nonneg(old(self).epochs@, old(self).epoch_count() - 1);
        }
        let c = self.current_epoch as usize;
        let share128 = (amount as u128) * (VALIDATOR_SHARE_NUM as u128) / (
        VALIDATOR_SHARE_DEN as u128);
        let share = share128 as u64;
        let user_part = amount - share;
        self.owner_reward_accrued = self.owner_reward_accrued + share;
        self.total_balance = self.total_balance + amount;
        let ghost mid0 = self.epochs@;
        {
            let rec = &mut self.epochs[c];
            rec.reward = user_part;
            rec.reward_remaining = user_part;
        }
        let t = self.epochs[c].total_support;
        let ghost mid = self.epochs@;
        self.epochs.push(
            EpochRecord {
                total_support: t,
                reward: 0,
                reward_remaining: 0,
                supports: Vec::new(),
            },
        );
        self.current_epoch = self.current_epoch + 1;
        proof {
            let oes = old(self).epochs@;
            let es = self.epochs@;
            let n = oes.len() as int;
            let u = user_part as int;
            assert(es.len() == n + 1);
            assert(forall|j: int| 0 <= j < n && j != c ==> es[j] == oes[j]);
            assert(es[c as int].supports@ == oes[c as int].supports@);
            assert(es[n] == (EpochRecord {
                total_support: t,
                reward: 0,
                reward_remaining: 0,
                supports: es[n].supports,
            }));
            assert(sum_amounts(es[n].supports@) == 0);
            // supports are unchanged epoch by epoch, so all filed prefixes agree
            assert forall|i: int| 0 <= i < n implies prefix_filed(es, i) == prefix_filed(
                oes,
                i,
            ) by {
                lemma_prefix_filed_congruent(oes, es, i);
            }
            assert(prefix_filed(es, n) == prefix_filed(es, n - 1));
            // the remaining reward grew by exactly the user part, at epoch c
            lemma_prefix_remaining_change(mid0, mid, c as int, n - 1);
            lemma_prefix_remaining_congruent(oes, mid0, n - 1);
            lemma_prefix_remaining_congruent(mid, es, n - 1);
            assert(prefix_remaining(es, n - 1) == prefix_remaining(oes, n - 1) + u);
            assert(prefix_remaining(es, n) == prefix_remaining(es, n - 1));
            // the new last epoch satisfies the coverage inequality
            assert(prefix_filed(es, n) <= t as int);
            assert(es[c as int].reward_remaining * es[c as int].total_support >= es[c as int].reward * prefix_filed(es, c as int)) by {
                assert(prefix_filed(es, c as int) <= t as int);
                assert(u * prefix_filed(es, c as int) <= u * (t as int)) by (nonlinear_arith)
                    requires
                        u >= 0,
                        prefix_filed(es, c as int) <= t as int,
                {}
            }
            assert forall|e: int|
                0 <= e < es.len() as int implies (#[trigger] es[e]).reward_remaining * es[e].total_support >= es[e].reward * prefix_filed(es, e) by {
                if e < n && e != c {
                    assert(es[e] == oes[e]);
                    assert(prefix_filed(es, e) == prefix_filed(oes, e));
                } else if e == n {
                    assert(es[e].reward == 0 && es[e].reward_remaining == 0);
                    assert(0 * prefix_filed(es, e) == 0) by (nonlinear_arith) {}
                }
            }
            // index correspondence: supports and the index are untouched
            assert forall|e: int, a: Address| #[trigger]
                self.has_support(e, a) implies ilookup(self.support_indexes@, a).contains(
                e as Index,
            ) by {
                if e == n {
                    assert(slookup(es[n].supports@, a) is None);
                } else {
                    assert(es[e].supports@ == oes[e].supports@);
                    assert(old(self).has_support(e, a));
                }
            }
            assert forall|a: Address, x: Index| #[trigger]
                ilookup(self.support_indexes@, a).contains(x) implies self.has_support(
                x as int,
                a,
            ) by {
                assert(old(self).has_support(x as int, a));
                assert(es[x as int].supports@ == oes[x as int].supports@);
            }
            assert forall|e: int, a: Address| #[trigger]
                self.support_of(e, a) == old(self).support_of(e, a) by {
                if 0 <= e < n {
                    assert(es[e].supports@ == oes[e].supports@);
                } else if e == n {
                    assert(slookup(es[n].supports@, a) is None);
                }
            }
        }
    }

    /// Commits a confirmed vote: `amount` was transferred from the user to
    /// the validator, and is filed as support at the open epoch.  Returns
    /// the open epoch and the user's updated support there.
    ///
    /// The signature must be checked before the transfer is even
    /// requested; a caller passes the verdict in `sig_ok` and must not
    /// settle when it is false.
    pub fn vote(&mut self, user_address: Address, amount: Value, sig_ok: bool) -> (r: Result<
        (Index, Value),
        EngineError,
    >)
        requires
            old(self).wf_ledger(),
            amount > 0,
            old(self).total_balance + amount <= u64::MAX,
            old(self).total_support_at(old(self).current_epoch as int) + amount <= u64::MAX,
        ensures
            final(self).wf_ledger(),
            !sig_ok ==> r == Err::<(Index, Value), EngineError>(EngineError::Unauthorized)
                && *final(self) == *old(self),
            sig_ok ==> {
                let cur = old(self).current_epoch as int;
                &&& r == Ok::<(Index, Value), EngineError>(
                    (
                        old(self).current_epoch,
                        (old(self).support_of(cur, user_address) + amount) as u64,
                    ),
                )
                &&& final(self).support_of(cur, user_address) == old(self).support_of(
                    cur,
                    user_address,
                ) + amount
                &&& forall|e: int, a: Address|
                    !(e == cur && a == user_address) ==> #[trigger] final(self).support_of(e, a)
                        == old(self).support_of(e, a)
                &&& final(self).total_balance == old(self).total_balance + amount
                &&& final(self).total_delegated == old(self).total_delegated + amount
                &&& final(self).total_support_at(cur) == old(self).total_support_at(cur) + amount
                &&& forall|e: int|
                    0 <= e < cur ==> final(self).total_support_at(e) == old(self).total_support_at(e)
                &&& forall|e: int|
                    0 <= e <= cur ==> final(self).reward_at(e) == old(self).reward_at(e) && final(self).remaining_at(e) == old(self).remaining_at(e)
                &&& final(self).current_epoch == old(self).current_epoch
                &&& final(self).owner_reward_accrued == old(self).owner_reward_accrued
                &&& final(self).owner_address == old(self).owner_address
                &&& final(self).validator_address == old(self).validator_address
            },
    {
        if !sig_ok {
            return Err(EngineError::Unauthorized);
        }
        proof {
            lemma_prefix_filed_nonneg(old(self).epochs@, old(self).current_epoch as int - 1);
            lemma_prefix_filed_nonneg(old(self).epochs@, old(self).epoch_count() - 1);
            lemma_prefix_remaining_nonneg(old(self).epochs@, old(self).epoch_count() - 1);
            lemma_sum_nonneg(old(self).epochs@[old(self).current_epoch as int].supports@);
        }
        let c = self.current_epoch as usize;
        let ghost oes = self.epochs@;
        let ghost cur = c as int;
        proof {
            // the filed sum at the open epoch fits under its support base
            assert(prefix_filed(oes, cur) == prefix_filed(oes, cur - 1) + sum_amounts(
                oes[cur].supports@,
            ));
            assert(sum_amounts(oes[cur].supports@) <= prefix_filed(oes, cur));
        }
        let newv = {
            let rec = &mut self.epochs[c];
            let t = rec.total_support;
            rec.total_support = t + amount;
            support_add(&mut rec.supports, user_address, amount)
        };
        index_add(&mut self.support_indexes, user_address, self.current_epoch);
        self.total_delegated = self.total_delegated + amount;
        self.total_balance = self.total_balance + amount;
        proof {
            let es = self.epochs@;
            let n = oes.len() as int;
            assert(forall|j: int| 0 <= j < n && j != cur ==> es[j] == oes[j]);
            assert(es[cur].reward == oes[cur].reward);
            assert(es[cur].reward_remaining == oes[cur].reward_remaining);
            assert(sum_amounts(es[cur].supports@) == sum_amounts(oes[cur].supports@) + amount);
            lemma_prefix_filed_change(oes, es, cur, n - 1);
            assert forall|i: int| 0 <= i < n implies prefix_filed(es, i) == prefix_filed(oes, i)
                + (if i >= cur {
                amount as int
            } else {
                0
            }) by {
                lemma_prefix_filed_change(oes, es, cur, i);
            }
            lemma_prefix_remaining_congruent(oes, es, n - 1);
            // coverage at the open epoch: its reward is still zero
            assert forall|e: int|
                0 <= e < n implies (#[trigger] es[e]).reward_remaining * es[e].total_support
                >= es[e].reward * prefix_filed(es, e) by {
                if e < cur {
                    assert(es[e] == oes[e]);
                    assert(prefix_filed(es, e) == prefix_filed(oes, e));
                } else {
                    assert(e == cur);
                    assert(es[e].reward == 0);
                    assert(es[e].reward_remaining == 0);
                    assert(0 * es[e].total_support == 0) by (nonlinear_arith) {}
                    assert(0 * prefix_filed(es, e) == 0) by (nonlinear_arith) {}
                }
            }
            // index correspondence
            assert forall|a: Address, x: Index| #[trigger]
                ilookup(self.support_indexes@, a).contains(x) implies self.has_support(
                x as int,
                a,
            ) by {
                if a == user_address {
                    if x == self.current_epoch {
                        assert(slookup(es[cur].supports@, a) is Some);
                    } else {
                        assert(ilookup(old(self).support_indexes@, a).contains(x));
                        assert(old(self).has_support(x as int, a));
                        if x as int != cur {
                            assert(es[x as int] == oes[x as int]);
                        }
                    }
                } else {
                    assert(ilookup(self.support_indexes@, a) == ilookup(
                        old(self).support_indexes@,
                        a,
                    ));
                    assert(old(self).has_support(x as int, a));
                    if x as int != cur {
                        assert(es[x as int] == oes[x as int]);
                    }
                }
            }
            assert forall|e: int, a: Address| #[trigger]
                self.has_support(e, a) implies ilookup(self.support_indexes@, a).contains(
                e as Index,
            ) by {
                if e == cur && a == user_address {
                    assert(records_added(
                        old(self).support_indexes@,
                        self.support_indexes@,
                        user_address,
                        old(self).current_epoch,
                    ));
                    assert(ilookup(self.support_indexes@, a).contains(old(self).current_epoch));
                } else {
                    if e != cur {
                        assert(es[e] == oes[e]);
                    }
                    assert(old(self).has_support(e, a));
                    assert(ilookup(old(self).support_indexes@, a).contains(e as Index));
                    if a == user_address {
                        assert(records_added(
                            old(self).support_indexes@,
                            self.support_indexes@,
                            user_address,
                            old(self).current_epoch,
                        ));
                    } else {
                        assert(ilookup(self.support_indexes@, a) == ilookup(
                            old(self).support_indexes@,
                            a,
                        ));
                    }
                }
            }
            assert forall|e: int, a: Address|
                !(e == cur && a == user_address) implies #[trigger] self.support_of(e, a) == old(self).support_of(e, a) by {
                if 0 <= e < n {
                    if e != cur {
                        assert(es[e] == oes[e]);
                    } else {
                        assert(slookup(es[cur].supports@, a) == slookup(oes[cur].supports@, a));
                    }
                }
            }
        }
        Ok((self.current_epoch, newv))
    }

    /// Commits a confirmed owner withdrawal of `amount` from the owner's
    /// accrued reward.  Funds are checked first, then the signature; the
    /// caller settles the transfer between the two checks passing and this
    /// commit, and must not settle when either fails.
    pub fn owner_withdraw_reward(&mut self, amount: Value, sig_ok: bool) -> (r: Result<
        (),
        EngineError,
    >)
        requires
            old(self).wf_ledger(),
        ensures
            final(self).wf_ledger(),
            amount > old(self).owner_reward_accrued ==> r == Err::<(), EngineError>(
                EngineError::InsufficientFunds,
            ) && *final(self) == *old(self),
            amount <= old(self).owner_reward_accrued && !sig_ok ==> r == Err::<(), EngineError>(
                EngineError::Unauthorized,
            ) && *final(self) == *old(self),
            amount <= old(self).owner_reward_accrued && sig_ok ==> {
                &&& r == Ok::<(), EngineError>(())
                &&& final(self).owner_reward_accrued == old(self).owner_reward_accrued - amount
                &&& final(self).total_balance == old(self).total_balance - amount
                &&& final(self).total_delegated == old(self).total_delegated
                &&& final(self).current_epoch == old(self).current_epoch
                &&& final(self).epochs@ == old(self).epochs@
                &&& final(self).support_indexes@ == old(self).support_indexes@
                &&& final(self).owner_address == old(self).owner_address
                &&& final(self).validator_address == old(self).validator_address
            },
    {
        if amount > self.owner_reward_accrued {
            return Err(EngineError::InsufficientFunds);
        }
        if !sig_ok {
            return Err(EngineError::Unauthorized);
        }
        proof {
            lemma_prefix_filed_nonneg(old(self).epochs@, old(self).epoch_count() - 1);
            lemma_prefix_remaining_nonneg(old(self).epochs@, old(self).epoch_count() - 1);
        }
        self.owner_reward_accrued = self.owner_reward_accrued - amount;
        self.total_balance = self.total_balance - amount;
        Ok(())
    }

    /// Commits a confirmed user withdrawal: the bounded reward catch-up.
    ///
    /// The claim of `amount` against the support filed at `from_epoch`
    /// collects its proportional share of each closed epoch's reward, for
    /// at most `INDEX_MAX_DELTA` epochs.  If that reaches the open epoch,
    /// principal and reward are paid out together and the call returns
    /// `None`; otherwise only the reward is paid, the principal is
    /// re-filed at the boundary epoch, and the call returns the boundary
    /// epoch with the support now filed there, so a later call can resume.
    ///
    /// The caller first quotes the payout with [`Self::withdraw_quote`],
    /// settles that transfer, and commits here only after confirmation.
    /// Every refusal leaves the ledger untouched.
    #[verifier::loop_isolation(false)]
    #[verifier::rlimit(100)]
    #[verifier::spinoff_prover]
    pub fn user_withdraw_amount_with_reward(
        &mut self,
        user_address: Address,
        from_epoch: Index,
        amount: Value,
        sig_ok: bool,
    ) -> (r: Result<Option<(Index, Value)>, EngineError>)
        requires
            old(self).wf_ledger(),
        ensures
            final(self).wf_ledger(),
            old(self).withdraw_refusal(user_address, from_epoch, amount, sig_ok) is Some ==> {
                &&& *final(self) == *old(self)
                &&& r == Err::<Option<(Index, Value)>, EngineError>(
                    old(self).withdraw_refusal(user_address, from_epoch, amount, sig_ok)->Some_0,
                )
            },
            old(self).withdraw_refusal(user_address, from_epoch, amount, sig_ok) is None ==> ({
                let f = from_epoch as int;
                let e = end_epoch_of(from_epoch, old(self).current_epoch);
                let w = accrued(old(self).epochs@, amount, f, e);
                let n = old(self).epoch_count();
                &&& final(self).current_epoch == old(self).current_epoch
                &&& final(self).owner_reward_accrued == old(self).owner_reward_accrued
                &&& final(self).owner_address == old(self).owner_address
                &&& final(self).validator_address == old(self).validator_address
                &&& final(self).epoch_count() == n
                &&& forall|j: int|
                    0 <= j < n ==> final(self).total_support_at(j) == old(self).total_support_at(
                        j,
                    ) && final(self).reward_at(j) == old(self).reward_at(j)
                &&& forall|j: int|
                    f <= j < e ==> final(self).remaining_at(j) == old(self).remaining_at(j)
                        - pay_of(old(self).epochs@, amount, j)
                &&& forall|j: int|
                    0 <= j < n && !(f <= j < e) ==> final(self).remaining_at(j) == old(
                        self,
                    ).remaining_at(j)
                &&& final(self).support_of(f, user_address) == old(self).support_of(
                    f,
                    user_address,
                ) - amount
                &&& if e < old(self).current_epoch {
                    {
                        &&& r == Ok::<Option<(Index, Value)>, EngineError>(
                            Some(
                                (
                                    e as Index,
                                    (old(self).support_of(e, user_address) + amount) as u64,
                                ),
                            ),
                        )
                        &&& final(self).support_of(e, user_address) == old(self).support_of(
                            e,
                            user_address,
                        ) + amount
                        &&& forall|j: int, a: Address|
                            !(j == f && a == user_address) && !(j == e && a == user_address)
                                ==> #[trigger] final(self).support_of(j, a) == old(
                                self,
                            ).support_of(j, a)
                        &&& final(self).total_balance == old(self).total_balance - w
                        &&& final(self).total_delegated == old(self).total_delegated
                    }
                } else {
                    {
                        &&& r == Ok::<Option<(Index, Value)>, EngineError>(None)
                        &&& forall|j: int, a: Address|
                            !(j == f && a == user_address) ==> #[trigger] final(self).support_of(
                                j,
                                a,
                            ) == old(self).support_of(j, a)
                        &&& final(self).total_balance == old(self).total_balance - amount - w
                        &&& final(self).total_delegated == old(self).total_delegated - amount
                    }
                }
            }),
    {
        if !sig_ok {
            return Err(EngineError::Unauthorized);
        }
        if from_epoch > self.current_epoch {
            return Err(EngineError::NoSuchSupport);
        }
        let fe = from_epoch as usize;
        let supported = match support_get(&self.epochs[fe].supports, user_address) {
            Some(x) => x,
            None => {
                return Err(EngineError::NoSuchSupport);
            },
        };
        if amount > supported {
            return Err(EngineError::InsufficientSupport);
        }
        let ghost oes = self.epochs@;
        let ghost f = from_epoch as int;
        let ghost n = oes.len() as int;
        let ghost ua = user_address;
        proof {
            lemma_slookup_positive(oes[f].supports@, ua);
            lemma_entry_le_sum(oes[f].supports@, ua);
            lemma_prefix_filed_nonneg(oes, f - 1);
            lemma_prefix_filed_nonneg(oes, n - 1);
            lemma_prefix_remaining_nonneg(oes, n - 1);
            assert(prefix_filed(oes, f) == prefix_filed(oes, f - 1) + sum_amounts(
                oes[f].supports@,
            ));
            assert(amount <= prefix_filed(oes, f));
        }
        let end: Index = if self.current_epoch - from_epoch > INDEX_MAX_DELTA {
            from_epoch + INDEX_MAX_DELTA
        } else {
            self.current_epoch
        };
        let ghost e = end as int;
        proof {
            assert(e == end_epoch_of(from_epoch, old(self).current_epoch));
        }
        let mut w: u64 = 0;
        let mut i: Index = from_epoch;
        while i < end
            invariant
                from_epoch <= i <= end,
                self.epochs@.len() == n,
                self.owner_address == old(self).owner_address,
                self.validator_address == old(self).validator_address,
                self.total_balance == old(self).total_balance,
                self.total_delegated == old(self).total_delegated,
                self.owner_reward_accrued == old(self).owner_reward_accrued,
                self.current_epoch == old(self).current_epoch,
                self.support_indexes@ == old(self).support_indexes@,
                forall|j: int|
                    0 <= j < n ==> (#[trigger] self.epochs@[j]).total_support == oes[j].total_support && self.epochs@[j].reward == oes[j].reward && self.epochs@[j].supports@ == oes[j].supports@,
                forall|j: int|
                    f <= j < i ==> (#[trigger] self.epochs@[j]).reward_remaining == oes[j].reward_remaining - pay_of(oes, amount, j),
                forall|j: int|
                    0 <= j < n && !(f <= j < i) ==> (#[trigger] self.epochs@[j]).reward_remaining == oes[j].reward_remaining,
                w == accrued(oes, amount, f, i as int),
                w <= prefix_remaining(oes, i as int - 1) - prefix_remaining(oes, f - 1),
                prefix_remaining(self.epochs@, n - 1) == prefix_remaining(oes, n - 1) - w,
            decreases end - i,
        {
            let idx = i as usize;
            let t = self.epochs[idx].total_support;
            let rwd = self.epochs[idx].reward;
            let rem = self.epochs[idx].reward_remaining;
            let ghost gt = t as int;
            let ghost gr = rwd as int;
            let ghost ga = amount as int;
            let ghost pf = prefix_filed(oes, i as int);
            proof {
                lemma_total_support_monotone(oes, f, i as int);
                lemma_prefix_filed_monotone(oes, f, i as int);
                assert(ga <= pf);
                assert(pf <= gt);
                assert(gt >= oes[f].total_support);
                assert(oes[f].total_support >= prefix_filed(oes, f));
                assert(gt > 0);
                assert((rwd as u128) * (amount as u128) <= u128::MAX) by (nonlinear_arith)
                    requires
                        rwd <= u64::MAX,
                        amount <= u64::MAX,
                {}
            }
            let p128 = (rwd as u128) * (amount as u128) / (t as u128);
            proof {
                lemma_div_mul_le(gr * ga, gt);
                assert(rem * gt >= gr * pf);
                lemma_claim_step(gr, ga, gt, rem as int, pf, gr * ga / gt);
                assert(p128 == gr * ga / gt);
                assert(p128 <= rem);
            }
            let p = p128 as u64;
            let ghost pre = self.epochs@;
            {
                let recm = &mut self.epochs[idx];
                recm.reward_remaining = rem - p;
            }
            proof {
                lemma_prefix_remaining_change(pre, self.epochs@, i as int, n - 1);
                lemma_accrued_snoc(oes, amount, f, i as int);
                assert(pay_of(oes, amount, i as int) == p);
                assert(prefix_remaining(oes, i as int) == prefix_remaining(oes, i as int - 1)
                    + oes[i as int].reward_remaining);
                lemma_prefix_remaining_monotone(oes, i as int, n - 1);
                lemma_prefix_remaining_nonneg(oes, f - 1);
                assert(w + p <= u64::MAX);
            }
            w = w + p;
            i = i + 1;
        }
        let ghost s1 = self.epochs@;
        let ghost gw = w as int;
        proof {
            assert(gw == accrued(oes, amount, f, e));
            lemma_prefix_remaining_monotone(oes, e - 1, n - 1);
            lemma_prefix_remaining_nonneg(oes, f - 1);
            assert(gw <= prefix_remaining(oes, n - 1));
        }
        let removed = {
            let recm = &mut self.epochs[fe];
            support_sub(&mut recm.supports, user_address, amount)
        };
        if removed {
            index_remove(&mut self.support_indexes, user_address, from_epoch);
        }
        let ghost s2 = self.epochs@;
        let ghost six0 = old(self).support_indexes@;
        let ghost six1 = self.support_indexes@;
        proof {
            assert(forall|j: int| 0 <= j < n && j != f ==> (#[trigger] s2[j]) == s1[j]);
            assert(sum_amounts(s2[f].supports@) == sum_amounts(oes[f].supports@) - amount);
            assert forall|j: int| 0 <= j < n implies prefix_filed(s2, j) == prefix_filed(oes, j)
                - (if j >= f {
                amount as int
            } else {
                0
            }) by {
                lemma_prefix_filed_congruent(oes, s1, j);
                lemma_prefix_filed_change(s1, s2, f, j);
            }
            lemma_prefix_remaining_congruent(s1, s2, n - 1);
        }
        if end < self.current_epoch {
            // not fully caught up: pay the reward only and re-file the
            // principal at the boundary epoch
            let ee = end as usize;
            proof {
                lemma_prefix_filed_nonneg(s2, e - 1);
                assert(prefix_filed(s2, e) == prefix_filed(s2, e - 1) + sum_amounts(
                    s2[e].supports@,
                ));
                assert(sum_amounts(s2[e].supports@) + amount <= prefix_filed(oes, e));
                assert(prefix_filed(oes, e) <= oes[e].total_support);
            }
            let bal = if amount > 0 {
                let b = {
                    let recm = &mut self.epochs[ee];
                    support_add(&mut recm.supports, user_address, amount)
                };
                index_add(&mut self.support_indexes, user_address, end);
                b
            } else {
                match support_get(&self.epochs[ee].supports, user_address) {
                    Some(x) => x,
                    None => 0,
                }
            };
            self.total_balance = self.total_balance - w;
            proof {
                let es = self.epochs@;
                let six2 = self.support_indexes@;
                assert(forall|j: int| 0 <= j < n && j != e ==> (#[trigger] es[j]) == s2[j]);
                assert(es[e].supports@ == s2[e].supports@ || sum_amounts(es[e].supports@)
                    == sum_amounts(s2[e].supports@) + amount);
                assert forall|j: int| 0 <= j < n implies prefix_filed(es, j) == prefix_filed(
                    oes,
                    j,
                ) - (if f <= j < e {
                    amount as int
                } else {
                    0
                }) by {
                    if amount > 0 {
                        lemma_prefix_filed_change(s2, es, e, j);
                    } else {
                        lemma_prefix_filed_congruent(s2, es, j);
                    }
                }
                lemma_prefix_remaining_congruent(s2, es, n - 1);
                assert(prefix_remaining(es, n - 1) == prefix_remaining(oes, n - 1) - gw);
                assert(self.total_delegated == prefix_filed(es, n - 1));
                if amount > 0 {
                    assert(slookup(es[e].supports@, ua) is Some);
                    assert(forall|b: Address|
                        b != ua ==> #[trigger] slookup(es[e].supports@, b) == slookup(
                            oes[e].supports@,
                            b,
                        ));
                }
                assert(forall|b: Address|
                    b != ua ==> #[trigger] slookup(es[f].supports@, b) == slookup(
                        oes[f].supports@,
                        b,
                    ));
                lemma_claims_cover(oes, es, amount, f, e, e);
                lemma_claim_correspondence(
                    oes,
                    es,
                    six0,
                    six1,
                    six2,
                    ua,
                    from_epoch,
                    end,
                    removed,
                    amount > 0,
                );
            }
            Ok(Some((end, bal)))
        } else {
            // fully caught up: pay principal and reward together
            proof {
                assert(e == self.current_epoch as int);
                lemma_prefix_filed_monotone(oes, f, n - 1);
                assert(amount <= prefix_filed(oes, n - 1));
            }
            self.total_balance = self.total_balance - amount;
            self.total_balance = self.total_balance - w;
            self.total_delegated = self.total_delegated - amount;
            proof {
                let es = self.epochs@;
                let six2 = self.support_indexes@;
                assert(es == s2);
                assert(six2 == six1);
                assert(prefix_remaining(es, n - 1) == prefix_remaining(oes, n - 1) - gw);
                assert(self.total_delegated == prefix_filed(es, n - 1));
                assert(forall|b: Address|
                    b != ua ==> #[trigger] slookup(es[f].supports@, b) == slookup(
                        oes[f].supports@,
                        b,
                    ));
                lemma_claims_cover(oes, es, amount, f, e, n);
                lemma_claim_correspondence(
                    oes,
                    es,
                    six0,
                    six1,
                    six2,
                    ua,
                    from_epoch,
                    from_epoch,
                    removed,
                    false,
                );
            }
            Ok(None)
        }
    }

    /// Quotes a withdrawal without touching the ledger: the amount the
    /// settlement facility must transfer from the validator to the user
    /// before [`Self::user_withdraw_amount_with_reward`] may commit — the
    /// accrued reward alone while the catch-up stops short of the open
    /// epoch, principal plus reward once it reaches it.  Refused exactly
    /// as the commit would refuse.
    #[verifier::loop_isolation(false)]
    #[verifier::rlimit(100)]
    #[verifier::spinoff_prover]
    pub fn withdraw_quote(
        &self,
        user_address: Address,
        from_epoch: Index,
        amount: Value,
        sig_ok: bool,
    ) -> (r: Result<Value, EngineError>)
        requires
            self.wf_ledger(),
        ensures
            self.withdraw_refusal(user_address, from_epoch, amount, sig_ok) is Some ==> r
                == Err::<Value, EngineError>(
                self.withdraw_refusal(user_address, from_epoch, amount, sig_ok)->Some_0,
            ),
            self.withdraw_refusal(user_address, from_epoch, amount, sig_ok) is None ==> ({
                let e = end_epoch_of(from_epoch, self.current_epoch);
                let w = accrued(self.epochs@, amount, from_epoch as int, e);
                r == Ok::<Value, EngineError>(
                    (if e < self.current_epoch {
                        w
                    } else {
                        amount + w
                    }) as u64,
                )
            }),
    {
        if !sig_ok {
            return Err(EngineError::Unauthorized);
        }
        if from_epoch > self.current_epoch {
            return Err(EngineError::NoSuchSupport);
        }
        let fe = from_epoch as usize;
        let supported = match support_get(&self.epochs[fe].supports, user_address) {
            Some(x) => x,
            None => {
                return Err(EngineError::NoSuchSupport);
            },
        };
        if amount > supported {
            return Err(EngineError::InsufficientSupport);
        }
        let ghost oes = self.epochs@;
        let ghost f = from_epoch as int;
        let ghost n = oes.len() as int;
        proof {
            lemma_slookup_positive(oes[f].supports@, user_address);
            lemma_entry_le_sum(oes[f].supports@, user_address);
            lemma_prefix_filed_nonneg(oes, f - 1);
            lemma_prefix_filed_nonneg(oes, n - 1);
            lemma_prefix_remaining_nonneg(oes, n - 1);
            assert(prefix_filed(oes, f) == prefix_filed(oes, f - 1) + sum_amounts(
                oes[f].supports@,
            ));
            assert(amount <= prefix_filed(oes, f));
        }
        let end: Index = if self.current_epoch - from_epoch > INDEX_MAX_DELTA {
            from_epoch + INDEX_MAX_DELTA
        } else {
            self.current_epoch
        };
        let ghost e = end as int;
        let mut w: u64 = 0;
        let mut i: Index = from_epoch;
        while i < end
            invariant
                from_epoch <= i <= end,
                w == accrued(oes, amount, f, i as int),
                w <= prefix_remaining(oes, i as int - 1) - prefix_remaining(oes, f - 1),
            decreases end - i,
        {
            let idx = i as usize;
            let t = self.epochs[idx].total_support;
            let rwd = self.epochs[idx].reward;
            let ghost rem = self.epochs@[i as int].reward_remaining as int;
            let ghost gt = t as int;
            let ghost gr = rwd as int;
            let ghost ga = amount as int;
            let ghost pf = prefix_filed(oes, i as int);
            proof {
                lemma_total_support_monotone(oes, f, i as int);
                lemma_prefix_filed_monotone(oes, f, i as int);
                assert(gt > 0);
                assert((rwd as u128) * (amount as u128) <= u128::MAX) by (nonlinear_arith)
                    requires
                        rwd <= u64::MAX,
                        amount <= u64::MAX,
                {}
            }
            let p128 = (rwd as u128) * (amount as u128) / (t as u128);
            proof {
                lemma_div_mul_le(gr * ga, gt);
                assert(rem * gt >= gr * pf);
                lemma_claim_step(gr, ga, gt, rem, pf, gr * ga / gt);
                lemma_accrued_snoc(oes, amount, f, i as int);
                assert(prefix_remaining(oes, i as int) == prefix_remaining(oes, i as int - 1)
                    + oes[i as int].reward_remaining);
                lemma_prefix_remaining_monotone(oes, i as int, n - 1);
                lemma_prefix_remaining_nonneg(oes, f - 1);
                assert(w + p128 <= u64::MAX);
            }
            let p = p128 as u64;
            w = w + p;
            i = i + 1;
        }
        proof {
            lemma_prefix_remaining_monotone(oes, e - 1, n - 1);
            lemma_prefix_remaining_nonneg(oes, f - 1);
            lemma_prefix_filed_monotone(oes, f, n - 1);
        }
        if end < self.current_epoch {
            Ok(w)
        } else {
            Ok(amount + w)
        }
    }
}

/// How many withdrawal calls a claim filed at `from_epoch` still needs to
/// catch up with `current`: the epochs in between, divided by
/// `INDEX_MAX_DELTA` and rounded up.
pub open spec fn calls_needed(from_epoch: int, current: int) -> int {
    (current - from_epoch + INDEX_MAX_DELTA - 1) / (INDEX_MAX_DELTA as int)
}

/// Conservation.  Every operation requires and re-establishes
/// [`Validator::wf_ledger`], so along any sequence of votes, reward
/// events and withdrawals the total balance always covers the delegated
/// stake plus the owner's accrued reward.
pub proof fn lemma_conservation(v: Validator)
    requires
        v.wf_ledger(),
    ensures
        v.total_balance >= v.total_delegated + v.owner_reward_accrued,
{
    lemma_prefix_remaining_nonneg(v.epochs@, v.epoch_count() - 1);
}

/// Bounded cost.  A single withdrawal visits exactly the epochs
/// `from_epoch ..< end_epoch_of(from_epoch, current)`: never more than
/// `INDEX_MAX_DELTA` of them, however far `current` has moved on, and the
/// catch-up reaches the open epoch exactly when at most
/// `INDEX_MAX_DELTA` epochs remained.
pub proof fn lemma_bounded_catchup(from_epoch: Index, current: Index)
    requires
        from_epoch <= current,
    ensures
        end_epoch_of(from_epoch, current) - from_epoch <= INDEX_MAX_DELTA,
        from_epoch <= end_epoch_of(from_epoch, current) <= current,
        (end_epoch_of(from_epoch, current) == current) <==> (current - from_epoch
            <= INDEX_MAX_DELTA),
{
}

/// No double claim.  A committed withdrawal leaves the record at
/// `from_epoch` reduced by the claimed amount, so a second claim against
/// the same record for more than what is left — in particular, repeating
/// a full claim — is refused: with `NoSuchSupport` when the record is
/// gone, with `InsufficientSupport` otherwise, and never accepted.
pub proof fn lemma_no_double_claim(
    v: Validator,
    user_address: Address,
    from_epoch: Index,
    amount: Value,
)
    requires
        v.wf_ledger(),
        amount > 0,
        v.support_of(from_epoch as int, user_address) < amount,
    ensures
        v.withdraw_refusal(user_address, from_epoch, amount, true) == (if v.support_of(
            from_epoch as int,
            user_address,
        ) == 0 {
            Some(EngineError::NoSuchSupport)
        } else {
            Some(EngineError::InsufficientSupport)
        }),
{
    let f = from_epoch as int;
    if v.has_support(f, user_address) {
        lemma_slookup_positive(v.epochs@[f].supports@, user_address);
    }
}

/// The last call of a catch-up chain.  A claim within `INDEX_MAX_DELTA`
/// of the open epoch needs exactly one more call — the one whose catch-up
/// reaches the open epoch, which the contract answers with `None` — and a
/// claim filed at the open epoch itself needs none.  With
/// [`lemma_continuation_progress`], which drops `calls_needed` by one per
/// continuation, a claim `k` calls behind reaches `None` in `k` calls.
pub proof fn lemma_last_call(from_epoch: Index, current: Index)
    requires
        from_epoch <= current,
    ensures
        (calls_needed(from_epoch as int, current as int) <= 1) <==> (current - from_epoch
            <= INDEX_MAX_DELTA),
        (calls_needed(from_epoch as int, current as int) == 0) <==> (from_epoch == current),
{
}

/// Continuation correctness, one step at a time.  A withdrawal that
/// returns a continuation stopped exactly `INDEX_MAX_DELTA` epochs past
/// `from_epoch`; in the committed state the re-filed balance validates a
/// follow-up claim from the boundary epoch; and the number of calls such
/// a claim still needs drops by exactly one — so a claim `k` calls behind
/// reaches the open epoch, and with it `None`, after `k` calls.
pub proof fn lemma_continuation_progress(
    v0: Validator,
    v1: Validator,
    user_address: Address,
    from_epoch: Index,
    amount: Value,
)
    requires
        v0.wf_ledger(),
        v1.wf_ledger(),
        amount > 0,
        v0.withdraw_refusal(user_address, from_epoch, amount, true) is None,
        end_epoch_of(from_epoch, v0.current_epoch) < v0.current_epoch,
        v1.current_epoch == v0.current_epoch,
        v1.support_of(end_epoch_of(from_epoch, v0.current_epoch), user_address) == v0.support_of(
            end_epoch_of(from_epoch, v0.current_epoch),
            user_address,
        ) + amount,
    ensures
        end_epoch_of(from_epoch, v0.current_epoch) == from_epoch + INDEX_MAX_DELTA,
        v1.withdraw_refusal(
            user_address,
            end_epoch_of(from_epoch, v0.current_epoch) as Index,
            (v0.support_of(end_epoch_of(from_epoch, v0.current_epoch), user_address)
                + amount) as u64,
            true,
        ) is None,
        calls_needed(end_epoch_of(from_epoch, v0.current_epoch), v1.current_epoch as int)
            == calls_needed(from_epoch as int, v0.current_epoch as int) - 1,
{
    let cur = v0.current_epoch as int;
    let e = end_epoch_of(from_epoch, v0.current_epoch);
    let bal = v0.support_of(e, user_address) + amount;
    assert(e == from_epoch + INDEX_MAX_DELTA);
    assert(0 <= e < v1.epochs@.len());
    assert(v1.support_of(e, user_address) == bal);
    assert(v1.has_support(e, user_address)) by {
        if slookup(v1.epochs@[e].supports@, user_address) is None {
            assert(v1.support_of(e, user_address) == 0);
        }
    }
    assert(calls_needed(e, cur) == calls_needed(from_epoch as int, cur) - 1) by {
        let d = INDEX_MAX_DELTA as int;
        let x = cur - from_epoch;
        assert(calls_needed(from_epoch as int, cur) == (x - 1 + d) / d);
        assert(calls_needed(e, cur) == (x - 1 - d + d) / d);
        assert((x - 1 + d) / d == (x - 1) / d + 1) by {
            vstd::arithmetic::div_mod::lemma_div_plus_one(x - 1, d);
        }
    }
}

} // verus!

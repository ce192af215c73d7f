//! Per-epoch support records, kept as a list of (address, amount) pairs
//! with unique addresses and strictly positive amounts.
//!
//! The spec view of such a list is the lookup function [`slookup`] and the
//! total [`sum_amounts`]; the executable operations state exactly how they
//! change both.

use vstd::prelude::*;

use crate::Address;
use crate::Value;

verus! {

/// The amount recorded for `a`, if any.
pub open spec fn slookup(s: Seq<(Address, Value)>, a: Address) -> Option<Value>
    decreases s.len(),
{
    if s.len() == 0 {
        None
    } else if s[0].0 == a {
        Some(s[0].1)
    } else {
        slookup(s.drop_first(), a)
    }
}

/// The sum of all recorded amounts.
pub open spec fn sum_amounts(s: Seq<(Address, Value)>) -> int
    decreases s.len(),
{
    if s.len() == 0 {
        0
    } else {
        s[0].1 + sum_amounts(s.drop_first())
    }
}

/// No address occurs twice.
pub open spec fn unique_addrs(s: Seq<(Address, Value)>) -> bool {
    forall|i: int, j: int| 0 <= i < j < s.len() ==> s[i].0 != s[j].0
}

/// Every recorded amount is strictly positive: a record that reaches zero
/// is removed, never kept.
pub open spec fn positive_amounts(s: Seq<(Address, Value)>) -> bool {
    forall|i: int| 0 <= i < s.len() ==> #[trigger] s[i].1 > 0
}

/// A well-formed support list: unique addresses, positive amounts.
pub open spec fn wf_supports(s: Seq<(Address, Value)>) -> bool {
    unique_addrs(s) && positive_amounts(s)
}

pub proof fn lemma_sum_nonneg(s: Seq<(Address, Value)>)
    ensures
        sum_amounts(s) >= 0,
    decreases s.len(),
{
    if s.len() > 0 {
        lemma_sum_nonneg(s.drop_first());
    }
}

/// A present entry contributes to the sum: its amount never exceeds it.
pub proof fn lemma_entry_le_sum(s: Seq<(Address, Value)>, a: Address)
    requires
        slookup(s, a) is Some,
    ensures
        slookup(s, a)->Some_0 <= sum_amounts(s),
    decreases s.len(),
{
    if s.len() > 0 {
        if s[0].0 == a {
            lemma_sum_nonneg(s.drop_first());
        } else {
            lemma_entry_le_sum(s.drop_first(), a);
        }
    }
}

/// Relates the recursive lookup to a position in the list.
pub proof fn lemma_slookup_at(s: Seq<(Address, Value)>, i: int)
    requires
        unique_addrs(s),
        0 <= i < s.len(),
    ensures
        slookup(s, s[i].0) == Some(s[i].1),
    decreases s.len(),
{
    if i > 0 {
        lemma_slookup_at(s.drop_first(), i - 1);
    }
}

/// An address at no position looks up to nothing.
pub proof fn lemma_slookup_absent(s: Seq<(Address, Value)>, a: Address)
    requires
        forall|j: int| 0 <= j < s.len() ==> s[j].0 != a,
    ensures
        slookup(s, a) is None,
    decreases s.len(),
{
    if s.len() > 0 {
        lemma_slookup_absent(s.drop_first(), a);
    }
}

/// A positive lookup means the amount is positive.
pub proof fn lemma_slookup_positive(s: Seq<(Address, Value)>, a: Address)
    requires
        positive_amounts(s),
        slookup(s, a) is Some,
    ensures
        slookup(s, a)->Some_0 > 0,
    decreases s.len(),
{
    if s.len() > 0 && s[0].0 != a {
        lemma_slookup_positive(s.drop_first(), a);
    }
}

proof fn lemma_update_effect(s: Seq<(Address, Value)>, i: int, v: Value)
    requires
        unique_addrs(s),
        0 <= i < s.len(),
    ensures
        forall|b: Address|
            slookup(s.update(i, (s[i].0, v)), b) == if b == s[i].0 {
                Some(v)
            } else {
                slookup(s, b)
            },
        sum_amounts(s.update(i, (s[i].0, v))) == sum_amounts(s) - s[i].1 + v,
    decreases s.len(),
{
    let t = s.update(i, (s[i].0, v));
    if i == 0 {
        assert(t.drop_first() =~= s.drop_first());
        assert forall|b: Address|
            slookup(t, b) == (if b == s[i].0 {
                Some(v)
            } else {
                slookup(s, b)
            }) by {
            if b != s[0].0 {
                assert(slookup(t, b) == slookup(t.drop_first(), b));
            }
        }
    } else {
        lemma_update_effect(s.drop_first(), i - 1, v);
        assert(t.drop_first() =~= s.drop_first().update(i - 1, (s[i].0, v)));
        assert(t[0] == s[0]);
        assert forall|b: Address|
            slookup(t, b) == (if b == s[i].0 {
                Some(v)
            } else {
                slookup(s, b)
            }) by {
            if b == s[0].0 {
                assert(s[0].0 != s[i].0);
            } else {
                assert(slookup(t, b) == slookup(t.drop_first(), b));
                assert(slookup(s, b) == slookup(s.drop_first(), b));
            }
        }
        assert(sum_amounts(t) == t[0].1 + sum_amounts(t.drop_first()));
    }
}

proof fn lemma_push_effect(s: Seq<(Address, Value)>, a: Address, v: Value)
    requires
        slookup(s, a) is None,
    ensures
        forall|b: Address|
            slookup(s.push((a, v)), b) == if b == a {
                Some(v)
            } else {
                slookup(s, b)
            },
        sum_amounts(s.push((a, v))) == sum_amounts(s) + v,
    decreases s.len(),
{
    let t = s.push((a, v));
    if s.len() == 0 {
        assert(t.drop_first() =~= Seq::<(Address, Value)>::empty());
        assert forall|b: Address| b != a implies slookup(t, b) == slookup(s, b) by {
            assert(slookup(t.drop_first(), b) is None);
        }
        assert(sum_amounts(t) == t[0].1 + sum_amounts(t.drop_first()));
    } else {
        lemma_push_effect(s.drop_first(), a, v);
        assert(t.drop_first() =~= s.drop_first().push((a, v)));
        assert(t[0] == s[0]);
        assert forall|b: Address|
            slookup(t, b) == (if b == a {
                Some(v)
            } else {
                slookup(s, b)
            }) by {
            if b != s[0].0 {
                assert(slookup(t, b) == slookup(t.drop_first(), b));
                assert(slookup(s, b) == slookup(s.drop_first(), b));
            } else {
                assert(slookup(s, b) == Some(s[0].1));
                assert(b != a);
            }
        }
        assert(sum_amounts(t) == t[0].1 + sum_amounts(t.drop_first()));
    }
}

proof fn lemma_remove_effect(s: Seq<(Address, Value)>, i: int)
    requires
        unique_addrs(s),
        0 <= i < s.len(),
    ensures
        forall|b: Address|
            slookup(s.remove(i), b) == if b == s[i].0 {
                None::<Value>
            } else {
                slookup(s, b)
            },
        sum_amounts(s.remove(i)) == sum_amounts(s) - s[i].1,
    decreases s.len(),
{
    let t = s.remove(i);
    if i == 0 {
        assert(t =~= s.drop_first());
        assert forall|j: int| 0 <= j < t.len() implies t[j].0 != s[0].0 by {
            assert(s[j + 1].0 != s[0].0);
        }
        lemma_slookup_absent(t, s[0].0);
    } else {
        lemma_remove_effect(s.drop_first(), i - 1);
        assert(t.drop_first() =~= s.drop_first().remove(i - 1));
        assert(t[0] == s[0]);
        assert forall|b: Address|
            slookup(t, b) == (if b == s[i].0 {
                None::<Value>
            } else {
                slookup(s, b)
            }) by {
            if b == s[0].0 {
                assert(s[0].0 != s[i].0);
            } else {
                assert(slookup(t, b) == slookup(t.drop_first(), b));
                assert(slookup(s, b) == slookup(s.drop_first(), b));
            }
        }
        assert(sum_amounts(t) == t[0].1 + sum_amounts(t.drop_first()));
    }
}

/// Finds the position of `a`, scanning the list.
fn find_addr(s: &Vec<(Address, Value)>, a: Address) -> (r: Option<usize>)
    ensures
        match r {
            Some(i) => i < s@.len() && s@[i as int].0 == a,
            None => forall|j: int| 0 <= j < s@.len() ==> s@[j].0 != a,
        },
{
    let mut i: usize = 0;
    while i < s.len()
        invariant
            i <= s@.len(),
            forall|j: int| 0 <= j < i ==> s@[j].0 != a,
        decreases s@.len() - i,
    {
        if s[i].0 == a {
            return Some(i);
        }
        i = i + 1;
    }
    None
}

/// The amount recorded for `a`, if any.
pub fn support_get(s: &Vec<(Address, Value)>, a: Address) -> (r: Option<Value>)
    requires
        unique_addrs(s@),
    ensures
        r == slookup(s@, a),
{
    match find_addr(s, a) {
        Some(i) => {
            proof {
                lemma_slookup_at(s@, i as int);
            }
            Some(s[i].1)
        },
        None => {
            proof {
                lemma_slookup_absent(s@, a);
            }
            None
        },
    }
}

/// Adds `v` to the amount recorded for `a`, creating the record if absent.
/// Returns the updated amount.
pub fn support_add(s: &mut Vec<(Address, Value)>, a: Address, v: Value) -> (newv: Value)
    requires
        wf_supports(old(s)@),
        v > 0,
        sum_amounts(old(s)@) + v <= u64::MAX,
    ensures
        wf_supports(final(s)@),
        slookup(final(s)@, a) == Some(newv),
        newv == (match slookup(old(s)@, a) {
            Some(x) => x + v,
            None => v as int,
        }),
        forall|b: Address| b != a ==> slookup(final(s)@, b) == slookup(old(s)@, b),
        sum_amounts(final(s)@) == sum_amounts(old(s)@) + v,
{
    match find_addr(s, a) {
        Some(i) => {
            proof {
                lemma_slookup_at(s@, i as int);
                lemma_entry_le_sum(s@, a);
                lemma_update_effect(s@, i as int, (s@[i as int].1 + v) as u64);
            }
            let newv = s[i].1 + v;
            s[i] = (a, newv);
            newv
        },
        None => {
            proof {
                lemma_slookup_absent(s@, a);
                lemma_push_effect(s@, a, v);
            }
            s.push((a, v));
            v
        },
    }
}

/// Subtracts `v` from the amount recorded for `a`, removing the record when
/// it reaches zero.  Returns whether the record was removed.
pub fn support_sub(s: &mut Vec<(Address, Value)>, a: Address, v: Value) -> (removed: bool)
    requires
        wf_supports(old(s)@),
        slookup(old(s)@, a) is Some,
        v <= slookup(old(s)@, a)->Some_0,
    ensures
        wf_supports(final(s)@),
        removed == (v == slookup(old(s)@, a)->Some_0),
        slookup(final(s)@, a) == (if removed {
            None::<Value>
        } else {
            Some((slookup(old(s)@, a)->Some_0 - v) as u64)
        }),
        forall|b: Address| b != a ==> slookup(final(s)@, b) == slookup(old(s)@, b),
        sum_amounts(final(s)@) == sum_amounts(old(s)@) - v,
{
    let i = match find_addr(s, a) {
        Some(i) => i,
        None => {
            proof {
                lemma_slookup_absent(s@, a);
            }
            unreached()
        },
    };
    proof {
        lemma_slookup_at(s@, i as int);
    }
    let x = s[i].1;
    if v == x {
        proof {
            lemma_remove_effect(s@, i as int);
        }
        s.remove(i);
        true
    } else {
        proof {
            lemma_update_effect(s@, i as int, (x - v) as u64);
        }
        s[i] = (a, x - v);
        false
    }
}

} // verus!

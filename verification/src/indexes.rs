//! The per-user index of open epochs: for each address, the epochs at
//! which that address currently has withdrawable support.  Kept as a list
//! of (address, epoch list) pairs with unique addresses and no repeated
//! epoch inside a list.

use vstd::prelude::*;

use crate::Address;
use crate::Index;

verus! {

/// The epochs recorded for `a`; empty if the address is unknown.
pub open spec fn ilookup(s: Seq<(Address, Vec<Index>)>, a: Address) -> Seq<Index>
    decreases s.len(),
{
    if s.len() == 0 {
        Seq::empty()
    } else if s[0].0 == a {
        s[0].1@
    } else {
        ilookup(s.drop_first(), a)
    }
}

/// No address occurs twice.
pub open spec fn unique_iaddrs(s: Seq<(Address, Vec<Index>)>) -> bool {
    forall|i: int, j: int| 0 <= i < j < s.len() ==> s[i].0 != s[j].0
}

/// No epoch occurs twice in one list.
pub open spec fn unique_epochs(l: Seq<Index>) -> bool {
    forall|i: int, j: int| 0 <= i < j < l.len() ==> l[i] != l[j]
}

/// A well-formed index: unique addresses, each with a duplicate-free list.
pub open spec fn wf_indexes(s: Seq<(Address, Vec<Index>)>) -> bool {
    unique_iaddrs(s) && forall|k: int| 0 <= k < s.len() ==> unique_epochs(#[trigger] s[k].1@)
}

pub proof fn lemma_ilookup_at(s: Seq<(Address, Vec<Index>)>, i: int)
    requires
        unique_iaddrs(s),
        0 <= i < s.len(),
    ensures
        ilookup(s, s[i].0) == s[i].1@,
    decreases s.len(),
{
    if i > 0 {
        lemma_ilookup_at(s.drop_first(), i - 1);
    }
}

pub proof fn lemma_ilookup_absent(s: Seq<(Address, Vec<Index>)>, a: Address)
    requires
        forall|j: int| 0 <= j < s.len() ==> s[j].0 != a,
    ensures
        ilookup(s, a) == Seq::<Index>::empty(),
    decreases s.len(),
{
    if s.len() > 0 {
        lemma_ilookup_absent(s.drop_first(), a);
    }
}

proof fn lemma_iupdate_effect(s: Seq<(Address, Vec<Index>)>, i: int, l: Vec<Index>)
    requires
        unique_iaddrs(s),
        0 <= i < s.len(),
    ensures
        forall|b: Address|
            ilookup(s.update(i, (s[i].0, l)), b) == if b == s[i].0 {
                l@
            } else {
                ilookup(s, b)
            },
    decreases s.len(),
{
    let t = s.update(i, (s[i].0, l));
    if i == 0 {
        assert(t.drop_first() =~= s.drop_first());
        assert forall|b: Address|
            ilookup(t, b) == (if b == s[i].0 {
                l@
            } else {
                ilookup(s, b)
            }) by {
            if b != s[0].0 {
                assert(ilookup(t, b) == ilookup(t.drop_first(), b));
            }
        }
    } else {
        lemma_iupdate_effect(s.drop_first(), i - 1, l);
        assert(t.drop_first() =~= s.drop_first().update(i - 1, (s[i].0, l)));
        assert(t[0] == s[0]);
        assert forall|b: Address|
            ilookup(t, b) == (if b == s[i].0 {
                l@
            } else {
                ilookup(s, b)
            }) by {
            if b == s[0].0 {
                assert(s[0].0 != s[i].0);
            } else {
                assert(ilookup(t, b) == ilookup(t.drop_first(), b));
                assert(ilookup(s, b) == ilookup(s.drop_first(), b));
            }
        }
    }
}

proof fn lemma_ipush_effect(s: Seq<(Address, Vec<Index>)>, a: Address, l: Vec<Index>)
    requires
        forall|j: int| 0 <= j < s.len() ==> s[j].0 != a,
    ensures
        forall|b: Address|
            ilookup(s.push((a, l)), b) == if b == a {
                l@
            } else {
                ilookup(s, b)
            },
    decreases s.len(),
{
    let t = s.push((a, l));
    if s.len() == 0 {
        assert(t.drop_first() =~= Seq::<(Address, Vec<Index>)>::empty());
        assert forall|b: Address| b != a implies ilookup(t, b) == ilookup(s, b) by {
            assert(ilookup(t.drop_first(), b) == Seq::<Index>::empty());
        }
    } else {
        lemma_ipush_effect(s.drop_first(), a, l);
        assert(t.drop_first() =~= s.drop_first().push((a, l)));
        assert(t[0] == s[0]);
        assert forall|b: Address|
            ilookup(t, b) == (if b == a {
                l@
            } else {
                ilookup(s, b)
            }) by {
            if b != s[0].0 {
                assert(ilookup(t, b) == ilookup(t.drop_first(), b));
                assert(ilookup(s, b) == ilookup(s.drop_first(), b));
            }
        }
    }
}

/// After adding `e` for `a`: the epochs recorded for `a` gain exactly `e`.
pub open spec fn records_added(
    pre: Seq<(Address, Vec<Index>)>,
    post: Seq<(Address, Vec<Index>)>,
    a: Address,
    e: Index,
) -> bool {
    forall|x: Index|
        #[trigger] ilookup(post, a).contains(x) == (ilookup(pre, a).contains(x) || x == e)
}

/// After removing `e` for `a`: the epochs recorded for `a` lose exactly `e`.
pub open spec fn records_removed(
    pre: Seq<(Address, Vec<Index>)>,
    post: Seq<(Address, Vec<Index>)>,
    a: Address,
    e: Index,
) -> bool {
    forall|x: Index|
        #[trigger] ilookup(post, a).contains(x) == (ilookup(pre, a).contains(x) && x != e)
}

fn find_iaddr(s: &Vec<(Address, Vec<Index>)>, a: Address) -> (r: Option<usize>)
    ensures
        match r {
            Some(i) => i < s@.len() && s@[i as int].0 == a,
            None => forall|j: int| 0 <= j < s@.len() ==> s@[j].0 != a,
        },
{
    let mut i: usize = 0;
    while i < s.len()
        invariant
            i <= s@.len(),
            forall|j: int| 0 <= j < i ==> s@[j].0 != a,
        decreases s@.len() - i,
    {
        if s[i].0 == a {
            return Some(i);
        }
        i = i + 1;
    }
    None
}

fn find_epoch(l: &Vec<Index>, e: Index) -> (r: Option<usize>)
    ensures
        match r {
            Some(i) => i < l@.len() && l@[i as int] == e,
            None => forall|j: int| 0 <= j < l@.len() ==> l@[j] != e,
        },
{
    let mut i: usize = 0;
    while i < l.len()
        invariant
            i <= l@.len(),
            forall|j: int| 0 <= j < i ==> l@[j] != e,
        decreases l@.len() - i,
    {
        if l[i] == e {
            return Some(i);
        }
        i = i + 1;
    }
    None
}

/// A copy of the epochs recorded for `a`; empty if the address is unknown.
pub fn index_get(s: &Vec<(Address, Vec<Index>)>, a: Address) -> (r: Vec<Index>)
    requires
        unique_iaddrs(s@),
    ensures
        r@ == ilookup(s@, a),
{
    match find_iaddr(s, a) {
        Some(i) => {
            proof {
                lemma_ilookup_at(s@, i as int);
            }
            let src = &s[i].1;
            let mut out: Vec<Index> = Vec::new();
            let mut k: usize = 0;
            while k < src.len()
                invariant
                    k <= src@.len(),
                    out@ == src@.subrange(0, k as int),
                decreases src@.len() - k,
            {
                out.push(src[k]);
                proof {
                    assert(out@ =~= src@.subrange(0, k + 1));
                }
                k = k + 1;
            }
            proof {
                assert(out@ =~= src@);
            }
            out
        },
        None => {
            proof {
                lemma_ilookup_absent(s@, a);
            }
            Vec::new()
        },
    }
}

/// Records epoch `e` as open for `a`, if it is not recorded already.
pub fn index_add(s: &mut Vec<(Address, Vec<Index>)>, a: Address, e: Index)
    requires
        wf_indexes(old(s)@),
    ensures
        wf_indexes(final(s)@),
        records_added(old(s)@, final(s)@, a, e),
        forall|b: Address| b != a ==> ilookup(final(s)@, b) == ilookup(old(s)@, b),
{
    match find_iaddr(s, a) {
        Some(i) => {
            proof {
                lemma_ilookup_at(s@, i as int);
            }
            match find_epoch(&s[i].1, e) {
                Some(k) => {
                    proof {
                        assert(ilookup(s@, a).contains(e)) by {
                            assert(ilookup(s@, a)[k as int] == e);
                        }
                        assert forall|x: Index|
                            ilookup(s@, a).contains(x) == (ilookup(s@, a).contains(x)
                                || x == e) by {}
                    }
                },
                None => {
                    let ghost olds = s@;
                    let ghost oldl = s@[i as int].1@;
                    let mut l = Vec::new();
                    core::mem::swap(&mut l, &mut s[i].1);
                    l.push(e);
                    let li = l;
                    s[i] = (a, li);
                    proof {
                        lemma_iupdate_effect(olds, i as int, li);
                        assert(s@ =~= olds.update(i as int, (a, li)));
                        assert(li@ == oldl.push(e));
                        assert forall|x: Index|
                            ilookup(s@, a).contains(x) == (ilookup(olds, a).contains(x)
                                || x == e) by {
                            if ilookup(olds, a).contains(x) {
                                let w = choose|w: int|
                                    0 <= w < oldl.len() && oldl[w] == x;
                                assert(li@[w] == x);
                            }
                            if x == e {
                                assert(li@[oldl.len() as int] == x);
                            }
                            if ilookup(s@, a).contains(x) {
                                let w = choose|w: int| 0 <= w < li@.len() && li@[w] == x;
                                if w < oldl.len() {
                                    assert(oldl[w] == x);
                                }
                            }
                        }
                        assert forall|k2: int| 0 <= k2 < s@.len() implies unique_epochs(
                            #[trigger] s@[k2].1@,
                        ) by {
                            if k2 == i {
                                assert forall|p: int, q: int|
                                    0 <= p < q < li@.len() implies li@[p] != li@[q] by {
                                    if q == oldl.len() as int {
                                        assert(oldl[p] != e) by {
                                            if oldl[p] == e {
                                                assert(ilookup(olds, a)[p] == e);
                                            }
                                        }
                                    }
                                }
                            } else {
                                assert(s@[k2] == olds[k2]);
                            }
                        }
                    }
                },
            }
        },
        None => {
            proof {
                lemma_ilookup_absent(s@, a);
            }
            let mut l: Vec<Index> = Vec::new();
            l.push(e);
            let li = l;
            let ghost olds = s@;
            proof {
                lemma_ipush_effect(olds, a, li);
            }
            s.push((a, li));
            proof {
                assert forall|x: Index|
                    ilookup(s@, a).contains(x) == (ilookup(olds, a).contains(x) || x == e) by {
                    assert(ilookup(s@, a) == li@);
                    if ilookup(s@, a).contains(x) {
                        let w = choose|w: int| 0 <= w < li@.len() && li@[w] == x;
                        assert(li@[w] == e);
                    }
                    if x == e {
                        assert(li@[0] == x);
                    }
                }
            }
        },
    }
}

/// Removes epoch `e` from the epochs recorded as open for `a`.
pub fn index_remove(s: &mut Vec<(Address, Vec<Index>)>, a: Address, e: Index)
    requires
        wf_indexes(old(s)@),
    ensures
        wf_indexes(final(s)@),
        records_removed(old(s)@, final(s)@, a, e),
        forall|b: Address| b != a ==> ilookup(final(s)@, b) == ilookup(old(s)@, b),
{
    match find_iaddr(s, a) {
        Some(i) => {
            proof {
                lemma_ilookup_at(s@, i as int);
            }
            match find_epoch(&s[i].1, e) {
                Some(k) => {
                    let ghost olds = s@;
                    let ghost oldl = s@[i as int].1@;
                    let mut l = Vec::new();
                    core::mem::swap(&mut l, &mut s[i].1);
                    l.remove(k);
                    let li = l;
                    s[i] = (a, li);
                    proof {
                        lemma_iupdate_effect(olds, i as int, li);
                        assert(s@ =~= olds.update(i as int, (a, li)));
                        assert(li@ == oldl.remove(k as int));
                        assert forall|x: Index|
                            ilookup(s@, a).contains(x) == (ilookup(olds, a).contains(x)
                                && x != e) by {
                            if ilookup(s@, a).contains(x) {
                                let w = choose|w: int| 0 <= w < li@.len() && li@[w] == x;
                                if w < k {
                                    assert(oldl[w] == x);
                                } else {
                                    assert(oldl[w + 1] == x);
                                }
                                assert(x != e) by {
                                    if x == e {
                                        if w < k {
                                            assert(oldl[w] != oldl[k as int]);
                                        } else {
                                            assert(oldl[k as int] != oldl[w + 1]);
                                        }
                                    }
                                }
                            }
                            if ilookup(olds, a).contains(x) && x != e {
                                let w = choose|w: int|
                                    0 <= w < oldl.len() && oldl[w] == x;
                                if w < k {
                                    assert(li@[w] == x);
                                } else {
                                    assert(w != k);
                                    assert(li@[w - 1] == x);
                                }
                            }
                        }
                        assert forall|k2: int| 0 <= k2 < s@.len() implies unique_epochs(
                            #[trigger] s@[k2].1@,
                        ) by {
                            if k2 == i {
                                assert forall|p: int, q: int|
                                    0 <= p < q < li@.len() implies li@[p] != li@[q] by {
                                    let p2: int = if p < k { p } else { p + 1 };
                                    let q2: int = if q < k { q } else { q + 1 };
                                    assert(li@[p] == oldl[p2]);
                                    assert(li@[q] == oldl[q2]);
                                }
                            } else {
                                assert(s@[k2] == olds[k2]);
                            }
                        }
                    }
                },
                None => {
                    proof {
                        assert forall|x: Index|
                            ilookup(s@, a).contains(x) == (ilookup(s@, a).contains(x)
                                && x != e) by {
                            if ilookup(s@, a).contains(x) {
                                let w = choose|w: int|
                                    0 <= w < ilookup(s@, a).len() && ilookup(s@, a)[w] == x;
                                assert(s@[i as int].1@[w] != e);
                            }
                        }
                    }
                },
            }
        },
        None => {
            proof {
                lemma_ilookup_absent(s@, a);
                assert(ilookup(s@, a).len() == 0);
                assert forall|x: Index| !ilookup(s@, a).contains(x) by {}
            }
        },
    }
}

} // verus!

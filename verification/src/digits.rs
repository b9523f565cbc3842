//! Candidate lists: strictly ascending vectors of digits, and the sets they stand for.

use vstd::prelude::*;

verus! {

/// The members of `s`, as a set of integers.
pub open spec fn digit_set(s: Seq<i32>) -> Set<int> {
    Set::new(|d: int| i32::MIN <= d <= i32::MAX && s.contains(d as i32))
}

/// `s` is strictly ascending, so it lists each member once.
pub open spec fn ascending(s: Seq<i32>) -> bool {
    forall|i: int, j: int| 0 <= i < j < s.len() ==> s[i] < s[j]
}

/// `v` is the one and only member of `s`.
pub open spec fn is_single(s: Set<int>, v: int) -> bool {
    s.contains(v) && forall|w: int| s.contains(w) ==> w == v
}

/// The only member of `s`, if `s` has exactly one member.
pub open spec fn single_of(s: Set<int>) -> Option<int> {
    if exists|v: int| is_single(s, v) {
        Some(choose|v: int| is_single(s, v))
    } else {
        None
    }
}

/// A set with the single member `v` has `v` as its only member.
pub proof fn lemma_single_of(s: Set<int>, v: int)
    requires
        is_single(s, v),
    ensures
        single_of(s) == Some(v),
{
    let w = choose|w: int| is_single(s, w);
    assert(is_single(s, w));
}

/// An ascending list is fixed by its members.
pub proof fn lemma_ascending_unique(a: Seq<i32>, b: Seq<i32>)
    requires
        ascending(a),
        ascending(b),
        forall|d: i32| a.contains(d) <==> b.contains(d),
    ensures
        a == b,
    decreases a.len(),
{
    if a.len() == 0 {
        if b.len() > 0 {
            assert(b.contains(b[0]));
            assert(a.contains(b[0]));
        }
        assert(a =~= b);
    } else {
        let la = a.last();
        assert(a.contains(la));
        assert(b.contains(la));
        let lb = b.last();
        assert(b.contains(lb));
        assert(a.contains(lb));
        assert(la == lb);
        let a0 = a.drop_last();
        let b0 = b.drop_last();
        assert forall|d: i32| a0.contains(d) <==> b0.contains(d) by {
            if a0.contains(d) {
                let i = choose|i: int| 0 <= i < a0.len() && a0[i] == d;
                assert(a[i] == d);
                assert(a.contains(d));
                let j = choose|j: int| 0 <= j < b.len() && b[j] == d;
                assert(j < b.len() - 1);
                assert(b0[j] == d);
            }
            if b0.contains(d) {
                let i = choose|i: int| 0 <= i < b0.len() && b0[i] == d;
                assert(b[i] == d);
                assert(b.contains(d));
                let j = choose|j: int| 0 <= j < a.len() && a[j] == d;
                assert(j < a.len() - 1);
                assert(a0[j] == d);
            }
        }
        lemma_ascending_unique(a0, b0);
        assert(a =~= a0.push(la));
        assert(b =~= b0.push(lb));
    }
}

/// An ascending list has one entry exactly when its set has a single member,
/// which is then that entry.
pub proof fn lemma_ascending_single(s: Seq<i32>)
    requires
        ascending(s),
    ensures
        s.len() == 1 ==> single_of(digit_set(s)) == Some(s[0] as int),
        s.len() != 1 ==> single_of(digit_set(s)) == None::<int>,
{
    let ds = digit_set(s);
    if s.len() == 1 {
        assert(s.contains(s[0]));
        assert(is_single(ds, s[0] as int));
        lemma_single_of(ds, s[0] as int);
    } else if s.len() == 0 {
        assert forall|v: int| !is_single(ds, v) by {}
    } else {
        assert(s.contains(s[0]));
        assert(s.contains(s[1]));
        assert(ds.contains(s[0] as int));
        assert(ds.contains(s[1] as int));
        assert forall|v: int| !is_single(ds, v) by {}
    }
}

/// Keeping the entries that satisfy a predicate leaves an ascending list
/// ascending, and keeps exactly the members that satisfy it.
pub proof fn lemma_filter_ascending(s: Seq<i32>, pred: spec_fn(i32) -> bool)
    requires
        ascending(s),
    ensures
        ascending(s.filter(pred)),
        forall|d: i32| s.filter(pred).contains(d) <==> s.contains(d) && pred(d),
    decreases s.len(),
{
    reveal(Seq::filter);
    if s.len() > 0 {
        let s0 = s.drop_last();
        let last = s.last();
        lemma_filter_ascending(s0, pred);
        let f0 = s0.filter(pred);
        assert forall|d: i32| f0.contains(d) implies d < last by {
            assert(s0.contains(d));
            let i = choose|i: int| 0 <= i < s0.len() && s0[i] == d;
            assert(s[i] == d);
        }
        assert forall|i: int| 0 <= i < f0.len() implies f0[i] < last by {
            assert(f0.contains(f0[i]));
        }
        assert forall|d: i32| s.filter(pred).contains(d) <==> s.contains(d) && pred(d) by {
            if s.contains(d) {
                let i = choose|i: int| 0 <= i < s.len() && s[i] == d;
                if i < s.len() - 1 {
                    assert(s0[i] == d);
                    assert(s0.contains(d));
                }
            }
            if s0.contains(d) {
                let i = choose|i: int| 0 <= i < s0.len() && s0[i] == d;
                assert(s[i] == d);
            }
            if pred(last) {
                assert(s.filter(pred) == f0.push(last));
                assert(f0.push(last)[f0.len() as int] == last);
                if f0.contains(d) {
                    let i = choose|i: int| 0 <= i < f0.len() && f0[i] == d;
                    assert(f0.push(last)[i] == d);
                }
            }
            assert(s.contains(last));
        }
    }
}

/// Whether `x` occurs in `v`.
pub fn list_contains(v: &Vec<i32>, x: i32) -> (found: bool)
    ensures
        found == v@.contains(x),
{
    let mut i: usize = 0;
    while i < v.len()
        invariant
            i <= v.len(),
            forall|k: int| 0 <= k < i ==> v@[k] != x,
        decreases v.len() - i,
    {
        if v[i] == x {
            return true;
        }
        i += 1;
    }
    false
}

/// Puts `x` into the ascending list `v` unless it is there already.
pub fn insert_ascending(v: &mut Vec<i32>, x: i32)
    requires
        ascending(old(v)@),
    ensures
        ascending(final(v)@),
        forall|d: i32| final(v)@.contains(d) <==> old(v)@.contains(d) || d == x,
{
    let mut i: usize = 0;
    while i < v.len() && v[i] < x
        invariant
            i <= v.len(),
            v@ == old(v)@,
            forall|k: int| 0 <= k < i ==> v@[k] < x,
        decreases v.len() - i,
    {
        i += 1;
    }
    if i < v.len() && v[i] == x {
        assert(v@[i as int] == x);
    } else {
        let ghost before = v@;
        v.insert(i, x);
        assert(v@ == before.insert(i as int, x));
        assert forall|d: i32| v@.contains(d) <==> before.contains(d) || d == x by {
            if before.contains(d) {
                let k = choose|k: int| 0 <= k < before.len() && before[k] == d;
                if k < i {
                    assert(v@[k] == d);
                } else {
                    assert(v@[k + 1] == d);
                }
            }
            if d == x {
                assert(v@[i as int] == x);
            }
            if v@.contains(d) {
                let k = choose|k: int| 0 <= k < v@.len() && v@[k] == d;
                if k < i {
                    assert(before[k] == d);
                } else if k > i {
                    assert(before[k - 1] == d);
                }
            }
        }
        assert forall|a: int, b: int| 0 <= a < b < v@.len() implies v@[a] < v@[b] by {
            if b < i {
            } else if b == i {
            } else if a < i {
                assert(v@[b] == before[b - 1]);
                if b - 1 > i {
                    assert(before[i as int] < before[b - 1]);
                }
            } else if a == i {
                assert(v@[b] == before[b - 1]);
                if b - 1 > i {
                    assert(before[i as int] < before[b - 1]);
                }
            } else {
                assert(v@[a] == before[a - 1]);
                assert(v@[b] == before[b - 1]);
            }
        }
    }
}

} // verus!

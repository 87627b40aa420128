//! Sorting and comparing KSUIDs by their 160-bit value, which is also the
//! order of their bytes and of their base62 strings.
use vstd::prelude::*;
use core::cmp::Ordering;
use crate::Ksuid;

verus! {

/// Every KSUID of `s` is at most every later one.
pub open spec fn sorted(s: Seq<Ksuid>) -> bool {
    forall|i: int, j: int| 0 <= i <= j < s.len() ==> s[i].value() <= s[j].value()
}

/// Each KSUID of `s` is at most the next one.
pub open spec fn adjacent_sorted(s: Seq<Ksuid>) -> bool {
    forall|i: int| 0 <= i < s.len() - 1 ==> s[i].value() <= #[trigger] s[i + 1].value()
}

/// Appending a KSUID no smaller than the last keeps a sequence sorted.
proof fn lemma_sorted_push(s: Seq<Ksuid>, x: Ksuid)
    requires
        sorted(s),
        s.len() > 0 ==> s.last().value() <= x.value(),
    ensures
        sorted(s.push(x)),
{
    let t = s.push(x);
    assert forall|i: int, j: int| 0 <= i <= j < t.len() implies t[i].value() <= t[j].value() by {
        if j == s.len() {
            if i < s.len() {
                assert(s[i].value() <= s[s.len() - 1].value());
            }
        } else {
            assert(t[i] == s[i] && t[j] == s[j]);
        }
    }
}

/// The two sorted sequences `a` and `b` merged into one sorted sequence.
fn merge(a: &Vec<Ksuid>, b: &Vec<Ksuid>) -> (r: Vec<Ksuid>)
    requires
        sorted(a@),
        sorted(b@),
    ensures
        sorted(r@),
        r@.to_multiset() == a@.to_multiset().add(b@.to_multiset()),
{
    broadcast use vstd::seq_lib::group_to_multiset_ensures;

    let mut r: Vec<Ksuid> = Vec::new();
    let mut i: usize = 0;
    let mut j: usize = 0;
    assert(a@.take(0).to_multiset() =~= vstd::multiset::Multiset::empty());
    assert(b@.take(0).to_multiset() =~= vstd::multiset::Multiset::empty());
    while i < a.len() || j < b.len()
        invariant
            i <= a@.len(),
            j <= b@.len(),
            sorted(a@),
            sorted(b@),
            sorted(r@),
            r@.to_multiset() == a@.take(i as int).to_multiset().add(b@.take(j as int).to_multiset()),
            r@.len() > 0 && i < a@.len() ==> r@.last().value() <= a@[i as int].value(),
            r@.len() > 0 && j < b@.len() ==> r@.last().value() <= b@[j as int].value(),
        decreases a@.len() + b@.len() - i - j,
    {
        let take_a = j >= b.len() || (i < a.len() && !b[j].less_than(&a[i]));
        if take_a {
            let x = a[i];
            let ghost r0 = r@;
            proof {
                lemma_sorted_push(r@, x);
                assert(a@.take(i + 1) =~= a@.take(i as int).push(x));
                a@.take(i as int).to_multiset_ensures();
                r0.to_multiset_ensures();
                assert(a@.take(i as int).push(x).to_multiset() =~= a@.take(i as int).to_multiset().insert(x));
                assert(r0.push(x).to_multiset() =~= r0.to_multiset().insert(x));
                assert(a@.take(i as int).to_multiset().insert(x).add(b@.take(j as int).to_multiset())
                    =~= a@.take(i as int).to_multiset().add(b@.take(j as int).to_multiset()).insert(x));
            }
            r.push(x);
            assert(r@ == r0.push(x));
            i += 1;
        } else {
            let x = b[j];
            let ghost r0 = r@;
            proof {
                lemma_sorted_push(r@, x);
                assert(b@.take(j + 1) =~= b@.take(j as int).push(x));
                b@.take(j as int).to_multiset_ensures();
                r0.to_multiset_ensures();
                assert(b@.take(j as int).push(x).to_multiset() =~= b@.take(j as int).to_multiset().insert(x));
                assert(r0.push(x).to_multiset() =~= r0.to_multiset().insert(x));
                assert(a@.take(i as int).to_multiset().add(b@.take(j as int).to_multiset().insert(x))
                    =~= a@.take(i as int).to_multiset().add(b@.take(j as int).to_multiset()).insert(x));
            }
            r.push(x);
            assert(r@ == r0.push(x));
            j += 1;
        }
    }
    assert(a@.take(a@.len() as int) =~= a@);
    assert(b@.take(b@.len() as int) =~= b@);
    r
}

/// The KSUIDs of `v` in ascending order.
fn merge_sort(v: Vec<Ksuid>) -> (r: Vec<Ksuid>)
    ensures
        sorted(r@),
        r@.to_multiset() == v@.to_multiset(),
    decreases v@.len(),
{
    let n = v.len();
    if n <= 1 {
        return v;
    }
    let mid = n / 2;
    let mut left: Vec<Ksuid> = Vec::with_capacity(mid);
    let mut right: Vec<Ksuid> = Vec::with_capacity(n - mid);
    let mut k: usize = 0;
    while k < n
        invariant
            n == v@.len(),
            mid == n / 2,
            k <= n,
            k <= mid ==> left@ == v@.take(k as int) && right@.len() == 0,
            k > mid ==> left@ == v@.take(mid as int) && right@ == v@.subrange(mid as int, k as int),
        decreases n - k,
    {
        if k < mid {
            left.push(v[k]);
            assert(left@ =~= v@.take(k + 1));
        } else {
            right.push(v[k]);
            assert(right@ =~= v@.subrange(mid as int, k + 1));
        }
        k += 1;
    }
    proof {
        assert(v@ =~= left@ + right@);
        vstd::seq_lib::lemma_multiset_commutative(left@, right@);
    }
    let sl = merge_sort(left);
    let sr = merge_sort(right);
    merge(&sl, &sr)
}

/// Sort a slice of KSUIDs in ascending order (in-place).
pub fn sort(ids: &mut [Ksuid])
    ensures
        sorted(final(ids)@),
        final(ids)@.to_multiset() == old(ids)@.to_multiset(),
{
    let n = ids.len();
    let mut v: Vec<Ksuid> = Vec::with_capacity(n);
    let mut k: usize = 0;
    while k < n
        invariant
            n == ids@.len(),
            k <= n,
            v@ == ids@.take(k as int),
        decreases n - k,
    {
        v.push(ids[k]);
        assert(v@ =~= ids@.take(k + 1));
        k += 1;
    }
    assert(ids@.take(n as int) =~= ids@);
    let sorted_ids = merge_sort(v);
    let ghost target = sorted_ids@;
    proof {
        vstd::seq_lib::to_multiset_len(target);
        vstd::seq_lib::to_multiset_len(old(ids)@);
    }
    let mut k: usize = 0;
    while k < n
        invariant
            n == ids@.len(),
            sorted_ids@ == target,
            target.len() == n,
            k <= n,
            ids@.take(k as int) == target.take(k as int),
        decreases n - k,
    {
        ids[k] = sorted_ids[k];
        assert(ids@.take(k + 1) =~= target.take(k + 1));
        k += 1;
    }
    assert(ids@.take(n as int) =~= ids@);
    assert(target.take(n as int) =~= target);
}

/// Returns true if the slice of KSUIDs is sorted in ascending order.
pub fn is_sorted(ids: &[Ksuid]) -> (r: bool)
    ensures
        r == sorted(ids@),
        r == adjacent_sorted(ids@),
{
    let n = ids.len();
    if n == 0 {
        return true;
    }
    let mut i: usize = 0;
    while i + 1 < n
        invariant
            n == ids@.len(),
            n > 0,
            i < n,
            sorted(ids@.take(i + 1)),
            forall|j: int| 0 <= j < i ==> ids@[j].value() <= #[trigger] ids@[j + 1].value(),
        decreases n - i,
    {
        if ids[i + 1].less_than(&ids[i]) {
            assert(!sorted(ids@)) by {
                assert(ids@[i as int].value() > ids@[i + 1].value());
            }
            return false;
        }
        proof {
            assert forall|x: int, y: int| 0 <= x <= y < i + 2 implies (#[trigger] ids@.take(i + 2)[x]).value()
                <= (#[trigger] ids@.take(i + 2)[y]).value() by {
                assert(ids@.take(i + 2)[x] == ids@[x]);
                assert(ids@.take(i + 2)[y] == ids@[y]);
                if y <= i {
                    assert(ids@.take(i + 1)[x] == ids@[x]);
                    assert(ids@.take(i + 1)[y] == ids@[y]);
                } else if x <= i {
                    assert(ids@.take(i + 1)[x] == ids@[x]);
                    assert(ids@.take(i + 1)[i as int] == ids@[i as int]);
                }
            }
        }
        i += 1;
    }
    proof {
        assert(ids@.take(n as int) =~= ids@);
    }
    true
}

/// Compare two KSUIDs, returning an Ordering.
///
/// This is equivalent to `a.cmp(&b)` but provided as a free function
/// for use as a comparator callback.
pub fn compare(a: &Ksuid, b: &Ksuid) -> (r: Ordering)
    ensures
        r == (if a.value() < b.value() {
            Ordering::Less
        } else if a.value() == b.value() {
            Ordering::Equal
        } else {
            Ordering::Greater
        }),
{
    let c = a.compare(b);
    if c < 0 {
        Ordering::Less
    } else if c == 0 {
        Ordering::Equal
    } else {
        Ordering::Greater
    }
}

} // verus!

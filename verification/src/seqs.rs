//! Ascending index lists and stable ordering by key.
use vstd::prelude::*;

verus! {

/// Strictly ascending: sorted, each index once.
pub open spec fn ascending(s: Seq<usize>) -> bool {
    forall|i: int, j: int| 0 <= i < j < s.len() ==> s[i] < s[j]
}

/// The indices below `n` that `keep` holds of, ascending.
pub open spec fn select(n: nat, keep: spec_fn(int) -> bool) -> Seq<usize>
    decreases n,
{
    if n == 0 {
        Seq::empty()
    } else {
        let rest = select((n - 1) as nat, keep);
        if keep(n - 1) {
            rest.push((n - 1) as usize)
        } else {
            rest
        }
    }
}

/// Every index `keep` holds of, ascending.
pub open spec fn select_all(keep: spec_fn(int) -> bool) -> Seq<usize> {
    select((usize::MAX + 1) as nat, keep)
}

/// `select` lists exactly the kept indices, in ascending order.
pub proof fn select_properties(n: nat, keep: spec_fn(int) -> bool)
    requires
        n <= usize::MAX + 1,
    ensures
        ascending(select(n, keep)),
        forall|x: usize| #[trigger] select(n, keep).contains(x) <==> x < n && keep(x as int),
        forall|i: int|
            0 <= i < select(n, keep).len() ==> (#[trigger] select(n, keep)[i]) < n && keep(
                select(n, keep)[i] as int,
            ),
    decreases n,
{
    if n > 0 {
        let m = (n - 1) as nat;
        select_properties(m, keep);
        let rest = select(m, keep);
        let all = select(n, keep);
        assert forall|x: usize| #[trigger] all.contains(x) <==> x < n && keep(x as int) by {
            if all.contains(x) {
                let i = choose|i: int| 0 <= i < all.len() && all[i] == x;
                if i < rest.len() {
                    assert(rest[i] == x);
                    assert(rest.contains(x));
                }
            }
            if x < n && keep(x as int) {
                if x < m {
                    assert(rest.contains(x));
                    let i = choose|i: int| 0 <= i < rest.len() && rest[i] == x;
                    assert(all[i] == x);
                } else {
                    assert(all[all.len() - 1] == x);
                }
            }
        }
        assert forall|i: int| 0 <= i < all.len() implies (#[trigger] all[i]) < n && keep(
            all[i] as int,
        ) by {
            if i < rest.len() {
                assert(all[i] == rest[i]);
            }
        }
    }
}

/// Two ascending lists of the same indices are one list.
pub proof fn ascending_unique(a: Seq<usize>, b: Seq<usize>)
    requires
        ascending(a),
        ascending(b),
        forall|x: usize| a.contains(x) <==> b.contains(x),
    ensures
        a == b,
    decreases a.len(),
{
    if a.len() == 0 {
        if b.len() > 0 {
            assert(b.contains(b[0]));
            assert(a.contains(b[0]));
        }
        assert(a =~= b);
    } else {
        assert(a.contains(a.last()));
        assert(b.contains(a.last()));
        assert(b.len() > 0);
        assert(b.contains(b.last()));
        assert(a.contains(b.last()));
        let i = choose|i: int| 0 <= i < b.len() && b[i] == a.last();
        let j = choose|j: int| 0 <= j < a.len() && a[j] == b.last();
        assert(a.last() == b.last());
        let ap = a.drop_last();
        let bp = b.drop_last();
        assert forall|x: usize| ap.contains(x) <==> bp.contains(x) by {
            if ap.contains(x) {
                let k = choose|k: int| 0 <= k < ap.len() && ap[k] == x;
                assert(a[k] == x);
                assert(a.contains(x));
                assert(b.contains(x));
                let l = choose|l: int| 0 <= l < b.len() && b[l] == x;
                assert(bp[l] == x);
            }
            if bp.contains(x) {
                let k = choose|k: int| 0 <= k < bp.len() && bp[k] == x;
                assert(b[k] == x);
                assert(b.contains(x));
                assert(a.contains(x));
                let l = choose|l: int| 0 <= l < a.len() && a[l] == x;
                assert(ap[l] == x);
            }
        }
        ascending_unique(ap, bp);
        assert(a =~= ap.push(a.last()));
        assert(b =~= bp.push(b.last()));
    }
}

/// An ascending list of exactly the kept indices is `select`'s list.
pub proof fn select_unique(s: Seq<usize>, n: nat, keep: spec_fn(int) -> bool)
    requires
        n <= usize::MAX + 1,
        ascending(s),
        forall|x: usize| #[trigger] s.contains(x) <==> x < n && keep(x as int),
    ensures
        s == select(n, keep),
{
    select_properties(n, keep);
    ascending_unique(s, select(n, keep));
}

/// Predicates that agree below `n` select the same list.
pub proof fn select_congruent(n: nat, p: spec_fn(int) -> bool, q: spec_fn(int) -> bool)
    requires
        forall|i: int| 0 <= i < n ==> #[trigger] p(i) == q(i),
    ensures
        select(n, p) == select(n, q),
    decreases n,
{
    if n > 0 {
        assert(p(n - 1) == q(n - 1));
        select_congruent((n - 1) as nat, p, q);
    }
}

/// Selecting from more indices lists at least as many, and more where an
/// index in between is kept.
pub proof fn select_grows(m: nat, n: nat, keep: spec_fn(int) -> bool)
    requires
        m <= n,
    ensures
        select(m, keep).len() <= select(n, keep).len(),
        m < n && keep(m as int) ==> select(m, keep).len() < select(n, keep).len(),
        select(n, keep).len() <= n,
    decreases n,
{
    if m < n {
        select_grows(m, (n - 1) as nat, keep);
    } else if n > 0 {
        select_grows((n - 1) as nat, (n - 1) as nat, keep);
    }
}

/// Whether `x` is listed.
pub fn listed(list: &Vec<usize>, x: usize) -> (r: bool)
    ensures
        r == list@.contains(x),
{
    let mut i: usize = 0;
    while i < list.len()
        invariant
            i <= list@.len(),
            forall|j: int| 0 <= j < i ==> list@[j] != x,
        decreases list@.len() - i,
    {
        if list[i] == x {
            assert(list@[i as int] == x);
            return true;
        }
        i += 1;
    }
    false
}

/// The position `x` first occurs at, if it does.
pub fn position_of(list: &Vec<usize>, x: usize) -> (r: Option<usize>)
    ensures
        match r {
            Some(i) => i < list@.len() && list@[i as int] == x && forall|j: int|
                0 <= j < i ==> list@[j] != x,
            None => !list@.contains(x),
        },
{
    let mut i: usize = 0;
    while i < list.len()
        invariant
            i <= list@.len(),
            forall|j: int| 0 <= j < i ==> list@[j] != x,
        decreases list@.len() - i,
    {
        if list[i] == x {
            return Some(i);
        }
        i += 1;
    }
    None
}

/// Append `x` unless it is listed.
pub fn push_new(list: &mut Vec<usize>, x: usize)
    ensures
        final(list)@ == (if old(list)@.contains(x) {
            old(list)@
        } else {
            old(list)@.push(x)
        }),
{
    if !listed(list, x) {
        list.push(x);
    }
}

/// Add `x` to an ascending list, keeping it ascending.
pub fn insert_ascending(list: &mut Vec<usize>, x: usize)
    requires
        ascending(old(list)@),
    ensures
        ascending(final(list)@),
        forall|y: usize|
            #[trigger] final(list)@.contains(y) <==> old(list)@.contains(y) || y == x,
{
    let mut i: usize = 0;
    while i < list.len() && list[i] < x
        invariant
            i <= list@.len(),
            list@ == old(list)@,
            ascending(list@),
            forall|j: int| 0 <= j < i ==> list@[j] < x,
        decreases list@.len() - i,
    {
        i += 1;
    }
    if i < list.len() && list[i] == x {
        assert(list@.contains(x));
        return ;
    }
    let ghost before = list@;
    list.insert(i, x);
    proof {
        let after = list@;
        assert(after =~= before.insert(i as int, x));
        assert(after[i as int] == x);
        assert forall|y: usize| #[trigger] after.contains(y) <==> before.contains(y) || y == x by {
            if before.contains(y) {
                let k = choose|k: int| 0 <= k < before.len() && before[k] == y;
                if k < i {
                    assert(after[k] == y);
                } else {
                    assert(after[k + 1] == y);
                }
            }
            if after.contains(y) {
                let k = choose|k: int| 0 <= k < after.len() && after[k] == y;
                if k < i {
                    assert(before[k] == y);
                } else if k > i {
                    assert(before[k - 1] == y);
                }
            }
        }
    }
}

/// The ascending list of every index in `a` or `b`.
pub open spec fn union_list(a: Seq<usize>, b: Seq<usize>) -> Seq<usize> {
    select_all(|i: int| a.contains(i as usize) || b.contains(i as usize))
}

/// An ascending list of exactly the indices of `a` and `b` is their union.
pub proof fn union_unique(s: Seq<usize>, a: Seq<usize>, b: Seq<usize>)
    requires
        ascending(s),
        forall|x: usize| #[trigger] s.contains(x) <==> a.contains(x) || b.contains(x),
    ensures
        s == union_list(a, b),
{
    let keep = |i: int| a.contains(i as usize) || b.contains(i as usize);
    assert forall|x: usize| #[trigger] s.contains(x) <==> x < (usize::MAX + 1) as nat && keep(
        x as int,
    ) by {}
    select_unique(s, (usize::MAX + 1) as nat, keep);
}

/// The union lists exactly the indices of both, ascending, and does not
/// depend on their order.
pub proof fn union_properties(a: Seq<usize>, b: Seq<usize>)
    ensures
        ascending(union_list(a, b)),
        forall|x: usize| #[trigger] union_list(a, b).contains(x) <==> a.contains(x) || b.contains(x),
        union_list(a, b) == union_list(b, a),
{
    let keep = |i: int| a.contains(i as usize) || b.contains(i as usize);
    select_properties((usize::MAX + 1) as nat, keep);
    let u = union_list(a, b);
    assert forall|x: usize| #[trigger] u.contains(x) <==> a.contains(x) || b.contains(x) by {
        assert(u.contains(x) <==> keep(x as int));
    }
    union_unique(u, b, a);
}

/// Sorted, deduplicated union of two slot lists.
pub fn slot_union(a: &Vec<usize>, b: &Vec<usize>) -> (r: Vec<usize>)
    ensures
        r@ == union_list(a@, b@),
{
    let mut r: Vec<usize> = Vec::new();
    let mut i: usize = 0;
    while i < a.len()
        invariant
            i <= a@.len(),
            ascending(r@),
            forall|x: usize| #[trigger] r@.contains(x) <==> a@.take(i as int).contains(x),
        decreases a@.len() - i,
    {
        let ghost before = r@;
        insert_ascending(&mut r, a[i]);
        proof {
            let t = a@.take(i as int);
            let u = a@.take(i + 1);
            assert(u =~= t.push(a@[i as int]));
            assert forall|x: usize| #[trigger] r@.contains(x) <==> u.contains(x) by {
                take_contains(a@, i as int, x);
            }
        }
        i += 1;
    }
    assert(a@.take(i as int) =~= a@);
    let mut k: usize = 0;
    while k < b.len()
        invariant
            k <= b@.len(),
            ascending(r@),
            forall|x: usize|
                #[trigger] r@.contains(x) <==> a@.contains(x) || b@.take(k as int).contains(x),
        decreases b@.len() - k,
    {
        insert_ascending(&mut r, b[k]);
        proof {
            assert forall|x: usize|
                #[trigger] r@.contains(x) <==> a@.contains(x) || b@.take(k + 1).contains(x) by {
                take_contains(b@, k as int, x);
            }
        }
        k += 1;
    }
    assert(b@.take(k as int) =~= b@);
    proof {
        union_unique(r@, a@, b@);
    }
    r
}

/// One more element taken is one more element contained.
pub proof fn take_contains<T>(s: Seq<T>, i: int, x: T)
    requires
        0 <= i < s.len(),
    ensures
        s.take(i + 1).contains(x) <==> s.take(i).contains(x) || s[i] == x,
{
    let t = s.take(i);
    let u = s.take(i + 1);
    if u.contains(x) {
        let k = choose|k: int| 0 <= k < u.len() && u[k] == x;
        if k < i {
            assert(t[k] == x);
        }
    }
    if t.contains(x) {
        let k = choose|k: int| 0 <= k < t.len() && t[k] == x;
        assert(u[k] == x);
    }
    if s[i] == x {
        assert(u[i] == x);
    }
}

/// A copy of an index list.
pub fn copy_list(list: &Vec<usize>) -> (r: Vec<usize>)
    ensures
        r@ == list@,
{
    let mut r: Vec<usize> = Vec::new();
    let mut i: usize = 0;
    while i < list.len()
        invariant
            i <= list@.len(),
            r@ =~= list@.take(i as int),
        decreases list@.len() - i,
    {
        r.push(list[i]);
        i += 1;
    }
    r
}

/// A keyed list is in key order.
pub open spec fn keys_sorted<T>(s: Seq<(usize, T)>) -> bool {
    forall|i: int, j: int| 0 <= i < j < s.len() ==> s[i].0 <= s[j].0
}

/// Where an entry with `key` goes behind every entry with its key or less.
pub open spec fn place_of<T>(s: Seq<(usize, T)>, key: usize) -> int
    decreases s.len(),
{
    if s.len() == 0 {
        0
    } else if s.last().0 <= key {
        s.len() as int
    } else {
        place_of(s.drop_last(), key)
    }
}

/// The list sorted by key, entries of one key in their own order.
pub open spec fn stable_by_key<T>(s: Seq<(usize, T)>) -> Seq<(usize, T)>
    decreases s.len(),
{
    if s.len() == 0 {
        s
    } else {
        let rest = stable_by_key(s.drop_last());
        rest.insert(place_of(rest, s.last().0), s.last())
    }
}

proof fn place_of_bounds<T>(s: Seq<(usize, T)>, key: usize)
    requires
        keys_sorted(s),
    ensures
        0 <= place_of(s, key) <= s.len(),
        forall|i: int| 0 <= i < place_of(s, key) ==> (#[trigger] s[i]).0 <= key,
        forall|i: int| place_of(s, key) <= i < s.len() ==> (#[trigger] s[i]).0 > key,
    decreases s.len(),
{
    if s.len() > 0 {
        if s.last().0 > key {
            place_of_bounds(s.drop_last(), key);
            let d = s.drop_last();
            assert forall|i: int| 0 <= i < place_of(s, key) implies (#[trigger] s[i]).0 <= key by {
                assert(d[i] == s[i]);
            }
            assert forall|i: int| place_of(s, key) <= i < s.len() implies (#[trigger] s[i]).0
                > key by {
                if i < d.len() {
                    assert(d[i] == s[i]);
                }
            }
        }
    }
}

/// Stable ordering by key is in key order and holds the same entries.
pub proof fn stable_by_key_properties<T>(s: Seq<(usize, T)>)
    ensures
        keys_sorted(stable_by_key(s)),
        stable_by_key(s).to_multiset() == s.to_multiset(),
        stable_by_key(s).len() == s.len(),
    decreases s.len(),
{
    broadcast use vstd::seq_lib::group_to_multiset_ensures;

    if s.len() > 0 {
        let rest = stable_by_key(s.drop_last());
        stable_by_key_properties(s.drop_last());
        let p = place_of(rest, s.last().0);
        place_of_bounds(rest, s.last().0);
        let all = rest.insert(p, s.last());
        assert forall|i: int, j: int| 0 <= i < j < all.len() implies all[i].0 <= all[j].0 by {
            let ii = if i < p {
                i
            } else {
                i - 1
            };
            let jj = if j < p {
                j
            } else {
                j - 1
            };
            if i != p {
                assert(all[i] == rest[ii]);
            }
            if j != p {
                assert(all[j] == rest[jj]);
            }
        }
        assert(all.remove(p) =~= rest);
        assert(all[p] == s.last());
        vstd::seq_lib::to_multiset_remove(all, p);
        assert(all.contains(all[p]));
        assert(all.to_multiset() =~= rest.to_multiset().insert(s.last()));
        assert(s =~= s.drop_last().push(s.last()));
        vstd::seq_lib::to_multiset_build(s.drop_last(), s.last());
    }
}

/// Drop `x` from an ascending list.
pub fn remove_listed(list: &mut Vec<usize>, x: usize)
    requires
        ascending(old(list)@),
    ensures
        ascending(final(list)@),
        forall|y: usize|
            #[trigger] final(list)@.contains(y) <==> old(list)@.contains(y) && y != x,
{
    match position_of(list, x) {
        None => {},
        Some(at) => {
            let ghost before = list@;
            list.remove(at);
            proof {
                assert(list@ =~= before.remove(at as int));
                assert forall|y: usize|
                    #[trigger] list@.contains(y) <==> before.contains(y) && y != x by {
                    if list@.contains(y) {
                        let i = choose|i: int| 0 <= i < list@.len() && list@[i] == y;
                        if i < at {
                            assert(before[i] == y);
                            assert(before[i] < before[at as int]);
                        } else {
                            assert(before[i + 1] == y);
                            assert(before[at as int] < before[i + 1]);
                        }
                    }
                    if before.contains(y) && y != x {
                        let i = choose|i: int| 0 <= i < before.len() && before[i] == y;
                        if i < at {
                            assert(list@[i] == y);
                        } else {
                            assert(list@[i - 1] == y);
                        }
                    }
                }
            }
        },
    }
}

/// The kept indices below a kept one are those listed ahead of it.
pub proof fn select_rank(n: nat, keep: spec_fn(int) -> bool, k: int)
    requires
        n <= usize::MAX + 1,
        0 <= k < select(n, keep).len(),
    ensures
        select(select(n, keep)[k] as nat, keep).len() == k,
    decreases n,
{
    if n > 0 {
        let rest = select((n - 1) as nat, keep);
        if k < rest.len() {
            select_rank((n - 1) as nat, keep, k);
        }
    }
}

} // verus!

use vstd::prelude::*;

verus! {

/// A total preorder that ranked lists of this crate are sorted by.
pub trait TotalOrdered: Sized {
    /// The order itself.
    spec fn le(self, other: Self) -> bool;

    /// The order relates any two values.
    proof fn le_total(a: Self, b: Self)
        ensures
            a.le(b) || b.le(a),
    ;

    /// The order is transitive.
    proof fn le_trans(a: Self, b: Self, c: Self)
        requires
            a.le(b),
            b.le(c),
        ensures
            a.le(c),
    ;

    /// Decides the order.
    fn le_exec(&self, other: &Self) -> (r: bool)
        ensures
            r == self.le(*other),
    ;
}

/// Whether `s` is sorted by the order of its element type.
pub open spec fn sorted<T: TotalOrdered>(s: Seq<T>) -> bool {
    forall|i: int, j: int| 0 <= i < j < s.len() ==> #[trigger] s[i].le(#[trigger] s[j])
}

/// Sorts `v` by the element order: the result is a sorted rearrangement of
/// the input, nothing added, nothing lost.
pub fn insertion_sort<T: TotalOrdered>(v: &mut Vec<T>)
    ensures
        final(v)@.len() == old(v)@.len(),
        final(v)@.to_multiset() == old(v)@.to_multiset(),
        sorted(final(v)@),
{
    let n = v.len();
    if n == 0 {
        return ;
    }
    let mut i: usize = 1;
    while i < n
        invariant
            1 <= i <= n,
            v@.len() == n == old(v)@.len(),
            v@.to_multiset() == old(v)@.to_multiset(),
            sorted(v@.take(i as int)),
        decreases n - i,
    {
        // Find the insertion point for v[i] inside the sorted prefix.
        let mut p: usize = i;
        while p > 0
            invariant
                0 <= p <= i < n == v@.len(),
                forall|k: int| p <= k < i ==> v@[i as int].le(#[trigger] v@[k]),
            ensures
                0 <= p <= i,
                forall|k: int| p <= k < i ==> v@[i as int].le(#[trigger] v@[k]),
                p > 0 ==> v@[p - 1].le(v@[i as int]),
            decreases p,
        {
            if v[p - 1].le_exec(&v[i]) {
                break ;
            }
            proof {
                T::le_total(v@[p - 1], v@[i as int]);
            }
            p = p - 1;
        }
        let ghost before = v@;
        let x = v.remove(i);
        v.insert(p, x);
        proof {
            assert(v@ =~= before.remove(i as int).insert(p as int, x));
            lemma_remove_insert_multiset(before, i as int, p as int);
            lemma_sorted_after_insert(before, i as int, p as int);
        }
        i = i + 1;
    }
    proof {
        assert(v@.take(n as int) =~= v@);
    }
}

/// Removing an element and inserting it elsewhere leaves the multiset unchanged.
proof fn lemma_remove_insert_multiset<T>(s: Seq<T>, i: int, p: int)
    requires
        0 <= i < s.len(),
        0 <= p <= s.len() - 1,
    ensures
        s.remove(i).insert(p, s[i]).to_multiset() == s.to_multiset(),
{
    broadcast use vstd::seq_lib::group_to_multiset_ensures;

    let r = s.remove(i);
    lemma_insert_multiset(r, p, s[i]);
    assert(r.to_multiset() =~= s.to_multiset().remove(s[i]));
    assert(s.contains(s[i]));
    assert(s.to_multiset().count(s[i]) > 0);
    assert(s.to_multiset().remove(s[i]).insert(s[i]) =~= s.to_multiset());
}

/// Inserting an element anywhere adds exactly it to the multiset.
proof fn lemma_insert_multiset<T>(s: Seq<T>, p: int, x: T)
    requires
        0 <= p <= s.len(),
    ensures
        s.insert(p, x).to_multiset() == s.to_multiset().insert(x),
    decreases s.len() - p,
{
    broadcast use vstd::seq_lib::group_to_multiset_ensures;

    if p == s.len() {
        assert(s.insert(p, x) =~= s.push(x));
    } else {
        let last = s.last();
        let t = s.drop_last();
        assert(s.insert(p, x) =~= t.insert(p, x).push(last));
        lemma_insert_multiset(t, p, x);
        assert(s =~= t.push(last));
        assert(t.to_multiset().insert(x).insert(last) =~= t.to_multiset().insert(last).insert(x));
    }
}

/// Moving `s[i]` to position `p` of the sorted prefix keeps the prefix sorted,
/// provided the insertion point was chosen at the order boundary.
proof fn lemma_sorted_after_insert<T: TotalOrdered>(s: Seq<T>, i: int, p: int)
    requires
        0 < i < s.len(),
        0 <= p <= i,
        sorted(s.take(i)),
        forall|k: int| p <= k < i ==> s[i].le(#[trigger] s[k]),
        p > 0 ==> s[p - 1].le(s[i]),
    ensures
        sorted(s.remove(i).insert(p, s[i]).take(i + 1)),
{
    let pre = s.take(i);
    assert forall|k1: int, k2: int| 0 <= k1 < k2 < i implies s[k1].le(s[k2]) by {
        assert(pre[k1].le(pre[k2]));
    }
    let r = s.remove(i);
    let out = r.insert(p, s[i]);
    s.remove_ensures(i);
    r.insert_ensures(p, s[i]);
    let t = out.take(i + 1);
    assert forall|a: int, b: int| 0 <= a < b < t.len() implies #[trigger] t[a].le(
        #[trigger] t[b],
    ) by {
        assert(t[a] == out[a]);
        assert(t[b] == out[b]);
        // Below position p the prefix is untouched; at p stands s[i]; above p
        // everything shifted up by one.
        if a < p {
            assert(out[a] == s[a]);
        } else if a == p {
            assert(out[a] == s[i]);
        } else {
            assert(out[a] == r[a - 1]);
            assert(r[a - 1] == s[a - 1]);
        }
        if b < p {
            assert(out[b] == s[b]);
        } else if b == p {
            assert(out[b] == s[i]);
        } else {
            assert(out[b] == r[b - 1]);
            assert(r[b - 1] == s[b - 1]);
        }
        if b < p {
            // both below p: old prefix order
        } else if b == p {
            // a < p: s[a] le s[p-1] le s[i]
            if a < p - 1 {
                T::le_trans(s[a], s[p - 1], s[i]);
            }
        } else if a < p {
            // s[a] le s[b-1] by old prefix order (a < p <= b-1 < i)
        } else if a == p {
            // s[i] le s[b-1] by the boundary condition (p <= b-1 < i)
        } else {
            // both above p: old prefix order on a-1 < b-1 < i
        }
    }
}

} // verus!

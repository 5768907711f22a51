//! Strict total orders, the lexicographic order they induce on sequences, and
//! ascending sequences as the canonical listing of a finite set.

use vstd::prelude::*;

verus! {

/// How one value stands to another in a strict total order.
#[derive(Clone, Copy, Debug, PartialEq, Eq, Structural)]
pub enum Rank {
    Before,
    Same,
    After,
}

/// `less` is irreflexive, transitive, and relates any two distinct values.
pub open spec fn strict_total_order<T>(less: spec_fn(T, T) -> bool) -> bool {
    &&& forall|x: T| !#[trigger] less(x, x)
    &&& forall|x: T, y: T, z: T| #[trigger] less(x, y) && #[trigger] less(y, z) ==> less(x, z)
    &&& forall|x: T, y: T| #[trigger] less(x, y) || x == y || less(y, x)
}

/// `a` and `b` agree before position `k`, and at `k` either `a` has ended
/// while `b` goes on, or `a` holds the smaller item.
pub open spec fn splits_at<T>(a: Seq<T>, b: Seq<T>, less: spec_fn(T, T) -> bool, k: int) -> bool {
    &&& 0 <= k <= a.len()
    &&& k < b.len()
    &&& forall|i: int| #![trigger a[i]] #![trigger b[i]] 0 <= i < k ==> a[i] == b[i]
    &&& k < a.len() ==> less(a[k], b[k])
}

/// The lexicographic order on sequences that `less` induces: a proper prefix
/// comes before its extensions, and otherwise the first difference decides.
pub open spec fn lex_less<T>(a: Seq<T>, b: Seq<T>, less: spec_fn(T, T) -> bool) -> bool {
    exists|k: int| splits_at(a, b, less, k)
}

/// The lexicographic order as a relation.
pub open spec fn lex_order<T>(less: spec_fn(T, T) -> bool) -> spec_fn(Seq<T>, Seq<T>) -> bool {
    |a: Seq<T>, b: Seq<T>| lex_less(a, b, less)
}

/// Where `a` stands to `b` lexicographically.
pub open spec fn lex_rank<T>(a: Seq<T>, b: Seq<T>, less: spec_fn(T, T) -> bool) -> Rank {
    if lex_less(a, b, less) {
        Rank::Before
    } else if a == b {
        Rank::Same
    } else {
        Rank::After
    }
}

/// Every item of `s` is smaller than all items after it.
pub open spec fn ascending<T>(s: Seq<T>, less: spec_fn(T, T) -> bool) -> bool {
    forall|i: int, j: int| 0 <= i < j < s.len() ==> less(#[trigger] s[i], #[trigger] s[j])
}

/// No sequence comes before itself.
pub proof fn lemma_lex_irreflexive<T>(a: Seq<T>, less: spec_fn(T, T) -> bool)
    requires
        strict_total_order(less),
    ensures
        !lex_less(a, a, less),
{
    if lex_less(a, a, less) {
        let k = choose|k: int| splits_at(a, a, less, k);
        assert(less(a[k], a[k]));
    }
}

/// The lexicographic order is transitive.
pub proof fn lemma_lex_transitive<T>(a: Seq<T>, b: Seq<T>, c: Seq<T>, less: spec_fn(T, T) -> bool)
    requires
        strict_total_order(less),
        lex_less(a, b, less),
        lex_less(b, c, less),
    ensures
        lex_less(a, c, less),
{
    let k1 = choose|k: int| splits_at(a, b, less, k);
    let k2 = choose|k: int| splits_at(b, c, less, k);
    let k = if k1 <= k2 {
        k1
    } else {
        k2
    };
    assert forall|i: int| 0 <= i < k implies a[i] == c[i] by {
        assert(a[i] == b[i]);
        assert(b[i] == c[i]);
    }
    if k < a.len() {
        if k1 < k2 {
            assert(less(a[k], b[k]));
            assert(b[k] == c[k]);
        } else if k2 < k1 {
            assert(a[k] == b[k]);
            assert(less(b[k], c[k]));
        } else {
            assert(less(a[k], b[k]) && less(b[k], c[k]));
        }
    }
    assert(splits_at(a, c, less, k));
}

proof fn lemma_lex_connected_from<T>(a: Seq<T>, b: Seq<T>, less: spec_fn(T, T) -> bool, k: int)
    requires
        strict_total_order(less),
        0 <= k <= a.len(),
        k <= b.len(),
        forall|i: int| 0 <= i < k ==> a[i] == b[i],
    ensures
        lex_less(a, b, less) || a == b || lex_less(b, a, less),
    decreases a.len() - k,
{
    if k == a.len() {
        if k == b.len() {
            assert(a =~= b);
        } else {
            assert(splits_at(a, b, less, k));
        }
    } else if k == b.len() {
        assert(splits_at(b, a, less, k));
    } else if a[k] == b[k] {
        lemma_lex_connected_from(a, b, less, k + 1);
    } else if less(a[k], b[k]) {
        assert(splits_at(a, b, less, k));
    } else {
        assert(less(b[k], a[k]));
        assert(splits_at(b, a, less, k));
    }
}

/// Any two distinct sequences are related one way or the other.
pub proof fn lemma_lex_connected<T>(a: Seq<T>, b: Seq<T>, less: spec_fn(T, T) -> bool)
    requires
        strict_total_order(less),
    ensures
        lex_less(a, b, less) || a == b || lex_less(b, a, less),
{
    lemma_lex_connected_from(a, b, less, 0);
}

/// The lexicographic order over a strict total order is a strict total order.
pub proof fn lemma_lex_order_is_total<T>(less: spec_fn(T, T) -> bool)
    requires
        strict_total_order(less),
    ensures
        strict_total_order(lex_order(less)),
{
    let order = lex_order(less);
    assert forall|x: Seq<T>| !#[trigger] order(x, x) by {
        lemma_lex_irreflexive(x, less);
    }
    assert forall|x: Seq<T>, y: Seq<T>, z: Seq<T>| #[trigger] order(x, y) && #[trigger] order(
        y,
        z,
    ) implies order(x, z) by {
        lemma_lex_transitive(x, y, z, less);
    }
    assert forall|x: Seq<T>, y: Seq<T>| #[trigger] order(x, y) || x == y || order(y, x) by {
        lemma_lex_connected(x, y, less);
    }
}

/// Of "before", "equal" and "after" only the one that `lex_rank` names holds.
pub proof fn lemma_lex_rank<T>(a: Seq<T>, b: Seq<T>, less: spec_fn(T, T) -> bool)
    requires
        strict_total_order(less),
    ensures
        lex_rank(a, b, less) == Rank::Before <==> lex_less(a, b, less),
        lex_rank(a, b, less) == Rank::Same <==> a == b,
        lex_rank(a, b, less) == Rank::After <==> lex_less(b, a, less),
{
    lemma_lex_irreflexive(a, less);
    lemma_lex_connected(a, b, less);
    if lex_less(a, b, less) && lex_less(b, a, less) {
        lemma_lex_transitive(a, b, a, less);
    }
}

/// An ascending sequence holds no item twice.
pub proof fn lemma_ascending_no_duplicates<T>(s: Seq<T>, less: spec_fn(T, T) -> bool)
    requires
        strict_total_order(less),
        ascending(s, less),
    ensures
        s.no_duplicates(),
        s.to_set().finite(),
        s.to_set().len() == s.len(),
{
    assert forall|i: int, j: int| 0 <= i < s.len() && 0 <= j < s.len() && i != j implies s[i]
        != s[j] by {
        if i < j {
            assert(less(s[i], s[j]));
        } else {
            assert(less(s[j], s[i]));
        }
    }
    s.unique_seq_to_set();
}

/// A finite set has only one ascending listing.
pub proof fn lemma_ascending_unique<T>(s: Seq<T>, t: Seq<T>, less: spec_fn(T, T) -> bool)
    requires
        strict_total_order(less),
        ascending(s, less),
        ascending(t, less),
        s.to_set() == t.to_set(),
    ensures
        s == t,
    decreases s.len(),
{
    lemma_ascending_no_duplicates(s, less);
    lemma_ascending_no_duplicates(t, less);
    if s.len() == 0 {
        assert(s =~= t);
    } else {
        let n = s.len() as int;
        assert(s.to_set().contains(s[n - 1]));
        assert(t.contains(s[n - 1]));
        let j = choose|j: int| 0 <= j < n && t[j] == s[n - 1];
        assert(t.to_set().contains(t[n - 1]));
        assert(s.contains(t[n - 1]));
        let i = choose|i: int| 0 <= i < n && s[i] == t[n - 1];
        if j < n - 1 {
            assert(less(t[j], t[n - 1]));
            if i < n - 1 {
                assert(less(s[i], s[n - 1]));
            }
            assert(false);
        }
        let s0 = s.drop_last();
        let t0 = t.drop_last();
        assert forall|x: T| s0.to_set().contains(x) <==> t0.to_set().contains(x) by {
            if s0.to_set().contains(x) {
                assert(s0.contains(x));
                let a = choose|a: int| 0 <= a < n - 1 && s0[a] == x;
                assert(s[a] == x);
                assert(less(s[a], s[n - 1]));
                assert(s.to_set().contains(x));
                assert(t.contains(x));
                let b = choose|b: int| 0 <= b < n && t[b] == x;
                assert(b < n - 1);
                assert(t0[b] == x);
                assert(t0.contains(x));
            }
            if t0.to_set().contains(x) {
                assert(t0.contains(x));
                let b = choose|b: int| 0 <= b < n - 1 && t0[b] == x;
                assert(t[b] == x);
                assert(less(t[b], t[n - 1]));
                assert(t.to_set().contains(x));
                assert(s.contains(x));
                let a = choose|a: int| 0 <= a < n && s[a] == x;
                assert(a < n - 1);
                assert(s0[a] == x);
                assert(s0.contains(x));
            }
        }
        assert(s0.to_set() =~= t0.to_set());
        lemma_ascending_unique(s0, t0, less);
        assert(s =~= s0.push(s[n - 1]));
        assert(t =~= t0.push(t[n - 1]));
    }
}

/// Putting `x` into a sequence adds it to the set of the items.
pub proof fn lemma_insert_to_set<T>(s: Seq<T>, k: int, x: T)
    requires
        0 <= k <= s.len(),
    ensures
        s.insert(k, x).to_set() == s.to_set().insert(x),
{
    let r = s.insert(k, x);
    assert forall|y: T| r.to_set().contains(y) <==> s.to_set().insert(x).contains(y) by {
        if r.to_set().contains(y) {
            assert(r.contains(y));
            let i = choose|i: int| 0 <= i < r.len() && r[i] == y;
            if i < k {
                assert(s[i] == y);
                assert(s.contains(y));
            } else if i > k {
                assert(s[i - 1] == y);
                assert(s.contains(y));
            }
        }
        if s.to_set().contains(y) {
            assert(s.contains(y));
            let i = choose|i: int| 0 <= i < s.len() && s[i] == y;
            if i < k {
                assert(r[i] == y);
            } else {
                assert(r[i + 1] == y);
            }
            assert(r.contains(y));
        }
        if y == x {
            assert(r[k] == x);
            assert(r.contains(y));
        }
    }
    assert(r.to_set() =~= s.to_set().insert(x));
}

/// Putting `x` at a position where everything before is smaller and everything
/// after is larger keeps a sequence ascending.
pub proof fn lemma_insert_keeps_ascending<T>(s: Seq<T>, k: int, x: T, less: spec_fn(T, T) -> bool)
    requires
        ascending(s, less),
        0 <= k <= s.len(),
        forall|i: int| 0 <= i < k ==> less(#[trigger] s[i], x),
        forall|i: int| k <= i < s.len() ==> less(x, #[trigger] s[i]),
    ensures
        ascending(s.insert(k, x), less),
        s.insert(k, x).to_set() == s.to_set().insert(x),
{
    let r = s.insert(k, x);
    assert forall|i: int, j: int| 0 <= i < j < r.len() implies less(
        #[trigger] r[i],
        #[trigger] r[j],
    ) by {
        let i0 = if i < k {
            i
        } else {
            i - 1
        };
        let j0 = if j < k {
            j
        } else {
            j - 1
        };
        if i != k && j != k {
            assert(r[i] == s[i0] && r[j] == s[j0]);
            assert(less(s[i0], s[j0]));
        } else if i == k {
            assert(r[j] == s[j0]);
        } else {
            assert(r[i] == s[i0]);
        }
    }
    lemma_insert_to_set(s, k, x);
}

} // verus!

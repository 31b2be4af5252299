//! Orders on sequences: strictly sorted sequences are determined by their elements.

use vstd::prelude::*;

verus! {

/// `s` is strictly increasing under `lt`.
pub open spec fn strictly_sorted<T>(s: Seq<T>, lt: spec_fn(T, T) -> bool) -> bool {
    forall|i: int, j: int| 0 <= i < j < s.len() ==> lt(s[i], s[j])
}

/// `lt` is a strict order (irreflexive and transitive).
pub open spec fn strict_order<T>(lt: spec_fn(T, T) -> bool) -> bool {
    &&& forall|a: T| !#[trigger] lt(a, a)
    &&& forall|a: T, b: T, c: T| #[trigger] lt(a, b) && #[trigger] lt(b, c) ==> lt(a, c)
}

/// The strictly sorted sequence holding exactly the elements of `set`.
pub open spec fn sorted_seq_of<T>(set: Set<T>, lt: spec_fn(T, T) -> bool) -> Seq<T> {
    choose|s: Seq<T>| strictly_sorted(s, lt) && s.to_set() == set
}

/// Two strictly sorted sequences with the same elements are equal.
pub proof fn lemma_sorted_unique<T>(s: Seq<T>, t: Seq<T>, lt: spec_fn(T, T) -> bool)
    requires
        strict_order(lt),
        strictly_sorted(s, lt),
        strictly_sorted(t, lt),
        s.to_set() == t.to_set(),
    ensures
        s == t,
    decreases s.len(),
{
    if s.len() == 0 {
        if t.len() > 0 {
            assert(t.to_set().contains(t[0]));
        }
        assert(t.len() == 0);
    } else {
        assert(s.to_set().contains(s[0]));
        assert(t.to_set().contains(s[0]));
        let k = choose|k: int| 0 <= k < t.len() && t[k] == s[0];
        assert(t.to_set().contains(t[0]));
        assert(s.to_set().contains(t[0]));
        let m = choose|m: int| 0 <= m < s.len() && s[m] == t[0];
        if k > 0 && m > 0 {
            assert(lt(t[0], t[k]));
            assert(lt(s[0], s[m]));
            assert(lt(s[0], s[0]));
        }
        assert(s[0] == t[0]);
        let s1 = s.drop_first();
        let t1 = t.drop_first();
        assert forall|x: T| s1.to_set().contains(x) implies t1.to_set().contains(x) by {
            let i = choose|i: int| 0 <= i < s1.len() && s1[i] == x;
            assert(s.to_set().contains(x));
            assert(t.to_set().contains(x));
            let j = choose|j: int| 0 <= j < t.len() && t[j] == x;
            if j == 0 {
                assert(lt(s[0], s[i + 1]));
            }
            assert(t1[j - 1] == x);
        }
        assert forall|x: T| t1.to_set().contains(x) implies s1.to_set().contains(x) by {
            let i = choose|i: int| 0 <= i < t1.len() && t1[i] == x;
            assert(t.to_set().contains(x));
            assert(s.to_set().contains(x));
            let j = choose|j: int| 0 <= j < s.len() && s[j] == x;
            if j == 0 {
                assert(lt(t[0], t[i + 1]));
            }
            assert(s1[j - 1] == x);
        }
        assert(s1.to_set() =~= t1.to_set());
        lemma_sorted_unique(s1, t1, lt);
        assert(s == seq![s[0]] + s1);
        assert(t == seq![t[0]] + t1);
    }
}

/// A strictly sorted sequence with the given elements is the one `sorted_seq_of` names.
pub proof fn lemma_is_sorted_seq_of<T>(s: Seq<T>, set: Set<T>, lt: spec_fn(T, T) -> bool)
    requires
        strict_order(lt),
        strictly_sorted(s, lt),
        s.to_set() == set,
    ensures
        sorted_seq_of(set, lt) == s,
{
    let t = sorted_seq_of(set, lt);
    assert(strictly_sorted(t, lt) && t.to_set() == set);
    lemma_sorted_unique(t, s, lt);
}

} // verus!

verus! {

/// Pushing onto a sequence adds the element to its set.
pub proof fn lemma_push_to_set<T>(s: Seq<T>, x: T)
    ensures
        s.push(x).to_set() == s.to_set().insert(x),
{
    let t = s.push(x);
    assert forall|y: T| t.to_set().contains(y) <==> s.to_set().insert(x).contains(y) by {
        if t.to_set().contains(y) {
            let k = choose|k: int| 0 <= k < t.len() && t[k] == y;
            if k < s.len() {
                assert(s[k] == y);
            }
        }
        if s.to_set().contains(y) {
            let k = choose|k: int| 0 <= k < s.len() && s[k] == y;
            assert(t[k] == y);
        }
        if y == x {
            assert(t[s.len() as int] == y);
        }
    }
    assert(t.to_set() =~= s.to_set().insert(x));
}

} // verus!

verus! {

/// `lt` relates any two distinct elements one way or the other.
pub open spec fn total<T>(lt: spec_fn(T, T) -> bool) -> bool {
    forall|a: T, b: T| a != b ==> #[trigger] lt(a, b) || lt(b, a)
}

/// `x` inserted into `t` before the first element it sorts before.
pub open spec fn insert_sorted<T>(t: Seq<T>, x: T, lt: spec_fn(T, T) -> bool) -> Seq<T>
    decreases t.len(),
{
    if t.len() == 0 {
        seq![x]
    } else if lt(x, t[0]) {
        seq![x] + t
    } else {
        seq![t[0]] + insert_sorted(t.drop_first(), x, lt)
    }
}

/// `lt` relates any two distinct elements of `set` one way or the other.
pub open spec fn total_on<T>(set: Set<T>, lt: spec_fn(T, T) -> bool) -> bool {
    forall|a: T, b: T| set.contains(a) && set.contains(b) && a != b ==> #[trigger] lt(a, b) || lt(b, a)
}

/// Inserting a new element into a strictly sorted sequence keeps it
/// strictly sorted and adds the element to its set.
proof fn lemma_insert_sorted<T>(t: Seq<T>, x: T, lt: spec_fn(T, T) -> bool)
    requires
        strict_order(lt),
        total_on(t.to_set().insert(x), lt),
        strictly_sorted(t, lt),
        !t.to_set().contains(x),
    ensures
        strictly_sorted(insert_sorted(t, x, lt), lt),
        insert_sorted(t, x, lt).to_set() == t.to_set().insert(x),
        insert_sorted(t, x, lt).len() == t.len() + 1,
        insert_sorted(t, x, lt)[0] == x || (t.len() > 0 && insert_sorted(t, x, lt)[0] == t[0]),
    decreases t.len(),
{
    let r = insert_sorted(t, x, lt);
    if t.len() == 0 {
        assert(r.to_set() =~= t.to_set().insert(x)) by {
            assert forall|y: T| r.to_set().contains(y) <==> t.to_set().insert(x).contains(y) by {
                if r.to_set().contains(y) {
                    let k = choose|k: int| 0 <= k < r.len() && r[k] == y;
                }
                if y == x {
                    assert(r[0] == y);
                }
            }
        }
    } else if lt(x, t[0]) {
        assert forall|a: int, b: int| 0 <= a < b < r.len() implies lt(r[a], r[b]) by {
            assert(t.to_set().contains(t[0]));
            if a == 0 {
                if b > 1 {
                    assert(lt(t[0], t[b - 1]));
                }
            } else {
                assert(r[a] == t[a - 1] && r[b] == t[b - 1]);
            }
        }
        assert(r.to_set() =~= t.to_set().insert(x)) by {
            assert forall|y: T| r.to_set().contains(y) <==> t.to_set().insert(x).contains(y) by {
                if r.to_set().contains(y) {
                    let k = choose|k: int| 0 <= k < r.len() && r[k] == y;
                    if k > 0 {
                        assert(t[k - 1] == y);
                    }
                }
                if t.to_set().contains(y) {
                    let k = choose|k: int| 0 <= k < t.len() && t[k] == y;
                    assert(r[k + 1] == y);
                }
                if y == x {
                    assert(r[0] == y);
                }
            }
        }
    } else {
        let t1 = t.drop_first();
        assert(strictly_sorted(t1, lt)) by {
            assert forall|a: int, b: int| 0 <= a < b < t1.len() implies lt(t1[a], t1[b]) by {
                assert(lt(t[a + 1], t[b + 1]));
            }
        }
        assert(!t1.to_set().contains(x)) by {
            if t1.to_set().contains(x) {
                let k = choose|k: int| 0 <= k < t1.len() && t1[k] == x;
                assert(t.to_set().contains(t[k + 1]));
            }
        }
        assert(total_on(t1.to_set().insert(x), lt)) by {
            assert forall|a: T, b: T|
                t1.to_set().insert(x).contains(a) && t1.to_set().insert(x).contains(b) && a != b implies #[trigger] lt(
                a,
                b,
            ) || lt(b, a) by {
                if a != x {
                    let k = choose|k: int| 0 <= k < t1.len() && t1[k] == a;
                    assert(t.to_set().contains(t[k + 1]));
                }
                if b != x {
                    let k = choose|k: int| 0 <= k < t1.len() && t1[k] == b;
                    assert(t.to_set().contains(t[k + 1]));
                }
            }
        }
        lemma_insert_sorted(t1, x, lt);
        let r1 = insert_sorted(t1, x, lt);
        assert(r == seq![t[0]] + r1);
        assert(x != t[0]) by {
            assert(t.to_set().contains(t[0]));
        }
        assert(t.to_set().contains(t[0]));
        assert(lt(t[0], x));
        assert forall|a: int, b: int| 0 <= a < b < r.len() implies lt(r[a], r[b]) by {
            if a == 0 {
                assert(r1.to_set().contains(r1[b - 1]));
                assert(t1.to_set().insert(x).contains(r1[b - 1]));
                if r1[b - 1] != x {
                    let k = choose|k: int| 0 <= k < t1.len() && t1[k] == r1[b - 1];
                    assert(lt(t[0], t[k + 1]));
                }
            } else {
                assert(r[a] == r1[a - 1] && r[b] == r1[b - 1]);
            }
        }
        assert(r.to_set() =~= t.to_set().insert(x)) by {
            assert forall|y: T| r.to_set().contains(y) <==> t.to_set().insert(x).contains(y) by {
                if r.to_set().contains(y) {
                    let k = choose|k: int| 0 <= k < r.len() && r[k] == y;
                    if k > 0 {
                        assert(r1.to_set().contains(r1[k - 1]));
                        if r1[k - 1] != x {
                            let q = choose|q: int| 0 <= q < t1.len() && t1[q] == r1[k - 1];
                            assert(t[q + 1] == y);
                        }
                    } else {
                        assert(t[0] == y);
                    }
                }
                if t.to_set().contains(y) {
                    let k = choose|k: int| 0 <= k < t.len() && t[k] == y;
                    if k == 0 {
                        assert(r[0] == y);
                    } else {
                        assert(t1[k - 1] == y);
                        assert(r1.to_set().contains(y));
                        let q = choose|q: int| 0 <= q < r1.len() && r1[q] == y;
                        assert(r[q + 1] == y);
                    }
                }
                if y == x {
                    assert(r1.to_set().contains(x));
                    let q = choose|q: int| 0 <= q < r1.len() && r1[q] == x;
                    assert(r[q + 1] == x);
                }
            }
        }
    }
}

/// A finite set under a strict order total on it has a strictly sorted
/// sequence of its elements, which `sorted_seq_of` names.
pub proof fn lemma_sorted_seq_of_on<T>(set: Set<T>, lt: spec_fn(T, T) -> bool)
    requires
        set.finite(),
        strict_order(lt),
        total_on(set, lt),
    ensures
        strictly_sorted(sorted_seq_of(set, lt), lt),
        sorted_seq_of(set, lt).to_set() == set,
    decreases set.len(),
{
    if set.len() == 0 {
        let e: Seq<T> = seq![];
        assert(e.to_set() =~= set) by {
            assert forall|y: T| !set.contains(y) by {
                if set.contains(y) {
                    assert(set.remove(y).len() < set.len());
                }
            }
        }
        assert(strictly_sorted(e, lt) && e.to_set() == set);
    } else {
        let x = set.choose();
        assert(set.contains(x));
        let rest = set.remove(x);
        lemma_sorted_seq_of_on(rest, lt);
        let t = sorted_seq_of(rest, lt);
        assert(t.to_set().insert(x) =~= set);
        lemma_insert_sorted(t, x, lt);
        let w = insert_sorted(t, x, lt);
        assert(w.to_set() =~= set);
        assert(strictly_sorted(w, lt) && w.to_set() == set);
    }
}

} // verus!

verus! {

/// A finite set under a strict total order has a strictly sorted sequence
/// of its elements, which `sorted_seq_of` names.
pub proof fn lemma_sorted_seq_of<T>(set: Set<T>, lt: spec_fn(T, T) -> bool)
    requires
        set.finite(),
        strict_order(lt),
        total(lt),
    ensures
        strictly_sorted(sorted_seq_of(set, lt), lt),
        sorted_seq_of(set, lt).to_set() == set,
{
    lemma_sorted_seq_of_on(set, lt);
}


/// Inserting `x` at `i` into a strictly sorted sequence, after everything
/// below `x` and before everything above it, keeps it strictly sorted and
/// adds `x` to its set.
pub proof fn lemma_insert_at<T>(ov: Seq<T>, x: T, i: int, ord: spec_fn(T, T) -> bool)
    requires
        strict_order(ord),
        strictly_sorted(ov, ord),
        0 <= i <= ov.len(),
        forall|j: int| 0 <= j < i ==> ord(ov[j], x),
        i < ov.len() ==> ord(x, ov[i]),
    ensures
        strictly_sorted(ov.insert(i, x), ord),
        ov.insert(i, x).to_set() == ov.to_set().insert(x),
{
    let nu = ov.insert(i, x);
    assert forall|a: int, b: int| 0 <= a < b < nu.len() implies ord(nu[a], nu[b]) by {
        if b < i {
            assert(nu[a] == ov[a] && nu[b] == ov[b]);
        } else if a < i && b == i {
            assert(nu[a] == ov[a] && nu[b] == x);
        } else if a < i {
            assert(nu[a] == ov[a] && nu[b] == ov[b - 1]);
            assert(ord(ov[a], x));
            assert(ord(x, ov[i]));
            assert(ord(ov[a], ov[i]));
            if b - 1 > i {
                assert(ord(ov[i], ov[b - 1]));
            }
        } else if a == i {
            assert(nu[a] == x && nu[b] == ov[b - 1]);
            if b - 1 > i {
                assert(ord(ov[i], ov[b - 1]));
            }
        } else {
            assert(nu[a] == ov[a - 1] && nu[b] == ov[b - 1]);
        }
    }
    assert forall|y: T| nu.to_set().contains(y) == ov.to_set().insert(x).contains(y) by {
        if nu.to_set().contains(y) {
            let q = choose|q: int| 0 <= q < nu.len() && nu[q] == y;
            if q < i {
                assert(ov[q] == y);
            } else if q > i {
                assert(ov[q - 1] == y);
            }
        }
        if ov.to_set().contains(y) {
            let q = choose|q: int| 0 <= q < ov.len() && ov[q] == y;
            if q < i {
                assert(nu[q] == y);
            } else {
                assert(nu[q + 1] == y);
            }
        }
        if y == x {
            assert(nu[i] == y);
        }
    }
    assert(nu.to_set() =~= ov.to_set().insert(x));
}

} // verus!

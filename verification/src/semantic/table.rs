//! Tables keyed by text, kept sorted by key, where a later entry for a key
//! replaces an earlier one.

use vstd::prelude::*;

use crate::order::strictly_sorted;
use crate::semantic::part::{lemma_text_order, text_order};
use crate::text::{lemma_seq_lt_total, str_eq, str_lt};

verus! {

/// The value the last entry of `items` with key `k` gives.
pub open spec fn last_value<V>(items: Seq<(Seq<char>, V)>, k: Seq<char>) -> Option<V>
    decreases items.len(),
{
    if items.len() == 0 {
        None
    } else if items.last().0 == k {
        Some(items.last().1)
    } else {
        last_value(items.drop_last(), k)
    }
}

/// The keys of a table.
pub open spec fn keys_of<V>(m: Seq<(Seq<char>, V)>) -> Seq<Seq<char>> {
    m.map_values(|e: (Seq<char>, V)| e.0)
}

/// `m` is the table of `items`: its keys strictly increasing, exactly the
/// keys of `items`, each holding the last value given for it.
pub open spec fn table_of<V>(m: Seq<(Seq<char>, V)>, items: Seq<(Seq<char>, V)>) -> bool {
    &&& strictly_sorted(keys_of(m), text_order())
    &&& forall|k: Seq<char>|
        (exists|i: int| 0 <= i < m.len() && #[trigger] m[i].0 == k) <==> (#[trigger] last_value(items, k)) is Some
    &&& forall|i: int| 0 <= i < m.len() ==> last_value(items, #[trigger] m[i].0) == Some(m[i].1)
}

/// A table held with texts, by the characters of each key.
pub open spec fn text_table<V>(m: Seq<(String, V)>) -> Seq<(Seq<char>, V)> {
    m.map_values(|e: (String, V)| (e.0@, e.1))
}

/// The empty table is the table of no entries.
pub proof fn lemma_empty_table<V>(m: Seq<(Seq<char>, V)>)
    requires
        m.len() == 0,
    ensures
        table_of(m, seq![]),
{
}

/// Enters `v` under `k`, replacing what `k` held.
pub fn upsert<V>(m: &mut Vec<(String, V)>, k: String, v: V, Ghost(items): Ghost<Seq<(Seq<char>, V)>>)
    requires
        table_of(text_table(old(m)@), items),
    ensures
        table_of(text_table(final(m)@), items.push((k@, v))),
{
    let ghost om = text_table(m@);
    let ghost ord = text_order();
    let ghost nitems = items.push((k@, v));
    proof {
        lemma_text_order();
    }
    let mut i: usize = 0;
    while i < m.len() && str_lt(m[i].0.as_str(), k.as_str())
        invariant
            i <= m.len(),
            om == text_table(m@),
            ord == text_order(),
            forall|j: int| 0 <= j < i ==> ord(om[j].0, k@),
        decreases m.len() - i,
    {
        assert(om[i as int].0 == m@[i as int].0@);
        i = i + 1;
    }
    assert(nitems.drop_last() =~= items);
    assert(nitems.last() == (k@, v));
    if i < m.len() && str_eq(m[i].0.as_str(), k.as_str()) {
        assert(om[i as int].0 == k@);
        m.set(i, (k, v));
        proof {
            let nm = text_table(m@);
            assert(nm =~= om.update(i as int, (k@, v)));
            assert(keys_of(nm) =~= keys_of(om));
            assert forall|q: Seq<char>|
                (exists|j: int| 0 <= j < nm.len() && #[trigger] nm[j].0 == q) <==> (#[trigger] last_value(
                    nitems,
                    q,
                )) is Some by {
                if exists|j: int| 0 <= j < nm.len() && #[trigger] nm[j].0 == q {
                    let j = choose|j: int| 0 <= j < nm.len() && #[trigger] nm[j].0 == q;
                    assert(om[j].0 == q);
                }
                if last_value(nitems, q) is Some && q != k@ {
                    assert(last_value(items, q) is Some);
                    let j = choose|j: int| 0 <= j < om.len() && #[trigger] om[j].0 == q;
                    assert(nm[j].0 == q);
                }
                if q == k@ {
                    assert(nm[i as int].0 == q);
                }
            }
            assert forall|j: int| 0 <= j < nm.len() implies last_value(nitems, #[trigger] nm[j].0) == Some(
                nm[j].1,
            ) by {
                if j != i {
                    assert(nm[j] == om[j]);
                    assert(keys_of(om)[j] == om[j].0);
                    assert(keys_of(om)[i as int] == om[i as int].0);
                    if j < i {
                        assert(ord(om[j].0, om[i as int].0));
                    } else {
                        assert(ord(om[i as int].0, om[j].0));
                    }
                }
            }
        }
        return;
    }
    proof {
        if i < m.len() {
            assert(om[i as int].0 == m@[i as int].0@);
            lemma_seq_lt_total(om[i as int].0, k@);
            assert(ord(k@, om[i as int].0));
        }
    }
    m.insert(i, (k, v));
    proof {
        let nm = text_table(m@);
        assert(nm =~= om.insert(i as int, (k@, v)));
        let ok = keys_of(om);
        let nk = keys_of(nm);
        assert(nk =~= ok.insert(i as int, k@));
        assert forall|a: int, b: int| 0 <= a < b < nk.len() implies ord(nk[a], nk[b]) by {
            if b < i {
                assert(nk[a] == ok[a] && nk[b] == ok[b]);
            } else if a < i && b == i {
                assert(nk[a] == ok[a] && nk[b] == k@);
                assert(ok[a] == om[a].0);
            } else if a < i {
                assert(nk[a] == ok[a] && nk[b] == ok[b - 1]);
                assert(ok[a] == om[a].0);
                assert(ord(ok[a], k@));
                assert(ok[i as int] == om[i as int].0);
                assert(ord(k@, ok[i as int]));
                assert(ord(ok[a], ok[i as int]));
                if b - 1 > i {
                    assert(ord(ok[i as int], ok[b - 1]));
                }
            } else if a == i {
                assert(nk[a] == k@ && nk[b] == ok[b - 1]);
                assert(ok[i as int] == om[i as int].0);
                if b - 1 > i {
                    assert(ord(ok[i as int], ok[b - 1]));
                }
            } else {
                assert(nk[a] == ok[a - 1] && nk[b] == ok[b - 1]);
            }
        }
        assert forall|q: Seq<char>|
            (exists|j: int| 0 <= j < nm.len() && #[trigger] nm[j].0 == q) <==> (#[trigger] last_value(
                nitems,
                q,
            )) is Some by {
            if exists|j: int| 0 <= j < nm.len() && #[trigger] nm[j].0 == q {
                let j = choose|j: int| 0 <= j < nm.len() && #[trigger] nm[j].0 == q;
                if j < i {
                    assert(om[j].0 == q);
                } else if j > i {
                    assert(om[j - 1].0 == q);
                }
            }
            if last_value(nitems, q) is Some && q != k@ {
                assert(last_value(items, q) is Some);
                let j = choose|j: int| 0 <= j < om.len() && #[trigger] om[j].0 == q;
                if j < i {
                    assert(nm[j].0 == q);
                } else {
                    assert(nm[j + 1].0 == q);
                }
            }
            if q == k@ {
                assert(nm[i as int].0 == q);
            }
        }
        assert forall|j: int| 0 <= j < nm.len() implies last_value(nitems, #[trigger] nm[j].0) == Some(nm[j].1) by {
            if j < i {
                assert(nm[j] == om[j]);
                assert(ok[j] == om[j].0);
                assert(ord(om[j].0, k@));
                crate::text::lemma_seq_lt_irreflexive(k@);
            } else if j > i {
                assert(nm[j] == om[j - 1]);
                assert(ok[j - 1] == om[j - 1].0);
                assert(ok[i as int] == om[i as int].0);
                assert(ord(k@, ok[i as int]));
                if j - 1 > i {
                    assert(ord(ok[i as int], ok[j - 1]));
                }
                crate::text::lemma_seq_lt_irreflexive(k@);
            }
        }
    }
}


/// The characters of an optional text.
pub open spec fn opt_text_view(o: Option<String>) -> Option<Seq<char>> {
    match o {
        Some(s) => Some(s@),
        None => None,
    }
}

/// A table of texts by the characters of its values too.
pub open spec fn pair_view(m: Seq<(Seq<char>, String)>) -> Seq<(Seq<char>, Seq<char>)> {
    m.map_values(|e: (Seq<char>, String)| (e.0, e.1@))
}

/// Two tables of texts read alike exactly when their entries give every
/// key the same last text.
pub proof fn lemma_tables_alike(
    m1: Seq<(Seq<char>, String)>,
    i1: Seq<(Seq<char>, String)>,
    m2: Seq<(Seq<char>, String)>,
    i2: Seq<(Seq<char>, String)>,
)
    requires
        table_of(m1, i1),
        table_of(m2, i2),
    ensures
        (pair_view(m1) == pair_view(m2)) == (forall|k: Seq<char>|
            #[trigger] opt_text_view(last_value(i1, k)) == opt_text_view(last_value(i2, k))),
{
    let p1 = pair_view(m1);
    let p2 = pair_view(m2);
    if p1 == p2 {
        assert forall|k: Seq<char>| #[trigger] opt_text_view(last_value(i1, k)) == opt_text_view(last_value(i2, k)) by {
            if last_value(i1, k) is Some {
                let j = choose|j: int| 0 <= j < m1.len() && #[trigger] m1[j].0 == k;
                assert(p1[j] == (m1[j].0, m1[j].1@));
                assert(p2[j] == (m2[j].0, m2[j].1@));
                assert(m2[j].0 == k);
            } else if last_value(i2, k) is Some {
                let j = choose|j: int| 0 <= j < m2.len() && #[trigger] m2[j].0 == k;
                assert(p1[j] == (m1[j].0, m1[j].1@));
                assert(p2[j] == (m2[j].0, m2[j].1@));
                assert(m1[j].0 == k);
            }
        }
    }
    if forall|k: Seq<char>| #[trigger] opt_text_view(last_value(i1, k)) == opt_text_view(last_value(i2, k)) {
        let k1 = keys_of(m1);
        let k2 = keys_of(m2);
        lemma_text_order();
        assert(k1.to_set() =~= k2.to_set()) by {
            assert forall|k: Seq<char>| k1.to_set().contains(k) == k2.to_set().contains(k) by {
                if k1.to_set().contains(k) {
                    let j = choose|j: int| 0 <= j < k1.len() && k1[j] == k;
                    assert(m1[j].0 == k);
                    assert(opt_text_view(last_value(i1, k)) == opt_text_view(last_value(i2, k)));
                    let q = choose|q: int| 0 <= q < m2.len() && #[trigger] m2[q].0 == k;
                    assert(k2[q] == k);
                }
                if k2.to_set().contains(k) {
                    let j = choose|j: int| 0 <= j < k2.len() && k2[j] == k;
                    assert(m2[j].0 == k);
                    assert(opt_text_view(last_value(i1, k)) == opt_text_view(last_value(i2, k)));
                    let q = choose|q: int| 0 <= q < m1.len() && #[trigger] m1[q].0 == k;
                    assert(k1[q] == k);
                }
            }
        }
        crate::order::lemma_sorted_unique(k1, k2, text_order());
        assert forall|j: int| 0 <= j < m1.len() implies p1[j] == p2[j] by {
            assert(k1[j] == m1[j].0 && k2[j] == m2[j].0);
            assert(last_value(i1, #[trigger] m1[j].0) == Some(m1[j].1));
            assert(last_value(i2, m2[j].0) == Some(m2[j].1));
            assert(opt_text_view(last_value(i1, m1[j].0)) == opt_text_view(last_value(i2, m1[j].0)));
        }
        assert(p1 =~= p2);
    }
}

/// Whether two tables of texts to texts read alike.
pub fn same_table(a: &Vec<(String, String)>, b: &Vec<(String, String)>) -> (r: bool)
    ensures
        r == (pair_view(text_table(a@)) == pair_view(text_table(b@))),
{
    let ghost pa = pair_view(text_table(a@));
    let ghost pb = pair_view(text_table(b@));
    if a.len() != b.len() {
        assert(pa.len() != pb.len());
        return false;
    }
    let mut i: usize = 0;
    while i < a.len()
        invariant
            i <= a.len() == b.len(),
            pa == pair_view(text_table(a@)),
            pb == pair_view(text_table(b@)),
            forall|j: int| 0 <= j < i ==> pa[j] == pb[j],
        decreases a.len() - i,
    {
        assert(pa[i as int] == (a@[i as int].0@, a@[i as int].1@));
        assert(pb[i as int] == (b@[i as int].0@, b@[i as int].1@));
        if !(str_eq(a[i].0.as_str(), b[i].0.as_str()) && str_eq(a[i].1.as_str(), b[i].1.as_str())) {
            return false;
        }
        i = i + 1;
    }
    assert(pa =~= pb);
    true
}

} // verus!

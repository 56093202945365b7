//! The type-efficacy table: attacking type to defending type to an integer
//! percentage factor, 100 meaning normal effectiveness.
//!
//! The table is kept as association lists sorted strictly by key, so that
//! walking it visits attackers, and each attacker's defenders, in ascending
//! order.  A pair absent from the table means the normal factor 100; a later
//! row for a pair already present overwrites the earlier one.

use vstd::prelude::*;

verus! {

/// One source row: `attacker` hitting `defender` has the given factor.
#[derive(Clone, Copy, Debug, PartialEq, Eq, Structural)]
pub struct EfficacyRow {
    pub attacker: u64,
    pub defender: u64,
    pub factor: u64,
}

// ---------------------------------------------------------------------------
// Association lists keyed by u64
// ---------------------------------------------------------------------------

/// Some entry of `s` carries key `k`.
pub open spec fn assoc_has<T>(s: Seq<(u64, T)>, k: u64) -> bool {
    exists|i: int| 0 <= i < s.len() && (#[trigger] s[i]).0 == k
}

/// The keys of `s` are strictly ascending.
pub open spec fn assoc_sorted<T>(s: Seq<(u64, T)>) -> bool {
    forall|i: int, j: int| 0 <= i < j < s.len() ==> (#[trigger] s[i]).0 < (#[trigger] s[j]).0
}

/// Prepending one entry adds exactly its key to the key set.
pub proof fn lemma_assoc_cons_has<T>(h: (u64, T), t: Seq<(u64, T)>, k: u64)
    ensures
        assoc_has(seq![h] + t, k) <==> (h.0 == k || assoc_has(t, k)),
{
    let s = seq![h] + t;
    if h.0 == k {
        assert(s[0].0 == k);
    }
    if assoc_has(t, k) {
        let i = choose|i: int| 0 <= i < t.len() && (#[trigger] t[i]).0 == k;
        assert(s[i + 1].0 == k);
    }
    if assoc_has(s, k) && h.0 != k {
        let i = choose|i: int| 0 <= i < s.len() && (#[trigger] s[i]).0 == k;
        assert(i > 0);
        assert(t[i - 1].0 == k);
    }
}

// ---------------------------------------------------------------------------
// Inner association lists: defender -> factor
// ---------------------------------------------------------------------------

/// First value stored under key `k`, if any.
pub open spec fn pairs_find(es: Seq<(u64, u64)>, k: u64) -> Option<u64>
    decreases es.len(),
{
    if es.len() == 0 {
        None
    } else if es[0].0 == k {
        Some(es[0].1)
    } else {
        pairs_find(es.drop_first(), k)
    }
}

/// Sorted insert with overwrite on an equal key.
pub open spec fn inner_insert(es: Seq<(u64, u64)>, d: u64, f: u64) -> Seq<(u64, u64)>
    decreases es.len(),
{
    if es.len() == 0 {
        seq![(d, f)]
    } else if d < es[0].0 {
        seq![(d, f)] + es
    } else if d == es[0].0 {
        seq![(d, f)] + es.drop_first()
    } else {
        seq![es[0]] + inner_insert(es.drop_first(), d, f)
    }
}

pub proof fn lemma_inner_insert_find(es: Seq<(u64, u64)>, d: u64, f: u64, k: u64)
    ensures
        k == d ==> pairs_find(inner_insert(es, d, f), k) == Some(f),
        k != d ==> pairs_find(inner_insert(es, d, f), k) == pairs_find(es, k),
    decreases es.len(),
{
    let r = inner_insert(es, d, f);
    if es.len() == 0 {
        assert(r == seq![(d, f)]);
        assert(r[0] == (d, f));
        assert(r.drop_first() =~= Seq::<(u64, u64)>::empty());
    } else if d < es[0].0 {
        assert(r == seq![(d, f)] + es);
        assert(r[0] == (d, f));
        assert(r.drop_first() =~= es);
    } else if d == es[0].0 {
        assert(r[0] == (d, f));
        assert(r.drop_first() =~= es.drop_first());
        if k != d {
            assert(pairs_find(es, k) == pairs_find(es.drop_first(), k));
        }
    } else {
        lemma_inner_insert_find(es.drop_first(), d, f, k);
        assert(r == seq![es[0]] + inner_insert(es.drop_first(), d, f));
        assert(r[0] == es[0]);
        assert(r.drop_first() =~= inner_insert(es.drop_first(), d, f));
    }
}

pub proof fn lemma_inner_insert_sorted(es: Seq<(u64, u64)>, d: u64, f: u64)
    requires
        assoc_sorted(es),
    ensures
        assoc_sorted(inner_insert(es, d, f)),
        inner_insert(es, d, f).len() >= 1,
        inner_insert(es, d, f)[0].0 == if es.len() == 0 || d <= es[0].0 {
            d
        } else {
            es[0].0
        },
        forall|k: u64| assoc_has(inner_insert(es, d, f), k) <==> (k == d || assoc_has(es, k)),
    decreases es.len(),
{
    let r = inner_insert(es, d, f);
    if es.len() == 0 {
        assert forall|k: u64| assoc_has(r, k) <==> (k == d || assoc_has(es, k)) by {
            assert(r =~= seq![(d, f)] + Seq::<(u64, u64)>::empty());
            lemma_assoc_cons_has((d, f), Seq::<(u64, u64)>::empty(), k);
        }
    } else if d < es[0].0 {
        assert forall|i: int, j: int| 0 <= i < j < r.len() implies (#[trigger] r[i]).0 < (
        #[trigger] r[j]).0 by {
            if i == 0 {
                assert(r[j] == es[j - 1]);
                assert(es[0].0 <= es[j - 1].0);
            } else {
                assert(r[i] == es[i - 1] && r[j] == es[j - 1]);
            }
        }
        assert forall|k: u64| assoc_has(r, k) <==> (k == d || assoc_has(es, k)) by {
            lemma_assoc_cons_has((d, f), es, k);
        }
    } else if d == es[0].0 {
        let tail = es.drop_first();
        assert forall|i: int, j: int| 0 <= i < j < r.len() implies (#[trigger] r[i]).0 < (
        #[trigger] r[j]).0 by {
            if i == 0 {
                assert(r[j] == tail[j - 1]);
                assert(tail[j - 1] == es[j]);
            } else {
                assert(r[i] == es[i] && r[j] == es[j]);
            }
        }
        assert forall|k: u64| assoc_has(r, k) <==> (k == d || assoc_has(es, k)) by {
            lemma_assoc_cons_has((d, f), tail, k);
            assert(es =~= seq![es[0]] + tail);
            lemma_assoc_cons_has(es[0], tail, k);
        }
    } else {
        let tail = es.drop_first();
        assert(forall|i: int| 0 <= i < tail.len() ==> (#[trigger] tail[i]) == es[i + 1]);
        lemma_inner_insert_sorted(tail, d, f);
        let rt = inner_insert(tail, d, f);
        assert(r == seq![es[0]] + rt);
        assert forall|i: int, j: int| 0 <= i < j < r.len() implies (#[trigger] r[i]).0 < (
        #[trigger] r[j]).0 by {
            if i == 0 {
                if j == 1 {
                    assert(r[j] == rt[0]);
                } else {
                    assert(r[j] == rt[j - 1]);
                    assert(rt[0].0 < rt[j - 1].0);
                }
                if tail.len() == 0 || d <= tail[0].0 {
                    assert(rt[0].0 == d);
                } else {
                    assert(rt[0].0 == tail[0].0);
                }
                assert(es[0].0 < rt[0].0);
            } else {
                assert(r[i] == rt[i - 1] && r[j] == rt[j - 1]);
            }
        }
        assert forall|k: u64| assoc_has(r, k) <==> (k == d || assoc_has(es, k)) by {
            lemma_assoc_cons_has(es[0], rt, k);
            assert(es =~= seq![es[0]] + tail);
            lemma_assoc_cons_has(es[0], tail, k);
        }
    }
}

// ---------------------------------------------------------------------------
// The outer table: attacker -> inner list
// ---------------------------------------------------------------------------

/// Inner list stored under attacker `a`, if any.
pub open spec fn chart_find(m: Seq<(u64, Seq<(u64, u64)>)>, a: u64) -> Option<Seq<(u64, u64)>>
    decreases m.len(),
{
    if m.len() == 0 {
        None
    } else if m[0].0 == a {
        Some(m[0].1)
    } else {
        chart_find(m.drop_first(), a)
    }
}

/// The attacker keys, in table order.
pub open spec fn chart_keys(m: Seq<(u64, Seq<(u64, u64)>)>) -> Seq<u64> {
    m.map_values(|p: (u64, Seq<(u64, u64)>)| p.0)
}

/// Well-formed: outer keys strictly ascending, and so are all inner keys.
pub open spec fn chart_wf(m: Seq<(u64, Seq<(u64, u64)>)>) -> bool {
    assoc_sorted(m) && forall|i: int| 0 <= i < m.len() ==> assoc_sorted((#[trigger] m[i]).1)
}

/// The inner list stored under `a`, or the empty list when `a` is absent.
pub open spec fn chart_entries(m: Seq<(u64, Seq<(u64, u64)>)>, a: u64) -> Seq<(u64, u64)> {
    match chart_find(m, a) {
        None => Seq::empty(),
        Some(es) => es,
    }
}

/// The factor for `a` attacking `d`; an absent pair means 100.
pub open spec fn factor_of(m: Seq<(u64, Seq<(u64, u64)>)>, a: u64, d: u64) -> int {
    match chart_find(m, a) {
        None => 100,
        Some(es) => match pairs_find(es, d) {
            None => 100,
            Some(f) => f as int,
        },
    }
}

/// Insert with overwrite: an attacker's row is created on first sight.
pub open spec fn chart_insert(m: Seq<(u64, Seq<(u64, u64)>)>, a: u64, d: u64, f: u64) -> Seq<
    (u64, Seq<(u64, u64)>),
>
    decreases m.len(),
{
    if m.len() == 0 {
        seq![(a, seq![(d, f)])]
    } else if a < m[0].0 {
        seq![(a, seq![(d, f)])] + m
    } else if a == m[0].0 {
        seq![(a, inner_insert(m[0].1, d, f))] + m.drop_first()
    } else {
        seq![m[0]] + chart_insert(m.drop_first(), a, d, f)
    }
}

/// In a sorted table whose first key is above `a`, the key `a` is absent.
pub proof fn lemma_chart_find_absent(m: Seq<(u64, Seq<(u64, u64)>)>, a: u64)
    requires
        assoc_sorted(m),
        m.len() == 0 || m[0].0 > a,
    ensures
        chart_find(m, a) is None,
    decreases m.len(),
{
    if m.len() > 0 {
        let tail = m.drop_first();
        assert(forall|i: int| 0 <= i < tail.len() ==> (#[trigger] tail[i]) == m[i + 1]);
        lemma_chart_find_absent(tail, a);
    }
}

/// What each entry of the table reads as after an insert.  The table must be
/// sorted: `chart_of` only ever builds sorted tables.
pub proof fn lemma_chart_insert_find(m: Seq<(u64, Seq<(u64, u64)>)>, a: u64, d: u64, f: u64, x: u64)
    requires
        assoc_sorted(m),
    ensures
        x == a ==> chart_find(chart_insert(m, a, d, f), x) is Some,
        x == a ==> chart_entries(chart_insert(m, a, d, f), x) == inner_insert(
            chart_entries(m, a),
            d,
            f,
        ),
        x != a ==> (chart_find(chart_insert(m, a, d, f), x) is Some <==> chart_find(m, x)
            is Some),
        x != a ==> chart_entries(chart_insert(m, a, d, f), x) == chart_entries(m, x),
    decreases m.len(),
{
    let r = chart_insert(m, a, d, f);
    if m.len() == 0 {
        assert(r == seq![(a, seq![(d, f)])]);
        assert(r[0] == (a, seq![(d, f)]));
        assert(r.drop_first() =~= Seq::<(u64, Seq<(u64, u64)>)>::empty());
        assert(inner_insert(Seq::<(u64, u64)>::empty(), d, f) == seq![(d, f)]);
        if x == a {
            assert(chart_find(r, x) is Some);
            assert(chart_entries(r, x) == r[0].1);
            assert(chart_find(m, a) is None);
            assert(chart_entries(m, a) == Seq::<(u64, u64)>::empty());
            assert(chart_entries(r, x) == inner_insert(chart_entries(m, a), d, f));
        } else {
            assert(chart_find(r, x) == chart_find(r.drop_first(), x));
            assert(chart_find(r, x) is None);
            assert(chart_find(m, x) is None);
            assert(chart_entries(r, x) == chart_entries(m, x));
        }
    } else if a < m[0].0 {
        assert(r == seq![(a, seq![(d, f)])] + m);
        assert(r[0] == (a, seq![(d, f)]));
        assert(r.drop_first() =~= m);
        assert(inner_insert(Seq::<(u64, u64)>::empty(), d, f) == seq![(d, f)]);
        if x == a {
            lemma_chart_find_absent(m, a);
        }
    } else if a == m[0].0 {
        assert(r[0] == (a, inner_insert(m[0].1, d, f)));
        assert(r.drop_first() =~= m.drop_first());
        if x != a {
            assert(chart_find(m, x) == chart_find(m.drop_first(), x));
        }
    } else {
        let tail = m.drop_first();
        assert(forall|i: int| 0 <= i < tail.len() ==> (#[trigger] tail[i]) == m[i + 1]);
        lemma_chart_insert_find(tail, a, d, f, x);
        assert(r == seq![m[0]] + chart_insert(tail, a, d, f));
        assert(r[0] == m[0]);
        assert(r.drop_first() =~= chart_insert(tail, a, d, f));
    }
}

/// An insert adds exactly the attacker's key to the key set.
pub proof fn lemma_chart_insert_has(
    m: Seq<(u64, Seq<(u64, u64)>)>,
    a: u64,
    d: u64,
    f: u64,
    k: u64,
)
    ensures
        assoc_has(chart_insert(m, a, d, f), k) <==> (k == a || assoc_has(m, k)),
    decreases m.len(),
{
    let r = chart_insert(m, a, d, f);
    if m.len() == 0 {
        assert(r =~= seq![(a, seq![(d, f)])] + Seq::<(u64, Seq<(u64, u64)>)>::empty());
        lemma_assoc_cons_has((a, seq![(d, f)]), Seq::<(u64, Seq<(u64, u64)>)>::empty(), k);
        assert(!assoc_has(m, k));
    } else if a < m[0].0 {
        lemma_assoc_cons_has((a, seq![(d, f)]), m, k);
    } else if a == m[0].0 {
        lemma_assoc_cons_has((a, inner_insert(m[0].1, d, f)), m.drop_first(), k);
        assert(m =~= seq![m[0]] + m.drop_first());
        lemma_assoc_cons_has(m[0], m.drop_first(), k);
    } else {
        lemma_chart_insert_has(m.drop_first(), a, d, f, k);
        lemma_assoc_cons_has(m[0], chart_insert(m.drop_first(), a, d, f), k);
        assert(m =~= seq![m[0]] + m.drop_first());
        lemma_assoc_cons_has(m[0], m.drop_first(), k);
    }
}

pub proof fn lemma_chart_insert_factor(
    m: Seq<(u64, Seq<(u64, u64)>)>,
    a: u64,
    d: u64,
    f: u64,
    x: u64,
    y: u64,
)
    requires
        assoc_sorted(m),
    ensures
        x == a && y == d ==> factor_of(chart_insert(m, a, d, f), x, y) == f as int,
        !(x == a && y == d) ==> factor_of(chart_insert(m, a, d, f), x, y) == factor_of(m, x, y),
{
    lemma_chart_insert_find(m, a, d, f, x);
    if x == a {
        lemma_inner_insert_find(chart_entries(m, a), d, f, y);
        if chart_find(m, a) is None {
            assert(chart_entries(m, a) =~= Seq::<(u64, u64)>::empty());
            assert(pairs_find(chart_entries(m, a), y) is None);
        }
    }
}

pub proof fn lemma_chart_insert_wf(m: Seq<(u64, Seq<(u64, u64)>)>, a: u64, d: u64, f: u64)
    requires
        chart_wf(m),
    ensures
        chart_wf(chart_insert(m, a, d, f)),
        chart_insert(m, a, d, f).len() >= 1,
        chart_insert(m, a, d, f)[0].0 == if m.len() == 0 || a <= m[0].0 {
            a
        } else {
            m[0].0
        },
        forall|k: u64| assoc_has(chart_insert(m, a, d, f), k) <==> (k == a || assoc_has(m, k)),
    decreases m.len(),
{
    let r = chart_insert(m, a, d, f);
    if m.len() == 0 {
        assert forall|k: u64| assoc_has(r, k) <==> (k == a || assoc_has(m, k)) by {
            assert(r =~= seq![(a, seq![(d, f)])] + Seq::<(u64, Seq<(u64, u64)>)>::empty());
            lemma_assoc_cons_has((a, seq![(d, f)]), Seq::<(u64, Seq<(u64, u64)>)>::empty(), k);
        }
    } else if a < m[0].0 {
        assert forall|i: int, j: int| 0 <= i < j < r.len() implies (#[trigger] r[i]).0 < (
        #[trigger] r[j]).0 by {
            if i == 0 {
                assert(r[j] == m[j - 1]);
                assert(m[0].0 <= m[j - 1].0);
            } else {
                assert(r[i] == m[i - 1] && r[j] == m[j - 1]);
            }
        }
        assert forall|i: int| 0 <= i < r.len() implies assoc_sorted((#[trigger] r[i]).1) by {
            if i > 0 {
                assert(r[i] == m[i - 1]);
            }
        }
        assert forall|k: u64| assoc_has(r, k) <==> (k == a || assoc_has(m, k)) by {
            lemma_assoc_cons_has((a, seq![(d, f)]), m, k);
        }
    } else if a == m[0].0 {
        lemma_inner_insert_sorted(m[0].1, d, f);
        let tail = m.drop_first();
        assert forall|i: int, j: int| 0 <= i < j < r.len() implies (#[trigger] r[i]).0 < (
        #[trigger] r[j]).0 by {
            if i == 0 {
                assert(r[j] == tail[j - 1]);
                assert(tail[j - 1] == m[j]);
            } else {
                assert(r[i] == m[i] && r[j] == m[j]);
            }
        }
        assert forall|i: int| 0 <= i < r.len() implies assoc_sorted((#[trigger] r[i]).1) by {
            if i > 0 {
                assert(r[i] == m[i]);
            }
        }
        assert forall|k: u64| assoc_has(r, k) <==> (k == a || assoc_has(m, k)) by {
            lemma_assoc_cons_has((a, inner_insert(m[0].1, d, f)), tail, k);
            assert(m =~= seq![m[0]] + tail);
            lemma_assoc_cons_has(m[0], tail, k);
        }
    } else {
        let tail = m.drop_first();
        assert(forall|i: int| 0 <= i < tail.len() ==> (#[trigger] tail[i]) == m[i + 1]);
        lemma_chart_insert_wf(tail, a, d, f);
        let rt = chart_insert(tail, a, d, f);
        assert(r == seq![m[0]] + rt);
        assert forall|i: int, j: int| 0 <= i < j < r.len() implies (#[trigger] r[i]).0 < (
        #[trigger] r[j]).0 by {
            if i == 0 {
                if j == 1 {
                    assert(r[j] == rt[0]);
                } else {
                    assert(r[j] == rt[j - 1]);
                    assert(rt[0].0 < rt[j - 1].0);
                }
                if tail.len() == 0 || a <= tail[0].0 {
                    assert(rt[0].0 == a);
                } else {
                    assert(rt[0].0 == tail[0].0);
                }
                assert(m[0].0 < rt[0].0);
            } else {
                assert(r[i] == rt[i - 1] && r[j] == rt[j - 1]);
            }
        }
        assert forall|i: int| 0 <= i < r.len() implies assoc_sorted((#[trigger] r[i]).1) by {
            if i > 0 {
                assert(r[i] == rt[i - 1]);
            }
        }
        assert forall|k: u64| assoc_has(r, k) <==> (k == a || assoc_has(m, k)) by {
            lemma_assoc_cons_has(m[0], rt, k);
            assert(m =~= seq![m[0]] + tail);
            lemma_assoc_cons_has(m[0], tail, k);
        }
    }
}

// ---------------------------------------------------------------------------
// Building from source rows
// ---------------------------------------------------------------------------

/// Last-written factor for a pair over raw rows; 100 when the pair never
/// occurs.
pub open spec fn rows_factor(rows: Seq<EfficacyRow>, a: u64, d: u64) -> int
    decreases rows.len(),
{
    if rows.len() == 0 {
        100
    } else if rows.last().attacker == a && rows.last().defender == d {
        rows.last().factor as int
    } else {
        rows_factor(rows.drop_last(), a, d)
    }
}

pub open spec fn rows_has_pair(rows: Seq<EfficacyRow>, a: u64, d: u64) -> bool {
    exists|i: int|
        0 <= i < rows.len() && (#[trigger] rows[i]).attacker == a && rows[i].defender == d
}

pub open spec fn rows_has_attacker(rows: Seq<EfficacyRow>, a: u64) -> bool {
    exists|i: int| 0 <= i < rows.len() && (#[trigger] rows[i]).attacker == a
}

/// The table built from the rows, in row order.
pub open spec fn chart_of(rows: Seq<EfficacyRow>) -> Seq<(u64, Seq<(u64, u64)>)>
    decreases rows.len(),
{
    if rows.len() == 0 {
        Seq::empty()
    } else {
        chart_insert(
            chart_of(rows.drop_last()),
            rows.last().attacker,
            rows.last().defender,
            rows.last().factor,
        )
    }
}

/// A built table is well-formed, and holds exactly the attackers that occur
/// in the rows.
pub proof fn lemma_chart_of_wf(rows: Seq<EfficacyRow>)
    ensures
        chart_wf(chart_of(rows)),
        forall|a: u64| #[trigger]
            assoc_has(chart_of(rows), a) <==> rows_has_attacker(rows, a),
    decreases rows.len(),
{
    if rows.len() == 0 {
        assert forall|a: u64| #[trigger]
            assoc_has(chart_of(rows), a) <==> rows_has_attacker(rows, a) by {}
    } else {
        let prefix = rows.drop_last();
        lemma_chart_of_wf(prefix);
        lemma_chart_insert_wf(
            chart_of(prefix),
            rows.last().attacker,
            rows.last().defender,
            rows.last().factor,
        );
        let ghost built = chart_insert(
            chart_of(prefix),
            rows.last().attacker,
            rows.last().defender,
            rows.last().factor,
        );
        assert(chart_of(rows) == built);
        assert forall|a: u64| #[trigger]
            assoc_has(chart_of(rows), a) <==> rows_has_attacker(rows, a) by {
            lemma_chart_insert_has(
                chart_of(prefix),
                rows.last().attacker,
                rows.last().defender,
                rows.last().factor,
                a,
            );
            assert(assoc_has(built, a) <==> (a == rows.last().attacker || assoc_has(
                chart_of(prefix),
                a,
            )));
            if rows_has_attacker(rows, a) {
                let i = choose|i: int| 0 <= i < rows.len() && (#[trigger] rows[i]).attacker == a;
                if i < rows.len() - 1 {
                    assert(prefix[i].attacker == a);
                    assert(rows_has_attacker(prefix, a));
                }
            }
            if rows_has_attacker(prefix, a) {
                let i = choose|i: int|
                    0 <= i < prefix.len() && (#[trigger] prefix[i]).attacker == a;
                assert(rows[i].attacker == a);
            }
            if a == rows.last().attacker {
                assert(rows[rows.len() - 1].attacker == a);
            }
        }
    }
}

/// A missing pair reads as 100; a later row overwrites an earlier one.
pub proof fn lemma_chart_of_factor(rows: Seq<EfficacyRow>, a: u64, d: u64)
    ensures
        factor_of(chart_of(rows), a, d) == rows_factor(rows, a, d),
    decreases rows.len(),
{
    if rows.len() > 0 {
        lemma_chart_of_factor(rows.drop_last(), a, d);
        lemma_chart_of_wf(rows.drop_last());
        lemma_chart_insert_factor(
            chart_of(rows.drop_last()),
            rows.last().attacker,
            rows.last().defender,
            rows.last().factor,
            a,
            d,
        );
    }
}

/// A pair that no row mentions keeps the normal factor 100.
pub proof fn lemma_rows_factor_default(rows: Seq<EfficacyRow>, a: u64, d: u64)
    requires
        !rows_has_pair(rows, a, d),
    ensures
        rows_factor(rows, a, d) == 100,
    decreases rows.len(),
{
    if rows.len() > 0 {
        assert(!(rows.last().attacker == a && rows.last().defender == d)) by {
            if rows.last().attacker == a && rows.last().defender == d {
                assert(rows[rows.len() - 1].attacker == a && rows[rows.len() - 1].defender == d);
            }
        }
        assert forall|i: int|
            0 <= i < rows.drop_last().len() implies !((#[trigger] rows.drop_last()[i]).attacker
            == a && rows.drop_last()[i].defender == d) by {
            assert(rows.drop_last()[i] == rows[i]);
        }
        lemma_rows_factor_default(rows.drop_last(), a, d);
    }
}

// ---------------------------------------------------------------------------
// The executable table
// ---------------------------------------------------------------------------

/// One stored pair of an inner list.
#[derive(Clone, Copy, Debug, PartialEq, Eq, Structural)]
pub struct Efficacy {
    pub defender: u64,
    pub factor: u64,
}

/// One attacker with its defender factors, sorted by defender.
#[derive(Debug)]
pub struct AttackRow {
    pub attacker: u64,
    pub entries: Vec<Efficacy>,
}

/// The executable type-efficacy table, sorted by attacker.
#[derive(Debug)]
pub struct TypeChart {
    pub rows: Vec<AttackRow>,
}

impl AttackRow {
    pub open spec fn model(self) -> (u64, Seq<(u64, u64)>) {
        (self.attacker, self.entries@.map_values(|e: Efficacy| (e.defender, e.factor)))
    }
}

impl TypeChart {
    /// The table's mathematical content.
    pub open spec fn model(self) -> Seq<(u64, Seq<(u64, u64)>)> {
        self.rows@.map_values(|r: AttackRow| r.model())
    }

    pub fn new() -> (r: TypeChart)
        ensures
            r.model() == Seq::<(u64, Seq<(u64, u64)>)>::empty(),
    {
        let r = TypeChart { rows: Vec::new() };
        proof {
            assert(r.model() =~= Seq::<(u64, Seq<(u64, u64)>)>::empty());
        }
        r
    }

    /// Stores `factor` under `[attacker][defender]`, overwriting.
    pub fn insert(&mut self, attacker: u64, defender: u64, factor: u64)
        ensures
            final(self).model() =~~= chart_insert(old(self).model(), attacker, defender, factor),
    {
        let n = self.rows.len();
        let ghost m0 = self.model();
        proof {
            assert(m0.skip(0) =~= m0);
            assert(m0.subrange(0, 0) + chart_insert(m0.skip(0), attacker, defender, factor)
                =~~= chart_insert(m0, attacker, defender, factor));
        }
        let mut i: usize = 0;
        while i < n
            invariant
                0 <= i <= n == self.rows@.len(),
                m0 == self.model(),
                forall|j: int| 0 <= j < i ==> (#[trigger] self.rows@[j]).attacker < attacker,
                chart_insert(m0, attacker, defender, factor) == m0.subrange(0, i as int)
                    + chart_insert(m0.skip(i as int), attacker, defender, factor),
            ensures
                0 <= i <= n,
                m0 == self.model(),
                chart_insert(m0, attacker, defender, factor) == m0.subrange(0, i as int)
                    + chart_insert(m0.skip(i as int), attacker, defender, factor),
                i < n ==> m0[i as int].0 >= attacker,
            decreases n - i,
        {
            let key = self.rows[i].attacker;
            proof {
                assert(m0.skip(i as int)[0] == m0[i as int]);
                assert(m0[i as int] == self.rows@[i as int].model());
            }
            if key >= attacker {
                break ;
            }
            proof {
                assert(m0.skip(i as int).drop_first() =~= m0.skip(i + 1));
                assert(chart_insert(m0.skip(i as int), attacker, defender, factor) == seq![
                    m0[i as int],
                ] + chart_insert(m0.skip(i + 1), attacker, defender, factor));
                assert(m0.subrange(0, i as int) + (seq![m0[i as int]] + chart_insert(
                    m0.skip(i + 1),
                    attacker,
                    defender,
                    factor,
                )) =~~= m0.subrange(0, i + 1) + chart_insert(
                    m0.skip(i + 1),
                    attacker,
                    defender,
                    factor,
                ));
            }
            i = i + 1;
        }
        if i < n && self.rows[i].attacker == attacker {
            // the attacker already has a row: rewrite it in place
            proof {
                assert(m0.skip(i as int)[0] == m0[i as int]);
                assert(m0[i as int] == self.rows@[i as int].model());
            }
            let row = self.rows.remove(i);
            let es = inner_insert_exec(&row.entries, defender, factor);
            let new_row = AttackRow { attacker, entries: es };
            self.rows.insert(i, new_row);
            proof {
                assert(m0.skip(i as int).drop_first() =~= m0.skip(i + 1));
                assert(chart_insert(m0.skip(i as int), attacker, defender, factor) == seq![
                    (attacker, inner_insert(m0[i as int].1, defender, factor)),
                ] + m0.skip(i + 1));
                assert(self.model() =~~= m0.subrange(0, i as int) + (seq![
                    (attacker, inner_insert(m0[i as int].1, defender, factor)),
                ] + m0.skip(i + 1)));
                let lhs = self.model();
                let rhs = chart_insert(m0, attacker, defender, factor);
                assert(lhs =~~= rhs);
                assert(lhs == rhs);
            }
        } else {
            // the new attacker goes in at position i
            let mut es: Vec<Efficacy> = Vec::new();
            es.push(Efficacy { defender, factor });
            let new_row = AttackRow { attacker, entries: es };
            proof {
                assert(new_row.model().1 =~= seq![(defender, factor)]);
                if i < n {
                    assert(m0.skip(i as int)[0] == m0[i as int]);
                    assert(m0[i as int] == self.rows@[i as int].model());
                    assert(m0[i as int].0 > attacker);
                    assert(chart_insert(m0.skip(i as int), attacker, defender, factor) == seq![
                        (attacker, seq![(defender, factor)]),
                    ] + m0.skip(i as int));
                } else {
                    assert(m0.skip(i as int) =~= Seq::<(u64, Seq<(u64, u64)>)>::empty());
                }
            }
            self.rows.insert(i, new_row);
            proof {
                assert(self.model() =~~= m0.subrange(0, i as int) + (seq![
                    (attacker, seq![(defender, factor)]),
                ] + m0.skip(i as int)));
                let lhs = self.model();
                let rhs = chart_insert(m0, attacker, defender, factor);
                assert(lhs =~~= rhs);
                assert(lhs == rhs);
            }
        }
    }

    /// The factor for `attacker` hitting `defender`; 100 when the pair is
    /// not in the table.
    pub fn factor(&self, attacker: u64, defender: u64) -> (r: u64)
        ensures
            r as int == factor_of(self.model(), attacker, defender),
    {
        let ghost m = self.model();
        proof {
            assert(m.skip(0) =~= m);
        }
        let n = self.rows.len();
        let mut i: usize = 0;
        while i < n
            invariant
                0 <= i <= n == self.rows@.len(),
                m == self.model(),
                chart_find(m, attacker) == chart_find(m.skip(i as int), attacker),
            decreases n - i,
        {
            proof {
                assert(m.skip(i as int)[0] == m[i as int]);
                assert(m[i as int] == self.rows@[i as int].model());
            }
            if self.rows[i].attacker == attacker {
                return pairs_factor_exec(&self.rows[i].entries, defender);
            }
            proof {
                assert(m.skip(i as int).drop_first() =~= m.skip(i + 1));
            }
            i = i + 1;
        }
        proof {
            assert(m.skip(i as int) =~= Seq::<(u64, Seq<(u64, u64)>)>::empty());
        }
        100
    }

    /// Every attacker in the table, in table order.
    pub fn attackers(&self) -> (r: Vec<u64>)
        ensures
            r@ == chart_keys(self.model()),
    {
        let n = self.rows.len();
        let mut r: Vec<u64> = Vec::new();
        let mut i: usize = 0;
        while i < n
            invariant
                0 <= i <= n == self.rows@.len(),
                r@ =~= chart_keys(self.model()).subrange(0, i as int),
            decreases n - i,
        {
            r.push(self.rows[i].attacker);
            proof {
                assert(chart_keys(self.model())[i as int] == self.rows@[i as int].attacker);
                assert(r@ =~= chart_keys(self.model()).subrange(0, i + 1));
            }
            i = i + 1;
        }
        proof {
            assert(chart_keys(self.model()).subrange(0, n as int) =~= chart_keys(self.model()));
        }
        r
    }

    /// Builds the table from source rows, in row order.
    pub fn from_rows(rows: &Vec<EfficacyRow>) -> (r: TypeChart)
        ensures
            r.model() == chart_of(rows@),
    {
        let mut chart = TypeChart::new();
        proof {
            assert(rows@.subrange(0, 0) =~= Seq::<EfficacyRow>::empty());
        }
        let n = rows.len();
        let mut i: usize = 0;
        while i < n
            invariant
                0 <= i <= n == rows@.len(),
                chart.model() == chart_of(rows@.subrange(0, i as int)),
            decreases n - i,
        {
            let row = rows[i];
            chart.insert(row.attacker, row.defender, row.factor);
            proof {
                assert(rows@.subrange(0, i + 1).drop_last() =~= rows@.subrange(0, i as int));
                assert(rows@.subrange(0, i + 1).last() == rows@[i as int]);
            }
            i = i + 1;
        }
        proof {
            assert(rows@.subrange(0, n as int) =~= rows@);
        }
        chart
    }
}

/// Sorted insert into an inner list, overwriting an equal defender.
fn inner_insert_exec(es: &Vec<Efficacy>, defender: u64, factor: u64) -> (r: Vec<Efficacy>)
    ensures
        r@.map_values(|e: Efficacy| (e.defender, e.factor)) == inner_insert(
            es@.map_values(|e: Efficacy| (e.defender, e.factor)),
            defender,
            factor,
        ),
{
    let ghost m0 = es@.map_values(|e: Efficacy| (e.defender, e.factor));
    let n = es.len();
    let mut r: Vec<Efficacy> = Vec::new();
    proof {
        assert(m0.skip(0) =~= m0);
        assert(m0.subrange(0, 0) + inner_insert(m0.skip(0), defender, factor) =~~= inner_insert(
            m0,
            defender,
            factor,
        ));
        assert(r@.map_values(|e: Efficacy| (e.defender, e.factor)) =~= m0.subrange(0, 0));
    }
    let mut i: usize = 0;
    while i < n
        invariant
            0 <= i <= n == es@.len(),
            m0 == es@.map_values(|e: Efficacy| (e.defender, e.factor)),
            r@.map_values(|e: Efficacy| (e.defender, e.factor)) =~= m0.subrange(0, i as int),
            forall|j: int| 0 <= j < i ==> (#[trigger] es@[j]).defender < defender,
            inner_insert(m0, defender, factor) == m0.subrange(0, i as int) + inner_insert(
                m0.skip(i as int),
                defender,
                factor,
            ),
        ensures
            0 <= i <= n,
            r@.map_values(|e: Efficacy| (e.defender, e.factor)) =~= m0.subrange(0, i as int),
            inner_insert(m0, defender, factor) == m0.subrange(0, i as int) + inner_insert(
                m0.skip(i as int),
                defender,
                factor,
            ),
            i < n ==> m0[i as int].0 >= defender,
        decreases n - i,
    {
        proof {
            assert(m0.skip(i as int)[0] == m0[i as int]);
            assert(m0[i as int] == (es@[i as int].defender, es@[i as int].factor));
        }
        let key = es[i].defender;
        if key >= defender {
            break ;
        }
        r.push(es[i]);
        proof {
            assert(r@.map_values(|e: Efficacy| (e.defender, e.factor)) =~= m0.subrange(0, i + 1));
            assert(m0.skip(i as int).drop_first() =~= m0.skip(i + 1));
            assert(inner_insert(m0.skip(i as int), defender, factor) == seq![m0[i as int]]
                + inner_insert(m0.skip(i + 1), defender, factor));
            assert(m0.subrange(0, i as int) + (seq![m0[i as int]] + inner_insert(
                m0.skip(i + 1),
                defender,
                factor,
            )) =~~= m0.subrange(0, i + 1) + inner_insert(m0.skip(i + 1), defender, factor));
        }
        i = i + 1;
    }
    r.push(Efficacy { defender, factor });
    proof {
        assert(r@.map_values(|e: Efficacy| (e.defender, e.factor)) =~= m0.subrange(
            0,
            i as int,
        ).push((defender, factor)));
    }
    let mut k: usize = i;
    if k < n && es[k].defender == defender {
        proof {
            assert(m0.skip(k as int)[0] == m0[k as int]);
            assert(m0[k as int] == (es@[k as int].defender, es@[k as int].factor));
            assert(m0.skip(k as int).drop_first() =~= m0.skip(k + 1));
            assert(inner_insert(m0.skip(k as int), defender, factor) == seq![(defender, factor)]
                + m0.skip(k + 1));
        }
        k = k + 1;
    } else {
        proof {
            if k < n {
                assert(m0.skip(k as int)[0] == m0[k as int]);
                assert(m0[k as int] == (es@[k as int].defender, es@[k as int].factor));
                assert(inner_insert(m0.skip(k as int), defender, factor) == seq![
                    (defender, factor),
                ] + m0.skip(k as int));
            } else {
                assert(m0.skip(k as int) =~= Seq::<(u64, u64)>::empty());
            }
        }
    }
    proof {
        assert(inner_insert(m0, defender, factor) =~~= r@.map_values(
            |e: Efficacy| (e.defender, e.factor),
        ) + m0.skip(k as int));
    }
    while k < n
        invariant
            0 <= k <= n == es@.len(),
            m0 == es@.map_values(|e: Efficacy| (e.defender, e.factor)),
            inner_insert(m0, defender, factor) =~~= r@.map_values(
                |e: Efficacy| (e.defender, e.factor),
            ) + m0.skip(k as int),
        decreases n - k,
    {
        r.push(es[k]);
        proof {
            assert(m0.skip(k as int)[0] == m0[k as int]);
            assert(m0[k as int] == (es@[k as int].defender, es@[k as int].factor));
            assert(m0.skip(k as int).drop_first() =~= m0.skip(k + 1));
            assert(inner_insert(m0, defender, factor) =~~= r@.map_values(
                |e: Efficacy| (e.defender, e.factor),
            ) + m0.skip(k + 1));
        }
        k = k + 1;
    }
    proof {
        assert(m0.skip(n as int) =~= Seq::<(u64, u64)>::empty());
        assert(inner_insert(m0, defender, factor) =~~= r@.map_values(
            |e: Efficacy| (e.defender, e.factor),
        ));
    }
    r
}

/// First-match factor lookup in an inner list; 100 when absent.
fn pairs_factor_exec(es: &Vec<Efficacy>, defender: u64) -> (r: u64)
    ensures
        r as int == match pairs_find(
            es@.map_values(|e: Efficacy| (e.defender, e.factor)),
            defender,
        ) {
            None => 100,
            Some(f) => f as int,
        },
{
    let ghost m = es@.map_values(|e: Efficacy| (e.defender, e.factor));
    proof {
        assert(m.skip(0) =~= m);
    }
    let n = es.len();
    let mut i: usize = 0;
    while i < n
        invariant
            0 <= i <= n == es@.len(),
            m == es@.map_values(|e: Efficacy| (e.defender, e.factor)),
            pairs_find(m, defender) == pairs_find(m.skip(i as int), defender),
        decreases n - i,
    {
        proof {
            assert(m.skip(i as int)[0] == m[i as int]);
            assert(m[i as int] == (es@[i as int].defender, es@[i as int].factor));
        }
        if es[i].defender == defender {
            return es[i].factor;
        }
        proof {
            assert(m.skip(i as int).drop_first() =~= m.skip(i + 1));
        }
        i = i + 1;
    }
    proof {
        assert(m.skip(i as int) =~= Seq::<(u64, u64)>::empty());
    }
    100
}

} // verus!

//! The library's laws: what holds of every input, proved once and for all.

use crate::chart::EfficacyRow;
use crate::chart::assoc_has;
use crate::chart::chart_keys;
use crate::chart::chart_of;
use crate::chart::chart_wf;
use crate::chart::factor_of;
use crate::chart::lemma_chart_of_factor;
use crate::chart::lemma_chart_of_wf;
use crate::chart::lemma_rows_factor_default;
use crate::chart::rows_factor;
use crate::chart::rows_has_attacker;
use crate::chart::rows_has_pair;
use crate::entities::EntityTyping;
use crate::entities::SlotRow;
use crate::entities::ent_sorted;
use crate::entities::lemma_resolve_sorted;
use crate::entities::resolve_rows;
use crate::weakness::ascending;
use crate::weakness::lemma_weak_of_keys_props;
use crate::weakness::weak_against;
use crate::weakness::weak_list;
use crate::weakness::weaknesses_of;
use crate::pipeline::weakness_output;
use vstd::prelude::*;

verus! {

/// A table's key sequence mentions exactly the keys the table holds.
pub proof fn lemma_chart_keys_has(m: Seq<(u64, Seq<(u64, u64)>)>, a: u64)
    ensures
        chart_keys(m).contains(a) <==> assoc_has(m, a),
{
    if chart_keys(m).contains(a) {
        let i = choose|i: int| 0 <= i < chart_keys(m).len() && chart_keys(m)[i] == a;
        assert(m[i].0 == a);
    }
    if assoc_has(m, a) {
        let i = choose|i: int| 0 <= i < m.len() && (#[trigger] m[i]).0 == a;
        assert(chart_keys(m)[i] == a);
    }
}

/// A well-formed table lists its attackers in strictly ascending order.
pub proof fn lemma_chart_keys_ascending(m: Seq<(u64, Seq<(u64, u64)>)>)
    requires
        chart_wf(m),
    ensures
        ascending(chart_keys(m)),
{
    assert forall|i: int, j: int|
        0 <= i < j < chart_keys(m).len() implies chart_keys(m)[i] < chart_keys(m)[j] by {
        assert(chart_keys(m)[i] == m[i].0);
        assert(chart_keys(m)[j] == m[j].0);
    }
}

/// An entity with no secondary type is weak exactly to the attackers of the
/// table whose factor against its primary type is 200 — no more, no less.
pub proof fn lemma_single_type_weakness(rows: Seq<EfficacyRow>, primary: u64, t: u64)
    ensures
        weak_list(chart_of(rows), primary, 0).contains(t) <==> (rows_has_attacker(rows, t)
            && rows_factor(rows, t, primary) == 200),
{
    let m = chart_of(rows);
    lemma_chart_of_wf(rows);
    lemma_chart_keys_ascending(m);
    lemma_weak_of_keys_props(m, primary, 0, chart_keys(m));
    lemma_chart_keys_has(m, t);
    lemma_chart_of_factor(rows, t, primary);
}

/// An entity with a secondary type is weak exactly to the attackers whose
/// factors against its two types multiply to more than 100 x 100.
pub proof fn lemma_dual_type_weakness(
    rows: Seq<EfficacyRow>,
    primary: u64,
    secondary: u64,
    t: u64,
)
    requires
        secondary != 0,
    ensures
        weak_list(chart_of(rows), primary, secondary).contains(t) <==> (rows_has_attacker(
            rows,
            t,
        ) && rows_factor(rows, t, primary) * rows_factor(rows, t, secondary) > 10000),
{
    let m = chart_of(rows);
    lemma_chart_of_wf(rows);
    lemma_chart_keys_ascending(m);
    lemma_weak_of_keys_props(m, primary, secondary, chart_keys(m));
    lemma_chart_keys_has(m, t);
    lemma_chart_of_factor(rows, t, primary);
    lemma_chart_of_factor(rows, t, secondary);
}

/// The weakness text is a function of the efficacy table and the input
/// alone: equal inputs give byte-identical output, however often the
/// pipeline runs.
pub proof fn lemma_weakness_output_deterministic(
    chart: Seq<(u64, Seq<(u64, u64)>)>,
    a: Seq<char>,
    b: Seq<char>,
)
    requires
        a == b,
    ensures
        weakness_output(chart, a) == weakness_output(chart, b),
{
}

/// Every level of the derived output is strictly ascending by key,
/// whatever order the source rows came in: the attackers and defenders of
/// a built efficacy table, the entities of a resolved table, and each
/// entity's weakness list.
pub proof fn lemma_output_ordered(rows: Seq<EfficacyRow>, ents: Seq<EntityTyping>)
    requires
        ent_sorted(ents),
    ensures
        chart_wf(chart_of(rows)),
        forall|i: int, j: int|
            0 <= i < j < weaknesses_of(chart_of(rows), ents).len() ==> (#[trigger] weaknesses_of(
                chart_of(rows),
                ents,
            )[i]).0 < (#[trigger] weaknesses_of(chart_of(rows), ents)[j]).0,
        forall|i: int|
            0 <= i < weaknesses_of(chart_of(rows), ents).len() ==> ascending(
                (#[trigger] weaknesses_of(chart_of(rows), ents)[i]).1,
            ),
{
    let m = chart_of(rows);
    lemma_chart_of_wf(rows);
    lemma_chart_keys_ascending(m);
    let w = weaknesses_of(m, ents);
    assert forall|i: int, j: int| 0 <= i < j < w.len() implies (#[trigger] w[i]).0 < (
    #[trigger] w[j]).0 by {
        assert(w[i].0 == ents[i].entity);
        assert(w[j].0 == ents[j].entity);
    }
    assert forall|i: int| 0 <= i < w.len() implies ascending((#[trigger] w[i]).1) by {
        assert(w[i].1 == weak_list(m, ents[i].primary, ents[i].secondary));
        lemma_weak_of_keys_props(m, ents[i].primary, ents[i].secondary, chart_keys(m));
    }
}

/// The ordering guarantee holds of what the resolver actually hands the
/// derivation engine, with no assumption on the source rows of either
/// table.
pub proof fn lemma_resolved_output_ordered(rows: Seq<EfficacyRow>, slots: Seq<SlotRow>)
    requires
        resolve_rows(slots) is Some,
    ensures
        chart_wf(chart_of(rows)),
        ent_sorted(resolve_rows(slots)->Some_0),
        forall|i: int, j: int|
            0 <= i < j < weaknesses_of(chart_of(rows), resolve_rows(slots)->Some_0).len() ==> (
            #[trigger] weaknesses_of(chart_of(rows), resolve_rows(slots)->Some_0)[i]).0 < (
            #[trigger] weaknesses_of(chart_of(rows), resolve_rows(slots)->Some_0)[j]).0,
        forall|i: int|
            0 <= i < weaknesses_of(chart_of(rows), resolve_rows(slots)->Some_0).len() ==> ascending(
                (#[trigger] weaknesses_of(chart_of(rows), resolve_rows(slots)->Some_0)[i]).1,
            ),
{
    lemma_resolve_sorted(slots);
    lemma_output_ordered(rows, resolve_rows(slots)->Some_0);
}

/// A pair no source row mentions keeps the normal factor 100 in the built
/// table: absence is never an error and never reads as 0.
pub proof fn lemma_missing_pair_normal(rows: Seq<EfficacyRow>, a: u64, d: u64)
    requires
        !rows_has_pair(rows, a, d),
    ensures
        factor_of(chart_of(rows), a, d) == 100,
{
    lemma_chart_of_factor(rows, a, d);
    lemma_rows_factor_default(rows, a, d);
}

/// With the sentinel secondary type, classification reads only the factor
/// against the primary type: what any table stores under defender 0 cannot
/// change it.
pub proof fn lemma_sentinel_is_a_branch(
    m1: Seq<(u64, Seq<(u64, u64)>)>,
    m2: Seq<(u64, Seq<(u64, u64)>)>,
    primary: u64,
    t: u64,
)
    requires
        factor_of(m1, t, primary) == factor_of(m2, t, primary),
    ensures
        weak_against(m1, primary, 0, t) == weak_against(m2, primary, 0, t),
{
}

} // verus!

//! The weakness derivation engine: which attacking types are super
//! effective against an entity's composite typing.
//!
//! A single-typed entity (secondary sentinel 0) is weak to an attacker
//! exactly when the factor against its primary type is 200; a dual-typed
//! entity exactly when the product of the two factors exceeds 100 x 100.
//! The attackers considered are those present in the efficacy table, in
//! ascending order, so every entity gets a (possibly empty) ascending list.

use crate::chart::TypeChart;
use crate::chart::chart_keys;
use crate::chart::factor_of;
use crate::entities::EntityTable;
use crate::entities::EntityTyping;
use vstd::prelude::*;

verus! {

/// Strictly ascending ids.
pub open spec fn ascending(s: Seq<u64>) -> bool {
    forall|i: int, j: int| 0 <= i < j < s.len() ==> s[i] < s[j]
}

/// Whether attacking type `t` is super effective against the typing
/// `(primary, secondary)`, reading factors from the table `m`.
pub open spec fn weak_against(
    m: Seq<(u64, Seq<(u64, u64)>)>,
    primary: u64,
    secondary: u64,
    t: u64,
) -> bool {
    if secondary == 0 {
        factor_of(m, t, primary) == 200
    } else {
        factor_of(m, t, primary) * factor_of(m, t, secondary) > 10000
    }
}

/// The weak types among `keys`, kept in `keys` order.
pub open spec fn weak_of_keys(
    m: Seq<(u64, Seq<(u64, u64)>)>,
    primary: u64,
    secondary: u64,
    keys: Seq<u64>,
) -> Seq<u64>
    decreases keys.len(),
{
    if keys.len() == 0 {
        Seq::empty()
    } else {
        let rest = weak_of_keys(m, primary, secondary, keys.drop_last());
        if weak_against(m, primary, secondary, keys.last()) {
            rest.push(keys.last())
        } else {
            rest
        }
    }
}

/// The full weakness list of a typing: every attacker of the table that is
/// super effective against it, in table order.
pub open spec fn weak_list(
    m: Seq<(u64, Seq<(u64, u64)>)>,
    primary: u64,
    secondary: u64,
) -> Seq<u64> {
    weak_of_keys(m, primary, secondary, chart_keys(m))
}

/// The selected keys keep their order and hold exactly the weak attackers.
pub proof fn lemma_weak_of_keys_props(
    m: Seq<(u64, Seq<(u64, u64)>)>,
    primary: u64,
    secondary: u64,
    keys: Seq<u64>,
)
    requires
        ascending(keys),
    ensures
        ascending(weak_of_keys(m, primary, secondary, keys)),
        forall|t: u64|
            #[trigger] weak_of_keys(m, primary, secondary, keys).contains(t) <==> (keys.contains(
                t,
            ) && weak_against(m, primary, secondary, t)),
    decreases keys.len(),
{
    let r = weak_of_keys(m, primary, secondary, keys);
    if keys.len() == 0 {
        assert forall|t: u64| #[trigger]
            r.contains(t) <==> (keys.contains(t) && weak_against(m, primary, secondary, t)) by {
            if r.contains(t) {
                let i = choose|i: int| 0 <= i < r.len() && r[i] == t;
            }
            if keys.contains(t) {
                let i = choose|i: int| 0 <= i < keys.len() && keys[i] == t;
            }
        }
    } else {
        let head = keys.drop_last();
        let x = keys.last();
        assert(forall|i: int| 0 <= i < head.len() ==> head[i] == keys[i]);
        lemma_weak_of_keys_props(m, primary, secondary, head);
        let rest = weak_of_keys(m, primary, secondary, head);
        // membership over the last element
        assert forall|t: u64| #[trigger]
            r.contains(t) <==> (keys.contains(t) && weak_against(m, primary, secondary, t)) by {
            if rest.contains(t) {
                if weak_against(m, primary, secondary, x) {
                    let i = choose|i: int| 0 <= i < rest.len() && rest[i] == t;
                    assert(r[i] == t);
                } else {
                    assert(r == rest);
                }
            }
            if t == x && weak_against(m, primary, secondary, x) {
                assert(r[r.len() - 1] == x);
                assert(r.contains(x));
            }
            if r.contains(t) {
                let i = choose|i: int| 0 <= i < r.len() && r[i] == t;
                if weak_against(m, primary, secondary, x) {
                    if i < r.len() - 1 {
                        assert(rest[i] == t);
                        assert(rest.contains(t));
                    } else {
                        assert(t == x);
                    }
                } else {
                    assert(rest.contains(t));
                }
            }
            if keys.contains(t) {
                let i = choose|i: int| 0 <= i < keys.len() && keys[i] == t;
                if i < keys.len() - 1 {
                    assert(head[i] == t);
                    assert(head.contains(t));
                } else {
                    assert(t == x);
                }
            }
            if head.contains(t) {
                let i = choose|i: int| 0 <= i < head.len() && head[i] == t;
                assert(keys[i] == t);
                assert(keys.contains(t));
            }
            if t == x {
                assert(keys[keys.len() - 1] == t);
                assert(keys.contains(t));
            }
        }
        // order is preserved
        if weak_against(m, primary, secondary, x) {
            assert forall|i: int, j: int| 0 <= i < j < r.len() implies r[i] < r[j] by {
                if j < r.len() - 1 {
                    assert(r[i] == rest[i] && r[j] == rest[j]);
                } else {
                    assert(r[j] == x);
                    assert(r[i] == rest[i]);
                    assert(rest.contains(rest[i]));
                    assert(head.contains(rest[i]));
                    let w = choose|w: int| 0 <= w < head.len() && head[w] == rest[i];
                    assert(keys[w] == rest[i]);
                    assert(keys[w] < keys[keys.len() - 1]);
                }
            }
        }
    }
}

/// The weak types for one typing, in the table's attacker order.
pub fn weak_types(chart: &TypeChart, primary: u64, secondary: u64) -> (r: Vec<u64>)
    ensures
        r@ == weak_list(chart.model(), primary, secondary),
{
    let ghost m = chart.model();
    let attackers = chart.attackers();
    let n = attackers.len();
    let mut r: Vec<u64> = Vec::new();
    proof {
        assert(attackers@.subrange(0, 0) =~= Seq::<u64>::empty());
        assert(r@ =~= weak_of_keys(m, primary, secondary, attackers@.subrange(0, 0)));
    }
    let mut j: usize = 0;
    while j < n
        invariant
            0 <= j <= n == attackers@.len(),
            m == chart.model(),
            attackers@ == chart_keys(m),
            r@ == weak_of_keys(m, primary, secondary, attackers@.subrange(0, j as int)),
        decreases n - j,
    {
        let t = attackers[j];
        proof {
            assert(attackers@.subrange(0, j + 1).drop_last() =~= attackers@.subrange(0, j as int));
            assert(attackers@.subrange(0, j + 1).last() == attackers@[j as int]);
        }
        let f1 = chart.factor(t, primary);
        if secondary == 0 {
            if f1 == 200 {
                r.push(t);
            }
        } else {
            let f2 = chart.factor(t, secondary);
            proof {
                vstd::arithmetic::mul::lemma_mul_upper_bound(
                    f1 as int,
                    u64::MAX as int,
                    f2 as int,
                    u64::MAX as int,
                );
            }
            let product: u128 = (f1 as u128) * (f2 as u128);
            if product > 10000 {
                r.push(t);
            }
        }
        j = j + 1;
    }
    proof {
        assert(attackers@.subrange(0, n as int) =~= attackers@);
    }
    r
}

// ---------------------------------------------------------------------------
// Whole-table derivation
// ---------------------------------------------------------------------------

/// One entity with its weakness list.
#[derive(Debug)]
pub struct WeaknessRow {
    pub entity: u64,
    pub types: Vec<u64>,
}

/// Per-entity weakness lists, in entity order.
#[derive(Debug)]
pub struct WeaknessTable {
    pub rows: Vec<WeaknessRow>,
}

impl WeaknessTable {
    pub open spec fn model(self) -> Seq<(u64, Seq<u64>)> {
        self.rows@.map_values(|r: WeaknessRow| (r.entity, r.types@))
    }
}

/// The weakness lists all entities get, in entity-table order.
pub open spec fn weaknesses_of(
    m: Seq<(u64, Seq<(u64, u64)>)>,
    ents: Seq<EntityTyping>,
) -> Seq<(u64, Seq<u64>)> {
    ents.map_values(|t: EntityTyping| (t.entity, weak_list(m, t.primary, t.secondary)))
}

/// Derives every entity's weakness list from the efficacy table.
pub fn derive_weaknesses(chart: &TypeChart, entities: &EntityTable) -> (r: WeaknessTable)
    ensures
        r.model() == weaknesses_of(chart.model(), entities.model()),
{
    let ghost m = chart.model();
    let ghost ents = entities.model();
    let n = entities.entries.len();
    let mut rows: Vec<WeaknessRow> = Vec::new();
    let mut i: usize = 0;
    while i < n
        invariant
            0 <= i <= n == entities.entries@.len(),
            m == chart.model(),
            ents == entities.model(),
            rows@.len() == i,
            forall|k: int|
                0 <= k < i ==> (#[trigger] rows@[k]).entity == ents[k].entity && rows@[k].types@
                    == weak_list(m, ents[k].primary, ents[k].secondary),
        decreases n - i,
    {
        let e = entities.entries[i];
        let types = weak_types(chart, e.primary, e.secondary);
        rows.push(WeaknessRow { entity: e.entity, types });
        i = i + 1;
    }
    let r = WeaknessTable { rows };
    proof {
        let lhs = r.model();
        let rhs = weaknesses_of(m, ents);
        assert(lhs =~~= rhs);
        assert(lhs == rhs);
    }
    r
}

} // verus!

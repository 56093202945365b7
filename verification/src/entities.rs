//! The composite-type resolver: slot-tagged rows become, per entity, a
//! primary type and an optional secondary type.
//!
//! A slot-1 row sets an entity's primary type and resets its secondary type
//! to the sentinel 0; a slot-2 row rewrites only the secondary type and
//! demands that a primary type is already on record.  Rows with any other
//! slot are ignored.  The finished table is sorted strictly by entity id.

use crate::errors::DataError;
use vstd::prelude::*;

verus! {

/// One source row: `entity` has `type_id` in `slot`.
#[derive(Clone, Copy, Debug, PartialEq, Eq, Structural)]
pub struct SlotRow {
    pub entity: u64,
    pub type_id: u64,
    pub slot: u64,
}

/// An entity's resolved typing; `secondary == 0` means a single type.
#[derive(Clone, Copy, Debug, PartialEq, Eq, Structural)]
pub struct EntityTyping {
    pub entity: u64,
    pub primary: u64,
    pub secondary: u64,
}

pub open spec fn ent_sorted(s: Seq<EntityTyping>) -> bool {
    forall|i: int, j: int|
        0 <= i < j < s.len() ==> (#[trigger] s[i]).entity < (#[trigger] s[j]).entity
}

/// First entry recorded for entity `e`, if any.
pub open spec fn ent_find(s: Seq<EntityTyping>, e: u64) -> Option<EntityTyping>
    decreases s.len(),
{
    if s.len() == 0 {
        None
    } else if s[0].entity == e {
        Some(s[0])
    } else {
        ent_find(s.drop_first(), e)
    }
}

/// Sorted insert with overwrite on an equal entity id.
pub open spec fn table_put(s: Seq<EntityTyping>, x: EntityTyping) -> Seq<EntityTyping>
    decreases s.len(),
{
    if s.len() == 0 {
        seq![x]
    } else if x.entity < s[0].entity {
        seq![x] + s
    } else if x.entity == s[0].entity {
        seq![x] + s.drop_first()
    } else {
        seq![s[0]] + table_put(s.drop_first(), x)
    }
}

pub proof fn lemma_table_put_sorted(s: Seq<EntityTyping>, x: EntityTyping)
    requires
        ent_sorted(s),
    ensures
        ent_sorted(table_put(s, x)),
        table_put(s, x).len() >= 1,
        table_put(s, x)[0].entity == if s.len() == 0 || x.entity <= s[0].entity {
            x.entity
        } else {
            s[0].entity
        },
    decreases s.len(),
{
    let r = table_put(s, x);
    if s.len() == 0 {
    } else if x.entity < s[0].entity {
        assert forall|i: int, j: int| 0 <= i < j < r.len() implies (#[trigger] r[i]).entity < (
        #[trigger] r[j]).entity by {
            if i == 0 {
                assert(r[j] == s[j - 1]);
                assert(s[0].entity <= s[j - 1].entity);
            } else {
                assert(r[i] == s[i - 1] && r[j] == s[j - 1]);
            }
        }
    } else if x.entity == s[0].entity {
        let tail = s.drop_first();
        assert forall|i: int, j: int| 0 <= i < j < r.len() implies (#[trigger] r[i]).entity < (
        #[trigger] r[j]).entity by {
            if i == 0 {
                assert(r[j] == tail[j - 1]);
                assert(tail[j - 1] == s[j]);
            } else {
                assert(r[i] == s[i] && r[j] == s[j]);
            }
        }
    } else {
        let tail = s.drop_first();
        assert(forall|i: int| 0 <= i < tail.len() ==> (#[trigger] tail[i]) == s[i + 1]);
        lemma_table_put_sorted(tail, x);
        let rt = table_put(tail, x);
        assert(r == seq![s[0]] + rt);
        assert forall|i: int, j: int| 0 <= i < j < r.len() implies (#[trigger] r[i]).entity < (
        #[trigger] r[j]).entity by {
            if i == 0 {
                if j == 1 {
                    assert(r[j] == rt[0]);
                } else {
                    assert(r[j] == rt[j - 1]);
                    assert(rt[0].entity < rt[j - 1].entity);
                }
                if tail.len() == 0 || x.entity <= tail[0].entity {
                    assert(rt[0].entity == x.entity);
                } else {
                    assert(rt[0].entity == tail[0].entity);
                }
                assert(s[0].entity < rt[0].entity);
            } else {
                assert(r[i] == rt[i - 1] && r[j] == rt[j - 1]);
            }
        }
    }
}

// ---------------------------------------------------------------------------
// Resolving a row sequence
// ---------------------------------------------------------------------------

/// The table after applying every row in order; `None` when some slot-2 row
/// found no primary type on record.
pub open spec fn resolve_rows(rows: Seq<SlotRow>) -> Option<Seq<EntityTyping>>
    decreases rows.len(),
{
    if rows.len() == 0 {
        Some(Seq::empty())
    } else {
        match resolve_rows(rows.drop_last()) {
            None => None,
            Some(s) => {
                let row = rows.last();
                if row.slot == 1 {
                    Some(
                        table_put(
                            s,
                            EntityTyping {
                                entity: row.entity,
                                primary: row.type_id,
                                secondary: 0,
                            },
                        ),
                    )
                } else if row.slot == 2 {
                    match ent_find(s, row.entity) {
                        None => None,
                        Some(t) => Some(
                            table_put(
                                s,
                                EntityTyping {
                                    entity: row.entity,
                                    primary: t.primary,
                                    secondary: row.type_id,
                                },
                            ),
                        ),
                    }
                } else {
                    Some(s)
                }
            },
        }
    }
}

/// On the failing path: the entity of the first offending slot-2 row.
pub open spec fn resolve_err_entity(rows: Seq<SlotRow>) -> u64
    decreases rows.len(),
{
    if rows.len() == 0 {
        0
    } else {
        match resolve_rows(rows.drop_last()) {
            None => resolve_err_entity(rows.drop_last()),
            Some(s) => rows.last().entity,
        }
    }
}

/// Once resolution has failed on a prefix, it stays failed, with the same
/// offending entity.
pub proof fn lemma_resolve_none_extends(rows: Seq<SlotRow>, j: int)
    requires
        0 <= j <= rows.len(),
        resolve_rows(rows.subrange(0, j)) is None,
    ensures
        resolve_rows(rows) is None,
        resolve_err_entity(rows) == resolve_err_entity(rows.subrange(0, j)),
    decreases rows.len() - j,
{
    if j == rows.len() {
        assert(rows.subrange(0, j) =~= rows);
    } else {
        assert(rows.subrange(0, j + 1).drop_last() =~= rows.subrange(0, j));
        lemma_resolve_none_extends(rows, j + 1);
    }
}

/// A resolved table is sorted by entity id.
pub proof fn lemma_resolve_sorted(rows: Seq<SlotRow>)
    requires
        resolve_rows(rows) is Some,
    ensures
        ent_sorted(resolve_rows(rows)->Some_0),
    decreases rows.len(),
{
    if rows.len() > 0 {
        lemma_resolve_sorted(rows.drop_last());
        let s = resolve_rows(rows.drop_last())->Some_0;
        let row = rows.last();
        if row.slot == 1 {
            lemma_table_put_sorted(
                s,
                EntityTyping { entity: row.entity, primary: row.type_id, secondary: 0 },
            );
        } else if row.slot == 2 {
            let t = ent_find(s, row.entity)->Some_0;
            lemma_table_put_sorted(
                s,
                EntityTyping { entity: row.entity, primary: t.primary, secondary: row.type_id },
            );
        }
    }
}

/// A put changes the key set by exactly the put entity.
pub proof fn lemma_table_put_domain(s: Seq<EntityTyping>, x: EntityTyping, e: u64)
    ensures
        (ent_find(table_put(s, x), e) is Some) == (e == x.entity || ent_find(s, e) is Some),
    decreases s.len(),
{
    let r = table_put(s, x);
    if s.len() == 0 {
        assert(r == seq![x]);
        assert(r[0] == x);
        assert(r.drop_first() =~= Seq::<EntityTyping>::empty());
        if e != x.entity {
            assert(ent_find(r, e) is None);
            assert(ent_find(s, e) is None);
        }
    } else if x.entity < s[0].entity {
        assert(r == seq![x] + s);
        assert(r[0] == x);
        assert(r.drop_first() =~= s);
        if e != x.entity {
            assert(ent_find(r, e) == ent_find(s, e));
        }
    } else if x.entity == s[0].entity {
        assert(r[0] == x);
        assert(r.drop_first() =~= s.drop_first());
        if e != x.entity {
            assert(ent_find(s, e) == ent_find(s.drop_first(), e));
            assert(ent_find(r, e) == ent_find(s.drop_first(), e));
        }
    } else {
        lemma_table_put_domain(s.drop_first(), x, e);
        assert(r == seq![s[0]] + table_put(s.drop_first(), x));
        assert(r[0] == s[0]);
        assert(r.drop_first() =~= table_put(s.drop_first(), x));
        if e != x.entity {
            if e == s[0].entity {
                assert(ent_find(r, e) is Some);
                assert(ent_find(s, e) is Some);
            } else {
                assert(ent_find(r, e) == ent_find(table_put(s.drop_first(), x), e));
                assert(ent_find(s, e) == ent_find(s.drop_first(), e));
            }
        }
    }
}

/// Some slot-1 row names the entity.
pub open spec fn rows_has_primary(rows: Seq<SlotRow>, e: u64) -> bool {
    exists|i: int| 0 <= i < rows.len() && (#[trigger] rows[i]).slot == 1 && rows[i].entity == e
}

/// A resolved table covers exactly the entities that some slot-1 row named.
pub proof fn lemma_resolve_covers(rows: Seq<SlotRow>, e: u64)
    requires
        resolve_rows(rows) is Some,
    ensures
        (ent_find(resolve_rows(rows)->Some_0, e) is Some) <==> rows_has_primary(rows, e),
    decreases rows.len(),
{
    if rows.len() > 0 {
        let prefix = rows.drop_last();
        lemma_resolve_covers(prefix, e);
        let s = resolve_rows(prefix)->Some_0;
        let row = rows.last();
        assert(rows_has_primary(rows, e) <==> ((row.slot == 1 && row.entity == e)
            || rows_has_primary(prefix, e))) by {
            if rows_has_primary(prefix, e) {
                let i = choose|i: int|
                    0 <= i < prefix.len() && (#[trigger] prefix[i]).slot == 1 && prefix[i].entity
                        == e;
                assert(rows[i].slot == 1 && rows[i].entity == e);
            }
            if row.slot == 1 && row.entity == e {
                assert(rows[rows.len() - 1].slot == 1 && rows[rows.len() - 1].entity == e);
            }
            if rows_has_primary(rows, e) {
                let i = choose|i: int|
                    0 <= i < rows.len() && (#[trigger] rows[i]).slot == 1 && rows[i].entity == e;
                if i < rows.len() - 1 {
                    assert(prefix[i].slot == 1 && prefix[i].entity == e);
                }
            }
        }
        if row.slot == 1 {
            lemma_table_put_domain(
                s,
                EntityTyping { entity: row.entity, primary: row.type_id, secondary: 0 },
                e,
            );
        } else if row.slot == 2 {
            let t = ent_find(s, row.entity)->Some_0;
            lemma_table_put_domain(
                s,
                EntityTyping { entity: row.entity, primary: t.primary, secondary: row.type_id },
                e,
            );
        }
    }
}

// ---------------------------------------------------------------------------
// The executable table
// ---------------------------------------------------------------------------

/// The resolved typings, sorted strictly by entity id.
#[derive(Debug)]
pub struct EntityTable {
    pub entries: Vec<EntityTyping>,
}

impl EntityTable {
    pub open spec fn model(self) -> Seq<EntityTyping> {
        self.entries@
    }

    pub fn new() -> (r: EntityTable)
        ensures
            r.model() == Seq::<EntityTyping>::empty(),
    {
        let r = EntityTable { entries: Vec::new() };
        proof {
            assert(r.model() =~= Seq::<EntityTyping>::empty());
        }
        r
    }

    /// First entry recorded for `entity`, if any.
    pub fn find(&self, entity: u64) -> (r: Option<EntityTyping>)
        ensures
            r == ent_find(self.model(), entity),
    {
        let ghost m = self.model();
        proof {
            assert(m.skip(0) =~= m);
        }
        let n = self.entries.len();
        let mut i: usize = 0;
        while i < n
            invariant
                0 <= i <= n == self.entries@.len(),
                m == self.model(),
                ent_find(m, entity) == ent_find(m.skip(i as int), entity),
            decreases n - i,
        {
            proof {
                assert(m.skip(i as int)[0] == m[i as int]);
            }
            if self.entries[i].entity == entity {
                return Some(self.entries[i]);
            }
            proof {
                assert(m.skip(i as int).drop_first() =~= m.skip(i + 1));
            }
            i = i + 1;
        }
        proof {
            assert(m.skip(i as int) =~= Seq::<EntityTyping>::empty());
        }
        None
    }

    /// Records `x`, overwriting any entry with the same entity id.
    pub fn put(&mut self, x: EntityTyping)
        ensures
            final(self).model() == table_put(old(self).model(), x),
    {
        let n = self.entries.len();
        let ghost m0 = self.model();
        proof {
            assert(m0.skip(0) =~= m0);
            assert(m0.subrange(0, 0) + table_put(m0.skip(0), x) =~= table_put(m0, x));
        }
        let mut i: usize = 0;
        while i < n
            invariant
                0 <= i <= n == self.entries@.len(),
                m0 == self.model(),
                forall|j: int| 0 <= j < i ==> (#[trigger] self.entries@[j]).entity < x.entity,
                table_put(m0, x) == m0.subrange(0, i as int) + table_put(m0.skip(i as int), x),
            ensures
                0 <= i <= n,
                m0 == self.model(),
                table_put(m0, x) == m0.subrange(0, i as int) + table_put(m0.skip(i as int), x),
                i < n ==> m0[i as int].entity >= x.entity,
            decreases n - i,
        {
            let key = self.entries[i].entity;
            proof {
                assert(m0.skip(i as int)[0] == m0[i as int]);
            }
            if key >= x.entity {
                break ;
            }
            proof {
                assert(m0.skip(i as int).drop_first() =~= m0.skip(i + 1));
                assert(table_put(m0.skip(i as int), x) == seq![m0[i as int]] + table_put(
                    m0.skip(i + 1),
                    x,
                ));
                assert(m0.subrange(0, i as int) + (seq![m0[i as int]] + table_put(
                    m0.skip(i + 1),
                    x,
                )) =~= m0.subrange(0, i + 1) + table_put(m0.skip(i + 1), x));
            }
            i = i + 1;
        }
        if i < n && self.entries[i].entity == x.entity {
            proof {
                assert(m0.skip(i as int)[0] == m0[i as int]);
                assert(m0.skip(i as int).drop_first() =~= m0.skip(i + 1));
                assert(table_put(m0.skip(i as int), x) == seq![x] + m0.skip(i + 1));
            }
            self.entries.remove(i);
            self.entries.insert(i, x);
            proof {
                assert(self.model() =~= m0.subrange(0, i as int) + (seq![x] + m0.skip(i + 1)));
            }
        } else {
            proof {
                if i < n {
                    assert(m0.skip(i as int)[0] == m0[i as int]);
                    assert(m0[i as int].entity > x.entity);
                    assert(table_put(m0.skip(i as int), x) == seq![x] + m0.skip(i as int));
                } else {
                    assert(m0.skip(i as int) =~= Seq::<EntityTyping>::empty());
                }
            }
            self.entries.insert(i, x);
            proof {
                assert(self.model() =~= m0.subrange(0, i as int) + (seq![x] + m0.skip(i as int)));
            }
        }
    }
}

/// Applies every row in order, fail-fast: a slot-2 row whose entity has no
/// primary type on record aborts the whole resolution.
pub fn resolve(rows: &Vec<SlotRow>) -> (r: Result<EntityTable, DataError>)
    ensures
        match r {
            Ok(t) => resolve_rows(rows@) == Some(t.model()) && ent_sorted(t.model()),
            Err(e) => resolve_rows(rows@) is None && e == (DataError::MissingPrimary {
                entity: resolve_err_entity(rows@),
            }),
        },
{
    let mut table = EntityTable::new();
    proof {
        assert(rows@.subrange(0, 0) =~= Seq::<SlotRow>::empty());
    }
    let n = rows.len();
    let mut i: usize = 0;
    while i < n
        invariant
            0 <= i <= n == rows@.len(),
            resolve_rows(rows@.subrange(0, i as int)) == Some(table.model()),
        decreases n - i,
    {
        let row = rows[i];
        proof {
            assert(rows@.subrange(0, i + 1).drop_last() =~= rows@.subrange(0, i as int));
            assert(rows@.subrange(0, i + 1).last() == rows@[i as int]);
        }
        if row.slot == 1 {
            table.put(EntityTyping { entity: row.entity, primary: row.type_id, secondary: 0 });
        } else if row.slot == 2 {
            match table.find(row.entity) {
                Some(t) => {
                    table.put(
                        EntityTyping {
                            entity: row.entity,
                            primary: t.primary,
                            secondary: row.type_id,
                        },
                    );
                },
                None => {
                    proof {
                        assert(resolve_rows(rows@.subrange(0, i + 1)) is None);
                        lemma_resolve_none_extends(rows@, i + 1);
                    }
                    return Err(DataError::MissingPrimary { entity: row.entity });
                },
            }
        }
        i = i + 1;
    }
    proof {
        assert(rows@.subrange(0, n as int) =~= rows@);
        lemma_resolve_sorted(rows@);
    }
    Ok(table)
}

} // verus!

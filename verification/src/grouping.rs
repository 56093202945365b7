//! Sorted grouping tables: move ids collected per type, and one name kept
//! per move.  Keys are held strictly ascending; values keep encounter
//! order, and a name, once recorded, is never replaced.

use crate::render::TextEntry;
use vstd::prelude::*;

verus! {

/// Sorted insert: appends `v` to the group of `k`, opening the group at
/// its sorted place on first sight.
pub open spec fn moves_insert(gs: Seq<(u64, Seq<u64>)>, k: u64, v: u64) -> Seq<(u64, Seq<u64>)>
    decreases gs.len(),
{
    if gs.len() == 0 {
        seq![(k, seq![v])]
    } else if k < gs[0].0 {
        seq![(k, seq![v])] + gs
    } else if k == gs[0].0 {
        seq![(k, gs[0].1.push(v))] + gs.drop_first()
    } else {
        seq![gs[0]] + moves_insert(gs.drop_first(), k, v)
    }
}

/// Sorted insert that keeps the first value recorded under a key.
pub open spec fn name_put_keep(
    gs: Seq<(u64, Seq<char>)>,
    k: u64,
    v: Seq<char>,
) -> Seq<(u64, Seq<char>)>
    decreases gs.len(),
{
    if gs.len() == 0 {
        seq![(k, v)]
    } else if k < gs[0].0 {
        seq![(k, v)] + gs
    } else if k == gs[0].0 {
        gs
    } else {
        seq![gs[0]] + name_put_keep(gs.drop_first(), k, v)
    }
}

/// One attack type with the moves of that type, in encounter order.
#[derive(Debug)]
pub struct MoveGroup {
    pub type_id: u64,
    pub moves: Vec<u64>,
}

/// Moves grouped by type, types strictly ascending.
#[derive(Debug)]
pub struct MoveTable {
    pub rows: Vec<MoveGroup>,
}

impl MoveTable {
    pub open spec fn model(self) -> Seq<(u64, Seq<u64>)> {
        self.rows@.map_values(|g: MoveGroup| (g.type_id, g.moves@))
    }

    pub fn new() -> (r: MoveTable)
        ensures
            r.model() == Seq::<(u64, Seq<u64>)>::empty(),
    {
        let r = MoveTable { rows: Vec::new() };
        proof {
            assert(r.model() =~= Seq::<(u64, Seq<u64>)>::empty());
        }
        r
    }

    /// Appends move `v` under type `k`.
    pub fn add(&mut self, k: u64, v: u64)
        ensures
            final(self).model() =~~= moves_insert(old(self).model(), k, v),
    {
        let n = self.rows.len();
        let ghost m0 = self.model();
        proof {
            assert(m0.skip(0) =~= m0);
            assert(m0.subrange(0, 0) + moves_insert(m0.skip(0), k, v) =~~= moves_insert(
                m0,
                k,
                v,
            ));
        }
        let mut i: usize = 0;
        while i < n
            invariant
                0 <= i <= n == self.rows@.len(),
                m0 == self.model(),
                forall|j: int| 0 <= j < i ==> (#[trigger] self.rows@[j]).type_id < k,
                moves_insert(m0, k, v) == m0.subrange(0, i as int) + moves_insert(
                    m0.skip(i as int),
                    k,
                    v,
                ),
            ensures
                0 <= i <= n,
                m0 == self.model(),
                moves_insert(m0, k, v) == m0.subrange(0, i as int) + moves_insert(
                    m0.skip(i as int),
                    k,
                    v,
                ),
                i < n ==> m0[i as int].0 >= k,
            decreases n - i,
        {
            proof {
                assert(m0.skip(i as int)[0] == m0[i as int]);
                assert(m0[i as int] == (self.rows@[i as int].type_id, self.rows@[i as int].moves@));
            }
            if self.rows[i].type_id >= k {
                break ;
            }
            proof {
                assert(m0.skip(i as int).drop_first() =~= m0.skip(i + 1));
                assert(moves_insert(m0.skip(i as int), k, v) == seq![m0[i as int]] + moves_insert(
                    m0.skip(i + 1),
                    k,
                    v,
                ));
                assert(m0.subrange(0, i as int) + (seq![m0[i as int]] + moves_insert(
                    m0.skip(i + 1),
                    k,
                    v,
                )) =~~= m0.subrange(0, i + 1) + moves_insert(m0.skip(i + 1), k, v));
            }
            i = i + 1;
        }
        if i < n && self.rows[i].type_id == k {
            proof {
                assert(m0.skip(i as int)[0] == m0[i as int]);
                assert(m0[i as int] == (self.rows@[i as int].type_id, self.rows@[i as int].moves@));
                assert(m0.skip(i as int).drop_first() =~= m0.skip(i + 1));
                assert(moves_insert(m0.skip(i as int), k, v) == seq![
                    (k, m0[i as int].1.push(v)),
                ] + m0.skip(i + 1));
            }
            let mut g = self.rows.remove(i);
            g.moves.push(v);
            let ghost gm = (g.type_id, g.moves@);
            proof {
                assert(gm.1 =~= m0[i as int].1.push(v));
            }
            self.rows.insert(i, g);
            proof {
                assert(self.model() =~~= m0.subrange(0, i as int) + (seq![
                    (k, m0[i as int].1.push(v)),
                ] + m0.skip(i + 1)));
                assert(self.model() =~~= moves_insert(m0, k, v));
            }
        } else {
            proof {
                if i < n {
                    assert(m0.skip(i as int)[0] == m0[i as int]);
                    assert(m0[i as int] == (
                        self.rows@[i as int].type_id,
                        self.rows@[i as int].moves@,
                    ));
                    assert(m0[i as int].0 > k);
                    assert(moves_insert(m0.skip(i as int), k, v) == seq![(k, seq![v])] + m0.skip(
                        i as int,
                    ));
                } else {
                    assert(m0.skip(i as int) =~= Seq::<(u64, Seq<u64>)>::empty());
                }
            }
            let mut moves: Vec<u64> = Vec::new();
            moves.push(v);
            let g = MoveGroup { type_id: k, moves };
            proof {
                assert(g.moves@ =~= seq![v]);
            }
            self.rows.insert(i, g);
            proof {
                assert(self.model() =~~= m0.subrange(0, i as int) + (seq![(k, seq![v])] + m0.skip(
                    i as int,
                )));
                assert(self.model() =~~= moves_insert(m0, k, v));
            }
        }
    }
}

/// Names keyed by id, ids strictly ascending, first name kept.
#[derive(Debug)]
pub struct NameTable {
    pub rows: Vec<TextEntry>,
}

impl NameTable {
    pub open spec fn model(self) -> Seq<(u64, Seq<char>)> {
        self.rows@.map_values(|e: TextEntry| e.model())
    }

    pub fn new() -> (r: NameTable)
        ensures
            r.model() == Seq::<(u64, Seq<char>)>::empty(),
    {
        let r = NameTable { rows: Vec::new() };
        proof {
            assert(r.model() =~= Seq::<(u64, Seq<char>)>::empty());
        }
        r
    }

    /// Records `text` under `key`, unless the key already has a name.
    pub fn put_first(&mut self, key: u64, text: String)
        ensures
            final(self).model() =~~= name_put_keep(old(self).model(), key, text@),
    {
        let n = self.rows.len();
        let ghost m0 = self.model();
        let ghost v = text@;
        proof {
            assert(m0.skip(0) =~= m0);
            assert(m0.subrange(0, 0) + name_put_keep(m0.skip(0), key, v) =~~= name_put_keep(
                m0,
                key,
                v,
            ));
        }
        let mut i: usize = 0;
        while i < n
            invariant
                0 <= i <= n == self.rows@.len(),
                m0 == self.model(),
                v == text@,
                forall|j: int| 0 <= j < i ==> (#[trigger] self.rows@[j]).key < key,
                name_put_keep(m0, key, v) == m0.subrange(0, i as int) + name_put_keep(
                    m0.skip(i as int),
                    key,
                    v,
                ),
            ensures
                0 <= i <= n,
                m0 == self.model(),
                v == text@,
                name_put_keep(m0, key, v) == m0.subrange(0, i as int) + name_put_keep(
                    m0.skip(i as int),
                    key,
                    v,
                ),
                i < n ==> m0[i as int].0 >= key,
            decreases n - i,
        {
            proof {
                assert(m0.skip(i as int)[0] == m0[i as int]);
                assert(m0[i as int] == self.rows@[i as int].model());
            }
            if self.rows[i].key >= key {
                break ;
            }
            proof {
                assert(m0.skip(i as int).drop_first() =~= m0.skip(i + 1));
                assert(name_put_keep(m0.skip(i as int), key, v) == seq![m0[i as int]]
                    + name_put_keep(m0.skip(i + 1), key, v));
                assert(m0.subrange(0, i as int) + (seq![m0[i as int]] + name_put_keep(
                    m0.skip(i + 1),
                    key,
                    v,
                )) =~~= m0.subrange(0, i + 1) + name_put_keep(m0.skip(i + 1), key, v));
            }
            i = i + 1;
        }
        if i < n && self.rows[i].key == key {
            // the key already has a name: keep it
            proof {
                assert(m0.skip(i as int)[0] == m0[i as int]);
                assert(m0[i as int] == self.rows@[i as int].model());
                assert(name_put_keep(m0.skip(i as int), key, v) == m0.skip(i as int));
                assert(m0.subrange(0, i as int) + m0.skip(i as int) =~~= m0);
                assert(self.model() =~~= name_put_keep(m0, key, v));
            }
        } else {
            proof {
                if i < n {
                    assert(m0.skip(i as int)[0] == m0[i as int]);
                    assert(m0[i as int] == self.rows@[i as int].model());
                    assert(m0[i as int].0 > key);
                    assert(name_put_keep(m0.skip(i as int), key, v) == seq![(key, v)] + m0.skip(
                        i as int,
                    ));
                } else {
                    assert(m0.skip(i as int) =~= Seq::<(u64, Seq<char>)>::empty());
                }
            }
            let e = TextEntry { key, text };
            self.rows.insert(i, e);
            proof {
                assert(self.model() =~~= m0.subrange(0, i as int) + (seq![(key, v)] + m0.skip(
                    i as int,
                )));
                assert(self.model() =~~= name_put_keep(m0, key, v));
            }
        }
    }
}

} // verus!

//! The table renderer: deterministic text for each table shape.
//!
//! Every entry renders as `[key] = value, ` on its own line; a nested table
//! opens a brace, renders its entries one indentation level deeper, and
//! closes on its own line.  Entries are emitted in the order their table
//! holds them, which the builders keep ascending by key.

use crate::chart::TypeChart;
use crate::entities::EntityTable;
use crate::entities::EntityTyping;
use crate::grouping::MoveTable;
use crate::text::append_dec;
use crate::text::dec_rep;
use crate::weakness::WeaknessTable;
use vstd::prelude::*;

verus! {

// ---------------------------------------------------------------------------
// List values
// ---------------------------------------------------------------------------

/// `a, b, c` — items joined by comma and space.
pub open spec fn render_items(ts: Seq<u64>) -> Seq<char>
    decreases ts.len(),
{
    if ts.len() == 0 {
        Seq::empty()
    } else if ts.len() == 1 {
        dec_rep(ts[0] as int)
    } else {
        render_items(ts.drop_last()) + ", "@ + dec_rep(ts.last() as int)
    }
}

/// `{ a, b, c }` — a list value; the empty list renders as `{  }`.
pub open spec fn render_list(ts: Seq<u64>) -> Seq<char> {
    "{ "@ + render_items(ts) + " }"@
}

/// Appends `render_list` of the items.
pub fn append_list(out: &mut String, ts: &Vec<u64>)
    ensures
        final(out)@ == old(out)@ + render_list(ts@),
{
    out.append("{ ");
    let ghost base = out@;
    proof {
        assert(ts@.subrange(0, 0) =~= Seq::<u64>::empty());
        assert(out@ =~= base + render_items(ts@.subrange(0, 0)));
    }
    let n = ts.len();
    let mut j: usize = 0;
    while j < n
        invariant
            0 <= j <= n == ts@.len(),
            out@ == base + render_items(ts@.subrange(0, j as int)),
        decreases n - j,
    {
        if j > 0 {
            out.append(", ");
        }
        append_dec(out, ts[j]);
        proof {
            assert(ts@.subrange(0, j + 1).drop_last() =~= ts@.subrange(0, j as int));
            assert(ts@.subrange(0, j + 1).last() == ts@[j as int]);
            if j == 0 {
                assert(render_items(ts@.subrange(0, 1)) == dec_rep(ts@[0] as int));
            }
            assert(out@ =~= base + render_items(ts@.subrange(0, j + 1)));
        }
        j = j + 1;
    }
    out.append(" }");
    proof {
        assert(ts@.subrange(0, n as int) =~= ts@);
        assert(out@ =~= old(out)@ + render_list(ts@));
    }
}

// ---------------------------------------------------------------------------
// Weakness lines: `[entity] = { t1, t2 }, `
// ---------------------------------------------------------------------------

pub open spec fn render_list_lines(wt: Seq<(u64, Seq<u64>)>) -> Seq<char>
    decreases wt.len(),
{
    if wt.len() == 0 {
        Seq::empty()
    } else {
        render_list_lines(wt.drop_last()) + "["@ + dec_rep(wt.last().0 as int) + "] = "@
            + render_list(wt.last().1) + ", \n"@
    }
}

/// Appends one weakness line per entity, in table order.
pub fn append_weaknesses(out: &mut String, wt: &WeaknessTable)
    ensures
        final(out)@ == old(out)@ + render_list_lines(wt.model()),
{
    let ghost m = wt.model();
    let ghost base = out@;
    proof {
        assert(m.subrange(0, 0) =~= Seq::<(u64, Seq<u64>)>::empty());
        assert(out@ =~= base + render_list_lines(m.subrange(0, 0)));
    }
    let n = wt.rows.len();
    let mut i: usize = 0;
    while i < n
        invariant
            0 <= i <= n == wt.rows@.len(),
            m == wt.model(),
            out@ == base + render_list_lines(m.subrange(0, i as int)),
        decreases n - i,
    {
        proof {
            assert(m[i as int] == (wt.rows@[i as int].entity, wt.rows@[i as int].types@));
            assert(m.subrange(0, i + 1).drop_last() =~= m.subrange(0, i as int));
            assert(m.subrange(0, i + 1).last() == m[i as int]);
        }
        out.append("[");
        append_dec(out, wt.rows[i].entity);
        out.append("] = ");
        append_list(out, &wt.rows[i].types);
        out.append(", \n");
        proof {
            assert(out@ =~= base + render_list_lines(m.subrange(0, i + 1)));
        }
        i = i + 1;
    }
    proof {
        assert(m.subrange(0, n as int) =~= m);
    }
}

/// Appends one list line per move group, in table order.
pub fn append_move_table(out: &mut String, mt: &MoveTable)
    ensures
        final(out)@ == old(out)@ + render_list_lines(mt.model()),
{
    let ghost m = mt.model();
    let ghost base = out@;
    proof {
        assert(m.subrange(0, 0) =~= Seq::<(u64, Seq<u64>)>::empty());
        assert(out@ =~= base + render_list_lines(m.subrange(0, 0)));
    }
    let n = mt.rows.len();
    let mut i: usize = 0;
    while i < n
        invariant
            0 <= i <= n == mt.rows@.len(),
            m == mt.model(),
            out@ == base + render_list_lines(m.subrange(0, i as int)),
        decreases n - i,
    {
        proof {
            assert(m[i as int] == (mt.rows@[i as int].type_id, mt.rows@[i as int].moves@));
            assert(m.subrange(0, i + 1).drop_last() =~= m.subrange(0, i as int));
            assert(m.subrange(0, i + 1).last() == m[i as int]);
        }
        out.append("[");
        append_dec(out, mt.rows[i].type_id);
        out.append("] = ");
        append_list(out, &mt.rows[i].moves);
        out.append(", \n");
        proof {
            assert(out@ =~= base + render_list_lines(m.subrange(0, i + 1)));
        }
        i = i + 1;
    }
    proof {
        assert(m.subrange(0, n as int) =~= m);
    }
}

// ---------------------------------------------------------------------------
// Typing lines: `[entity] = {primary, secondary}, `
// ---------------------------------------------------------------------------

pub open spec fn render_typing_lines(ents: Seq<EntityTyping>) -> Seq<char>
    decreases ents.len(),
{
    if ents.len() == 0 {
        Seq::empty()
    } else {
        render_typing_lines(ents.drop_last()) + "["@ + dec_rep(ents.last().entity as int)
            + "] = {"@ + dec_rep(ents.last().primary as int) + ", "@ + dec_rep(
            ents.last().secondary as int,
        ) + "}, \n"@
    }
}

/// Appends one typing line per entity, in table order.
pub fn append_typings(out: &mut String, table: &EntityTable)
    ensures
        final(out)@ == old(out)@ + render_typing_lines(table.model()),
{
    let ghost m = table.model();
    let ghost base = out@;
    proof {
        assert(m.subrange(0, 0) =~= Seq::<EntityTyping>::empty());
        assert(out@ =~= base + render_typing_lines(m.subrange(0, 0)));
    }
    let n = table.entries.len();
    let mut i: usize = 0;
    while i < n
        invariant
            0 <= i <= n == table.entries@.len(),
            m == table.model(),
            out@ == base + render_typing_lines(m.subrange(0, i as int)),
        decreases n - i,
    {
        proof {
            assert(m.subrange(0, i + 1).drop_last() =~= m.subrange(0, i as int));
            assert(m.subrange(0, i + 1).last() == m[i as int]);
        }
        out.append("[");
        append_dec(out, table.entries[i].entity);
        out.append("] = {");
        append_dec(out, table.entries[i].primary);
        out.append(", ");
        append_dec(out, table.entries[i].secondary);
        out.append("}, \n");
        proof {
            assert(out@ =~= base + render_typing_lines(m.subrange(0, i + 1)));
        }
        i = i + 1;
    }
    proof {
        assert(m.subrange(0, n as int) =~= m);
    }
}

// ---------------------------------------------------------------------------
// Efficacy lines: `[attacker] = {` then `\t[defender] = factor, ` lines
// ---------------------------------------------------------------------------

pub open spec fn render_pairs(es: Seq<(u64, u64)>) -> Seq<char>
    decreases es.len(),
{
    if es.len() == 0 {
        Seq::empty()
    } else {
        render_pairs(es.drop_last()) + "\t["@ + dec_rep(es.last().0 as int) + "] = "@ + dec_rep(
            es.last().1 as int,
        ) + ", \n"@
    }
}

pub open spec fn render_chart_lines(m: Seq<(u64, Seq<(u64, u64)>)>) -> Seq<char>
    decreases m.len(),
{
    if m.len() == 0 {
        Seq::empty()
    } else {
        render_chart_lines(m.drop_last()) + "["@ + dec_rep(m.last().0 as int) + "] = {\n"@
            + render_pairs(m.last().1) + "}, \n"@
    }
}

/// Appends the whole nested efficacy table, one attacker block at a time.
pub fn append_chart(out: &mut String, chart: &TypeChart)
    ensures
        final(out)@ == old(out)@ + render_chart_lines(chart.model()),
{
    let ghost m = chart.model();
    let ghost base = out@;
    proof {
        assert(m.subrange(0, 0) =~= Seq::<(u64, Seq<(u64, u64)>)>::empty());
        assert(out@ =~= base + render_chart_lines(m.subrange(0, 0)));
    }
    let n = chart.rows.len();
    let mut i: usize = 0;
    while i < n
        invariant
            0 <= i <= n == chart.rows@.len(),
            m == chart.model(),
            out@ == base + render_chart_lines(m.subrange(0, i as int)),
        decreases n - i,
    {
        proof {
            assert(m[i as int] == chart.rows@[i as int].model());
            assert(m.subrange(0, i + 1).drop_last() =~= m.subrange(0, i as int));
            assert(m.subrange(0, i + 1).last() == m[i as int]);
        }
        out.append("[");
        append_dec(out, chart.rows[i].attacker);
        out.append("] = {\n");
        let ghost inner = m[i as int].1;
        let ghost mid = out@;
        proof {
            assert(inner.subrange(0, 0) =~= Seq::<(u64, u64)>::empty());
            assert(out@ =~= mid + render_pairs(inner.subrange(0, 0)));
        }
        let k_n = chart.rows[i].entries.len();
        let mut k: usize = 0;
        while k < k_n
            invariant
                0 <= k <= k_n == chart.rows@[i as int].entries@.len(),
                0 <= i < chart.rows@.len(),
                m == chart.model(),
                inner == m[i as int].1,
                m[i as int] == chart.rows@[i as int].model(),
                out@ == mid + render_pairs(inner.subrange(0, k as int)),
            decreases k_n - k,
        {
            proof {
                assert(inner[k as int] == (
                    chart.rows@[i as int].entries@[k as int].defender,
                    chart.rows@[i as int].entries@[k as int].factor,
                ));
                assert(inner.subrange(0, k + 1).drop_last() =~= inner.subrange(0, k as int));
                assert(inner.subrange(0, k + 1).last() == inner[k as int]);
            }
            out.append("\t[");
            append_dec(out, chart.rows[i].entries[k].defender);
            out.append("] = ");
            append_dec(out, chart.rows[i].entries[k].factor);
            out.append(", \n");
            proof {
                assert(out@ =~= mid + render_pairs(inner.subrange(0, k + 1)));
            }
            k = k + 1;
        }
        out.append("}, \n");
        proof {
            assert(inner.subrange(0, k_n as int) =~= inner);
            assert(out@ =~= base + render_chart_lines(m.subrange(0, i + 1)));
        }
        i = i + 1;
    }
    proof {
        assert(m.subrange(0, n as int) =~= m);
    }
}

// ---------------------------------------------------------------------------
// Text lines: `[key] = "text", `
// ---------------------------------------------------------------------------

/// A key with a quoted text value.
#[derive(Debug)]
pub struct TextEntry {
    pub key: u64,
    pub text: String,
}

impl TextEntry {
    pub open spec fn model(self) -> (u64, Seq<char>) {
        (self.key, self.text@)
    }
}

pub open spec fn render_text_lines(ns: Seq<(u64, Seq<char>)>) -> Seq<char>
    decreases ns.len(),
{
    if ns.len() == 0 {
        Seq::empty()
    } else {
        render_text_lines(ns.drop_last()) + "["@ + dec_rep(ns.last().0 as int) + "] = \""@
            + ns.last().1 + "\", \n"@
    }
}

/// Appends one quoted-text line per entry, in entry order.  No escaping is
/// applied to the text.
pub fn append_text_entries(out: &mut String, ns: &Vec<TextEntry>)
    ensures
        final(out)@ == old(out)@ + render_text_lines(ns@.map_values(|e: TextEntry| e.model())),
{
    let ghost m = ns@.map_values(|e: TextEntry| e.model());
    let ghost base = out@;
    proof {
        assert(m.subrange(0, 0) =~= Seq::<(u64, Seq<char>)>::empty());
        assert(out@ =~= base + render_text_lines(m.subrange(0, 0)));
    }
    let n = ns.len();
    let mut i: usize = 0;
    while i < n
        invariant
            0 <= i <= n == ns@.len(),
            m == ns@.map_values(|e: TextEntry| e.model()),
            out@ == base + render_text_lines(m.subrange(0, i as int)),
        decreases n - i,
    {
        proof {
            assert(m[i as int] == ns@[i as int].model());
            assert(m.subrange(0, i + 1).drop_last() =~= m.subrange(0, i as int));
            assert(m.subrange(0, i + 1).last() == m[i as int]);
        }
        out.append("[");
        append_dec(out, ns[i].key);
        out.append("] = \"");
        out.append(ns[i].text.as_str());
        out.append("\", \n");
        proof {
            assert(out@ =~= base + render_text_lines(m.subrange(0, i + 1)));
        }
        i = i + 1;
    }
    proof {
        assert(m.subrange(0, n as int) =~= m);
    }
}

} // verus!

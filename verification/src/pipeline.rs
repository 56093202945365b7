//! The batch transforms: parse a CSV export, build the in-memory tables,
//! and render the lookup-table text.
//!
//! Every transform is a single pass: the whole input is parsed before any
//! derivation, and any malformed row aborts the run with the offending line,
//! since a partial table would silently corrupt every derived weakness.
//! The first input line is the header and is never parsed as data.

use crate::chart::EfficacyRow;
use crate::chart::TypeChart;
use crate::chart::chart_of;
use crate::entities::SlotRow;
use crate::entities::resolve;
use crate::entities::resolve_err_entity;
use crate::entities::resolve_rows;
use crate::errors::DataError;
use crate::grouping::MoveTable;
use crate::grouping::NameTable;
use crate::grouping::moves_insert;
use crate::grouping::name_put_keep;
use crate::render::TextEntry;
use crate::render::append_chart;
use crate::render::append_move_table;
use crate::render::append_text_entries;
use crate::render::append_typings;
use crate::render::append_weaknesses;
use crate::render::render_chart_lines;
use crate::render::render_list_lines;
use crate::render::render_text_lines;
use crate::render::render_typing_lines;
use crate::text::is_u64_field;
use crate::text::lines_of;
use crate::text::num_of;
use crate::text::parse_u64;
use crate::text::push_char;
use crate::text::split_lines;
use crate::text::split_on;
use crate::text::split_str;
use crate::text::str_views;
use crate::text::to_upper_char;
use crate::text::upper_char;
use crate::weakness::derive_weaknesses;
use crate::weakness::weaknesses_of;
use vstd::prelude::*;

verus! {

/// The data lines of an input: everything after the header line.
pub open spec fn data_lines(s: Seq<char>) -> Seq<Seq<char>> {
    if lines_of(s).len() == 0 {
        Seq::empty()
    } else {
        lines_of(s).drop_first()
    }
}

// ---------------------------------------------------------------------------
// Efficacy rows
// ---------------------------------------------------------------------------

/// One `damage_type_id,target_type_id,damage_factor` line.
pub open spec fn efficacy_row_of(line: Seq<char>) -> Option<EfficacyRow> {
    let f = split_on(line, ',');
    if f.len() == 3 && is_u64_field(f[0]) && is_u64_field(f[1]) && is_u64_field(f[2]) {
        Some(
            EfficacyRow {
                attacker: num_of(f[0]) as u64,
                defender: num_of(f[1]) as u64,
                factor: num_of(f[2]) as u64,
            },
        )
    } else {
        None
    }
}

/// All efficacy rows, or `None` on the first malformed line.
pub open spec fn efficacy_rows_of(lines: Seq<Seq<char>>) -> Option<Seq<EfficacyRow>>
    decreases lines.len(),
{
    if lines.len() == 0 {
        Some(Seq::empty())
    } else {
        match efficacy_rows_of(lines.drop_last()) {
            None => None,
            Some(rs) => match efficacy_row_of(lines.last()) {
                None => None,
                Some(r) => Some(rs.push(r)),
            },
        }
    }
}

/// On the failing path: the index of the first malformed line.
pub open spec fn bad_efficacy_index(lines: Seq<Seq<char>>) -> int
    decreases lines.len(),
{
    if lines.len() == 0 {
        0
    } else {
        match efficacy_rows_of(lines.drop_last()) {
            None => bad_efficacy_index(lines.drop_last()),
            Some(rs) => lines.len() - 1,
        }
    }
}

pub proof fn lemma_efficacy_none_extends(lines: Seq<Seq<char>>, j: int)
    requires
        0 <= j <= lines.len(),
        efficacy_rows_of(lines.subrange(0, j)) is None,
    ensures
        efficacy_rows_of(lines) is None,
        bad_efficacy_index(lines) == bad_efficacy_index(lines.subrange(0, j)),
    decreases lines.len() - j,
{
    if j == lines.len() {
        assert(lines.subrange(0, j) =~= lines);
    } else {
        assert(lines.subrange(0, j + 1).drop_last() =~= lines.subrange(0, j));
        lemma_efficacy_none_extends(lines, j + 1);
    }
}

/// Parses every data line as an efficacy row, fail-fast.
pub fn parse_efficacy_rows(input: &str) -> (r: Result<Vec<EfficacyRow>, DataError>)
    ensures
        match r {
            Ok(rows) => efficacy_rows_of(data_lines(input@)) == Some(rows@),
            Err(e) => efficacy_rows_of(data_lines(input@)) is None && e == (DataError::BadRow {
                line: (bad_efficacy_index(data_lines(input@)) + 2) as u64,
            }),
        },
{
    let lines = split_lines(input);
    let ghost data = data_lines(input@);
    let total = lines.len();
    let mut rows: Vec<EfficacyRow> = Vec::new();
    if total == 0 {
        proof {
            assert(data =~= Seq::<Seq<char>>::empty());
            assert(efficacy_rows_of(data) == Some(rows@)) by {
                assert(rows@ =~= Seq::<EfficacyRow>::empty());
            }
        }
        return Ok(rows);
    }
    proof {
        assert(data =~= lines_of(input@).drop_first());
        assert(data.len() == total - 1);
        assert(data.subrange(0, 0) =~= Seq::<Seq<char>>::empty());
        assert(rows@ =~= Seq::<EfficacyRow>::empty());
    }
    let mut i: usize = 1;
    while i < total
        invariant
            1 <= i <= total == lines@.len(),
            str_views(lines@) == lines_of(input@),
            data == data_lines(input@),
            data.len() == total - 1,
            forall|k: int| 0 <= k < data.len() ==> data[k] == (#[trigger] lines@[k + 1])@,
            efficacy_rows_of(data.subrange(0, i - 1)) == Some(rows@),
        decreases total - i,
    {
        let line = lines[i];
        proof {
            assert(data[i - 1] == lines@[i as int]@);
            assert(data.subrange(0, i as int).drop_last() =~= data.subrange(0, i - 1));
            assert(data.subrange(0, i as int).last() == data[i - 1]);
        }
        let fields = split_str(line, ',');
        let ghost f = split_on(line@, ',');
        proof {
            assert(fields@.len() == f.len());
            assert(forall|k: int| 0 <= k < fields@.len() ==> (#[trigger] fields@[k])@ == f[k]);
        }
        let mut ok = fields.len() == 3;
        let mut attacker: u64 = 0;
        let mut defender: u64 = 0;
        let mut factor: u64 = 0;
        if ok {
            match parse_u64(fields[0]) {
                Some(v) => {
                    attacker = v;
                },
                None => {
                    ok = false;
                },
            }
        }
        if ok {
            match parse_u64(fields[1]) {
                Some(v) => {
                    defender = v;
                },
                None => {
                    ok = false;
                },
            }
        }
        if ok {
            match parse_u64(fields[2]) {
                Some(v) => {
                    factor = v;
                },
                None => {
                    ok = false;
                },
            }
        }
        if !ok {
            proof {
                assert(efficacy_row_of(data[i - 1]) is None);
                assert(efficacy_rows_of(data.subrange(0, i as int)) is None);
                lemma_efficacy_none_extends(data, i as int);
                assert(bad_efficacy_index(data.subrange(0, i as int)) == i - 1);
            }
            return Err(DataError::BadRow { line: (i + 1) as u64 });
        }
        let row = EfficacyRow { attacker, defender, factor };
        rows.push(row);
        proof {
            assert(efficacy_row_of(data[i - 1]) == Some(row));
        }
        i = i + 1;
    }
    proof {
        assert(data.subrange(0, total - 1) =~= data);
    }
    Ok(rows)
}

// ---------------------------------------------------------------------------
// Entity slot rows
// ---------------------------------------------------------------------------

/// One `entity_id,type_id,slot` line.
pub open spec fn slot_row_of(line: Seq<char>) -> Option<SlotRow> {
    let f = split_on(line, ',');
    if f.len() == 3 && is_u64_field(f[0]) && is_u64_field(f[1]) && is_u64_field(f[2]) {
        Some(
            SlotRow {
                entity: num_of(f[0]) as u64,
                type_id: num_of(f[1]) as u64,
                slot: num_of(f[2]) as u64,
            },
        )
    } else {
        None
    }
}

/// All slot rows, or `None` on the first malformed line.
pub open spec fn slot_rows_of(lines: Seq<Seq<char>>) -> Option<Seq<SlotRow>>
    decreases lines.len(),
{
    if lines.len() == 0 {
        Some(Seq::empty())
    } else {
        match slot_rows_of(lines.drop_last()) {
            None => None,
            Some(rs) => match slot_row_of(lines.last()) {
                None => None,
                Some(r) => Some(rs.push(r)),
            },
        }
    }
}

/// On the failing path: the index of the first malformed line.
pub open spec fn bad_slot_index(lines: Seq<Seq<char>>) -> int
    decreases lines.len(),
{
    if lines.len() == 0 {
        0
    } else {
        match slot_rows_of(lines.drop_last()) {
            None => bad_slot_index(lines.drop_last()),
            Some(rs) => lines.len() - 1,
        }
    }
}

pub proof fn lemma_slot_none_extends(lines: Seq<Seq<char>>, j: int)
    requires
        0 <= j <= lines.len(),
        slot_rows_of(lines.subrange(0, j)) is None,
    ensures
        slot_rows_of(lines) is None,
        bad_slot_index(lines) == bad_slot_index(lines.subrange(0, j)),
    decreases lines.len() - j,
{
    if j == lines.len() {
        assert(lines.subrange(0, j) =~= lines);
    } else {
        assert(lines.subrange(0, j + 1).drop_last() =~= lines.subrange(0, j));
        lemma_slot_none_extends(lines, j + 1);
    }
}

/// Parses every data line as a slot row, fail-fast.
pub fn parse_slot_rows(input: &str) -> (r: Result<Vec<SlotRow>, DataError>)
    ensures
        match r {
            Ok(rows) => slot_rows_of(data_lines(input@)) == Some(rows@),
            Err(e) => slot_rows_of(data_lines(input@)) is None && e == (DataError::BadRow {
                line: (bad_slot_index(data_lines(input@)) + 2) as u64,
            }),
        },
{
    let lines = split_lines(input);
    let ghost data = data_lines(input@);
    let total = lines.len();
    let mut rows: Vec<SlotRow> = Vec::new();
    if total == 0 {
        proof {
            assert(data =~= Seq::<Seq<char>>::empty());
            assert(slot_rows_of(data) == Some(rows@)) by {
                assert(rows@ =~= Seq::<SlotRow>::empty());
            }
        }
        return Ok(rows);
    }
    proof {
        assert(data =~= lines_of(input@).drop_first());
        assert(data.len() == total - 1);
        assert(data.subrange(0, 0) =~= Seq::<Seq<char>>::empty());
        assert(rows@ =~= Seq::<SlotRow>::empty());
    }
    let mut i: usize = 1;
    while i < total
        invariant
            1 <= i <= total == lines@.len(),
            str_views(lines@) == lines_of(input@),
            data == data_lines(input@),
            data.len() == total - 1,
            forall|k: int| 0 <= k < data.len() ==> data[k] == (#[trigger] lines@[k + 1])@,
            slot_rows_of(data.subrange(0, i - 1)) == Some(rows@),
        decreases total - i,
    {
        let line = lines[i];
        proof {
            assert(data[i - 1] == lines@[i as int]@);
            assert(data.subrange(0, i as int).drop_last() =~= data.subrange(0, i - 1));
            assert(data.subrange(0, i as int).last() == data[i - 1]);
        }
        let fields = split_str(line, ',');
        let ghost f = split_on(line@, ',');
        proof {
            assert(fields@.len() == f.len());
            assert(forall|k: int| 0 <= k < fields@.len() ==> (#[trigger] fields@[k])@ == f[k]);
        }
        let mut ok = fields.len() == 3;
        let mut entity: u64 = 0;
        let mut type_id: u64 = 0;
        let mut slot: u64 = 0;
        if ok {
            match parse_u64(fields[0]) {
                Some(v) => {
                    entity = v;
                },
                None => {
                    ok = false;
                },
            }
        }
        if ok {
            match parse_u64(fields[1]) {
                Some(v) => {
                    type_id = v;
                },
                None => {
                    ok = false;
                },
            }
        }
        if ok {
            match parse_u64(fields[2]) {
                Some(v) => {
                    slot = v;
                },
                None => {
                    ok = false;
                },
            }
        }
        if !ok {
            proof {
                assert(slot_row_of(data[i - 1]) is None);
                assert(slot_rows_of(data.subrange(0, i as int)) is None);
                lemma_slot_none_extends(data, i as int);
                assert(bad_slot_index(data.subrange(0, i as int)) == i - 1);
            }
            return Err(DataError::BadRow { line: (i + 1) as u64 });
        }
        let row = SlotRow { entity, type_id, slot };
        rows.push(row);
        proof {
            assert(slot_row_of(data[i - 1]) == Some(row));
        }
        i = i + 1;
    }
    proof {
        assert(data.subrange(0, total - 1) =~= data);
    }
    Ok(rows)
}

// ---------------------------------------------------------------------------
// The transforms
// ---------------------------------------------------------------------------

/// The nested efficacy table text for a well-formed input.
pub open spec fn efficacy_output(s: Seq<char>) -> Seq<char> {
    render_chart_lines(chart_of(efficacy_rows_of(data_lines(s))->Some_0))
}

/// Renders the `attacker -> defender -> factor` table, ascending at both
/// levels, one `[attacker] = {` block per attacker.
pub fn process_type_efficacy(input: &str) -> (r: Result<String, DataError>)
    ensures
        match r {
            Ok(out) => efficacy_rows_of(data_lines(input@)) is Some && out@ == efficacy_output(
                input@,
            ),
            Err(e) => efficacy_rows_of(data_lines(input@)) is None && e == (DataError::BadRow {
                line: (bad_efficacy_index(data_lines(input@)) + 2) as u64,
            }),
        },
{
    let rows = match parse_efficacy_rows(input) {
        Ok(rows) => rows,
        Err(e) => {
            return Err(e);
        },
    };
    let chart = TypeChart::from_rows(&rows);
    let mut out = String::new();
    append_chart(&mut out, &chart);
    proof {
        assert(out@ =~= efficacy_output(input@));
    }
    Ok(out)
}

/// The typing table text for a well-formed input.
pub open spec fn typing_output(s: Seq<char>) -> Seq<char> {
    render_typing_lines(resolve_rows(slot_rows_of(data_lines(s))->Some_0)->Some_0)
}

/// Renders each entity's `{primary, secondary}` pair, ascending by entity,
/// with the sentinel 0 for a missing secondary type.
pub fn process_pokemon_types(input: &str) -> (r: Result<String, DataError>)
    ensures
        match r {
            Ok(out) => slot_rows_of(data_lines(input@)) is Some && resolve_rows(
                slot_rows_of(data_lines(input@))->Some_0,
            ) is Some && out@ == typing_output(input@),
            Err(e) => match e {
                DataError::BadRow { line } => slot_rows_of(data_lines(input@)) is None && line
                    == (bad_slot_index(data_lines(input@)) + 2) as u64,
                DataError::MissingPrimary { entity } => slot_rows_of(data_lines(input@)) is Some
                    && resolve_rows(slot_rows_of(data_lines(input@))->Some_0) is None && entity
                    == resolve_err_entity(slot_rows_of(data_lines(input@))->Some_0),
            },
        },
{
    let rows = match parse_slot_rows(input) {
        Ok(rows) => rows,
        Err(e) => {
            return Err(e);
        },
    };
    let table = match resolve(&rows) {
        Ok(t) => t,
        Err(e) => {
            return Err(e);
        },
    };
    let mut out = String::new();
    append_typings(&mut out, &table);
    proof {
        assert(out@ =~= typing_output(input@));
    }
    Ok(out)
}

/// The weakness table text for a well-formed input against a given chart.
pub open spec fn weakness_output(chart: Seq<(u64, Seq<(u64, u64)>)>, s: Seq<char>) -> Seq<char> {
    render_list_lines(
        weaknesses_of(chart, resolve_rows(slot_rows_of(data_lines(s))->Some_0)->Some_0),
    )
}

/// Renders each entity's weakness list against the efficacy table,
/// ascending by entity and, within a list, by attacking type.
pub fn process_pokemon_weaknesses(input: &str, chart: &TypeChart) -> (r: Result<
    String,
    DataError,
>)
    ensures
        match r {
            Ok(out) => slot_rows_of(data_lines(input@)) is Some && resolve_rows(
                slot_rows_of(data_lines(input@))->Some_0,
            ) is Some && out@ == weakness_output(chart.model(), input@),
            Err(e) => match e {
                DataError::BadRow { line } => slot_rows_of(data_lines(input@)) is None && line
                    == (bad_slot_index(data_lines(input@)) + 2) as u64,
                DataError::MissingPrimary { entity } => slot_rows_of(data_lines(input@)) is Some
                    && resolve_rows(slot_rows_of(data_lines(input@))->Some_0) is None && entity
                    == resolve_err_entity(slot_rows_of(data_lines(input@))->Some_0),
            },
        },
{
    let rows = match parse_slot_rows(input) {
        Ok(rows) => rows,
        Err(e) => {
            return Err(e);
        },
    };
    let table = match resolve(&rows) {
        Ok(t) => t,
        Err(e) => {
            return Err(e);
        },
    };
    let weaknesses = derive_weaknesses(chart, &table);
    let mut out = String::new();
    append_weaknesses(&mut out, &weaknesses);
    proof {
        assert(out@ =~= weakness_output(chart.model(), input@));
    }
    Ok(out)
}


// ---------------------------------------------------------------------------
// Name rows
// ---------------------------------------------------------------------------

/// A usable name field: non-empty, with an ASCII first character.
pub open spec fn name_ok(s: Seq<char>) -> bool {
    s.len() > 0 && (s[0] as u32) < 128
}

/// The name with its first letter raised to uppercase.
pub open spec fn capitalized(s: Seq<char>) -> Seq<char> {
    seq![upper_char(s[0])] + s.drop_first()
}

/// One `id,identifier,...` line: the id and the capitalized name.
pub open spec fn name_row_of(line: Seq<char>) -> Option<(u64, Seq<char>)> {
    let f = split_on(line, ',');
    if f.len() >= 2 && is_u64_field(f[0]) && name_ok(f[1]) {
        Some((num_of(f[0]) as u64, capitalized(f[1])))
    } else {
        None
    }
}

/// All name rows in input order, or `None` on the first malformed line.
pub open spec fn name_rows_of(lines: Seq<Seq<char>>) -> Option<Seq<(u64, Seq<char>)>>
    decreases lines.len(),
{
    if lines.len() == 0 {
        Some(Seq::empty())
    } else {
        match name_rows_of(lines.drop_last()) {
            None => None,
            Some(rs) => match name_row_of(lines.last()) {
                None => None,
                Some(r) => Some(rs.push(r)),
            },
        }
    }
}

/// On the failing path: the index of the first malformed line.
pub open spec fn bad_name_index(lines: Seq<Seq<char>>) -> int
    decreases lines.len(),
{
    if lines.len() == 0 {
        0
    } else {
        match name_rows_of(lines.drop_last()) {
            None => bad_name_index(lines.drop_last()),
            Some(rs) => lines.len() - 1,
        }
    }
}

pub proof fn lemma_name_none_extends(lines: Seq<Seq<char>>, j: int)
    requires
        0 <= j <= lines.len(),
        name_rows_of(lines.subrange(0, j)) is None,
    ensures
        name_rows_of(lines) is None,
        bad_name_index(lines) == bad_name_index(lines.subrange(0, j)),
    decreases lines.len() - j,
{
    if j == lines.len() {
        assert(lines.subrange(0, j) =~= lines);
    } else {
        assert(lines.subrange(0, j + 1).drop_last() =~= lines.subrange(0, j));
        lemma_name_none_extends(lines, j + 1);
    }
}

/// The name-table text for a well-formed input.
pub open spec fn names_output(s: Seq<char>) -> Seq<char> {
    render_text_lines(name_rows_of(data_lines(s))->Some_0)
}

/// Renders `[id] = "Name", ` lines in input order, the first letter of each
/// name raised to uppercase.
pub fn process_pokemon_names(input: &str) -> (r: Result<String, DataError>)
    ensures
        match r {
            Ok(out) => name_rows_of(data_lines(input@)) is Some && out@ == names_output(input@),
            Err(e) => name_rows_of(data_lines(input@)) is None && e == (DataError::BadRow {
                line: (bad_name_index(data_lines(input@)) + 2) as u64,
            }),
        },
{
    let lines = split_lines(input);
    let ghost data = data_lines(input@);
    let total = lines.len();
    let mut entries: Vec<TextEntry> = Vec::new();
    if total == 0 {
        proof {
            assert(data =~= Seq::<Seq<char>>::empty());
            assert(entries@.map_values(|e: TextEntry| e.model()) =~= Seq::<(u64, Seq<char>)>::empty());
        }
        let mut out = String::new();
        append_text_entries(&mut out, &entries);
        proof {
            assert(out@ =~= names_output(input@));
        }
        return Ok(out);
    }
    proof {
        assert(data =~= lines_of(input@).drop_first());
        assert(data.len() == total - 1);
        assert(data.subrange(0, 0) =~= Seq::<Seq<char>>::empty());
        assert(entries@.map_values(|e: TextEntry| e.model()) =~= Seq::<(u64, Seq<char>)>::empty());
    }
    let mut i: usize = 1;
    while i < total
        invariant
            1 <= i <= total == lines@.len(),
            str_views(lines@) == lines_of(input@),
            data == data_lines(input@),
            data.len() == total - 1,
            forall|k: int| 0 <= k < data.len() ==> data[k] == (#[trigger] lines@[k + 1])@,
            name_rows_of(data.subrange(0, i - 1)) is Some,
            name_rows_of(data.subrange(0, i - 1))->Some_0 =~~= entries@.map_values(
                |e: TextEntry| e.model(),
            ),
        decreases total - i,
    {
        let line = lines[i];
        proof {
            assert(data[i - 1] == lines@[i as int]@);
            assert(data.subrange(0, i as int).drop_last() =~= data.subrange(0, i - 1));
            assert(data.subrange(0, i as int).last() == data[i - 1]);
        }
        let fields = split_str(line, ',');
        let ghost f = split_on(line@, ',');
        proof {
            assert(fields@.len() == f.len());
            assert(forall|k: int| 0 <= k < fields@.len() ==> (#[trigger] fields@[k])@ == f[k]);
        }
        let mut ok = fields.len() >= 2;
        let mut id: u64 = 0;
        if ok {
            match parse_u64(fields[0]) {
                Some(v) => {
                    id = v;
                },
                None => {
                    ok = false;
                },
            }
        }
        let mut first: char = ' ';
        let mut name_len: usize = 0;
        if ok {
            name_len = fields[1].unicode_len();
            if name_len == 0 {
                ok = false;
            } else {
                first = fields[1].get_char(0);
                if first as u32 >= 128 {
                    ok = false;
                }
            }
        }
        if !ok {
            proof {
                assert(name_row_of(data[i - 1]) is None);
                assert(name_rows_of(data.subrange(0, i as int)) is None);
                lemma_name_none_extends(data, i as int);
                assert(bad_name_index(data.subrange(0, i as int)) == i - 1);
            }
            return Err(DataError::BadRow { line: (i + 1) as u64 });
        }
        let mut name = String::new();
        push_char(&mut name, to_upper_char(first));
        let rest = fields[1].substring_char(1, name_len);
        name.append(rest);
        proof {
            assert(name@ =~= capitalized(f[1])) by {
                assert(rest@ =~= f[1].drop_first());
            }
        }
        let entry = TextEntry { key: id, text: name };
        let ghost prev = entries@.map_values(|e: TextEntry| e.model());
        entries.push(entry);
        proof {
            assert(name_row_of(data[i - 1]) == Some((id, capitalized(f[1]))));
            assert(entries@.map_values(|e: TextEntry| e.model()) =~~= prev.push(
                (id, capitalized(f[1])),
            ));
            assert(name_rows_of(data.subrange(0, i as int))->Some_0 =~~= entries@.map_values(
                |e: TextEntry| e.model(),
            ));
        }
        i = i + 1;
    }
    proof {
        assert(data.subrange(0, total - 1) =~= data);
    }
    let mut out = String::new();
    append_text_entries(&mut out, &entries);
    proof {
        let lhs = name_rows_of(data)->Some_0;
        let rhs = entries@.map_values(|e: TextEntry| e.model());
        assert(lhs =~~= rhs);
        assert(lhs == rhs);
        assert(out@ =~= names_output(input@));
    }
    Ok(out)
}

// ---------------------------------------------------------------------------
// Move rows
// ---------------------------------------------------------------------------

/// One move line: the id, its type, and its power if it has one.
pub open spec fn move_row_of(line: Seq<char>) -> Option<(u64, u64, Option<u64>)> {
    let f = split_on(line, ',');
    if f.len() >= 5 && is_u64_field(f[0]) && is_u64_field(f[3]) && (f[4].len() == 0
        || is_u64_field(f[4])) {
        Some(
            (
                num_of(f[0]) as u64,
                num_of(f[3]) as u64,
                if f[4].len() == 0 {
                    None
                } else {
                    Some(num_of(f[4]) as u64)
                },
            ),
        )
    } else {
        None
    }
}

/// All move rows, or `None` on the first malformed line.
pub open spec fn move_rows_of(lines: Seq<Seq<char>>) -> Option<Seq<(u64, u64, Option<u64>)>>
    decreases lines.len(),
{
    if lines.len() == 0 {
        Some(Seq::empty())
    } else {
        match move_rows_of(lines.drop_last()) {
            None => None,
            Some(rs) => match move_row_of(lines.last()) {
                None => None,
                Some(r) => Some(rs.push(r)),
            },
        }
    }
}

/// On the failing path: the index of the first malformed line.
pub open spec fn bad_move_index(lines: Seq<Seq<char>>) -> int
    decreases lines.len(),
{
    if lines.len() == 0 {
        0
    } else {
        match move_rows_of(lines.drop_last()) {
            None => bad_move_index(lines.drop_last()),
            Some(rs) => lines.len() - 1,
        }
    }
}

pub proof fn lemma_move_none_extends(lines: Seq<Seq<char>>, j: int)
    requires
        0 <= j <= lines.len(),
        move_rows_of(lines.subrange(0, j)) is None,
    ensures
        move_rows_of(lines) is None,
        bad_move_index(lines) == bad_move_index(lines.subrange(0, j)),
    decreases lines.len() - j,
{
    if j == lines.len() {
        assert(lines.subrange(0, j) =~= lines);
    } else {
        assert(lines.subrange(0, j + 1).drop_last() =~= lines.subrange(0, j));
        lemma_move_none_extends(lines, j + 1);
    }
}

/// Moves with a power, grouped by type in row order.
pub open spec fn moves_fold(rows: Seq<(u64, u64, Option<u64>)>) -> Seq<(u64, Seq<u64>)>
    decreases rows.len(),
{
    if rows.len() == 0 {
        Seq::empty()
    } else {
        let g = moves_fold(rows.drop_last());
        if rows.last().2 is Some {
            moves_insert(g, rows.last().1, rows.last().0)
        } else {
            g
        }
    }
}

/// The move-table text for a well-formed input.
pub open spec fn moves_output(s: Seq<char>) -> Seq<char> {
    render_list_lines(moves_fold(move_rows_of(data_lines(s))->Some_0))
}

/// Renders, per attack type in ascending order, the ids of the moves of
/// that type that have a power value, in input order.
pub fn process_moves(input: &str) -> (r: Result<String, DataError>)
    ensures
        match r {
            Ok(out) => move_rows_of(data_lines(input@)) is Some && out@ == moves_output(input@),
            Err(e) => move_rows_of(data_lines(input@)) is None && e == (DataError::BadRow {
                line: (bad_move_index(data_lines(input@)) + 2) as u64,
            }),
        },
{
    let lines = split_lines(input);
    let ghost data = data_lines(input@);
    let total = lines.len();
    let mut table = MoveTable::new();
    if total == 0 {
        proof {
            assert(data =~= Seq::<Seq<char>>::empty());
        }
        let mut out = String::new();
        append_move_table(&mut out, &table);
        proof {
            assert(out@ =~= moves_output(input@));
        }
        return Ok(out);
    }
    proof {
        assert(data =~= lines_of(input@).drop_first());
        assert(data.len() == total - 1);
        assert(data.subrange(0, 0) =~= Seq::<Seq<char>>::empty());
    }
    let mut i: usize = 1;
    while i < total
        invariant
            1 <= i <= total == lines@.len(),
            str_views(lines@) == lines_of(input@),
            data == data_lines(input@),
            data.len() == total - 1,
            forall|k: int| 0 <= k < data.len() ==> data[k] == (#[trigger] lines@[k + 1])@,
            move_rows_of(data.subrange(0, i - 1)) is Some,
            table.model() =~~= moves_fold(move_rows_of(data.subrange(0, i - 1))->Some_0),
        decreases total - i,
    {
        let line = lines[i];
        proof {
            assert(data[i - 1] == lines@[i as int]@);
            assert(data.subrange(0, i as int).drop_last() =~= data.subrange(0, i - 1));
            assert(data.subrange(0, i as int).last() == data[i - 1]);
        }
        let fields = split_str(line, ',');
        let ghost f = split_on(line@, ',');
        proof {
            assert(fields@.len() == f.len());
            assert(forall|k: int| 0 <= k < fields@.len() ==> (#[trigger] fields@[k])@ == f[k]);
        }
        let mut ok = fields.len() >= 5;
        let mut id: u64 = 0;
        let mut type_id: u64 = 0;
        let mut power: Option<u64> = None;
        if ok {
            match parse_u64(fields[0]) {
                Some(v) => {
                    id = v;
                },
                None => {
                    ok = false;
                },
            }
        }
        if ok {
            match parse_u64(fields[3]) {
                Some(v) => {
                    type_id = v;
                },
                None => {
                    ok = false;
                },
            }
        }
        if ok && fields[4].unicode_len() > 0 {
            match parse_u64(fields[4]) {
                Some(v) => {
                    power = Some(v);
                },
                None => {
                    ok = false;
                },
            }
        }
        if !ok {
            proof {
                assert(move_row_of(data[i - 1]) is None);
                assert(move_rows_of(data.subrange(0, i as int)) is None);
                lemma_move_none_extends(data, i as int);
                assert(bad_move_index(data.subrange(0, i as int)) == i - 1);
            }
            return Err(DataError::BadRow { line: (i + 1) as u64 });
        }
        let ghost row = (id, type_id, power);
        let ghost prev = move_rows_of(data.subrange(0, i - 1))->Some_0;
        proof {
            assert(move_row_of(data[i - 1]) == Some(row));
            assert(move_rows_of(data.subrange(0, i as int)) == Some(prev.push(row)));
            assert(prev.push(row).drop_last() =~= prev);
            assert(prev.push(row).last() == row);
        }
        if power.is_some() {
            table.add(type_id, id);
        }
        proof {
            assert(table.model() =~~= moves_fold(prev.push(row)));
        }
        i = i + 1;
    }
    proof {
        assert(data.subrange(0, total - 1) =~= data);
    }
    let mut out = String::new();
    append_move_table(&mut out, &table);
    proof {
        let lhs = table.model();
        let rhs = moves_fold(move_rows_of(data)->Some_0);
        assert(lhs =~~= rhs);
        assert(lhs == rhs);
        assert(out@ =~= moves_output(input@));
    }
    Ok(out)
}

// ---------------------------------------------------------------------------
// Move-name rows
// ---------------------------------------------------------------------------

/// The language whose names are kept.
pub open spec fn kept_language() -> u64 {
    8
}

/// One `move_id,local_language_id,name` line.
pub open spec fn move_name_row_of(line: Seq<char>) -> Option<(u64, u64, Seq<char>)> {
    let f = split_on(line, ',');
    if f.len() == 3 && is_u64_field(f[0]) && is_u64_field(f[1]) {
        Some((num_of(f[0]) as u64, num_of(f[1]) as u64, f[2]))
    } else {
        None
    }
}

/// All move-name rows, or `None` on the first malformed line.
pub open spec fn move_name_rows_of(lines: Seq<Seq<char>>) -> Option<Seq<(u64, u64, Seq<char>)>>
    decreases lines.len(),
{
    if lines.len() == 0 {
        Some(Seq::empty())
    } else {
        match move_name_rows_of(lines.drop_last()) {
            None => None,
            Some(rs) => match move_name_row_of(lines.last()) {
                None => None,
                Some(r) => Some(rs.push(r)),
            },
        }
    }
}

/// On the failing path: the index of the first malformed line.
pub open spec fn bad_move_name_index(lines: Seq<Seq<char>>) -> int
    decreases lines.len(),
{
    if lines.len() == 0 {
        0
    } else {
        match move_name_rows_of(lines.drop_last()) {
            None => bad_move_name_index(lines.drop_last()),
            Some(rs) => lines.len() - 1,
        }
    }
}

pub proof fn lemma_move_name_none_extends(lines: Seq<Seq<char>>, j: int)
    requires
        0 <= j <= lines.len(),
        move_name_rows_of(lines.subrange(0, j)) is None,
    ensures
        move_name_rows_of(lines) is None,
        bad_move_name_index(lines) == bad_move_name_index(lines.subrange(0, j)),
    decreases lines.len() - j,
{
    if j == lines.len() {
        assert(lines.subrange(0, j) =~= lines);
    } else {
        assert(lines.subrange(0, j + 1).drop_last() =~= lines.subrange(0, j));
        lemma_move_name_none_extends(lines, j + 1);
    }
}

/// The names of the kept language, first name per move, moves ascending.
pub open spec fn move_names_fold(rows: Seq<(u64, u64, Seq<char>)>) -> Seq<(u64, Seq<char>)>
    decreases rows.len(),
{
    if rows.len() == 0 {
        Seq::empty()
    } else {
        let g = move_names_fold(rows.drop_last());
        if rows.last().1 == kept_language() {
            name_put_keep(g, rows.last().0, rows.last().2)
        } else {
            g
        }
    }
}

/// The move-name text for a well-formed input.
pub open spec fn move_names_output(s: Seq<char>) -> Seq<char> {
    render_text_lines(move_names_fold(move_name_rows_of(data_lines(s))->Some_0))
}

/// Renders `[move_id] = "name", ` lines for the kept language, ids
/// ascending, keeping the first name a move was given.
pub fn process_move_names(input: &str) -> (r: Result<String, DataError>)
    ensures
        match r {
            Ok(out) => move_name_rows_of(data_lines(input@)) is Some && out@ == move_names_output(
                input@,
            ),
            Err(e) => move_name_rows_of(data_lines(input@)) is None && e == (DataError::BadRow {
                line: (bad_move_name_index(data_lines(input@)) + 2) as u64,
            }),
        },
{
    let lines = split_lines(input);
    let ghost data = data_lines(input@);
    let total = lines.len();
    let mut table = NameTable::new();
    if total == 0 {
        proof {
            assert(data =~= Seq::<Seq<char>>::empty());
        }
        let mut out = String::new();
        append_text_entries(&mut out, &table.rows);
        proof {
            assert(out@ =~= move_names_output(input@));
        }
        return Ok(out);
    }
    proof {
        assert(data =~= lines_of(input@).drop_first());
        assert(data.len() == total - 1);
        assert(data.subrange(0, 0) =~= Seq::<Seq<char>>::empty());
    }
    let mut i: usize = 1;
    while i < total
        invariant
            1 <= i <= total == lines@.len(),
            str_views(lines@) == lines_of(input@),
            data == data_lines(input@),
            data.len() == total - 1,
            forall|k: int| 0 <= k < data.len() ==> data[k] == (#[trigger] lines@[k + 1])@,
            move_name_rows_of(data.subrange(0, i - 1)) is Some,
            table.model() =~~= move_names_fold(move_name_rows_of(data.subrange(0, i - 1))->Some_0),
        decreases total - i,
    {
        let line = lines[i];
        proof {
            assert(data[i - 1] == lines@[i as int]@);
            assert(data.subrange(0, i as int).drop_last() =~= data.subrange(0, i - 1));
            assert(data.subrange(0, i as int).last() == data[i - 1]);
        }
        let fields = split_str(line, ',');
        let ghost f = split_on(line@, ',');
        proof {
            assert(fields@.len() == f.len());
            assert(forall|k: int| 0 <= k < fields@.len() ==> (#[trigger] fields@[k])@ == f[k]);
        }
        let mut ok = fields.len() == 3;
        let mut move_id: u64 = 0;
        let mut language: u64 = 0;
        if ok {
            match parse_u64(fields[0]) {
                Some(v) => {
                    move_id = v;
                },
                None => {
                    ok = false;
                },
            }
        }
        if ok {
            match parse_u64(fields[1]) {
                Some(v) => {
                    language = v;
                },
                None => {
                    ok = false;
                },
            }
        }
        if !ok {
            proof {
                assert(move_name_row_of(data[i - 1]) is None);
                assert(move_name_rows_of(data.subrange(0, i as int)) is None);
                lemma_move_name_none_extends(data, i as int);
                assert(bad_move_name_index(data.subrange(0, i as int)) == i - 1);
            }
            return Err(DataError::BadRow { line: (i + 1) as u64 });
        }
        let ghost row = (move_id, language, f[2]);
        let ghost prev = move_name_rows_of(data.subrange(0, i - 1))->Some_0;
        proof {
            assert(move_name_row_of(data[i - 1]) == Some(row));
            assert(move_name_rows_of(data.subrange(0, i as int)) == Some(prev.push(row)));
            assert(prev.push(row).drop_last() =~= prev);
            assert(prev.push(row).last() == row);
        }
        if language == 8 {
            let name = String::from_str(fields[2]);
            table.put_first(move_id, name);
        }
        proof {
            assert(table.model() =~~= move_names_fold(prev.push(row)));
        }
        i = i + 1;
    }
    proof {
        assert(data.subrange(0, total - 1) =~= data);
    }
    let mut out = String::new();
    append_text_entries(&mut out, &table.rows);
    proof {
        let lhs = table.model();
        let rhs = move_names_fold(move_name_rows_of(data)->Some_0);
        assert(lhs =~~= rhs);
        assert(lhs == rhs);
        assert(out@ =~= move_names_output(input@));
    }
    Ok(out)
}

} // verus!

//! Edge cases, error paths, and the stated properties on concrete values.

use lua_tables::chart::EfficacyRow;
use lua_tables::chart::TypeChart;
use lua_tables::errors::DataError;
use lua_tables::merge::change_parameters_format;
use lua_tables::merge::multiple_csv_to_hashmap;
use lua_tables::palette::render_luma_pixels;
use lua_tables::pipeline::process_move_names;
use lua_tables::pipeline::process_pokemon_names;
use lua_tables::pipeline::process_pokemon_types;
use lua_tables::pipeline::process_pokemon_weaknesses;
use lua_tables::pipeline::process_type_efficacy;
use lua_tables::text::append_dec;
use lua_tables::weakness::weak_types;

fn row(attacker: u64, defender: u64, factor: u64) -> EfficacyRow {
    EfficacyRow { attacker, defender, factor }
}

#[test]
fn combined_factor_of_exactly_one_is_not_a_weakness() {
    // one efficacy row (1,1,100); a dual-typed entity: 100 x 100 = 10000 is
    // not above the threshold, so type 1 is not a weakness
    let chart = TypeChart::from_rows(&vec![row(1, 1, 100)]);
    let mut input = String::new();
    input.push_str("pokemon_id,type_id,slot\n");
    input.push_str("1,12,1\n");
    input.push_str("1,4,2\n");

    let result = process_pokemon_weaknesses(&input, &chart).unwrap();

    assert_eq!(result, "[1] = {  }, \n");
}

#[test]
fn single_type_needs_exactly_super_effective() {
    // 150 x anything would pass a threshold test, but a single-typed entity
    // is weak only to a factor of exactly 200
    let chart = TypeChart::from_rows(&vec![row(3, 9, 150), row(4, 9, 200)]);
    let weak = weak_types(&chart, 9, 0);
    assert_eq!(weak, vec![4]);
}

#[test]
fn dual_type_threshold_catches_unusual_factors() {
    // 150 x 150 = 22500 > 10000: the literal threshold comparison flags it
    let chart = TypeChart::from_rows(&vec![row(3, 9, 150), row(3, 5, 150)]);
    let weak = weak_types(&chart, 9, 5);
    assert_eq!(weak, vec![3]);
}

#[test]
fn missing_pairs_default_to_normal() {
    let chart = TypeChart::from_rows(&vec![row(2, 3, 200)]);
    // absent defender, absent attacker: both read as 100, never 0
    assert_eq!(chart.factor(2, 5), 100);
    assert_eq!(chart.factor(9, 9), 100);
    // a single-typed entity of an unlisted type has no weaknesses
    let weak = weak_types(&chart, 5, 0);
    assert_eq!(weak, Vec::<u64>::new());
}

#[test]
fn sentinel_secondary_is_never_looked_up() {
    // [7][0] stores factor 0; were the sentinel used as a lookup key, the
    // product 200 x 0 would hide the weakness
    let chart = TypeChart::from_rows(&vec![row(7, 9, 200), row(7, 0, 0)]);
    let mut input = String::new();
    input.push_str("pokemon_id,type_id,slot\n");
    input.push_str("42,9,1\n");

    let result = process_pokemon_weaknesses(&input, &chart).unwrap();

    assert_eq!(result, "[42] = { 7 }, \n");
}

#[test]
fn rendering_is_deterministic_across_runs() {
    let chart = TypeChart::from_rows(&vec![row(3, 12, 200), row(10, 12, 200)]);
    let mut input = String::new();
    input.push_str("pokemon_id,type_id,slot\n");
    input.push_str("11,12,1\n");
    input.push_str("3,12,1\n");

    let first = process_pokemon_weaknesses(&input, &chart).unwrap();
    let second = process_pokemon_weaknesses(&input, &chart).unwrap();

    assert_eq!(first, second);
    assert_eq!(first, "[3] = { 3, 10 }, \n[11] = { 3, 10 }, \n");
}

#[test]
fn output_order_ignores_input_order() {
    let mut forward = String::new();
    forward.push_str("damage_type_id,target_type_id,damage_factor\n");
    forward.push_str("1,1,100\n");
    forward.push_str("18,17,200\n");
    let mut backward = String::new();
    backward.push_str("damage_type_id,target_type_id,damage_factor\n");
    backward.push_str("18,17,200\n");
    backward.push_str("1,1,100\n");

    let a = process_type_efficacy(&forward).unwrap();
    let b = process_type_efficacy(&backward).unwrap();

    assert_eq!(a, b);
    assert_eq!(a, "[1] = {\n\t[1] = 100, \n}, \n[18] = {\n\t[17] = 200, \n}, \n");
}

#[test]
fn later_efficacy_row_overwrites_earlier() {
    let mut input = String::new();
    input.push_str("damage_type_id,target_type_id,damage_factor\n");
    input.push_str("1,1,50\n");
    input.push_str("1,1,200\n");

    let result = process_type_efficacy(&input).unwrap();

    assert_eq!(result, "[1] = {\n\t[1] = 200, \n}, \n");
}

#[test]
fn later_primary_row_overwrites_and_clears_secondary() {
    let mut input = String::new();
    input.push_str("pokemon_id,type_id,slot\n");
    input.push_str("5,3,1\n");
    input.push_str("5,8,2\n");
    input.push_str("5,4,1\n");

    let result = process_pokemon_types(&input).unwrap();

    assert_eq!(result, "[5] = {4, 0}, \n");
}

#[test]
fn slots_other_than_one_and_two_are_ignored() {
    let mut input = String::new();
    input.push_str("pokemon_id,type_id,slot\n");
    input.push_str("7,3,1\n");
    input.push_str("7,9,3\n");

    let result = process_pokemon_types(&input).unwrap();

    assert_eq!(result, "[7] = {3, 0}, \n");
}

#[test]
fn malformed_row_aborts_with_its_line() {
    let mut input = String::new();
    input.push_str("damage_type_id,target_type_id,damage_factor\n");
    input.push_str("1,1,100\n");
    input.push_str("2,x,100\n");
    input.push_str("3,3,300\n");

    let result = process_type_efficacy(&input);

    assert_eq!(result, Err(DataError::BadRow { line: 3 }));
}

#[test]
fn wrong_field_count_aborts() {
    let mut input = String::new();
    input.push_str("pokemon_id,type_id,slot\n");
    input.push_str("1,12\n");

    let result = process_pokemon_types(&input);

    assert_eq!(result, Err(DataError::BadRow { line: 2 }));
}

#[test]
fn oversized_number_aborts() {
    let mut input = String::new();
    input.push_str("damage_type_id,target_type_id,damage_factor\n");
    input.push_str("1,1,18446744073709551616\n");

    let result = process_type_efficacy(&input);

    assert_eq!(result, Err(DataError::BadRow { line: 2 }));
}

#[test]
fn largest_number_is_kept_exactly() {
    let mut input = String::new();
    input.push_str("damage_type_id,target_type_id,damage_factor\n");
    input.push_str("1,1,18446744073709551615\n");

    let result = process_type_efficacy(&input).unwrap();

    assert_eq!(result, "[1] = {\n\t[1] = 18446744073709551615, \n}, \n");
}

#[test]
fn secondary_without_primary_aborts() {
    let chart = TypeChart::from_rows(&vec![row(1, 1, 200)]);
    let mut input = String::new();
    input.push_str("pokemon_id,type_id,slot\n");
    input.push_str("5,4,2\n");

    assert_eq!(
        process_pokemon_types(&input),
        Err(DataError::MissingPrimary { entity: 5 })
    );
    assert_eq!(
        process_pokemon_weaknesses(&input, &chart),
        Err(DataError::MissingPrimary { entity: 5 })
    );
}

#[test]
fn empty_and_header_only_inputs_render_nothing() {
    assert_eq!(process_type_efficacy("").unwrap(), "");
    assert_eq!(
        process_pokemon_types("pokemon_id,type_id,slot\n").unwrap(),
        ""
    );
}

#[test]
fn empty_name_aborts() {
    let mut input = String::new();
    input.push_str("id,identifier\n");
    input.push_str("3,\n");

    let result = process_pokemon_names(&input);

    assert_eq!(result, Err(DataError::BadRow { line: 2 }));
}

#[test]
fn first_move_name_wins() {
    let mut input = String::new();
    input.push_str("move_id,local_language_id,name\n");
    input.push_str("9,8,First\n");
    input.push_str("9,8,Second\n");
    input.push_str("9,3,Other\n");

    let result = process_move_names(&input).unwrap();

    assert_eq!(result, "[9] = \"First\", \n");
}

#[test]
fn decimal_rendering_is_exact() {
    let mut s = String::new();
    append_dec(&mut s, 0);
    append_dec(&mut s, 907);
    append_dec(&mut s, 18446744073709551615);
    assert_eq!(s, "090718446744073709551615");
}

#[test]
fn translation_lines_group_by_key_across_files() {
    let merged = multiple_csv_to_hashmap(vec!["hello|Hello\nbye|Bye\n", "hello|Ciao\nbye|Addio\n"]);
    assert_eq!(merged.groups.len(), 2);
    assert_eq!(merged.groups[0].key, "hello");
    assert_eq!(merged.groups[0].values, vec!["Hello", "Ciao"]);
    assert_eq!(merged.groups[1].key, "bye");
    assert_eq!(merged.groups[1].values, vec!["Bye", "Addio"]);
}

#[test]
fn parameter_markers_are_rewritten() {
    let mut text = String::from("Press [%key] to [%act], then ] alone");
    change_parameters_format(&mut text);
    assert_eq!(text, "Press {key} to {act}, then } alone");
}

#[test]
fn luma_levels_map_to_palette_words() {
    let pixels = vec![251u8, 221, 81, 44, 154, 7];
    let body = render_luma_pixels(&pixels);
    assert_eq!(body, "0x0000, 0x2945, 0x2945, 0xFFFF, 0x528A, 7, ");
}

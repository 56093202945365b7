//! The table transforms on small CSV exports.

use lua_tables::chart::EfficacyRow;
use lua_tables::chart::TypeChart;
use lua_tables::pipeline::process_move_names;
use lua_tables::pipeline::process_moves;
use lua_tables::pipeline::process_pokemon_names;
use lua_tables::pipeline::process_pokemon_types;
use lua_tables::pipeline::process_pokemon_weaknesses;
use lua_tables::pipeline::process_type_efficacy;

fn row(attacker: u64, defender: u64, factor: u64) -> EfficacyRow {
    EfficacyRow { attacker, defender, factor }
}

/// The full efficacy fixture: every non-normal attacker/defender pair of
/// the eighteen elemental types.
fn full_chart() -> TypeChart {
    let rows = vec![
        row(1, 6, 50),
        row(1, 8, 0),
        row(1, 9, 50),
        row(2, 1, 200),
        row(2, 3, 50),
        row(2, 4, 50),
        row(2, 6, 200),
        row(2, 7, 50),
        row(2, 8, 0),
        row(2, 9, 200),
        row(2, 14, 50),
        row(2, 15, 200),
        row(2, 17, 200),
        row(2, 18, 50),
        row(3, 2, 200),
        row(3, 6, 50),
        row(3, 7, 200),
        row(3, 9, 50),
        row(3, 12, 200),
        row(3, 13, 50),
        row(4, 4, 50),
        row(4, 5, 50),
        row(4, 6, 50),
        row(4, 8, 50),
        row(4, 9, 0),
        row(4, 12, 200),
        row(4, 18, 200),
        row(5, 3, 0),
        row(5, 4, 200),
        row(5, 6, 200),
        row(5, 7, 50),
        row(5, 9, 200),
        row(5, 10, 200),
        row(5, 12, 50),
        row(5, 13, 200),
        row(6, 2, 50),
        row(6, 3, 200),
        row(6, 5, 50),
        row(6, 7, 200),
        row(6, 9, 50),
        row(6, 10, 200),
        row(6, 15, 200),
        row(7, 2, 50),
        row(7, 3, 50),
        row(7, 4, 50),
        row(7, 8, 50),
        row(7, 9, 50),
        row(7, 10, 50),
        row(7, 12, 200),
        row(7, 14, 200),
        row(7, 17, 200),
        row(7, 18, 50),
        row(8, 1, 0),
        row(8, 8, 200),
        row(8, 14, 200),
        row(8, 17, 50),
        row(9, 6, 200),
        row(9, 9, 50),
        row(9, 10, 50),
        row(9, 11, 50),
        row(9, 13, 50),
        row(9, 15, 200),
        row(9, 18, 200),
        row(10, 6, 50),
        row(10, 7, 200),
        row(10, 9, 200),
        row(10, 10, 50),
        row(10, 11, 50),
        row(10, 12, 200),
        row(10, 15, 200),
        row(10, 16, 50),
        row(11, 5, 200),
        row(11, 6, 200),
        row(11, 10, 200),
        row(11, 11, 50),
        row(11, 12, 50),
        row(11, 16, 50),
        row(12, 3, 50),
        row(12, 4, 50),
        row(12, 5, 200),
        row(12, 6, 200),
        row(12, 7, 50),
        row(12, 9, 50),
        row(12, 10, 50),
        row(12, 11, 200),
        row(12, 12, 50),
        row(12, 16, 50),
        row(13, 3, 200),
        row(13, 5, 0),
        row(13, 11, 200),
        row(13, 12, 50),
        row(13, 13, 50),
        row(13, 16, 50),
        row(14, 2, 200),
        row(14, 4, 200),
        row(14, 9, 50),
        row(14, 14, 50),
        row(14, 17, 0),
        row(15, 3, 200),
        row(15, 5, 200),
        row(15, 9, 50),
        row(15, 10, 50),
        row(15, 11, 50),
        row(15, 12, 200),
        row(15, 15, 50),
        row(15, 16, 200),
        row(16, 9, 50),
        row(16, 16, 200),
        row(16, 18, 0),
        row(17, 2, 50),
        row(17, 8, 200),
        row(17, 14, 200),
        row(17, 17, 50),
        row(17, 18, 50),
        row(18, 2, 200),
        row(18, 4, 50),
        row(18, 9, 50),
        row(18, 10, 50),
        row(18, 16, 200),
        row(18, 17, 200),
    ];
    TypeChart::from_rows(&rows)
}

#[test]
fn test_pokemon_names() {
    let mut input = String::new();
    input.push_str("id,identifier,species_id,height,weight,base_experience,order,is_default\n");
    input.push_str("1,bulbasaur,1,7,69,64,1,1\n");
    input.push_str("905,enamorus-incarnate,905,16,480,,,1\n");

    let mut output = String::new();
    output.push_str("[1] = \"Bulbasaur\", \n");
    output.push_str("[905] = \"Enamorus-incarnate\", \n");

    let result = process_pokemon_names(&input).unwrap();

    assert_eq!(result, output);
}

#[test]
fn test_pokemon_types() {
    let mut input = String::new();
    input.push_str("pokemon_id,type_id,slot\n");
    input.push_str("1,12,1\n");
    input.push_str("1,4,2\n");
    input.push_str("897,8,1\n");

    let mut output = String::new();
    output.push_str("[1] = {12, 4}, \n");
    output.push_str("[897] = {8, 0}, \n");

    let result = process_pokemon_types(&input).unwrap();

    assert_eq!(result, output);
}

#[test]
fn test_pokemon_weaknesses() {
    let mut input = String::new();
    input.push_str("pokemon_id,type_id,slot\n");
    input.push_str("1,12,1\n");
    input.push_str("1,4,2\n");
    input.push_str("895,16,1\n");

    let mut output = String::new();
    output.push_str("[1] = { 3, 10, 14, 15 }, \n");
    output.push_str("[895] = { 15, 16, 18 }, \n");

    let chart = full_chart();
    let result = process_pokemon_weaknesses(&input, &chart).unwrap();

    assert_eq!(result, output);
}

#[test]
fn test_type_efficacy() {
    let mut input = String::new();
    input.push_str("damage_type_id,target_type_id,damage_factor\n");
    input.push_str("1,1,100\n");
    input.push_str("18,17,200\n");

    let mut output = String::new();
    output.push_str("[1] = {\n\t[1] = 100, \n}, \n");
    output.push_str("[18] = {\n\t[17] = 200, \n}, \n");

    let result = process_type_efficacy(&input).unwrap();

    assert_eq!(result, output);
}

#[test]
fn test_moves() {
    let mut input = String::new();
    input.push_str("id,identifier,generation_id,type_id,power,pp,accuracy,priority,target_id,damage_class_id,effect_id,effect_chance,contest_type_id,contest_effect_id,super_contest_effect_id\n");
    input.push_str("1,pound,1,1,40,35,100,0,10,2,1,,5,1,5\n");
    input.push_str("839,barb-barrage,8,4,60,15,100,0,10,2,3,30,,,\n");

    let mut output = String::new();
    output.push_str("[1] = { 1 }, \n");
    output.push_str("[4] = { 839 }, \n");

    let result = process_moves(&input).unwrap();

    assert_eq!(result, output);
}

#[test]
fn test_move_names() {
    let mut input = String::new();
    input.push_str("move_id,local_language_id,name\n");
    input.push_str("1,1,はたく\n");
    input.push_str("1,8,Botta\n");
    input.push_str("825,1,アストラルビット\n");
    input.push_str("825,8,Schegge Astrali\n");

    let mut output = String::new();
    output.push_str("[1] = \"Botta\", \n");
    output.push_str("[825] = \"Schegge Astrali\", \n");

    let result = process_move_names(&input).unwrap();

    assert_eq!(result, output);
}

use spellbook::codes::{
    ADD, EQUALS, LESSER_THAN, MOVING, MULTIPLY, NOT, SET_DAMAGE, SUBTRACT, AND, COLOR, COMPONENT, FALSE, GET_TIME, GIVE_VELOCITY, GREATER_THAN, IF, METADATA_SECTION,
    NUMBER_LITERAL, OR, PROCESS_SECTION, READY_SECTION, TRUE,
};
use spellbook::compiler::{parse_about_line, parse_component, parse_logic, parse_spell};
use spellbook::registry::{get_component_num, get_parameter_types};
use spellbook::eval::test_logic;
use spellbook::logic::{and, bool_to_num, not, num_to_bool, or, xor};

fn read_double(t: &[char]) -> Option<u64> {
    t.iter().collect::<String>().parse::<f64>().ok().map(f64::to_bits)
}

fn read_single(t: &[char]) -> Option<u64> {
    t.iter().collect::<String>().parse::<f32>().ok().map(|x| (x as f64).to_bits())
}

fn compile(code: &str) -> Result<Vec<u64>, &'static str> {
    parse_spell(code, &read_double, &read_single)
}

#[test]
fn parse_emtpy_spell() {
    assert_eq!(compile(""), Ok(vec![]));
}

#[test]
fn parse_basic_booleans() {
    assert_eq!(parse_logic("true and false or true", &read_double), Ok(vec![TRUE, FALSE, AND, TRUE, OR]));
}

#[test]
fn parse_basic_spell() {
    assert_eq!(compile("when_created:\ngive_velocity(1, 1, 1)"), Ok(vec![READY_SECTION, COMPONENT, GIVE_VELOCITY, NUMBER_LITERAL, f64::to_bits(1.0), NUMBER_LITERAL, f64::to_bits(1.0), NUMBER_LITERAL, f64::to_bits(1.0)]))
}

#[test]
fn parse_basic_repeat() {
    assert_eq!(compile("repeat:\ngive_velocity(1,1,1)"), Ok(vec![PROCESS_SECTION, NUMBER_LITERAL, f64::to_bits(1.0), COMPONENT, GIVE_VELOCITY, NUMBER_LITERAL, f64::to_bits(1.0), NUMBER_LITERAL, f64::to_bits(1.0), NUMBER_LITERAL, f64::to_bits(1.0)]))
}

#[test]
fn parse_advanced_repeat() {
    assert_eq!(compile("repeat every 2:\ngive_velocity(0,0,0)"), Ok(vec![PROCESS_SECTION, NUMBER_LITERAL, f64::to_bits(2.0), COMPONENT, GIVE_VELOCITY, NUMBER_LITERAL, 0, NUMBER_LITERAL, 0, NUMBER_LITERAL, 0]))
}

#[test]
fn parse_advanced_repeat_with_irregular_spacing() {
    assert_eq!(compile("repeat  every      3:\ngive_velocity(0,0,0)"), Ok(vec![PROCESS_SECTION, NUMBER_LITERAL, f64::to_bits(3.0), COMPONENT, GIVE_VELOCITY, NUMBER_LITERAL, 0, NUMBER_LITERAL, 0, NUMBER_LITERAL, 0]))
}

#[test]
fn parse_spell_color() {
    assert_eq!(parse_about_line("color = [0.4, 0, 0.8]", &read_single), Ok(vec![COLOR, f64::to_bits((0.4 as f32) as f64), 0, f64::to_bits((0.8 as f32) as f64)]));
    assert_eq!(parse_about_line("colour = [0.4, 0, 0.8]", &read_single), Ok(vec![COLOR, f64::to_bits((0.4 as f32) as f64), 0, f64::to_bits((0.8 as f32) as f64)]));
}

#[test]
fn parse_invalid_spell_color() {
    assert_eq!(parse_about_line("color = [0.212, 1, 2.3]", &read_single), Err("Invalid values: arguments should be between 0 and 1"));
    assert_eq!(parse_about_line("color = 0.4, 0,284]", &read_single), Err("Invalid parameters: should be a list and have \"[\" \"]\""));
    assert_eq!(parse_about_line("color = [0.4, 0,284", &read_single), Err("Invalid parameters: should be a list and have \"[\" \"]\""));
    assert_eq!(parse_about_line("color = [a, 0,284]", &read_single), Err("Invalid parameters: should be floating point numbers (with decimal point)"));
}

#[test]
fn parse_spell_color_with_irregular_spacing() {
    assert_eq!(parse_about_line("     color      =        [   0.212,    1,0.3]", &read_single), Ok(vec![COLOR, f64::to_bits((0.212 as f32) as f64), f64::to_bits((1 as f32) as f64), f64::to_bits((0.3 as f32) as f64)]));
}

#[test]
fn parse_about_section() {
    assert_eq!(compile("about:\ncolour = [0.4, 0, 0.8]"), Ok(vec![METADATA_SECTION, COLOR, f64::to_bits((0.4 as f32) as f64), 0, f64::to_bits((0.8 as f32) as f64)]))
}

#[test]
fn parse_if_statement_spell() {
    assert_eq!(compile("when_created:\nif false {\ngive_velocity(1, 0, 0)\n}"), Ok(vec![READY_SECTION, IF, FALSE, 0, COMPONENT, GIVE_VELOCITY, NUMBER_LITERAL, f64::to_bits(1.0), NUMBER_LITERAL, 0, NUMBER_LITERAL, 0, 0]))
}

#[test]
fn parse_advanced_if_statement_spell() {
    assert_eq!(compile("when_created:\nif false or get_time() > 5 {\ngive_velocity(1, 0, 0)\n}"), Ok(vec![READY_SECTION, IF, FALSE, COMPONENT, GET_TIME, NUMBER_LITERAL, f64::to_bits(5.0), GREATER_THAN, OR, 0, COMPONENT, GIVE_VELOCITY, NUMBER_LITERAL, f64::to_bits(1.0), NUMBER_LITERAL, 0, NUMBER_LITERAL, 0, 0]))
}

#[test]
fn parse_component_as_parameter() {
    assert_eq!(compile("when_created:\ngive_velocity(get_time(), 0, 0)"), Ok(vec![READY_SECTION, COMPONENT, GIVE_VELOCITY, COMPONENT, GET_TIME, NUMBER_LITERAL, 0, NUMBER_LITERAL, 0]))
}

#[test]
fn parse_complex_spell() {
    assert_eq!(compile("about:\ncolor = [1, 0, 1]\n\nwhen_created:\ngive_velocity(1, 0, 0)\n\nrepeat every 5:\ngive_velocity(0.1, 0, 0)"), Ok(vec![METADATA_SECTION, COLOR,f64::to_bits(1.0),0,f64::to_bits(1.0),READY_SECTION,COMPONENT,GIVE_VELOCITY,NUMBER_LITERAL,f64::to_bits(1.0),NUMBER_LITERAL,0,NUMBER_LITERAL,0,PROCESS_SECTION,NUMBER_LITERAL,f64::to_bits(5.0),COMPONENT,GIVE_VELOCITY,NUMBER_LITERAL,f64::to_bits(0.1),NUMBER_LITERAL,0,NUMBER_LITERAL,0]))
}

/// Every component that can be named in a script is registered.
#[test]
fn compare_component_maps() {
    let names = ["give_velocity", "take_form", "undo_form", "recharge_to", "anchor", "undo_anchor", "moving", "get_time", "set_damage"];
    for name in names {
        let code = get_component_num(name).unwrap();
        match get_parameter_types(code) {
            Some(_) => {},
            None => panic!("Component code {} not in COMPONENT_TO_FUNCTION_MAP", code)
        }
    }
}

#[test]
fn condition_must_leave_one_boolean() {
    assert!(parse_logic("5", &read_double).is_err());
    assert!(parse_logic("true true", &read_double).is_err());
    assert!(parse_logic("true > 1", &read_double).is_err());
    assert!(parse_logic("", &read_double).is_err());
    assert_eq!(parse_logic("not true", &read_double), Ok(vec![TRUE, NOT]));
}

#[test]
fn precedence_and_brackets() {
    let one = f64::to_bits(1.0);
    let two = f64::to_bits(2.0);
    let three = f64::to_bits(3.0);
    assert_eq!(parse_logic("1 + 2 * 3 = 7", &read_double), Ok(vec![NUMBER_LITERAL, one, NUMBER_LITERAL, two, NUMBER_LITERAL, three, MULTIPLY, ADD, NUMBER_LITERAL, f64::to_bits(7.0), EQUALS]));
    assert_eq!(parse_logic("(1 + 2) * 3 = 9", &read_double), Ok(vec![NUMBER_LITERAL, one, NUMBER_LITERAL, two, ADD, NUMBER_LITERAL, three, MULTIPLY, NUMBER_LITERAL, f64::to_bits(9.0), EQUALS]));
    assert_eq!(parse_logic("1 + 2) > 3", &read_double), Err("Expected opening bracket"));
}

#[test]
fn minus_becomes_subtraction_from_zero() {
    let zero = 0u64;
    let two = f64::to_bits(2.0);
    assert_eq!(parse_logic("-2 < 1", &read_double), Ok(vec![NUMBER_LITERAL, zero, NUMBER_LITERAL, two, SUBTRACT, NUMBER_LITERAL, f64::to_bits(1.0), LESSER_THAN]));
    assert_eq!(parse_logic("--2 < 1", &read_double), Ok(vec![NUMBER_LITERAL, two, NUMBER_LITERAL, f64::to_bits(1.0), LESSER_THAN]));
    assert_eq!(parse_logic("1 - 2 < 1", &read_double), Ok(vec![NUMBER_LITERAL, f64::to_bits(1.0), NUMBER_LITERAL, zero, NUMBER_LITERAL, two, SUBTRACT, ADD, NUMBER_LITERAL, f64::to_bits(1.0), LESSER_THAN]));
    assert_eq!(parse_logic("1 -", &read_double), Err("Expected character after minus sign"));
    assert_eq!(parse_logic("1.2.3 > 1", &read_double), Err("Cannot have two decimal points in number"));
    assert_eq!(parse_logic("1 # 2", &read_double), Err("Unexpected character in conditions"));
}

#[test]
fn compile_errors() {
    assert_eq!(compile("when_made:\nanchor()"), Err("Invalid section name"));
    assert_eq!(compile("anchor()"), Err("Must begin with section statement"));
    assert_eq!(compile("when_created:\nfly(1)"), Err("Component doesn't exist"));
    assert_eq!(compile("when_created:\ngive_velocity(1, 2)"), Err("Invalid parameters: Missing parameters"));
    assert_eq!(compile("when_created:\ngive_velocity(1, 2, 3, 4)"), Err("Invalid parameters: More parameters than expected"));
    assert_eq!(compile("when_created:\ngive_velocity(1, x, 3)"), Err("Couldn't parse parameter: should be float"));
    assert_eq!(compile("when_created:\nif true {\nanchor()"), Err("Expected closing bracket(s)"));
    assert_eq!(compile("when_created:\n}"), Err("Not acceptable statement"));
    assert_eq!(compile("when_created:\nif give_velocity(1,1,1) {\n}"), Err("Expected return from component"));
    assert_eq!(compile("repeat every x:\nanchor()"), Err("Invalid value found after keyword \"every\""));
    assert_eq!(compile("about:\nanchor()"), Err("Expected attribute in about section"));
    assert_eq!(parse_about_line("color = [0.1, 0.2]", &read_single), Err("Invalid number of arguments: color attribute only has 3 values"));
    assert_eq!(parse_about_line("shade = [0.1, 0.2, 0.3]", &read_single), Err("Unkown attribute: undefined attribute"));
    assert_eq!(parse_about_line("color [0.1, 0.2, 0.3]", &read_single), Err("There must be an equals sign in an about line"));
}

#[test]
fn component_lookup() {
    assert_eq!(get_component_num("give_velocity"), Some(GIVE_VELOCITY));
    assert_eq!(get_component_num("get_time"), Some(GET_TIME));
    assert_eq!(get_component_num("give_velocit"), None);
    assert_eq!(get_component_num(""), None);
}

#[test]
fn word_logic() {
    assert_eq!(and(TRUE, FALSE), Ok(FALSE));
    assert_eq!(or(TRUE, FALSE), Ok(TRUE));
    assert_eq!(xor(TRUE, TRUE), Ok(FALSE));
    assert_eq!(not(FALSE), Ok(TRUE));
    assert!(and(TRUE, 7).is_err());
    assert_eq!(bool_to_num(true), TRUE);
    assert_eq!(num_to_bool(FALSE), Ok(false));
    assert!(num_to_bool(3).is_err());
}

#[test]
fn component_call_alone() {
    assert_eq!(parse_component("set_damage(2.5)", &read_double), Ok(vec![COMPONENT, SET_DAMAGE, NUMBER_LITERAL, f64::to_bits(2.5)]));
    assert_eq!(parse_component("moving(get_time())", &read_double), Ok(vec![COMPONENT, MOVING, COMPONENT, GET_TIME]));
    assert_eq!(parse_component("set_damage 2.5", &read_double), Err("Invalid component: Must end with close bracket"));
    assert_eq!(parse_component("set damage(2.5)", &read_double), Err("Invalid component: Name must be made up of letters"));
    assert_eq!(parse_component("set_damage)", &read_double), Err("Invalid component: Name must be made up of letters"));
    assert_eq!(parse_component("set_damage(,2)", &read_double), Err("Invalid parameters: Must have value before bracket"));
    assert_eq!(parse_component("undo_form(1)", &read_double), Err("Invalid parameters: More parameters than expected"));
}

#[test]
fn minus_after_operator_is_unary() {
    let five = f64::to_bits(5.0);
    let three = f64::to_bits(3.0);
    assert_eq!(parse_logic("5 > -3", &read_double), Ok(vec![NUMBER_LITERAL, five, NUMBER_LITERAL, 0, NUMBER_LITERAL, three, SUBTRACT, GREATER_THAN]));
    assert_eq!(parse_logic("(-3) < 5", &read_double), Ok(vec![NUMBER_LITERAL, 0, NUMBER_LITERAL, three, SUBTRACT, NUMBER_LITERAL, five, LESSER_THAN]));
}

#[test]
fn minus_negates_the_whole_group() {
    let one = f64::to_bits(1.0);
    let two = f64::to_bits(2.0);
    // -((1) + 2) = (0 - ((1) + 2))
    assert_eq!(parse_logic("-((1) + 2) < 0", &read_double), Ok(vec![NUMBER_LITERAL, 0, NUMBER_LITERAL, one, NUMBER_LITERAL, two, ADD, SUBTRACT, NUMBER_LITERAL, 0, LESSER_THAN]));
    // 4 - (1 + 2) = 4 + (0 - (1 + 2))
    assert_eq!(parse_logic("4 - (1 + 2) > 0", &read_double), Ok(vec![NUMBER_LITERAL, f64::to_bits(4.0), NUMBER_LITERAL, 0, NUMBER_LITERAL, one, NUMBER_LITERAL, two, ADD, SUBTRACT, ADD, NUMBER_LITERAL, 0, GREATER_THAN]));
}

#[test]
fn nested_call_must_hand_back_a_value() {
    assert_eq!(compile("when_created:\ngive_velocity(anchor(), 0, 0)"), Err("Expected return from component"));
    assert_eq!(parse_logic("moving(undo_form()) and true", &read_double), Err("Expected return from component"));
}

#[test]
fn check_on_types_names_the_fault() {
    assert_eq!(test_logic(&vec![TRUE, AND]), Err("Expected value to compare"));
    assert_eq!(test_logic(&vec![TRUE, NUMBER_LITERAL, f64::to_bits(1.0), AND]), Err("Boolean logic can only compare booleans"));
    assert_eq!(test_logic(&vec![NUMBER_LITERAL, 0]), Err("Expected one boolean from condition"));
    assert_eq!(parse_logic("give_velocity(1, 0, 0)", &read_double), Err("Expected return from component"));
    assert_eq!(compile("when_created:\nif 1 + 2 {\n}"), Err("Expected one boolean from condition"));
}

#[test]
fn header_inside_open_block_is_refused() {
    assert_eq!(compile("when_created:\nif false {\nrepeat:\ngive_velocity(1, 0, 0)\n}"), Err("Expected closing bracket(s)"));
}

#[test]
fn white_space_matches_std() {
    for c in (0u32..=0x10FFFF).filter_map(char::from_u32) {
        assert_eq!(spellbook::text::is_white_space(c), c.is_whitespace(), "{:?}", c);
    }
}

use spellbook::catalogue::{
    add_component_to_component_catalogue, check_allowed_to_cast, check_if_parameter_allowed,
    ComponentCatalogue,
};
use spellbook::codes::{ANY, FALSE, GIVE_VELOCITY, NUMBER_LITERAL, TRUE};
use spellbook::compiler::parse_spell;
use spellbook::eval::Value;

fn read_double(t: &[char]) -> Option<u64> {
    t.iter().collect::<String>().parse::<f64>().ok().map(f64::to_bits)
}

fn read_single(t: &[char]) -> Option<u64> {
    t.iter().collect::<String>().parse::<f32>().ok().map(|x| (x as f64).to_bits())
}

fn range(lo: f64, hi: f64) -> Vec<u64> {
    vec![NUMBER_LITERAL, lo.to_bits(), NUMBER_LITERAL, hi.to_bits()]
}

#[test]
fn absent_component_is_refused() {
    let words = parse_spell("when_created:\ngive_velocity(1, 0, 0)", &read_double, &read_single).unwrap();
    let catalogue = ComponentCatalogue::new();
    assert_eq!(check_allowed_to_cast(&words, &catalogue), (false, "Component isn't in component catalogue"));
}

#[test]
fn range_bounds_are_accepted() {
    let allowed = range(0.0, 2.0);
    assert_eq!(check_if_parameter_allowed(Value::Number(0.0f64.to_bits()), &allowed), Ok(()));
    assert_eq!(check_if_parameter_allowed(Value::Number(2.0f64.to_bits()), &allowed), Ok(()));
    assert_eq!(check_if_parameter_allowed(Value::Number((-0.0f64).to_bits()), &allowed), Ok(()));
    assert_eq!(check_if_parameter_allowed(Value::Number(2.5f64.to_bits()), &allowed), Err("Parameter not allowed"));
    assert_eq!(check_if_parameter_allowed(Value::Number((-1.0f64).to_bits()), &allowed), Err("Parameter not allowed"));
    assert_eq!(check_if_parameter_allowed(Value::Number(f64::NAN.to_bits()), &allowed), Err("Parameter not allowed"));
}

#[test]
fn wildcard_accepts_everything() {
    let allowed = vec![ANY];
    assert_eq!(check_if_parameter_allowed(Value::Number(1e300f64.to_bits()), &allowed), Ok(()));
    assert_eq!(check_if_parameter_allowed(Value::Bool(true), &allowed), Ok(()));
    assert_eq!(check_if_parameter_allowed(Value::Bool(false), &allowed), Ok(()));
}

#[test]
fn booleans_are_matched_exactly() {
    assert_eq!(check_if_parameter_allowed(Value::Bool(true), &vec![TRUE]), Ok(()));
    assert_eq!(check_if_parameter_allowed(Value::Bool(false), &vec![TRUE]), Err("Parameter not allowed"));
    assert_eq!(check_if_parameter_allowed(Value::Number(0), &vec![FALSE]), Err("Parameter not allowed"));
    assert_eq!(check_if_parameter_allowed(Value::Number(0), &vec![TRUE, ANY]), Ok(()));
    assert_eq!(check_if_parameter_allowed(Value::Number(0), &vec![FALSE, ANY]), Ok(()));
    assert_eq!(check_if_parameter_allowed(Value::Number(0), &vec![7]), Err("Invalid type: Expected float"));
}

#[test]
fn catalogue_built_from_restrictions() {
    let mut catalogue = ComponentCatalogue::new();
    let restrictions = vec![vec!["0-10"], vec!["ANY", "true"], vec!["3", "5 - 6"]];
    assert_eq!(add_component_to_component_catalogue(GIVE_VELOCITY, &restrictions, &read_double, &mut catalogue), Ok(()));
    let lists = catalogue.component_catalogue.get(&GIVE_VELOCITY).unwrap();
    assert_eq!(lists[0], range(0.0, 10.0));
    assert_eq!(lists[1], vec![ANY]);
    let mut third = range(3.0, 3.0);
    third.extend(range(5.0, 6.0));
    assert_eq!(lists[2], third);

    let allowed = parse_spell("when_created:\ngive_velocity(10, 99, 5.5)", &read_double, &read_single).unwrap();
    assert_eq!(check_allowed_to_cast(&allowed, &catalogue), (true, ""));
    let refused = parse_spell("when_created:\ngive_velocity(10, 99, 4)", &read_double, &read_single).unwrap();
    assert_eq!(check_allowed_to_cast(&refused, &catalogue), (false, "Parameter not allowed"));
    let nested = parse_spell("when_created:\ngive_velocity(get_time(), 0, 3)", &read_double, &read_single).unwrap();
    assert_eq!(check_allowed_to_cast(&nested, &catalogue), (true, ""));
}

#[test]
fn unreadable_range_is_an_error() {
    let mut catalogue = ComponentCatalogue::new();
    let restrictions = vec![vec!["1-x"]];
    assert_eq!(add_component_to_component_catalogue(GIVE_VELOCITY, &restrictions, &read_double, &mut catalogue), Err("Couldn't parse the range"));
    assert!(catalogue.component_catalogue.is_empty());
}

#[test]
fn about_sections_are_not_checked() {
    let words = parse_spell("about:\ncolor = [1, 0, 1]", &read_double, &read_single).unwrap();
    assert_eq!(check_allowed_to_cast(&words, &ComponentCatalogue::new()), (true, ""));
}

#[test]
fn range_bounds_are_not_boolean_entries() {
    let allowed = vec![NUMBER_LITERAL, 100, NUMBER_LITERAL, 200];
    assert_eq!(check_if_parameter_allowed(Value::Bool(true), &allowed), Err("Parameter not allowed"));
    let allowed = vec![NUMBER_LITERAL, 104, NUMBER_LITERAL, 200, FALSE];
    assert_eq!(check_if_parameter_allowed(Value::Bool(true), &allowed), Err("Parameter not allowed"));
    assert_eq!(check_if_parameter_allowed(Value::Bool(false), &allowed), Ok(()));
    let allowed = vec![NUMBER_LITERAL, 0, NUMBER_LITERAL, 200, ANY];
    assert_eq!(check_if_parameter_allowed(Value::Bool(true), &allowed), Ok(()));
}

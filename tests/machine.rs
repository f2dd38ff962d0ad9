use std::collections::HashMap;

use spellbook::catalogue::ComponentCatalogue;
use spellbook::codes::{
    ADD, AND, EQUALS, GREATER_THAN, LESSER_THAN, OR, XOR, DIVIDE, GET_TIME, GIVE_VELOCITY, MOVING, MULTIPLY, NUMBER_LITERAL, POWER, RECHARGE_TO,
    SUBTRACT, TRUE,
};
use spellbook::compiler::parse_spell;
use spellbook::program::{count_of_bits, internal_set_instructions, run_process_tick, run_ready, Process};
use spellbook::eval::Value;
use spellbook::vm::{binary_operation, compare_operation, maths_operation, RuntimeError, SpellHost, SpellState, EFFICIENCY_INCREASE_RATE};

fn read_double(t: &[char]) -> Option<u64> {
    t.iter().collect::<String>().parse::<f64>().ok().map(f64::to_bits)
}

fn read_single(t: &[char]) -> Option<u64> {
    t.iter().collect::<String>().parse::<f32>().ok().map(|x| (x as f64).to_bits())
}

fn f(bits: u64) -> f64 {
    f64::from_bits(bits)
}

/// A host whose components cost a fixed base energy and record that they ran.
struct TestHost {
    casts: Vec<u64>,
    time: f64,
}

impl SpellHost for TestHost {
    fn base_energy(&mut self, code: u64, _parameters: &Vec<u64>, _energy: u64) -> u64 {
        if code == GET_TIME { 0.1f64.to_bits() } else { 1.0f64.to_bits() }
    }

    fn cast(&mut self, code: u64, _parameters: &Vec<u64>, _energy: u64) -> Option<Vec<u64>> {
        self.casts.push(code);
        if code == GET_TIME {
            Some(vec![NUMBER_LITERAL, self.time.to_bits()])
        } else if code == MOVING {
            Some(vec![TRUE])
        } else {
            None
        }
    }

    fn component_cast(&mut self, _code: u64, _efficiency_increase: u64) {}

    fn arithmetic(&self, op: u64, a: u64, b: u64) -> u64 {
        let (a, b) = (f(a), f(b));
        let r = if op == MULTIPLY {
            a * b
        } else if op == DIVIDE {
            a / b
        } else if op == ADD {
            a + b
        } else if op == SUBTRACT {
            a - b
        } else if op == POWER {
            a.powf(b)
        } else {
            f64::NAN
        };
        r.to_bits()
    }

    fn energy_needed(&self, base_energy: u64, level: u64) -> u64 {
        let level = f(level);
        (f(base_energy) / (level / (level + EFFICIENCY_INCREASE_RATE as f64))).to_bits()
    }

    fn subtract(&self, a: u64, b: u64) -> u64 {
        (f(a) - f(b)).to_bits()
    }

    fn add(&self, a: u64, b: u64) -> u64 {
        (f(a) + f(b)).to_bits()
    }
}

fn state(energy: f64) -> SpellState {
    SpellState {
        energy: energy.to_bits(),
        component_efficiency_levels: HashMap::new(),
        component_catalogue: ComponentCatalogue::new(),
        check_component_return_value: false,
    }
}

fn host() -> TestHost {
    TestHost { casts: Vec::new(), time: 10.0 }
}

fn run(code: &str, energy: f64) -> (Result<(), RuntimeError>, SpellState, TestHost) {
    let words = parse_spell(code, &read_double, &read_single).unwrap();
    let program = internal_set_instructions(&words).unwrap();
    let mut s = state(energy);
    let mut h = host();
    let r = run_ready(&mut s, &mut h, &program).0;
    (r, s, h)
}

#[test]
fn false_condition_casts_nothing() {
    let (r, s, h) = run("when_created:\nif false {\ngive_velocity(1,0,0)\n}", 100.0);
    assert_eq!(r, Ok(()));
    assert!(h.casts.is_empty());
    assert_eq!(f(s.energy), 100.0);
}

#[test]
fn true_condition_runs_body() {
    let (r, _, h) = run("when_created:\nif true and not false {\ngive_velocity(1,0,0)\n}", 100.0);
    assert_eq!(r, Ok(()));
    assert_eq!(h.casts, vec![GIVE_VELOCITY]);
}

#[test]
fn skip_lands_after_nested_body() {
    let code = "when_created:\nif false {\nif true {\ngive_velocity(1,0,0)\n}\ngive_velocity(2, 0, 0)\n}\nrecharge_to(5)";
    let (r, _, h) = run(code, 100.0);
    assert_eq!(r, Ok(()));
    assert_eq!(h.casts, vec![RECHARGE_TO]);
}

#[test]
fn condition_with_component_and_comparison() {
    let (r, _, h) = run("when_created:\nif get_time() > 5 {\ngive_velocity(1,0,0)\n}", 100.0);
    assert_eq!(r, Ok(()));
    assert_eq!(h.casts, vec![GET_TIME, GIVE_VELOCITY]);
    let (r, _, h) = run("when_created:\nif get_time() * 2 < 5 {\ngive_velocity(1,0,0)\n}", 100.0);
    assert_eq!(r, Ok(()));
    assert_eq!(h.casts, vec![GET_TIME]);
}

#[test]
fn insufficient_energy_changes_nothing() {
    let (r, s, h) = run("when_created:\ngive_velocity(1,0,0)", 0.5);
    assert_eq!(r, Err(RuntimeError::InsufficientEnergy));
    assert_eq!(f(s.energy), 0.5);
    assert!(s.component_efficiency_levels.is_empty());
    assert!(h.casts.is_empty());
}

#[test]
fn first_cast_costs_base_over_efficiency() {
    // Level 1.0: efficiency 1 / 16, so a base energy of 1 costs 16.
    let (r, s, _) = run("when_created:\ngive_velocity(1,0,0)", 100.0);
    assert_eq!(r, Ok(()));
    assert_eq!(f(s.energy), 84.0);
    assert_eq!(f(*s.component_efficiency_levels.get(&GIVE_VELOCITY).unwrap()), 2.0);
}

#[test]
fn repeated_casts_get_cheaper() {
    let (r, s, _) = run("when_created:\ngive_velocity(1,0,0)\ngive_velocity(1,0,0)\ngive_velocity(1,0,0)", 100.0);
    assert_eq!(r, Ok(()));
    // 16, then 17 / 2, then 18 / 3.
    assert_eq!(f(s.energy), 100.0 - 16.0 - 8.5 - 6.0);
    let mut previous = f64::INFINITY;
    for level in 1..50 {
        let l = level as f64;
        let needed = 1.0 / (l / (l + 15.0));
        assert!(needed < previous && needed > 1.0);
        previous = needed;
    }
}

#[test]
fn nested_return_outside_allowed_range_is_denied() {
    let words = parse_spell("when_created:\ngive_velocity(get_time(), 0, 0)", &read_double, &read_single).unwrap();
    let program = internal_set_instructions(&words).unwrap();
    let mut s = state(100.0);
    s.check_component_return_value = true;
    let any = vec![104u64];
    let small = vec![NUMBER_LITERAL, 0.0f64.to_bits(), NUMBER_LITERAL, 5.0f64.to_bits()];
    s.component_catalogue.component_catalogue.insert(GIVE_VELOCITY, vec![small, any.clone(), any]);
    let mut h = host();
    let r = run_ready(&mut s, &mut h, &program).0;
    assert_eq!(r, Err(RuntimeError::PermissionDenied("Parameter not allowed")));
    // get_time ran and was paid for; give_velocity was not cast.
    assert_eq!(h.casts, vec![GET_TIME]);
    assert!(f(s.energy) < 100.0);
}

#[test]
fn process_runs_every_nth_tick() {
    let words = parse_spell("repeat every 2:\nrecharge_to(1)", &read_double, &read_single).unwrap();
    let program = internal_set_instructions(&words).unwrap();
    let mut processes = program.process_instructions;
    assert_eq!(processes[0].frequency, 2);
    let mut s = state(100.0);
    let mut h = host();
    assert_eq!(run_process_tick(&mut s, &mut h, &mut processes).0, Ok(()));
    assert!(h.casts.is_empty());
    assert_eq!(run_process_tick(&mut s, &mut h, &mut processes).0, Ok(()));
    assert_eq!(h.casts, vec![RECHARGE_TO]);
}

#[test]
fn process_counter_wraps() {
    let mut p = Process::new(3, vec![]);
    assert!(p.should_run());
    p.increment();
    p.increment();
    assert!(!p.should_run());
    p.increment();
    assert!(p.should_run());
}

#[test]
fn sections_are_split() {
    let words = parse_spell("about:\ncolor = [1, 0, 1]\nwhen_created:\nanchor()\nrepeat:\nundo_anchor()", &read_double, &read_single).unwrap();
    let program = internal_set_instructions(&words).unwrap();
    assert_eq!(program.color, Some((1.0f64.to_bits(), 0, 1.0f64.to_bits())));
    assert_eq!(program.ready_instructions.len(), 2);
    assert_eq!(program.process_instructions.len(), 1);
    assert_eq!(program.process_instructions[0].frequency, 1);
}

#[test]
fn float_bits_truncate_to_counts() {
    assert_eq!(count_of_bits(2.0f64.to_bits()), 2);
    assert_eq!(count_of_bits(7.9f64.to_bits()), 7);
    assert_eq!(count_of_bits(0.5f64.to_bits()), 0);
    assert_eq!(count_of_bits((-3.0f64).to_bits()), 0);
    assert_eq!(count_of_bits(f64::NAN.to_bits()), 0);
    assert_eq!(count_of_bits(1e30f64.to_bits()), u64::MAX);
    assert_eq!(count_of_bits(9007199254740993.0f64.to_bits()), 9007199254740992);
}

/// A host for blocks without component calls: it must never be asked to cast anything.
struct Untouched;

impl SpellHost for Untouched {
    fn base_energy(&mut self, _code: u64, _parameters: &Vec<u64>, _energy: u64) -> u64 {
        panic!("no component should run")
    }

    fn cast(&mut self, _code: u64, _parameters: &Vec<u64>, _energy: u64) -> Option<Vec<u64>> {
        panic!("no component should run")
    }

    fn component_cast(&mut self, _code: u64, _efficiency_increase: u64) {
        panic!("no component should run")
    }

    fn arithmetic(&self, op: u64, a: u64, b: u64) -> u64 {
        host().arithmetic(op, a, b)
    }

    fn energy_needed(&self, _base_energy: u64, _level: u64) -> u64 {
        panic!("no component should run")
    }

    fn subtract(&self, _a: u64, _b: u64) -> u64 {
        panic!("no component should run")
    }

    fn add(&self, _a: u64, _b: u64) -> u64 {
        panic!("no component should run")
    }
}

#[test]
fn block_without_calls_runs_through() {
    let code = "when_created:\nif 1 + 2 > 2 and not (3 < 1) {\nif false {\n}\nif 2 ^ 3 = 8 {\n}\n}";
    let words = parse_spell(code, &read_double, &read_single).unwrap();
    let program = internal_set_instructions(&words).unwrap();
    let mut s = state(1.0);
    assert_eq!(s.spell_virtual_machine(&mut Untouched, &program.ready_instructions).0, Ok(()));
    assert_eq!(f(s.energy), 1.0);
}

#[test]
fn skip_passes_nested_calls_without_running_them() {
    let code = "when_created:\nif false {\ngive_velocity(get_time(), 1, 2)\nif moving(1) {\nset_damage(3)\n}\n}";
    let (r, _, h) = run(code, 100.0);
    assert_eq!(r, Ok(()));
    assert!(h.casts.is_empty());
}

#[test]
fn stack_operations() {
    let mut stack = vec![Value::Bool(true), Value::Bool(false)];
    assert_eq!(binary_operation(&mut stack, AND), Ok(()));
    assert_eq!(stack, vec![Value::Bool(false)]);
    let mut stack = vec![Value::Bool(true), Value::Bool(false)];
    assert_eq!(binary_operation(&mut stack, OR), Ok(()));
    assert_eq!(stack, vec![Value::Bool(true)]);
    let mut stack = vec![Value::Bool(true), Value::Bool(true)];
    assert_eq!(binary_operation(&mut stack, XOR), Ok(()));
    assert_eq!(stack, vec![Value::Bool(false)]);
    let mut stack = vec![Value::Bool(true)];
    assert_eq!(binary_operation(&mut stack, AND), Err(RuntimeError::MalformedBytecode));

    let n = |x: f64| Value::Number(x.to_bits());
    let mut stack = vec![n(3.0), n(2.0)];
    assert_eq!(compare_operation(&mut stack, GREATER_THAN), Ok(()));
    assert_eq!(stack, vec![Value::Bool(true)]);
    let mut stack = vec![n(3.0), n(2.0)];
    assert_eq!(compare_operation(&mut stack, LESSER_THAN), Ok(()));
    assert_eq!(stack, vec![Value::Bool(false)]);
    let mut stack = vec![n(0.0), n(-0.0)];
    assert_eq!(compare_operation(&mut stack, EQUALS), Ok(()));
    assert_eq!(stack, vec![Value::Bool(true)]);
    let mut stack = vec![n(f64::NAN), n(f64::NAN)];
    assert_eq!(compare_operation(&mut stack, EQUALS), Ok(()));
    assert_eq!(stack, vec![Value::Bool(false)]);
    let mut stack = vec![Value::Bool(true), n(1.0)];
    assert_eq!(compare_operation(&mut stack, EQUALS), Err(RuntimeError::MalformedBytecode));

    let mut stack = vec![n(2.0), n(3.0)];
    assert_eq!(maths_operation(&mut stack, POWER, &host()), Ok(()));
    assert_eq!(stack, vec![n(8.0)]);
    let mut stack = vec![n(2.0), Value::Bool(true)];
    assert_eq!(maths_operation(&mut stack, ADD, &host()), Err(RuntimeError::MalformedBytecode));
}

#[test]
fn boolean_scenario_evaluates_true() {
    let (r, _, h) = run("when_created:\nif true and false or true {\nrecharge_to(1)\n}", 100.0);
    assert_eq!(r, Ok(()));
    assert_eq!(h.casts, vec![RECHARGE_TO]);
}

#[test]
fn scenario_false_condition_block_with_untouched_host() {
    let words = vec![
        spellbook::codes::IF, spellbook::codes::FALSE, 0, spellbook::codes::COMPONENT, GIVE_VELOCITY,
        NUMBER_LITERAL, 1.0f64.to_bits(), NUMBER_LITERAL, 0, NUMBER_LITERAL, 0, 0,
    ];
    let mut s = state(3.0);
    assert_eq!(s.spell_virtual_machine(&mut Untouched, &words).0, Ok(()));
    assert_eq!(f(s.energy), 3.0);
    assert!(s.component_efficiency_levels.is_empty());
}

#[test]
fn ticks_without_due_processes_run_nothing() {
    let words = parse_spell("repeat every 3:\nrecharge_to(1)", &read_double, &read_single).unwrap();
    let mut processes = internal_set_instructions(&words).unwrap().process_instructions;
    let mut s = state(10.0);
    assert_eq!(run_process_tick(&mut s, &mut Untouched, &mut processes).0, Ok(()));
    assert_eq!(run_process_tick(&mut s, &mut Untouched, &mut processes).0, Ok(()));
    assert_eq!(processes[0].counter, 2);
    assert_eq!(f(s.energy), 10.0);
}

//! The fixed set of components: their names, parameter types and what they hand back.

use vstd::prelude::*;
use crate::codes::{FLOAT, GIVE_VELOCITY, TAKE_FORM, UNDO_FORM, RECHARGE_TO, ANCHOR, UNDO_ANCHOR, PERISH, TAKE_SHAPE, UNDO_SHAPE, MOVING, GET_TIME, SET_DAMAGE};
use crate::text::spells;

verus! {

/// What a component hands back for use in an expression.
#[derive(Clone, Copy, PartialEq, Eq, Structural, Debug)]
pub enum ReturnType {
    Float,
    Boolean,
    Nothing,
}

/// The declared type of each parameter of a registered component, in order.
pub open spec fn parameter_types(code: u64) -> Option<Seq<u64>> {
    if code == GIVE_VELOCITY {
        Some(seq![FLOAT, FLOAT, FLOAT])
    } else if code == TAKE_FORM || code == RECHARGE_TO || code == MOVING || code == SET_DAMAGE {
        Some(seq![FLOAT])
    } else if code == UNDO_FORM || code == ANCHOR || code == UNDO_ANCHOR || code == PERISH
        || code == UNDO_SHAPE || code == GET_TIME {
        Some(Seq::empty())
    } else if code == TAKE_SHAPE {
        Some(seq![FLOAT, FLOAT, FLOAT, FLOAT])
    } else {
        None
    }
}

pub open spec fn registered(code: u64) -> bool {
    parameter_types(code) is Some
}

/// The number of parameters of a registered component.
pub open spec fn arity(code: u64) -> nat {
    match parameter_types(code) {
        Some(t) => t.len(),
        None => 0,
    }
}

/// What a registered component returns.
pub open spec fn return_type(code: u64) -> ReturnType {
    if code == MOVING {
        ReturnType::Boolean
    } else if code == GET_TIME {
        ReturnType::Float
    } else {
        ReturnType::Nothing
    }
}

/// The name under which a component is written in a script.
pub open spec fn component_named(name: Seq<char>) -> Option<u64> {
    if name == "give_velocity"@ {
        Some(GIVE_VELOCITY)
    } else if name == "take_form"@ {
        Some(TAKE_FORM)
    } else if name == "undo_form"@ {
        Some(UNDO_FORM)
    } else if name == "recharge_to"@ {
        Some(RECHARGE_TO)
    } else if name == "anchor"@ {
        Some(ANCHOR)
    } else if name == "undo_anchor"@ {
        Some(UNDO_ANCHOR)
    } else if name == "moving"@ {
        Some(MOVING)
    } else if name == "get_time"@ {
        Some(GET_TIME)
    } else if name == "set_damage"@ {
        Some(SET_DAMAGE)
    } else {
        None
    }
}

/// The declared parameter types of a component, `None` for an unknown code.
pub fn get_parameter_types(code: u64) -> (r: Option<Vec<u64>>)
    ensures
        match r {
            Some(v) => parameter_types(code) == Some(v@),
            None => parameter_types(code) is None,
        },
{
    if code == GIVE_VELOCITY {
        let r = vec![FLOAT, FLOAT, FLOAT];
        assert(r@ =~= seq![FLOAT, FLOAT, FLOAT]);
        Some(r)
    } else if code == TAKE_FORM || code == RECHARGE_TO || code == MOVING || code == SET_DAMAGE {
        let r = vec![FLOAT];
        assert(r@ =~= seq![FLOAT]);
        Some(r)
    } else if code == UNDO_FORM || code == ANCHOR || code == UNDO_ANCHOR || code == PERISH
        || code == UNDO_SHAPE || code == GET_TIME {
        let r: Vec<u64> = Vec::new();
        assert(r@ =~= Seq::<u64>::empty());
        Some(r)
    } else if code == TAKE_SHAPE {
        let r = vec![FLOAT, FLOAT, FLOAT, FLOAT];
        assert(r@ =~= seq![FLOAT, FLOAT, FLOAT, FLOAT]);
        Some(r)
    } else {
        None
    }
}

/// The number of parameters of a component, `None` for an unknown code.
pub fn get_number_of_component_parameters(code: u64) -> (r: Option<usize>)
    ensures
        match r {
            Some(n) => registered(code) && n == arity(code),
            None => !registered(code),
        },
{
    match get_parameter_types(code) {
        Some(v) => Some(v.len()),
        None => None,
    }
}

pub fn get_return_type(code: u64) -> (r: ReturnType)
    ensures
        r == return_type(code),
{
    if code == MOVING {
        ReturnType::Boolean
    } else if code == GET_TIME {
        ReturnType::Float
    } else {
        ReturnType::Nothing
    }
}

/// The code of the component named `name[lo..hi]`.
pub fn component_code(name: &Vec<char>, lo: usize, hi: usize) -> (r: Option<u64>)
    requires
        lo <= hi <= name@.len(),
    ensures
        r == component_named(name@.subrange(lo as int, hi as int)),
{
    if spells(name, lo, hi, "give_velocity") {
        Some(GIVE_VELOCITY)
    } else if spells(name, lo, hi, "take_form") {
        Some(TAKE_FORM)
    } else if spells(name, lo, hi, "undo_form") {
        Some(UNDO_FORM)
    } else if spells(name, lo, hi, "recharge_to") {
        Some(RECHARGE_TO)
    } else if spells(name, lo, hi, "anchor") {
        Some(ANCHOR)
    } else if spells(name, lo, hi, "undo_anchor") {
        Some(UNDO_ANCHOR)
    } else if spells(name, lo, hi, "moving") {
        Some(MOVING)
    } else if spells(name, lo, hi, "get_time") {
        Some(GET_TIME)
    } else if spells(name, lo, hi, "set_damage") {
        Some(SET_DAMAGE)
    } else {
        None
    }
}

/// The code of the component with this name, `None` where no component has it.
pub fn get_component_num(component_name: &str) -> (r: Option<u64>)
    ensures
        r == component_named(component_name@),
{
    let v = crate::text::to_chars(component_name);
    let r = component_code(&v, 0, v.len());
    assert(v@.subrange(0, v@.len() as int) =~= v@);
    r
}

/// Every component that can be named in a script is registered.
pub proof fn lemma_named_components_registered(name: Seq<char>)
    requires
        component_named(name) is Some,
    ensures
        registered(component_named(name)->0),
{
}

} // verus!

//! The words of the bytecode: opcodes, section and attribute codes, parameter types and
//! component codes.

use vstd::prelude::*;

verus! {

// Words of the bytecode.
pub const END_OF_SCOPE: u64 = 0;

pub const TRUE: u64 = 100;
pub const FALSE: u64 = 101;
pub const NUMBER_LITERAL: u64 = 102;
pub const COMPONENT: u64 = 103;
pub const ANY: u64 = 104;

pub const AND: u64 = 200;
pub const OR: u64 = 201;
pub const NOT: u64 = 202;
pub const XOR: u64 = 203;

pub const EQUALS: u64 = 300;
pub const GREATER_THAN: u64 = 301;
pub const LESSER_THAN: u64 = 302;

pub const IF: u64 = 400;

pub const READY_SECTION: u64 = 500;
pub const PROCESS_SECTION: u64 = 501;
pub const METADATA_SECTION: u64 = 502;

pub const MULTIPLY: u64 = 600;
pub const DIVIDE: u64 = 601;
pub const ADD: u64 = 602;
pub const SUBTRACT: u64 = 603;
pub const POWER: u64 = 604;

// Attribute codes of the about section.
pub const COLOR: u64 = 0;

// Declared parameter types.
pub const FLOAT: u64 = 1;
pub const BOOLEAN: u64 = 2;

// Component codes: utility.
pub const GIVE_VELOCITY: u64 = 0;
pub const TAKE_FORM: u64 = 1;
pub const UNDO_FORM: u64 = 2;
pub const RECHARGE_TO: u64 = 3;
pub const ANCHOR: u64 = 4;
pub const UNDO_ANCHOR: u64 = 5;
pub const PERISH: u64 = 6;
pub const TAKE_SHAPE: u64 = 7;
pub const UNDO_SHAPE: u64 = 8;

// Component codes: logic.
pub const MOVING: u64 = 1000;
pub const GET_TIME: u64 = 1001;

// Component codes: power.
pub const SET_DAMAGE: u64 = 2000;

/// The bit pattern of the 64-bit float 1.0.
pub const ONE_BITS: u64 = 0x3ff0000000000000;

} // verus!

//! Boolean logic on the boolean words of the bytecode.

use vstd::prelude::*;
use crate::codes::{TRUE, FALSE};

verus! {

/// Whether the word is one of the two boolean words.
pub open spec fn is_bool_word(x: u64) -> bool {
    x == TRUE || x == FALSE
}

/// The word of a boolean.
pub open spec fn word_of(b: bool) -> u64 {
    if b { TRUE } else { FALSE }
}

pub fn bool_to_num(boolean: bool) -> (r: u64)
    ensures
        r == word_of(boolean),
{
    if boolean { TRUE } else { FALSE }
}

pub fn num_to_bool(num: u64) -> (r: Result<bool, &'static str>)
    ensures
        is_bool_word(num) ==> r == Ok::<bool, &'static str>(num == TRUE),
        !is_bool_word(num) ==> r is Err,
{
    if num == TRUE {
        Ok(true)
    } else if num == FALSE {
        Ok(false)
    } else {
        Err("Invalid number: Cannot translate to boolean")
    }
}

pub fn and(a: u64, b: u64) -> (r: Result<u64, &'static str>)
    ensures
        is_bool_word(a) && is_bool_word(b) ==> r == Ok::<u64, &'static str>(word_of(a == TRUE && b == TRUE)),
        !(is_bool_word(a) && is_bool_word(b)) ==> r is Err,
{
    if is_bool(a) && is_bool(b) {
        Ok(bool_to_num(a == TRUE && b == TRUE))
    } else {
        Err("Boolean logic can only compare booleans")
    }
}

pub fn or(a: u64, b: u64) -> (r: Result<u64, &'static str>)
    ensures
        is_bool_word(a) && is_bool_word(b) ==> r == Ok::<u64, &'static str>(word_of(a == TRUE || b == TRUE)),
        !(is_bool_word(a) && is_bool_word(b)) ==> r is Err,
{
    if is_bool(a) && is_bool(b) {
        Ok(bool_to_num(a == TRUE || b == TRUE))
    } else {
        Err("Boolean logic can only compare booleans")
    }
}

pub fn xor(a: u64, b: u64) -> (r: Result<u64, &'static str>)
    ensures
        is_bool_word(a) && is_bool_word(b) ==> r == Ok::<u64, &'static str>(word_of(a != b)),
        !(is_bool_word(a) && is_bool_word(b)) ==> r is Err,
{
    if is_bool(a) && is_bool(b) {
        Ok(bool_to_num(a != b))
    } else {
        Err("Boolean logic can only compare booleans")
    }
}

pub fn not(a: u64) -> (r: Result<u64, &'static str>)
    ensures
        is_bool_word(a) ==> r == Ok::<u64, &'static str>(word_of(a == FALSE)),
        !is_bool_word(a) ==> r is Err,
{
    if is_bool(a) {
        Ok(bool_to_num(a == FALSE))
    } else {
        Err("Not can only be used on booleans")
    }
}

fn is_bool(x: u64) -> (r: bool)
    ensures
        r == is_bool_word(x),
{
    x == TRUE || x == FALSE
}

} // verus!

//! The machine: casting components under the energy economy, evaluating conditions,
//! skipping the bodies of false conditions, and running blocks.

use vstd::prelude::*;
use std::collections::HashMap;
use crate::catalogue::{ComponentCatalogue, check_if_parameter_allowed, allow_lists, parameter_check};
use crate::codes::{
    END_OF_SCOPE, TRUE, FALSE, NUMBER_LITERAL, COMPONENT, AND, OR, NOT, XOR, EQUALS, GREATER_THAN,
    LESSER_THAN, MULTIPLY, DIVIDE, ADD, SUBTRACT, POWER, IF, ONE_BITS,
};
use crate::eval::{
    Kind, Value, params_end, component_end, stack_after, returned_kind, is_condition,
    lemma_params_end_split, lemma_params_end_advances, lemma_params_end_prefix,
};
use crate::numbers::{float_le, float_lt, float_eq, at_most, less_than, equal};
use crate::registry::{ReturnType, registered, arity, get_number_of_component_parameters, get_return_type};
use crate::codes::{READY_SECTION, PROCESS_SECTION, METADATA_SECTION};
use crate::compiler::{Section, program_walk};

verus! {

broadcast use vstd::std_specs::hash::group_hash_axioms;

/// Why a run of bytecode stopped.
#[derive(Clone, Copy, PartialEq, Eq, Debug)]
pub enum RuntimeError {
    /// The spell's energy does not cover a cast; nothing of that cast was applied.
    InsufficientEnergy,
    /// A nested component handed back a value that the catalogue does not allow.
    PermissionDenied(&'static str),
    /// The words are not a compiled program (or a component handed back the wrong kind of
    /// value): a fault of the compiler or of the host, never of the script.
    MalformedBytecode,
}

/// `K` of the efficiency curve: a component cast at level `l` costs `base / (l / (l + K))`.
pub const EFFICIENCY_INCREASE_RATE: u64 = 15;

/// What the machine needs from the entity it runs for: the components themselves, and the
/// floating-point arithmetic on bit patterns of 64-bit floats.
pub trait SpellHost {
    /// Runs a component without effect, for a spell whose balance is `energy`, and gives the
    /// energy a cast of it takes.
    fn base_energy(&mut self, code: u64, parameters: &Vec<u64>, energy: u64) -> u64;

    /// Casts a component for a spell whose balance, once the cast is paid, is `energy`:
    /// applies its effect, and gives what it hands back.
    fn cast(&mut self, code: u64, parameters: &Vec<u64>, energy: u64) -> Option<Vec<u64>>;

    /// Told after each paid cast: the component, and how much its level rose.
    fn component_cast(&mut self, code: u64, efficiency_increase: u64);

    /// `a op b` for `MULTIPLY`, `DIVIDE`, `ADD`, `SUBTRACT` and `POWER`.
    fn arithmetic(&self, op: u64, a: u64, b: u64) -> u64;

    /// `base / (level / (level + EFFICIENCY_INCREASE_RATE))`.
    fn energy_needed(&self, base_energy: u64, level: u64) -> u64;

    /// `a - b`.
    fn subtract(&self, a: u64, b: u64) -> u64;

    /// `a + b`.
    fn add(&self, a: u64, b: u64) -> u64;
}

/// The part of a spell that the machine reads and changes.
pub struct SpellState {
    /// The energy balance (bits of a 64-bit float).
    pub energy: u64,
    /// The efficiency level of each component cast so far (bits of 64-bit floats).
    pub component_efficiency_levels: HashMap<u64, u64>,
    pub component_catalogue: ComponentCatalogue,
    /// Whether what nested components hand back is checked against the catalogue.
    pub check_component_return_value: bool,
}

/// The efficiency level of a component: 1.0 until it is first cast.
pub open spec fn level_of(s: SpellState, code: u64) -> u64 {
    if s.component_efficiency_levels@.contains_key(code) {
        s.component_efficiency_levels@[code]
    } else {
        ONE_BITS
    }
}

/// The words a component hands back, as a value of an expression.
pub open spec fn returned_value(words: Option<Seq<u64>>) -> Option<Option<Value>> {
    match words {
        None => Some(None),
        Some(w) => if w.len() == 0 {
            Some(None)
        } else if w.len() == 2 && w[0] == NUMBER_LITERAL {
            Some(Some(Value::Number(w[1])))
        } else if w == seq![TRUE] {
            Some(Some(Value::Bool(true)))
        } else if w == seq![FALSE] {
            Some(Some(Value::Bool(false)))
        } else {
            None
        },
    }
}

fn to_value(words: Option<Vec<u64>>) -> (r: Option<Option<Value>>)
    ensures
        r == returned_value(match words { Some(w) => Some(w@), None => None }),
{
    match words {
        None => Some(None),
        Some(w) => {
            if w.len() == 0 {
                Some(None)
            } else if w.len() == 2 && w[0] == NUMBER_LITERAL {
                Some(Some(Value::Number(w[1])))
            } else if w.len() == 1 && w[0] == TRUE {
                assert(w@ =~= seq![TRUE]);
                Some(Some(Value::Bool(true)))
            } else if w.len() == 1 && w[0] == FALSE {
                assert(w@ =~= seq![FALSE]);
                Some(Some(Value::Bool(false)))
            } else {
                assert(w@ != seq![TRUE] && w@ != seq![FALSE]);
                None
            }
        },
    }
}

/// The types of the values on a stack.
pub open spec fn kinds(s: Seq<Value>) -> Seq<Kind> {
    s.map_values(|v: Value| v.kind())
}

proof fn lemma_kinds_push(s: Seq<Value>, v: Value)
    ensures
        kinds(s.push(v)) == kinds(s).push(v.kind()),
{
    assert(kinds(s.push(v)) =~= kinds(s).push(v.kind()));
}

proof fn lemma_kinds_drop(s: Seq<Value>)
    requires
        s.len() > 0,
    ensures
        kinds(s.drop_last()) == kinds(s).drop_last(),
        kinds(s).len() == s.len(),
        kinds(s)[s.len() - 1] == s.last().kind(),
{
    assert(kinds(s.drop_last()) =~= kinds(s).drop_last());
}

/// Where skipping ends that starts at `pos` and must still pass `k` end-of-scope words: a
/// number literal is two words, a component call its code and its parameters, and an `if`
/// adds the two end-of-scope words that close its condition and its body.
pub open spec fn skip_from(w: Seq<u64>, pos: int, k: nat) -> Option<int>
    decreases w.len() - pos,
{
    if k == 0 {
        Some(pos)
    } else if pos < 0 || pos >= w.len() {
        None
    } else if w[pos] == END_OF_SCOPE {
        skip_from(w, pos + 1, (k - 1) as nat)
    } else if w[pos] == NUMBER_LITERAL {
        if pos + 1 < w.len() {
            skip_from(w, pos + 2, k)
        } else {
            None
        }
    } else if w[pos] == COMPONENT {
        match params_end(w, pos, 1, false) {
            Some(e) => if pos < e <= w.len() {
                skip_from(w, e, k)
            } else {
                None
            },
            None => None,
        }
    } else if w[pos] == IF {
        skip_from(w, pos + 1, k + 2)
    } else {
        skip_from(w, pos + 1, k)
    }
}

/// Where the block of statements that starts at `pos` ends: the position of the
/// end-of-scope word that closes it. A statement is a component call, or `IF`, a condition
/// and its end-of-scope word, then a block and its end-of-scope word.
pub open spec fn block_end(w: Seq<u64>, pos: int, fuel: nat) -> Option<int>
    decreases fuel,
{
    if fuel == 0 || pos < 0 || pos >= w.len() {
        None
    } else if w[pos] == END_OF_SCOPE {
        Some(pos)
    } else if w[pos] == COMPONENT {
        match params_end(w, pos, 1, false) {
            Some(e) => if pos < e {
                block_end(w, e, (fuel - 1) as nat)
            } else {
                None
            },
            None => None,
        }
    } else if w[pos] == IF {
        match stack_after(w, pos + 1, Seq::empty()) {
            Some((st, c)) => if st == seq![Kind::Boolean] && pos < c < w.len() && w[c] == END_OF_SCOPE {
                match block_end(w, c + 1, (fuel - 1) as nat) {
                    Some(b) => block_end(w, b + 1, (fuel - 1) as nat),
                    None => None,
                }
            } else {
                None
            },
            None => None,
        }
    } else {
        None
    }
}

proof fn lemma_params_end_unvalued(w: Seq<u64>, pos: int, need: nat)
    requires
        params_end(w, pos, need, true) is Some,
    ensures
        params_end(w, pos, need, false) == params_end(w, pos, need, true),
    decreases w.len() - pos,
{
    if need > 0 {
        if w[pos] == TRUE || w[pos] == FALSE {
            lemma_params_end_unvalued(w, pos + 1, (need - 1) as nat);
        } else if w[pos] == NUMBER_LITERAL {
            lemma_params_end_unvalued(w, pos + 2, (need - 1) as nat);
        } else {
            lemma_params_end_unvalued(w, pos + 2, (need - 1 + arity(w[pos + 1])) as nat);
        }
    }
}

/// Skipping passes over the words of a condition without counting any of them.
proof fn lemma_skip_condition(w: Seq<u64>, pos: int, st: Seq<Kind>, k: nat)
    requires
        k > 0,
        stack_after(w, pos, st) is Some,
        (stack_after(w, pos, st)->0).1 < w.len(),
    ensures
        skip_from(w, pos, k) == skip_from(w, (stack_after(w, pos, st)->0).1, k),
    decreases w.len() - pos,
{
    if pos < w.len() && w[pos] != END_OF_SCOPE {
        let n = st.len();
        if w[pos] == TRUE || w[pos] == FALSE {
            lemma_skip_condition(w, pos + 1, st.push(Kind::Boolean), k);
        } else if w[pos] == NUMBER_LITERAL {
            lemma_skip_condition(w, pos + 2, st.push(Kind::Number), k);
        } else if w[pos] == COMPONENT {
            let e = component_end(w, pos, true)->0;
            lemma_params_end_unvalued(w, pos + 2, arity(w[pos + 1]));
            assert(params_end(w, pos, 1, false) == params_end(w, pos + 2, (1 - 1 + arity(w[pos + 1])) as nat, false));
            assert((1 - 1 + arity(w[pos + 1])) as nat == arity(w[pos + 1]));
            lemma_skip_condition(w, e, st.push(returned_kind(w[pos + 1])->0), k);
        } else if w[pos] == NOT {
            lemma_skip_condition(w, pos + 1, st, k);
        } else if crate::eval::is_boolean_operator(w[pos]) || crate::eval::is_arithmetic(w[pos]) {
            lemma_skip_condition(w, pos + 1, st.drop_last(), k);
        } else {
            lemma_skip_condition(w, pos + 1, st.drop_last().drop_last().push(Kind::Boolean), k);
        }
    }
}

/// Skipping a well-formed block passes exactly its end-of-scope word.
proof fn lemma_skip_block(w: Seq<u64>, pos: int, fuel: nat, k: nat)
    requires
        k > 0,
        block_end(w, pos, fuel) is Some,
    ensures
        skip_from(w, pos, k) == skip_from(w, block_end(w, pos, fuel)->0 + 1, (k - 1) as nat),
    decreases fuel,
{
    if w[pos] == END_OF_SCOPE {
    } else if w[pos] == COMPONENT {
        let e = params_end(w, pos, 1, false)->0;
        lemma_params_end_advances(w, pos, 1, false);
        lemma_skip_block(w, e, (fuel - 1) as nat, k);
    } else {
        let c = (stack_after(w, pos + 1, Seq::empty())->0).1;
        let b1 = block_end(w, c + 1, (fuel - 1) as nat)->0;
        lemma_skip_condition(w, pos + 1, Seq::empty(), k + 2);
        assert(skip_from(w, c, k + 2) == skip_from(w, c + 1, k + 1));
        lemma_skip_block(w, c + 1, (fuel - 1) as nat, k + 1);
        lemma_skip_block(w, b1 + 1, (fuel - 1) as nat, k);
    }
}

/// Skipping the body of an `if` whose condition is false, from the word after the
/// condition's end-of-scope word, lands exactly on the word after the body's own
/// end-of-scope word, however deeply `if`s nest inside it.
pub proof fn lemma_skip_lands_after_body(w: Seq<u64>, pos: int, fuel: nat)
    requires
        block_end(w, pos, fuel) is Some,
    ensures
        skip_from(w, pos, 1) == Some(block_end(w, pos, fuel)->0 + 1),
{
    lemma_skip_block(w, pos, fuel, 1);
}

/// Where a stack of `k` scopes to skip can end at all, there are at least `k` words left.
proof fn lemma_skip_needs_words(w: Seq<u64>, pos: int, k: nat)
    requires
        skip_from(w, pos, k) is Some,
    ensures
        k > 0 ==> k <= w.len() - pos,
    decreases w.len() - pos,
{
    if k > 0 {
        assert(0 <= pos < w.len());
        if w[pos] == END_OF_SCOPE {
            lemma_skip_needs_words(w, pos + 1, (k - 1) as nat);
        } else if w[pos] == NUMBER_LITERAL {
            lemma_skip_needs_words(w, pos + 2, k);
        } else if w[pos] == COMPONENT {
            let e = params_end(w, pos, 1, false)->0;
            assert(pos < e <= w.len());
            lemma_skip_needs_words(w, e, k);
        } else if w[pos] == IF {
            lemma_skip_needs_words(w, pos + 1, k + 2);
        } else {
            lemma_skip_needs_words(w, pos + 1, k);
        }
    }
}

/// Skips the body of an `if` whose condition was false, from the word after the
/// condition's end-of-scope word; gives the word after the body.
pub fn skip_body(w: &Vec<u64>, pos: usize) -> (r: Option<usize>)
    requires
        pos <= w@.len(),
    ensures
        match r {
            Some(e) => skip_from(w@, pos as int, 1) == Some(e as int) && pos < e <= w@.len(),
            None => skip_from(w@, pos as int, 1) is None,
        },
{
    let mut p = pos;
    let mut k: usize = 1;
    while k > 0
        invariant
            pos <= p <= w@.len(),
            p == pos ==> k == 1,
            skip_from(w@, pos as int, 1) == skip_from(w@, p as int, k as nat),
        decreases w@.len() - p,
    {
        if p >= w.len() {
            return None;
        }
        let x = w[p];
        if x == END_OF_SCOPE {
            k -= 1;
            p += 1;
        } else if x == NUMBER_LITERAL {
            if p + 1 >= w.len() {
                return None;
            }
            p += 2;
        } else if x == COMPONENT {
            match crate::catalogue::skip_call(w, p) {
                Some(e) => p = e,
                None => return None,
            }
        } else if x == IF {
            if w.len() - p < 3 || k > w.len() - p - 3 {
                proof {
                    if skip_from(w@, p as int, k as nat) is Some {
                        lemma_skip_needs_words(w@, p + 1, (k + 2) as nat);
                    }
                }
                return None;
            }
            k += 2;
            p += 1;
        } else {
            p += 1;
        }
    }
    Some(p)
}

/// No word of `w[lo..hi]` is a `COMPONENT` word: the host decides nothing there.
pub open spec fn calls_nothing(w: Seq<u64>, lo: int, hi: int) -> bool {
    forall|j: int| lo <= j < hi ==> #[trigger] w[j] != COMPONENT
}

/// No word of `w` starts a section.
pub open spec fn within_one_section(w: Seq<u64>) -> bool {
    forall|j: int| 0 <= j < w.len() ==> #[trigger] w[j] != READY_SECTION && w[j] != PROCESS_SECTION && w[j] != METADATA_SECTION
}

proof fn lemma_stack_after_stops_ahead(w: Seq<u64>, pos: int, st: Seq<Kind>)
    requires
        stack_after(w, pos, st) is Some,
    ensures
        pos <= (stack_after(w, pos, st)->0).1,
        (stack_after(w, pos, st)->0).1 == w.len() || w[(stack_after(w, pos, st)->0).1] == END_OF_SCOPE,
    decreases w.len() - pos,
{
    if pos < w.len() && w[pos] != END_OF_SCOPE {
        let n = st.len();
        if w[pos] == TRUE || w[pos] == FALSE {
            lemma_stack_after_stops_ahead(w, pos + 1, st.push(Kind::Boolean));
        } else if w[pos] == NUMBER_LITERAL {
            lemma_stack_after_stops_ahead(w, pos + 2, st.push(Kind::Number));
        } else if w[pos] == COMPONENT {
            lemma_stack_after_stops_ahead(w, component_end(w, pos, true)->0, st.push(returned_kind(w[pos + 1])->0));
        } else if w[pos] == NOT {
            lemma_stack_after_stops_ahead(w, pos + 1, st);
        } else if crate::eval::is_boolean_operator(w[pos]) || crate::eval::is_arithmetic(w[pos]) {
            lemma_stack_after_stops_ahead(w, pos + 1, st.drop_last());
        } else {
            lemma_stack_after_stops_ahead(w, pos + 1, st.drop_last().drop_last().push(Kind::Boolean));
        }
    }
}

/// In a block that walks through with every `if` closed, skipping `k` scopes from `p`
/// lands where the walk has `k` fewer blocks open.
proof fn lemma_walk_skip(w: Seq<u64>, p: int, o: nat, k: nat)
    requires
        k > 0,
        0 <= p <= w.len(),
        program_walk(w, p, o + k, Section::Code) == Some((0nat, Section::Code)),
        within_one_section(w),
    ensures
        skip_from(w, p, k) is Some,
        program_walk(w, skip_from(w, p, k)->0, o, Section::Code) == Some((0nat, Section::Code)),
    decreases w.len() - p,
{
    if p < w.len() {
        assert(w[p] != READY_SECTION && w[p] != PROCESS_SECTION && w[p] != METADATA_SECTION);
        if w[p] == COMPONENT {
            let e = component_end(w, p, true)->0;
            lemma_params_end_unvalued(w, p + 2, arity(w[p + 1]));
            assert(params_end(w, p, 1, false) == params_end(w, p + 2, (1 - 1 + arity(w[p + 1])) as nat, false));
            assert((1 - 1 + arity(w[p + 1])) as nat == arity(w[p + 1]));
            lemma_walk_skip(w, e, o, k);
        } else if w[p] == IF {
            let c = (stack_after(w, p + 1, Seq::empty())->0).1;
            lemma_skip_condition(w, p + 1, Seq::empty(), k + 2);
            assert(skip_from(w, c, k + 2) == skip_from(w, c + 1, k + 1));
            assert((o + k + 1) as nat == o + (k + 1) as nat);
            lemma_walk_skip(w, c + 1, o, k + 1);
        } else {
            assert(w[p] == END_OF_SCOPE);
            if k == 1 {
                assert(skip_from(w, p + 1, 0) == Some(p + 1));
                assert((o + k - 1) as nat == o);
            } else {
                assert((o + k - 1) as nat == o + (k - 1) as nat);
                lemma_walk_skip(w, p + 1, o, (k - 1) as nat);
            }
        }
    }
}

/// `a op b` for the boolean operators.
pub open spec fn logic_of(op: u64, a: bool, b: bool) -> bool {
    if op == AND {
        a && b
    } else if op == OR {
        a || b
    } else {
        a != b
    }
}

/// Whether `a op b` holds for a comparison: equality of two booleans or two numbers, or the
/// order of two numbers.
pub open spec fn compare_of(op: u64, a: Value, b: Value) -> bool {
    match (a, b) {
        (Value::Bool(x), Value::Bool(y)) => x == y,
        (Value::Number(x), Value::Number(y)) => if op == EQUALS {
            float_eq(x, y)
        } else if op == GREATER_THAN {
            float_lt(y, x)
        } else {
            float_lt(x, y)
        },
        _ => false,
    }
}

/// Whether a comparison applies to the two values.
pub open spec fn comparable(op: u64, a: Value, b: Value) -> bool {
    if op == EQUALS {
        a.kind() == b.kind()
    } else {
        a is Number && b is Number
    }
}

/// Pops two booleans and pushes `and`, `or` or `xor` of them.
pub fn binary_operation(rpn_stack: &mut Vec<Value>, op: u64) -> (r: Result<(), RuntimeError>)
    requires
        op == AND || op == OR || op == XOR,
    ensures
        ({
            let s = old(rpn_stack)@;
            let n = s.len();
            if n >= 2 && s[n - 1] is Bool && s[n - 2] is Bool {
                r is Ok && final(rpn_stack)@ == s.drop_last().drop_last().push(
                    Value::Bool(logic_of(op, s[n - 2]->Bool_0, s[n - 1]->Bool_0)))
            } else {
                r == Err::<(), RuntimeError>(RuntimeError::MalformedBytecode)
            }
        }),
{
    let n = rpn_stack.len();
    if n < 2 {
        return Err(RuntimeError::MalformedBytecode);
    }
    match (rpn_stack[n - 2], rpn_stack[n - 1]) {
        (Value::Bool(a), Value::Bool(b)) => {
            rpn_stack.pop();
            rpn_stack.pop();
            let v = if op == AND { a && b } else if op == OR { a || b } else { a != b };
            rpn_stack.push(Value::Bool(v));
            Ok(())
        },
        _ => Err(RuntimeError::MalformedBytecode),
    }
}

/// Pops two values and pushes whether they compare: `=` on two booleans or two numbers,
/// `>` and `<` on two numbers (as 64-bit floats, so that nothing compares with NaN).
pub fn compare_operation(rpn_stack: &mut Vec<Value>, op: u64) -> (r: Result<(), RuntimeError>)
    requires
        op == EQUALS || op == GREATER_THAN || op == LESSER_THAN,
    ensures
        ({
            let s = old(rpn_stack)@;
            let n = s.len();
            if n >= 2 && comparable(op, s[n - 2], s[n - 1]) {
                r is Ok && final(rpn_stack)@ == s.drop_last().drop_last().push(
                    Value::Bool(compare_of(op, s[n - 2], s[n - 1])))
            } else {
                r == Err::<(), RuntimeError>(RuntimeError::MalformedBytecode)
            }
        }),
{
    let n = rpn_stack.len();
    if n < 2 {
        return Err(RuntimeError::MalformedBytecode);
    }
    let v = match (rpn_stack[n - 2], rpn_stack[n - 1]) {
        (Value::Bool(a), Value::Bool(b)) => if op == EQUALS {
            a == b
        } else {
            return Err(RuntimeError::MalformedBytecode);
        },
        (Value::Number(a), Value::Number(b)) => if op == EQUALS {
            equal(a, b)
        } else if op == GREATER_THAN {
            less_than(b, a)
        } else {
            less_than(a, b)
        },
        _ => return Err(RuntimeError::MalformedBytecode),
    };
    rpn_stack.pop();
    rpn_stack.pop();
    rpn_stack.push(Value::Bool(v));
    Ok(())
}

/// Pops two numbers and pushes what the host's arithmetic makes of them.
pub fn maths_operation<H: SpellHost>(rpn_stack: &mut Vec<Value>, op: u64, host: &H) -> (r: Result<(), RuntimeError>)
    ensures
        ({
            let s = old(rpn_stack)@;
            let n = s.len();
            if n >= 2 && s[n - 1] is Number && s[n - 2] is Number {
                &&& r is Ok
                &&& final(rpn_stack)@.len() == n - 1
                &&& final(rpn_stack)@.drop_last() == s.drop_last().drop_last()
                &&& final(rpn_stack)@.last() is Number
            } else {
                r == Err::<(), RuntimeError>(RuntimeError::MalformedBytecode)
            }
        }),
{
    let n = rpn_stack.len();
    if n < 2 {
        return Err(RuntimeError::MalformedBytecode);
    }
    match (rpn_stack[n - 2], rpn_stack[n - 1]) {
        (Value::Number(a), Value::Number(b)) => {
            rpn_stack.pop();
            rpn_stack.pop();
            let ghost rest = rpn_stack@;
            rpn_stack.push(Value::Number(host.arithmetic(op, a, b)));
            assert(rpn_stack@.drop_last() =~= rest);
            Ok(())
        },
        _ => Err(RuntimeError::MalformedBytecode),
    }
}

/// Runs a condition that calls no component and does no arithmetic on values, from the
/// stack `st`, until its end-of-scope word or the end of the words: the values left and
/// where it stopped; `None` where it is not such a condition or is ill-typed.
pub open spec fn value_after(w: Seq<u64>, pos: int, st: Seq<Value>) -> Option<(Seq<Value>, int)>
    decreases w.len() - pos,
{
    if pos < 0 || pos > w.len() {
        None
    } else if pos == w.len() || w[pos] == END_OF_SCOPE {
        Some((st, pos))
    } else if w[pos] == TRUE || w[pos] == FALSE {
        value_after(w, pos + 1, st.push(Value::Bool(w[pos] == TRUE)))
    } else if w[pos] == NUMBER_LITERAL {
        if pos + 1 < w.len() {
            value_after(w, pos + 2, st.push(Value::Number(w[pos + 1])))
        } else {
            None
        }
    } else {
        let n = st.len();
        if w[pos] == NOT {
            if n >= 1 && st[n - 1] is Bool {
                value_after(w, pos + 1, st.drop_last().push(Value::Bool(!st[n - 1]->Bool_0)))
            } else {
                None
            }
        } else if n < 2 {
            None
        } else if w[pos] == AND || w[pos] == OR || w[pos] == XOR {
            if st[n - 1] is Bool && st[n - 2] is Bool {
                value_after(w, pos + 1, st.drop_last().drop_last().push(
                    Value::Bool(logic_of(w[pos], st[n - 2]->Bool_0, st[n - 1]->Bool_0))))
            } else {
                None
            }
        } else if w[pos] == EQUALS || w[pos] == GREATER_THAN || w[pos] == LESSER_THAN {
            if comparable(w[pos], st[n - 2], st[n - 1]) {
                value_after(w, pos + 1, st.drop_last().drop_last().push(
                    Value::Bool(compare_of(w[pos], st[n - 2], st[n - 1]))))
            } else {
                None
            }
        } else {
            None
        }
    }
}

/// The truth value of the condition that starts at `pos`, and the position of its
/// end-of-scope word, where it calls no component and does no arithmetic.
pub open spec fn quiet_value(w: Seq<u64>, pos: int) -> Option<(bool, int)> {
    match value_after(w, pos, Seq::empty()) {
        Some((s, c)) => if s.len() == 1 && s[0] is Bool && c < w.len() {
            Some((s[0]->Bool_0, c))
        } else {
            None
        },
        None => None,
    }
}

proof fn lemma_value_after_stops_ahead(w: Seq<u64>, pos: int, st: Seq<Value>)
    requires
        value_after(w, pos, st) is Some,
    ensures
        pos <= (value_after(w, pos, st)->0).1,
        (value_after(w, pos, st)->0).1 == w.len() || w[(value_after(w, pos, st)->0).1] == END_OF_SCOPE,
    decreases w.len() - pos,
{
    if pos < w.len() && w[pos] != END_OF_SCOPE {
        let n = st.len();
        if w[pos] == TRUE || w[pos] == FALSE {
            lemma_value_after_stops_ahead(w, pos + 1, st.push(Value::Bool(w[pos] == TRUE)));
        } else if w[pos] == NUMBER_LITERAL {
            lemma_value_after_stops_ahead(w, pos + 2, st.push(Value::Number(w[pos + 1])));
        } else if w[pos] == NOT {
            lemma_value_after_stops_ahead(w, pos + 1, st.drop_last().push(Value::Bool(!st[n - 1]->Bool_0)));
        } else if w[pos] == AND || w[pos] == OR || w[pos] == XOR {
            lemma_value_after_stops_ahead(w, pos + 1, st.drop_last().drop_last().push(
                Value::Bool(logic_of(w[pos], st[n - 2]->Bool_0, st[n - 1]->Bool_0))));
        } else {
            lemma_value_after_stops_ahead(w, pos + 1, st.drop_last().drop_last().push(
                Value::Bool(compare_of(w[pos], st[n - 2], st[n - 1]))));
        }
    }
}

/// A run through a block in which the host decides nothing: every `if` met has a condition
/// that calls no component and does no arithmetic; where it holds the run goes on into its
/// body, where it does not the body is skipped; and no component call is met.
pub open spec fn quiet_run(w: Seq<u64>, p: int) -> bool
    decreases w.len() - p,
{
    if p < 0 || p > w.len() {
        false
    } else if p == w.len() {
        true
    } else if w[p] == END_OF_SCOPE {
        quiet_run(w, p + 1)
    } else if w[p] == IF {
        match quiet_value(w, p + 1) {
            Some((b, c)) => if c <= p {
                false
            } else if b {
                quiet_run(w, c + 1)
            } else {
                match skip_from(w, c + 1, 1) {
                    Some(q) => if p < q <= w.len() {
                        quiet_run(w, q)
                    } else {
                        false
                    },
                    None => false,
                }
            },
            None => false,
        }
    } else {
        false
    }
}

/// The words handed to a component whose `n` parameters from `p` on are all literals (a
/// boolean's word, a number's bits), and where they end; `None` where one is not a literal.
pub open spec fn literal_params(w: Seq<u64>, p: int, n: nat) -> Option<(Seq<u64>, int)>
    decreases n,
{
    if n == 0 {
        Some((Seq::empty(), p))
    } else if p < 0 || p >= w.len() {
        None
    } else if w[p] == TRUE || w[p] == FALSE {
        match literal_params(w, p + 1, (n - 1) as nat) {
            Some((r, e)) => Some((seq![w[p]] + r, e)),
            None => None,
        }
    } else if w[p] == NUMBER_LITERAL && p + 1 < w.len() {
        match literal_params(w, p + 2, (n - 1) as nat) {
            Some((r, e)) => Some((seq![w[p + 1]] + r, e)),
            None => None,
        }
    } else {
        None
    }
}

/// A call whose code word stands at `pos`, with literal parameters only.
pub open spec fn plain_call(w: Seq<u64>, pos: int) -> bool {
    0 <= pos < w.len() && registered(w[pos]) && literal_params(w, pos + 1, arity(w[pos])) is Some
}

/// A block whose calls take literal parameters only and whose conditions call nothing and do
/// no arithmetic: the host decides only whether each cast is paid for.
pub open spec fn plain_run(w: Seq<u64>, p: int) -> bool
    decreases w.len() - p,
{
    if p < 0 || p > w.len() {
        false
    } else if p == w.len() {
        true
    } else if w[p] == END_OF_SCOPE {
        plain_run(w, p + 1)
    } else if w[p] == COMPONENT {
        if plain_call(w, p + 1) {
            let e = (literal_params(w, p + 2, arity(w[p + 1]))->0).1;
            if p < e <= w.len() {
                plain_run(w, e)
            } else {
                false
            }
        } else {
            false
        }
    } else if w[p] == IF {
        match quiet_value(w, p + 1) {
            Some((b, c)) => if c <= p {
                false
            } else if b {
                plain_run(w, c + 1)
            } else {
                match skip_from(w, c + 1, 1) {
                    Some(q) => if p < q <= w.len() {
                        plain_run(w, q)
                    } else {
                        false
                    },
                    None => false,
                }
            },
            None => false,
        }
    } else {
        false
    }
}

/// The casts that such a block hands to the host, in order, where each is paid for: every
/// call met on the way, bodies of false conditions left out.
pub open spec fn planned_casts(w: Seq<u64>, p: int) -> Seq<Cast>
    decreases w.len() - p,
{
    if p < 0 || p >= w.len() {
        Seq::empty()
    } else if w[p] == END_OF_SCOPE {
        planned_casts(w, p + 1)
    } else if w[p] == COMPONENT {
        if plain_call(w, p + 1) {
            let (words, e) = literal_params(w, p + 2, arity(w[p + 1]))->0;
            if p < e <= w.len() {
                seq![(w[p + 1], words)] + planned_casts(w, e)
            } else {
                Seq::empty()
            }
        } else {
            Seq::empty()
        }
    } else if w[p] == IF {
        match quiet_value(w, p + 1) {
            Some((b, c)) => if c <= p {
                Seq::empty()
            } else if b {
                planned_casts(w, c + 1)
            } else {
                match skip_from(w, c + 1, 1) {
                    Some(q) => if p < q <= w.len() {
                        planned_casts(w, q)
                    } else {
                        Seq::empty()
                    },
                    None => Seq::empty(),
                }
            },
            None => Seq::empty(),
        }
    } else {
        Seq::empty()
    }
}

proof fn lemma_prefix(a: Seq<Cast>, b: Seq<Cast>, c: Seq<Cast>)
    requires
        a + b == c,
    ensures
        a.len() <= c.len(),
        a == c.subrange(0, a.len() as int),
{
    assert(a =~= c.subrange(0, a.len() as int)) by {
        assert forall|i: int| 0 <= i < a.len() implies a[i] == c.subrange(0, a.len() as int)[i] by {
            assert(c[i] == (a + b)[i]);
        }
    }
}

/// What checking a nested call's value, parameter `index` of component `code`, gives:
/// nothing to check where checking is off; else `PermissionDenied` exactly where the
/// catalogue lacks the component or the allow-list of that position refuses the value.
pub open spec fn nested_return_check(s: SpellState, code: u64, index: int, value: Value) -> Result<(), RuntimeError> {
    if !s.check_component_return_value {
        Ok(())
    } else {
        match allow_lists(s.component_catalogue, code) {
            None => Err(RuntimeError::PermissionDenied("Component isn't in component catalogue")),
            Some(lists) => if index >= lists.len() {
                Err(RuntimeError::PermissionDenied("Parameter not allowed"))
            } else {
                match parameter_check(value, lists[index]@) {
                    Ok(()) => Ok(()),
                    Err(reason) => Err(RuntimeError::PermissionDenied(reason)),
                }
            },
        }
    }
}

/// What one cast was charged: the component's level before it, and what the host computed
/// from it (bits of 64-bit floats).
#[derive(Clone, Copy)]
pub struct Charge {
    pub level: u64,
    pub base: u64,
    pub needed: u64,
    pub remaining: u64,
    pub raised: u64,
}

/// A cast handed to the host: the component and its parameter words.
pub type Cast = (u64, Seq<u64>);

impl SpellState {
    pub fn efficiency_level(&self, code: u64) -> (r: u64)
        ensures
            r == level_of(*self, code),
    {
        match self.component_efficiency_levels.get(&code) {
            Some(l) => *l,
            None => ONE_BITS,
        }
    }

    /// Pays for a cast that needs `needed` energy: where the balance covers it, the balance
    /// becomes `remaining` and the component's level `raised`; where it does not, nothing
    /// changes.
    pub fn settle(&mut self, code: u64, needed: u64, remaining: u64, raised: u64) -> (r: Result<(), RuntimeError>)
        ensures
            !float_le(needed, old(self).energy) ==> r == Err::<(), RuntimeError>(RuntimeError::InsufficientEnergy) && *final(self) == *old(self),
            float_le(needed, old(self).energy) ==> r is Ok,
            float_le(needed, old(self).energy) ==> final(self).energy == remaining
                && final(self).component_efficiency_levels@ == old(self).component_efficiency_levels@.insert(code, raised)
                && final(self).component_catalogue == old(self).component_catalogue
                && final(self).check_component_return_value == old(self).check_component_return_value,
    {
        if !at_most(needed, self.energy) {
            return Err(RuntimeError::InsufficientEnergy);
        }
        self.energy = remaining;
        self.component_efficiency_levels.insert(code, raised);
        Ok(())
    }

    /// Casts a component with its parameters: a dry run gives its base energy; the cast
    /// needs `base / efficiency` of the balance, where `efficiency = level / (level + K)`;
    /// where that is paid, the level rises by the base energy, the host is told, and the
    /// component runs for real. Beside the result it gives, as ghost values, the level it
    /// started from and what the host computed: the base energy, the energy needed, the
    /// balance left and the raised level.
    pub fn call_component<H: SpellHost>(&mut self, host: &mut H, code: u64, parameters: &Vec<u64>) -> (r: (Result<Option<Vec<u64>>, RuntimeError>, Ghost<Charge>))
        ensures
            r.1@.level == level_of(*old(self), code),
            r.0 is Err ==> r.0 == Err::<Option<Vec<u64>>, RuntimeError>(RuntimeError::InsufficientEnergy)
                && !float_le(r.1@.needed, old(self).energy) && *final(self) == *old(self),
            r.0 is Ok ==> float_le(r.1@.needed, old(self).energy)
                && final(self).energy == r.1@.remaining
                && final(self).component_efficiency_levels@ == old(self).component_efficiency_levels@.insert(code, r.1@.raised),
            final(self).component_catalogue == old(self).component_catalogue,
            final(self).check_component_return_value == old(self).check_component_return_value,
    {
        let level = self.efficiency_level(code);
        let base = host.base_energy(code, parameters, self.energy);
        let needed = host.energy_needed(base, level);
        let remaining = host.subtract(self.energy, needed);
        let raised = host.add(level, base);
        let ghost charge = Charge { level, base, needed, remaining, raised };
        match self.settle(code, needed, remaining, raised) {
            Ok(()) => {},
            Err(e) => return (Err(e), Ghost(charge)),
        }
        host.component_cast(code, base);
        (Ok(host.cast(code, parameters, self.energy)), Ghost(charge))
    }

    /// Checks what a nested call handed back as parameter `index` of component `code`, where
    /// checking is on: the catalogue must hold the component, and the allow-list of that
    /// position must accept the value.
    pub fn check_nested_return(&self, code: u64, index: usize, value: Value) -> (r: Result<(), RuntimeError>)
        ensures
            r == nested_return_check(*self, code, index as int, value),
    {
        if !self.check_component_return_value {
            return Ok(());
        }
        let lists = match self.component_catalogue.component_catalogue.get(&code) {
            Some(l) => l,
            None => return Err(RuntimeError::PermissionDenied("Component isn't in component catalogue")),
        };
        if index >= lists.len() {
            return Err(RuntimeError::PermissionDenied("Parameter not allowed"));
        }
        match check_if_parameter_allowed(value, &lists[index]) {
            Ok(()) => Ok(()),
            Err(reason) => Err(RuntimeError::PermissionDenied(reason)),
        }
    }

    /// Runs the component call whose code word stands at `pos`: reads each parameter (a
    /// nested call is run first, and what it hands back is checked against the catalogue
    /// where that is asked for), then casts. Gives what the component hands back, and
    /// where the call ends; and, as ghost values, the casts handed to the host in order
    /// (nested ones first, none refunded) and whether the host handed back a value of the
    /// wrong kind.
    pub fn execute_component<H: SpellHost>(&mut self, host: &mut H, w: &Vec<u64>, pos: usize) -> (r: (Result<(Option<Value>, usize), RuntimeError>, Ghost<Seq<Cast>>, Ghost<bool>))
        requires
            pos <= w@.len(),
        ensures
            r.0 is Ok ==> pos < w@.len() && registered(w@[pos as int]),
            r.0 is Ok ==> params_end(w@, pos + 1, arity(w@[pos as int]), true) == Some(r.0->Ok_0.1 as int),
            r.0 is Ok ==> match returned_kind(w@[pos as int]) {
                Some(k) => r.0->Ok_0.0 is Some && r.0->Ok_0.0->0.kind() == k,
                None => r.0->Ok_0.0 is None,
            },
            r.0 is Ok ==> r.1@.len() > 0 && r.1@.last().0 == w@[pos as int],
            r.0 matches Err(RuntimeError::PermissionDenied(_)) ==> r.1@.len() > 0,
            r.0 matches Err(RuntimeError::PermissionDenied(_)) ==> old(self).check_component_return_value,
            r.0 == Err::<(Option<Value>, usize), RuntimeError>(RuntimeError::MalformedBytecode) && pos < w@.len()
                && registered(w@[pos as int]) && params_end(w@, pos + 1, arity(w@[pos as int]), true) is Some ==> r.2@,
            r.0 is Ok ==> !r.2@,
            plain_call(w@, pos as int) && r.0 is Ok ==> r.1@ == seq![(w@[pos as int], (literal_params(w@, pos + 1, arity(w@[pos as int]))->0).0)]
                && r.0->Ok_0.1 == (literal_params(w@, pos + 1, arity(w@[pos as int]))->0).1,
            plain_call(w@, pos as int) && r.0 is Err ==> (r.1@.len() == 0
                && r.0 == Err::<(Option<Value>, usize), RuntimeError>(RuntimeError::InsufficientEnergy))
                || (r.2@ && r.1@ == seq![(w@[pos as int], (literal_params(w@, pos + 1, arity(w@[pos as int]))->0).0)]),
            final(self).component_catalogue == old(self).component_catalogue,
            final(self).check_component_return_value == old(self).check_component_return_value,
        decreases w@.len() - pos,
    {
        let ghost mut casts: Seq<Cast> = Seq::empty();
        let ghost mut fault = false;
        if pos >= w.len() {
            return (Err(RuntimeError::MalformedBytecode), Ghost(casts), Ghost(fault));
        }
        let code = w[pos];
        let n = match get_number_of_component_parameters(code) {
            Some(n) => n,
            None => return (Err(RuntimeError::MalformedBytecode), Ghost(casts), Ghost(fault)),
        };
        let mut parameters: Vec<u64> = Vec::new();
        let mut p = pos + 1;
        let mut i: usize = 0;
        while i < n
            invariant
                pos < p <= w@.len(),
                i <= n,
                n == arity(code),
                code == w@[pos as int],
                params_end(w@, pos + 1, n as nat, true) == params_end(w@, p as int, (n - i) as nat, true),
                self.component_catalogue == old(self).component_catalogue,
                self.check_component_return_value == old(self).check_component_return_value,
                !fault,
                plain_call(w@, pos as int) ==> casts.len() == 0 && literal_params(w@, pos + 1, n as nat) == match literal_params(w@, p as int, (n - i) as nat) {
                    Some((rest, e)) => Some((parameters@ + rest, e)),
                    None => None,
                },
            decreases n - i,
        {
            if p >= w.len() {
                return (Err(RuntimeError::MalformedBytecode), Ghost(casts), Ghost(fault));
            }
            let x = w[p];
            let ghost before = parameters@;
            if x == TRUE || x == FALSE {
                parameters.push(x);
                proof {
                    match literal_params(w@, p + 1, (n - i - 1) as nat) {
                        Some((rest, e)) => assert(before + (seq![x] + rest) =~= parameters@ + rest),
                        None => {},
                    }
                }
                p += 1;
            } else if x == NUMBER_LITERAL {
                if p + 1 >= w.len() {
                    return (Err(RuntimeError::MalformedBytecode), Ghost(casts), Ghost(fault));
                }
                parameters.push(w[p + 1]);
                proof {
                    match literal_params(w@, p + 2, (n - i - 1) as nat) {
                        Some((rest, e)) => assert(before + (seq![w@[p + 1]] + rest) =~= parameters@ + rest),
                        None => {},
                    }
                }
                p += 2;
            } else if x == COMPONENT {
                proof {
                    if params_end(w@, pos + 1, n as nat, true) is Some {
                        let c = w@[p + 1];
                        assert(params_end(w@, p as int, (n - i) as nat, true)
                            == params_end(w@, p + 2, (n - i - 1 + arity(c)) as nat, true));
                        assert((arity(c) + (n - i - 1)) as nat == (n - i - 1 + arity(c)) as nat);
                        lemma_params_end_prefix(w@, p + 2, arity(c), (n - i - 1) as nat, true);
                    }
                }
                let (inner, Ghost(nested), Ghost(nested_fault)) = self.execute_component(host, w, p + 1);
                proof {
                    casts = casts + nested;
                    fault = fault || nested_fault;
                }
                let (value, e) = match inner {
                    Ok(x) => x,
                    Err(err) => return (Err(err), Ghost(casts), Ghost(fault)),
                };
                let v = match value {
                    Some(v) => v,
                    None => return (Err(RuntimeError::MalformedBytecode), Ghost(casts), Ghost(fault)),
                };
                proof {
                    let c = w@[p + 1];
                    assert(params_end(w@, p as int, (n - i) as nat, true)
                        == params_end(w@, p + 2, (n - i - 1 + arity(c)) as nat, true));
                    lemma_params_end_split(w@, p + 2, arity(c), (n - i - 1) as nat, true);
                    assert((arity(c) + (n - i - 1)) as nat == (n - i - 1 + arity(c)) as nat);
                    lemma_params_end_advances(w@, p + 2, arity(c), true);
                }
                match self.check_nested_return(code, i, v) {
                    Ok(()) => {},
                    Err(e) => return (Err(e), Ghost(casts), Ghost(fault)),
                }
                parameters.push(match v {
                    Value::Bool(b) => if b { TRUE } else { FALSE },
                    Value::Number(bits) => bits,
                });
                p = e;
            } else {
                return (Err(RuntimeError::MalformedBytecode), Ghost(casts), Ghost(fault));
            }
            i += 1;
        }
        proof {
            if plain_call(w@, pos as int) {
                assert(parameters@ + Seq::<u64>::empty() =~= parameters@);
            }
        }
        let (paid, _) = self.call_component(host, code, &parameters);
        let words = match paid {
            Ok(words) => words,
            Err(err) => return (Err(err), Ghost(casts), Ghost(fault)),
        };
        proof {
            if plain_call(w@, pos as int) {
                assert(casts.push((code, parameters@)) =~= seq![(code, parameters@)]);
                assert(literal_params(w@, p as int, 0) == Some((Seq::<u64>::empty(), p as int)));
            }
            casts = casts.push((code, parameters@));
        }
        let value = match to_value(words) {
            Some(v) => v,
            None => {
                proof {
                    fault = true;
                }
                return (Err(RuntimeError::MalformedBytecode), Ghost(casts), Ghost(fault));
            },
        };
        let value = match get_return_type(code) {
            ReturnType::Nothing => None,
            ReturnType::Float => match value {
                Some(Value::Number(x)) => Some(Value::Number(x)),
                _ => {
                    proof {
                        fault = true;
                    }
                    return (Err(RuntimeError::MalformedBytecode), Ghost(casts), Ghost(fault));
                },
            },
            ReturnType::Boolean => match value {
                Some(Value::Bool(b)) => Some(Value::Bool(b)),
                _ => {
                    proof {
                        fault = true;
                    }
                    return (Err(RuntimeError::MalformedBytecode), Ghost(casts), Ghost(fault));
                },
            },
        };
        (Ok((value, p)), Ghost(casts), Ghost(fault))
    }

    /// Evaluates the condition that starts at `pos`, casting the components in it, until its
    /// end-of-scope word; the stack must then hold exactly one boolean. Gives the boolean and
    /// the word after the end-of-scope word. A condition that runs through is one that the
    /// compiler's check on types accepts.
    pub fn evaluate_condition<H: SpellHost>(&mut self, host: &mut H, w: &Vec<u64>, pos: usize) -> (r: (Result<(bool, usize), RuntimeError>, Ghost<Seq<Cast>>, Ghost<bool>))
        requires
            pos <= w@.len(),
        ensures
            r.0 is Ok ==> pos < r.0->Ok_0.1 <= w@.len() && w@[r.0->Ok_0.1 - 1] == END_OF_SCOPE,
            r.0 is Ok ==> is_condition(w@, pos as int, r.0->Ok_0.1 - 1),
            forall|c: int| #![auto] is_condition(w@, pos as int, c) && c < w@.len() && calls_nothing(w@, pos as int, c)
                ==> r.0 is Ok && r.0->Ok_0.1 == c + 1,
            quiet_value(w@, pos as int) is Some ==> r.0 is Ok
                && r.0->Ok_0.0 == (quiet_value(w@, pos as int)->0).0
                && r.0->Ok_0.1 == (quiet_value(w@, pos as int)->0).1 + 1
                && r.1@.len() == 0 && *final(self) == *old(self),
            r.0 matches Err(RuntimeError::PermissionDenied(_)) ==> old(self).check_component_return_value && r.1@.len() > 0,
            forall|c: int| #![auto] is_condition(w@, pos as int, c) && c < w@.len()
                ==> (r.0 == Err::<(bool, usize), RuntimeError>(RuntimeError::MalformedBytecode) ==> r.2@),
            r.0 is Ok ==> !r.2@,
            final(self).component_catalogue == old(self).component_catalogue,
            final(self).check_component_return_value == old(self).check_component_return_value,
    {
        let mut stack: Vec<Value> = Vec::new();
        let mut p = pos;
        let ghost easy = exists|c: int| #![auto] is_condition(w@, pos as int, c) && c < w@.len() && calls_nothing(w@, pos as int, c);
        let ghost c = if easy {
            choose|c: int| #![auto] is_condition(w@, pos as int, c) && c < w@.len() && calls_nothing(w@, pos as int, c)
        } else {
            0
        };
        let ghost quiet = quiet_value(w@, pos as int) is Some;
        let ghost valid = exists|c: int| #![auto] is_condition(w@, pos as int, c) && c < w@.len();
        let ghost vc = if valid {
            choose|c: int| #![auto] is_condition(w@, pos as int, c) && c < w@.len()
        } else {
            0
        };
        let ghost mut fault = false;
        let ghost mut casts: Seq<Cast> = Seq::empty();
        proof {
            assert(kinds(stack@) =~= Seq::<Kind>::empty());
            assert(stack@ =~= Seq::<Value>::empty());
            if easy {
                lemma_stack_after_stops_ahead(w@, pos as int, Seq::empty());
            }
            if quiet {
                lemma_value_after_stops_ahead(w@, pos as int, Seq::empty());
            }
            if valid {
                lemma_stack_after_stops_ahead(w@, pos as int, Seq::empty());
            }
        }
        while p < w.len() && w[p] != END_OF_SCOPE
            invariant
                pos <= p <= w@.len(),
                stack_after(w@, pos as int, Seq::empty()) == stack_after(w@, p as int, kinds(stack@)),
                easy ==> is_condition(w@, pos as int, c) && c < w@.len() && calls_nothing(w@, pos as int, c) && p <= c,
                easy == exists|c2: int| #![auto] is_condition(w@, pos as int, c2) && c2 < w@.len() && calls_nothing(w@, pos as int, c2),
                self.component_catalogue == old(self).component_catalogue,
                self.check_component_return_value == old(self).check_component_return_value,
                quiet == (quiet_value(w@, pos as int) is Some),
                valid == exists|c2: int| #![auto] is_condition(w@, pos as int, c2) && c2 < w@.len(),
                valid ==> is_condition(w@, pos as int, vc) && vc < w@.len() && p <= vc,
                !fault,
                quiet ==> value_after(w@, pos as int, Seq::empty()) == value_after(w@, p as int, stack@)
                    && *self == *old(self) && casts.len() == 0
                    && p <= (value_after(w@, pos as int, Seq::empty())->0).1,
            decreases w@.len() - p,
        {
            let x = w[p];
            let n = stack.len();
            let ghost before = stack@;
            if x == TRUE || x == FALSE {
                stack.push(Value::Bool(x == TRUE));
                proof { lemma_kinds_push(before, Value::Bool(x == TRUE)); }
                p += 1;
            } else if x == NUMBER_LITERAL {
                if p + 1 >= w.len() {
                    return (Err(RuntimeError::MalformedBytecode), Ghost(casts), Ghost(fault));
                }
                stack.push(Value::Number(w[p + 1]));
                proof { lemma_kinds_push(before, Value::Number(w@[p + 1])); }
                p += 2;
            } else if x == COMPONENT {
                proof {
                    if easy {
                        lemma_stack_after_stops_ahead(w@, p as int, kinds(stack@));
                        assert(w@[p as int] != COMPONENT);
                    }
                }
                proof {
                    if quiet {
                        assert(value_after(w@, p as int, stack@) is None);
                    }
                }
                proof {
                    if valid {
                        lemma_stack_after_stops_ahead(w@, p as int, kinds(stack@));
                    }
                }
                let (inner, Ghost(nested), Ghost(nested_fault)) = self.execute_component(host, w, p + 1);
                proof {
                    casts = casts + nested;
                    fault = nested_fault;
                }
                let (value, e) = match inner {
                    Ok(x) => x,
                    Err(err) => return (Err(err), Ghost(casts), Ghost(fault)),
                };
                let v = match value {
                    Some(v) => v,
                    None => return (Err(RuntimeError::MalformedBytecode), Ghost(casts), Ghost(fault)),
                };
                proof {
                    lemma_params_end_advances(w@, p + 2, arity(w@[p + 1]), true);
                    lemma_kinds_push(before, v);
                }
                stack.push(v);
                p = e;
            } else if x == NOT {
                if n < 1 {
                    return (Err(RuntimeError::MalformedBytecode), Ghost(casts), Ghost(fault));
                }
                match stack.pop() {
                    Some(Value::Bool(b)) => {
                        proof { lemma_kinds_drop(before); lemma_kinds_push(before.drop_last(), Value::Bool(!b)); }
                        stack.push(Value::Bool(!b));
                        proof { assert(kinds(stack@) =~= kinds(before)); }
                    },
                    _ => {
                        proof { lemma_kinds_drop(before); }
                        return (Err(RuntimeError::MalformedBytecode), Ghost(casts), Ghost(fault));
                    },
                }
                p += 1;
            } else if x == AND || x == OR || x == XOR {
                proof {
                    if n >= 2 {
                        assert(kinds(before)[n - 1] == before[n - 1].kind());
                        assert(kinds(before)[n - 2] == before[n - 2].kind());
                    }
                }
                match binary_operation(&mut stack, x) {
                    Ok(()) => {},
                    Err(err) => return (Err(err), Ghost(casts), Ghost(fault)),
                }
                proof {
                    assert(kinds(stack@) =~= kinds(before).drop_last());
                }
                p += 1;
            } else if x == EQUALS || x == GREATER_THAN || x == LESSER_THAN {
                proof {
                    if n >= 2 {
                        assert(kinds(before)[n - 1] == before[n - 1].kind());
                        assert(kinds(before)[n - 2] == before[n - 2].kind());
                    }
                }
                match compare_operation(&mut stack, x) {
                    Ok(()) => {},
                    Err(err) => return (Err(err), Ghost(casts), Ghost(fault)),
                }
                proof {
                    assert(kinds(stack@) =~= kinds(before).drop_last().drop_last().push(Kind::Boolean));
                }
                p += 1;
            } else if x == MULTIPLY || x == DIVIDE || x == ADD || x == SUBTRACT || x == POWER {
                proof {
                    if n >= 2 {
                        assert(kinds(before)[n - 1] == before[n - 1].kind());
                        assert(kinds(before)[n - 2] == before[n - 2].kind());
                    }
                }
                match maths_operation(&mut stack, x, host) {
                    Ok(()) => {},
                    Err(err) => return (Err(err), Ghost(casts), Ghost(fault)),
                }
                proof {
                    assert forall|k: int| 0 <= k < stack@.len() implies #[trigger] kinds(stack@)[k] == kinds(before).drop_last()[k] by {
                        if k < stack@.len() - 1 {
                            assert(stack@[k] == stack@.drop_last()[k]);
                            assert(before.drop_last().drop_last()[k] == before[k]);
                        } else {
                            assert(stack@[k] == stack@.last());
                        }
                    }
                    assert(kinds(stack@) =~= kinds(before).drop_last());
                }
                p += 1;
            } else {
                return (Err(RuntimeError::MalformedBytecode), Ghost(casts), Ghost(fault));
            }
            proof {
                if easy {
                    lemma_stack_after_stops_ahead(w@, p as int, kinds(stack@));
                }
                if quiet {
                    lemma_value_after_stops_ahead(w@, p as int, stack@);
                }
                if valid {
                    lemma_stack_after_stops_ahead(w@, p as int, kinds(stack@));
                }
            }
        }
        proof {
            if easy {
                lemma_stack_after_stops_ahead(w@, p as int, kinds(stack@));
            }
            if valid {
                lemma_stack_after_stops_ahead(w@, p as int, kinds(stack@));
            }
        }
        if p >= w.len() {
            return (Err(RuntimeError::MalformedBytecode), Ghost(casts), Ghost(fault));
        }
        if stack.len() != 1 {
            return (Err(RuntimeError::MalformedBytecode), Ghost(casts), Ghost(fault));
        }
        match stack[0] {
            Value::Bool(b) => {
                proof {
                    assert(kinds(stack@) =~= seq![Kind::Boolean]);
                }
                (Ok((b, p + 1)), Ghost(casts), Ghost(fault))
            },
            Value::Number(_) => (Err(RuntimeError::MalformedBytecode), Ghost(casts), Ghost(fault)),
        }
    }

    /// Runs a block of bytecode: casts each component, and for each `if` evaluates its
    /// condition, then runs its body where the condition holds and skips it where it does
    /// not; the first error stops the block. An end-of-scope word in the run is passed over.
    /// Beside the result it gives, as ghost values, the casts handed to the host in order,
    /// and whether the host handed back a value of the wrong kind.
    pub fn spell_virtual_machine<H: SpellHost>(&mut self, host: &mut H, instructions: &Vec<u64>) -> (r: (Result<(), RuntimeError>, Ghost<Seq<Cast>>, Ghost<bool>))
        ensures
            program_walk(instructions@, 0, 0, Section::Code) == Some((0nat, Section::Code))
                && calls_nothing(instructions@, 0, instructions@.len() as int) && within_one_section(instructions@) ==> r.0 is Ok,
            quiet_run(instructions@, 0) ==> r.0 is Ok && r.1@.len() == 0 && *final(self) == *old(self),
            plain_run(instructions@, 0) && r.0 is Ok ==> r.1@ == planned_casts(instructions@, 0),
            plain_run(instructions@, 0) && r.0 is Err ==> (r.0 == Err::<(), RuntimeError>(RuntimeError::InsufficientEnergy) || r.2@)
                && r.1@.len() <= planned_casts(instructions@, 0).len()
                && r.1@ == planned_casts(instructions@, 0).subrange(0, r.1@.len() as int),
            program_walk(instructions@, 0, 0, Section::Code) == Some((0nat, Section::Code)) && within_one_section(instructions@)
                ==> (r.0 == Err::<(), RuntimeError>(RuntimeError::MalformedBytecode) ==> r.2@),
            r.0 matches Err(RuntimeError::PermissionDenied(_)) ==> old(self).check_component_return_value && r.1@.len() > 0,
            final(self).component_catalogue == old(self).component_catalogue,
            final(self).check_component_return_value == old(self).check_component_return_value,
    {
        let w = instructions;
        let mut p: usize = 0;
        let ghost easy = program_walk(w@, 0, 0, Section::Code) == Some((0nat, Section::Code))
            && calls_nothing(w@, 0, w@.len() as int) && within_one_section(w@);
        let ghost quiet = quiet_run(w@, 0);
        let ghost mut open: nat = 0;
        let ghost mut casts: Seq<Cast> = Seq::empty();
        let ghost walked = program_walk(w@, 0, 0, Section::Code) == Some((0nat, Section::Code)) && within_one_section(w@);
        let ghost mut wopen: nat = 0;
        let ghost mut fault = false;
        let ghost plain = plain_run(w@, 0);
        proof {
            assert(casts + planned_casts(w@, 0) =~= planned_casts(w@, 0));
        }
        while p < w.len()
            invariant
                p <= w@.len(),
                self.component_catalogue == old(self).component_catalogue,
                self.check_component_return_value == old(self).check_component_return_value,
                easy ==> program_walk(w@, p as int, open, Section::Code) == Some((0nat, Section::Code))
                    && calls_nothing(w@, 0, w@.len() as int) && within_one_section(w@),
                w@ == instructions@,
                easy == (program_walk(instructions@, 0, 0, Section::Code) == Some((0nat, Section::Code))
                    && calls_nothing(instructions@, 0, instructions@.len() as int) && within_one_section(instructions@)),
                quiet == quiet_run(instructions@, 0),
                plain == plain_run(instructions@, 0),
                plain ==> plain_run(w@, p as int) && casts + planned_casts(w@, p as int) == planned_casts(w@, 0) && !fault,
                walked == (program_walk(instructions@, 0, 0, Section::Code) == Some((0nat, Section::Code)) && within_one_section(instructions@)),
                walked ==> program_walk(w@, p as int, wopen, Section::Code) == Some((0nat, Section::Code)) && !fault,
                quiet ==> quiet_run(w@, p as int) && casts.len() == 0 && *self == *old(self),
            decreases w@.len() - p,
        {
            let x = w[p];
            proof {
                if easy {
                    assert(w@[p as int] != COMPONENT);
                }
                if walked {
                    assert(w@[p as int] != READY_SECTION && w@[p as int] != PROCESS_SECTION && w@[p as int] != METADATA_SECTION);
                }
            }
            if x == END_OF_SCOPE {
                proof {
                    if easy {
                        open = (open - 1) as nat;
                    }
                    if walked {
                        wopen = (wopen - 1) as nat;
                    }
                }
                p += 1;
            } else if x == COMPONENT {
                let ghost earlier = casts;
                let (inner, Ghost(made), Ghost(inner_fault)) = self.execute_component(host, w, p + 1);
                proof {
                    casts = casts + made;
                    fault = inner_fault;
                }
                let e = match inner {
                    Ok((_, e)) => e,
                    Err(err) => {
                        proof {
                            if plain {
                                let rest = planned_casts(w@, p as int);
                                if made.len() > 0 {
                                    assert(rest == made + planned_casts(w@, (literal_params(w@, p + 2, arity(w@[p + 1]))->0).1));
                                    assert(earlier + made + planned_casts(w@, (literal_params(w@, p + 2, arity(w@[p + 1]))->0).1)
                                        == planned_casts(w@, 0));
                                    lemma_prefix(casts, planned_casts(w@, (literal_params(w@, p + 2, arity(w@[p + 1]))->0).1), planned_casts(w@, 0));
                                } else {
                                    assert(casts =~= earlier);
                                    lemma_prefix(casts, rest, planned_casts(w@, 0));
                                }
                            }
                        }
                        return (Err(err), Ghost(casts), Ghost(fault));
                    },
                };
                proof {
                    if plain {
                        assert(earlier + made + planned_casts(w@, e as int) =~= earlier + (made + planned_casts(w@, e as int)));
                    }
                }
                proof {
                    lemma_params_end_advances(w@, p + 2, arity(w@[p + 1]), true);
                }
                p = e;
            } else if x == IF {
                let ghost c = (stack_after(w@, p + 1, Seq::empty())->0).1;
                proof {
                    if easy {
                        assert(is_condition(w@, p + 1, c));
                        assert(calls_nothing(w@, p + 1, c));
                    }
                }
                proof {
                    if walked {
                        assert(is_condition(w@, p + 1, c));
                    }
                }
                let (outcome, Ghost(made), Ghost(cond_fault)) = self.evaluate_condition(host, w, p + 1);
                let ghost earlier = casts;
                proof {
                    casts = casts + made;
                    fault = cond_fault;
                    if quiet {
                        assert(casts =~= Seq::<Cast>::empty());
                    }
                    if plain {
                        assert(casts =~= earlier);
                    }
                }
                let (holds, e) = match outcome {
                    Ok(x) => x,
                    Err(err) => return (Err(err), Ghost(casts), Ghost(fault)),
                };
                if holds {
                    proof {
                        if easy {
                            open = open + 1;
                        }
                        if walked {
                            wopen = wopen + 1;
                        }
                    }
                    p = e;
                } else {
                    proof {
                        if easy {
                            lemma_walk_skip(w@, e as int, open, 1);
                        }
                        if walked {
                            lemma_walk_skip(w@, e as int, wopen, 1);
                        }
                    }
                    match skip_body(w, e) {
                        Some(after) => p = after,
                        None => return (Err(RuntimeError::MalformedBytecode), Ghost(casts), Ghost(fault)),
                    }
                }
            } else {
                return (Err(RuntimeError::MalformedBytecode), Ghost(casts), Ghost(fault));
            }
        }
        (Ok(()), Ghost(casts), Ghost(fault))
    }
}

} // verus!

//! Postfix expressions on types alone: how parameter lists are laid out, what a
//! condition leaves on the stack, and the compiler's check of conditions.

use vstd::prelude::*;
use crate::codes::{
    END_OF_SCOPE, TRUE, FALSE, NUMBER_LITERAL, COMPONENT, AND, OR, NOT, XOR, EQUALS, GREATER_THAN,
    LESSER_THAN, MULTIPLY, DIVIDE, ADD, SUBTRACT, POWER,
};
use crate::registry::{ReturnType, registered, arity, return_type, get_number_of_component_parameters, get_return_type};

verus! {

/// The type of a value on the expression stack.
#[derive(Clone, Copy, PartialEq, Eq, Structural, Debug)]
pub enum Kind {
    Boolean,
    Number,
}

/// A value on the expression stack: a boolean, or the bit pattern of a 64-bit float.
#[derive(Clone, Copy, PartialEq, Eq, Structural, Debug)]
pub enum Value {
    Bool(bool),
    Number(u64),
}

impl Value {
    pub open spec fn kind(self) -> Kind {
        match self {
            Value::Bool(_) => Kind::Boolean,
            Value::Number(_) => Kind::Number,
        }
    }
}

/// The kind of value a component hands back to an expression, if any.
pub open spec fn returned_kind(code: u64) -> Option<Kind> {
    match return_type(code) {
        ReturnType::Float => Some(Kind::Number),
        ReturnType::Boolean => Some(Kind::Boolean),
        ReturnType::Nothing => None,
    }
}

pub open spec fn is_boolean_operator(x: u64) -> bool {
    x == AND || x == OR || x == XOR
}

pub open spec fn is_comparison(x: u64) -> bool {
    x == GREATER_THAN || x == LESSER_THAN
}

pub open spec fn is_arithmetic(x: u64) -> bool {
    x == MULTIPLY || x == DIVIDE || x == ADD || x == SUBTRACT || x == POWER
}

/// Where the parameter encodings that start at `pos` end, once `need` parameters have been
/// read: a boolean is one word, a number literal two, and a nested component its code word
/// and its own parameters. Where `valued`, a nested component must hand back a value.
pub open spec fn params_end(w: Seq<u64>, pos: int, need: nat, valued: bool) -> Option<int>
    decreases w.len() - pos,
{
    if need == 0 {
        Some(pos)
    } else if pos < 0 || pos >= w.len() {
        None
    } else if w[pos] == TRUE || w[pos] == FALSE {
        params_end(w, pos + 1, (need - 1) as nat, valued)
    } else if w[pos] == NUMBER_LITERAL {
        if pos + 1 < w.len() {
            params_end(w, pos + 2, (need - 1) as nat, valued)
        } else {
            None
        }
    } else if w[pos] == COMPONENT {
        if pos + 1 < w.len() && registered(w[pos + 1]) && (!valued || returned_kind(w[pos + 1]) is Some) {
            params_end(w, pos + 2, (need - 1 + arity(w[pos + 1])) as nat, valued)
        } else {
            None
        }
    } else {
        None
    }
}

/// Where the component call whose `COMPONENT` word stands at `pos` ends.
pub open spec fn component_end(w: Seq<u64>, pos: int, valued: bool) -> Option<int> {
    if 0 <= pos && pos + 1 < w.len() && w[pos] == COMPONENT && registered(w[pos + 1]) {
        params_end(w, pos + 2, arity(w[pos + 1]), valued)
    } else {
        None
    }
}

/// Runs the postfix expression that starts at `pos` on types alone, from the stack `st`,
/// until an end-of-scope word or the end of the words: the types left on the stack and
/// where it stopped. `None` where an operator finds too few values or values of the wrong
/// type, or a word is not part of an expression.
pub open spec fn stack_after(w: Seq<u64>, pos: int, st: Seq<Kind>) -> Option<(Seq<Kind>, int)>
    decreases w.len() - pos,
{
    if pos < 0 || pos > w.len() {
        None
    } else if pos == w.len() || w[pos] == END_OF_SCOPE {
        Some((st, pos))
    } else if w[pos] == TRUE || w[pos] == FALSE {
        stack_after(w, pos + 1, st.push(Kind::Boolean))
    } else if w[pos] == NUMBER_LITERAL {
        if pos + 1 < w.len() {
            stack_after(w, pos + 2, st.push(Kind::Number))
        } else {
            None
        }
    } else if w[pos] == COMPONENT {
        match (component_end(w, pos, true), returned_kind(w[pos + 1])) {
            (Some(e), Some(k)) => if pos < e <= w.len() {
                stack_after(w, e, st.push(k))
            } else {
                None
            },
            _ => None,
        }
    } else {
        let n = st.len();
        if w[pos] == NOT {
            if n >= 1 && st[n - 1] == Kind::Boolean {
                stack_after(w, pos + 1, st)
            } else {
                None
            }
        } else if n < 2 {
            None
        } else if is_boolean_operator(w[pos]) {
            if st[n - 1] == Kind::Boolean && st[n - 2] == Kind::Boolean {
                stack_after(w, pos + 1, st.drop_last())
            } else {
                None
            }
        } else if w[pos] == EQUALS {
            if st[n - 1] == st[n - 2] {
                stack_after(w, pos + 1, st.drop_last().drop_last().push(Kind::Boolean))
            } else {
                None
            }
        } else if is_comparison(w[pos]) {
            if st[n - 1] == Kind::Number && st[n - 2] == Kind::Number {
                stack_after(w, pos + 1, st.drop_last().drop_last().push(Kind::Boolean))
            } else {
                None
            }
        } else if is_arithmetic(w[pos]) {
            if st[n - 1] == Kind::Number && st[n - 2] == Kind::Number {
                stack_after(w, pos + 1, st.drop_last())
            } else {
                None
            }
        } else {
            None
        }
    }
}

/// A well-formed condition: the words from `pos` to `end`, run on their own, leave exactly
/// one boolean.
pub open spec fn is_condition(w: Seq<u64>, pos: int, end: int) -> bool {
    stack_after(w, pos, Seq::empty()) == Some((seq![Kind::Boolean], end))
}

/// The end of a parameter list is past its start.
pub proof fn lemma_params_end_advances(w: Seq<u64>, pos: int, need: nat, valued: bool)
    requires
        params_end(w, pos, need, valued) is Some,
    ensures
        params_end(w, pos, need, valued)->0 >= pos,
        need > 0 ==> params_end(w, pos, need, valued)->0 > pos,
        params_end(w, pos, need, valued)->0 <= w.len() || need == 0,
        params_end(w, pos, need, valued)->0 - pos >= need,
    decreases w.len() - pos,
{
    if need > 0 {
        if w[pos] == TRUE || w[pos] == FALSE {
            lemma_params_end_advances(w, pos + 1, (need - 1) as nat, valued);
        } else if w[pos] == NUMBER_LITERAL {
            lemma_params_end_advances(w, pos + 2, (need - 1) as nat, valued);
        } else {
            lemma_params_end_advances(w, pos + 2, (need - 1 + arity(w[pos + 1])) as nat, valued);
        }
    }
}

/// Reading `a + b` parameters is reading `a`, then `b` more.
pub proof fn lemma_params_end_split(w: Seq<u64>, pos: int, a: nat, b: nat, valued: bool)
    requires
        params_end(w, pos, a, valued) is Some,
    ensures
        params_end(w, pos, a + b, valued) == params_end(w, params_end(w, pos, a, valued)->0, b, valued),
    decreases w.len() - pos,
{
    if a > 0 {
        if w[pos] == TRUE || w[pos] == FALSE {
            lemma_params_end_split(w, pos + 1, (a - 1) as nat, b, valued);
            assert((a + b - 1) as nat == (a - 1) as nat + b);
        } else if w[pos] == NUMBER_LITERAL {
            lemma_params_end_split(w, pos + 2, (a - 1) as nat, b, valued);
            assert((a + b - 1) as nat == (a - 1) as nat + b);
        } else {
            let k = arity(w[pos + 1]);
            lemma_params_end_split(w, pos + 2, (a - 1 + k) as nat, b, valued);
            assert((a + b - 1 + k) as nat == (a - 1 + k) as nat + b);
        }
    }
}

/// Where `a + b` parameters can be read, so can the first `a`.
pub proof fn lemma_params_end_prefix(w: Seq<u64>, pos: int, a: nat, b: nat, valued: bool)
    requires
        params_end(w, pos, a + b, valued) is Some,
    ensures
        params_end(w, pos, a, valued) is Some,
    decreases w.len() - pos,
{
    if a > 0 {
        if w[pos] == TRUE || w[pos] == FALSE {
            assert((a + b - 1) as nat == (a - 1) as nat + b);
            lemma_params_end_prefix(w, pos + 1, (a - 1) as nat, b, valued);
        } else if w[pos] == NUMBER_LITERAL {
            assert((a + b - 1) as nat == (a - 1) as nat + b);
            lemma_params_end_prefix(w, pos + 2, (a - 1) as nat, b, valued);
        } else {
            let k = arity(w[pos + 1]);
            assert((a + b - 1 + k) as nat == (a - 1 + k) as nat + b);
            lemma_params_end_prefix(w, pos + 2, (a - 1 + k) as nat, b, valued);
        }
    }
}

/// Words appended after a parameter list do not change where it ends.
pub proof fn lemma_params_end_extend(w: Seq<u64>, y: Seq<u64>, pos: int, need: nat, valued: bool)
    requires
        params_end(w, pos, need, valued) is Some,
    ensures
        params_end(w + y, pos, need, valued) == params_end(w, pos, need, valued),
    decreases w.len() - pos,
{
    if need > 0 {
        assert((w + y)[pos] == w[pos]);
        if w[pos] == TRUE || w[pos] == FALSE {
            lemma_params_end_extend(w, y, pos + 1, (need - 1) as nat, valued);
        } else if w[pos] == NUMBER_LITERAL {
            lemma_params_end_extend(w, y, pos + 2, (need - 1) as nat, valued);
        } else {
            assert((w + y)[pos + 1] == w[pos + 1]);
            lemma_params_end_extend(w, y, pos + 2, (need - 1 + arity(w[pos + 1])) as nat, valued);
        }
    }
}

/// Words put before a parameter list move its end by their number.
pub proof fn lemma_params_end_shift(x: Seq<u64>, w: Seq<u64>, pos: int, need: nat, valued: bool)
    requires
        0 <= pos,
    ensures
        params_end(x + w, x.len() + pos, need, valued) == match params_end(w, pos, need, valued) {
            Some(e) => Some(e + x.len()),
            None => None,
        },
    decreases w.len() - pos,
{
    let xw = x + w;
    if need > 0 && pos < w.len() {
        assert(xw[x.len() + pos] == w[pos]);
        if w[pos] == TRUE || w[pos] == FALSE {
            lemma_params_end_shift(x, w, pos + 1, (need - 1) as nat, valued);
        } else if w[pos] == NUMBER_LITERAL && pos + 1 < w.len() {
            lemma_params_end_shift(x, w, pos + 2, (need - 1) as nat, valued);
        } else if w[pos] == COMPONENT && pos + 1 < w.len() {
            assert(xw[x.len() + pos + 1] == w[pos + 1]);
            lemma_params_end_shift(x, w, pos + 2, (need - 1 + arity(w[pos + 1])) as nat, valued);
        }
    }
}

/// Words appended after a condition that stopped at an end-of-scope word (or at the end of
/// the words, where an end-of-scope word follows) do not change how it runs.
pub proof fn lemma_stack_after_extend(w: Seq<u64>, y: Seq<u64>, pos: int, st: Seq<Kind>)
    requires
        stack_after(w, pos, st) is Some,
        (stack_after(w, pos, st)->0).1 == w.len() ==> y.len() > 0 && y[0] == END_OF_SCOPE,
    ensures
        stack_after(w + y, pos, st) == stack_after(w, pos, st),
    decreases w.len() - pos,
{
    let wy = w + y;
    if pos < w.len() {
        assert(wy[pos] == w[pos]);
        if w[pos] == END_OF_SCOPE {
        } else if w[pos] == TRUE || w[pos] == FALSE {
            lemma_stack_after_extend(w, y, pos + 1, st.push(Kind::Boolean));
        } else if w[pos] == NUMBER_LITERAL {
            assert(wy[pos + 1] == w[pos + 1]);
            lemma_stack_after_extend(w, y, pos + 2, st.push(Kind::Number));
        } else if w[pos] == COMPONENT {
            assert(wy[pos + 1] == w[pos + 1]);
            let k = w[pos + 1];
            lemma_params_end_extend(w, y, pos + 2, arity(k), true);
            let e = component_end(w, pos, true)->0;
            lemma_stack_after_extend(w, y, e, st.push(returned_kind(k)->0));
        } else {
            let n = st.len();
            if w[pos] == NOT {
                lemma_stack_after_extend(w, y, pos + 1, st);
            } else if is_boolean_operator(w[pos]) || is_arithmetic(w[pos]) {
                lemma_stack_after_extend(w, y, pos + 1, st.drop_last());
            } else {
                lemma_stack_after_extend(w, y, pos + 1, st.drop_last().drop_last().push(Kind::Boolean));
            }
        }
    } else {
        assert(wy[pos] == y[0]);
    }
}

/// Words put before a condition move where it stops by their number.
pub proof fn lemma_stack_after_shift(x: Seq<u64>, w: Seq<u64>, pos: int, st: Seq<Kind>)
    requires
        0 <= pos <= w.len(),
    ensures
        stack_after(x + w, x.len() + pos, st) == match stack_after(w, pos, st) {
            Some((s2, e)) => Some((s2, e + x.len())),
            None => None,
        },
    decreases w.len() - pos,
{
    let xw = x + w;
    if pos < w.len() {
        assert(xw[x.len() + pos] == w[pos]);
        if w[pos] == END_OF_SCOPE {
        } else if w[pos] == TRUE || w[pos] == FALSE {
            lemma_stack_after_shift(x, w, pos + 1, st.push(Kind::Boolean));
        } else if w[pos] == NUMBER_LITERAL {
            if pos + 1 < w.len() {
                lemma_stack_after_shift(x, w, pos + 2, st.push(Kind::Number));
            }
        } else if w[pos] == COMPONENT {
            if pos + 1 < w.len() {
                assert(xw[x.len() + pos + 1] == w[pos + 1]);
                let k = w[pos + 1];
                lemma_params_end_shift(x, w, pos + 2, arity(k), true);
                assert(x.len() + pos + 2 == x.len() + (pos + 2));
                match component_end(w, pos, true) {
                    Some(e) => {
                        if pos < e <= w.len() && returned_kind(k) is Some {
                            lemma_stack_after_shift(x, w, e, st.push(returned_kind(k)->0));
                        }
                    },
                    None => {},
                }
            }
        } else {
            let n = st.len();
            if w[pos] == NOT {
                lemma_stack_after_shift(x, w, pos + 1, st);
            } else if n >= 2 {
                if is_boolean_operator(w[pos]) || is_arithmetic(w[pos]) {
                    lemma_stack_after_shift(x, w, pos + 1, st.drop_last());
                } else {
                    lemma_stack_after_shift(x, w, pos + 1, st.drop_last().drop_last().push(Kind::Boolean));
                }
            }
        }
    }
}

/// Why reading `need` parameters from `pos` fails, the check on types of a condition
/// naming the first fault.
pub open spec fn params_message(w: Seq<u64>, pos: int, need: nat) -> &'static str
    decreases w.len() - pos,
{
    if need == 0 {
        ""
    } else if pos < 0 || pos >= w.len() {
        "expected parameter"
    } else if w[pos] == TRUE || w[pos] == FALSE {
        params_message(w, pos + 1, (need - 1) as nat)
    } else if w[pos] == NUMBER_LITERAL {
        if pos + 1 < w.len() {
            params_message(w, pos + 2, (need - 1) as nat)
        } else {
            "Expected number after number literal opcode"
        }
    } else if w[pos] == COMPONENT {
        if pos + 1 >= w.len() {
            "expected component"
        } else if !registered(w[pos + 1]) {
            "Component does not exist"
        } else if returned_kind(w[pos + 1]) is None {
            "Expected return from component"
        } else {
            params_message(w, pos + 2, (need - 1 + arity(w[pos + 1])) as nat)
        }
    } else {
        "Invalid parameter"
    }
}

/// Why the check on types of the condition from `pos` (with the stack `st`) fails: the
/// message of the first fault met.
pub open spec fn check_message(w: Seq<u64>, pos: int, st: Seq<Kind>) -> &'static str
    decreases w.len() - pos,
{
    if pos < 0 || pos > w.len() {
        ""
    } else if pos == w.len() || w[pos] == END_OF_SCOPE {
        if pos < w.len() {
            "Unexpected end of scope in condition"
        } else {
            "Expected one boolean from condition"
        }
    } else if w[pos] == TRUE || w[pos] == FALSE {
        check_message(w, pos + 1, st.push(Kind::Boolean))
    } else if w[pos] == NUMBER_LITERAL {
        if pos + 1 < w.len() {
            check_message(w, pos + 2, st.push(Kind::Number))
        } else {
            "Expected following value"
        }
    } else if w[pos] == COMPONENT {
        if pos + 1 >= w.len() {
            "expected component"
        } else if !registered(w[pos + 1]) {
            "Component does not exist"
        } else if returned_kind(w[pos + 1]) is None {
            "Expected return from component"
        } else {
            match params_end(w, pos + 2, arity(w[pos + 1]), true) {
                None => params_message(w, pos + 2, arity(w[pos + 1])),
                Some(e) => if pos < e <= w.len() {
                    check_message(w, e, st.push(returned_kind(w[pos + 1])->0))
                } else {
                    ""
                },
            }
        }
    } else {
        let n = st.len();
        if w[pos] == NOT {
            if n >= 1 && st[n - 1] == Kind::Boolean {
                check_message(w, pos + 1, st)
            } else {
                "Expected boolean to negate"
            }
        } else if n < 2 {
            "Expected value to compare"
        } else if is_boolean_operator(w[pos]) {
            if st[n - 1] == Kind::Boolean && st[n - 2] == Kind::Boolean {
                check_message(w, pos + 1, st.drop_last())
            } else {
                "Boolean logic can only compare booleans"
            }
        } else if w[pos] == EQUALS {
            if st[n - 1] == st[n - 2] {
                check_message(w, pos + 1, st.drop_last().drop_last().push(Kind::Boolean))
            } else {
                "Can only compare values of the same type"
            }
        } else if is_comparison(w[pos]) {
            if st[n - 1] == Kind::Number && st[n - 2] == Kind::Number {
                check_message(w, pos + 1, st.drop_last().drop_last().push(Kind::Boolean))
            } else {
                "Can only compare numbers"
            }
        } else if is_arithmetic(w[pos]) {
            if st[n - 1] == Kind::Number && st[n - 2] == Kind::Number {
                check_message(w, pos + 1, st.drop_last())
            } else {
                "Arithmetic needs numbers"
            }
        } else {
            "Opcode doesn't exist"
        }
    }
}

/// Reading `a + b` parameters fails where reading `b` more fails after the first `a`.
proof fn lemma_params_message_split(w: Seq<u64>, pos: int, a: nat, b: nat)
    requires
        params_end(w, pos, a, true) is Some,
    ensures
        params_message(w, pos, a + b) == params_message(w, params_end(w, pos, a, true)->0, b),
    decreases w.len() - pos,
{
    if a > 0 {
        if w[pos] == TRUE || w[pos] == FALSE {
            lemma_params_message_split(w, pos + 1, (a - 1) as nat, b);
            assert((a + b - 1) as nat == (a - 1) as nat + b);
        } else if w[pos] == NUMBER_LITERAL {
            lemma_params_message_split(w, pos + 2, (a - 1) as nat, b);
            assert((a + b - 1) as nat == (a - 1) as nat + b);
        } else {
            let k = arity(w[pos + 1]);
            lemma_params_message_split(w, pos + 2, (a - 1 + k) as nat, b);
            assert((a + b - 1 + k) as nat == (a - 1 + k) as nat + b);
        }
    }
}

/// Where the first `a` parameters cannot be read, reading `a + b` fails for the same reason.
proof fn lemma_params_message_prefix(w: Seq<u64>, pos: int, a: nat, b: nat)
    requires
        a > 0,
        params_end(w, pos, a, true) is None,
    ensures
        params_message(w, pos, a + b) == params_message(w, pos, a),
        params_end(w, pos, a + b, true) is None,
    decreases w.len() - pos,
{
    if 0 <= pos < w.len() {
        if w[pos] == TRUE || w[pos] == FALSE {
            assert((a + b - 1) as nat == (a - 1) as nat + b);
            if a > 1 {
                lemma_params_message_prefix(w, pos + 1, (a - 1) as nat, b);
            }
        } else if w[pos] == NUMBER_LITERAL {
            assert((a + b - 1) as nat == (a - 1) as nat + b);
            if pos + 1 < w.len() && a > 1 {
                lemma_params_message_prefix(w, pos + 2, (a - 1) as nat, b);
            }
        } else if w[pos] == COMPONENT && pos + 1 < w.len() && registered(w[pos + 1]) && returned_kind(w[pos + 1]) is Some {
            let k = arity(w[pos + 1]);
            assert((a + b - 1 + k) as nat == (a - 1 + k) as nat + b);
            if (a - 1 + k) as nat > 0 {
                lemma_params_message_prefix(w, pos + 2, (a - 1 + k) as nat, b);
            }
        }
    }
}

pub fn returned_kind_of(code: u64) -> (r: Option<Kind>)
    ensures
        r == returned_kind(code),
{
    match get_return_type(code) {
        ReturnType::Float => Some(Kind::Number),
        ReturnType::Boolean => Some(Kind::Boolean),
        ReturnType::Nothing => None,
    }
}

/// Reads the parameters of a component in a condition without running anything, and gives
/// where they end; every nested component must be registered and hand back a value.
fn mock_parameters(logic: &Vec<u64>, start: usize, need: usize) -> (r: Result<usize, &'static str>)
    requires
        start <= logic.len(),
    ensures
        match r {
            Ok(e) => params_end(logic@, start as int, need as nat, true) == Some(e as int),
            Err(m) => params_end(logic@, start as int, need as nat, true) is None
                && m == params_message(logic@, start as int, need as nat),
        },
    decreases logic.len() - start,
{
    let mut pos = start;
    let mut left = need;
    while left > 0
        invariant
            start <= pos <= logic.len(),
            left <= need,
            params_end(logic@, start as int, need as nat, true) == params_end(logic@, pos as int, left as nat, true),
            params_message(logic@, start as int, need as nat) == params_message(logic@, pos as int, left as nat),
        decreases left,
    {
        if pos >= logic.len() {
            return Err("expected parameter");
        }
        let word = logic[pos];
        if word == TRUE || word == FALSE {
            pos += 1;
        } else if word == NUMBER_LITERAL {
            if pos + 1 >= logic.len() {
                return Err("Expected number after number literal opcode");
            }
            pos += 2;
        } else if word == COMPONENT {
            if pos + 1 >= logic.len() {
                return Err("expected component");
            }
            let code = logic[pos + 1];
            let n = match get_number_of_component_parameters(code) {
                Some(n) => n,
                None => return Err("Component does not exist"),
            };
            if returned_kind_of(code).is_none() {
                return Err("Expected return from component");
            }
            let e = mock_parameters(logic, pos + 2, n);
            match e {
                Ok(e) => {
                    proof {
                        lemma_params_end_split(logic@, pos + 2, n as nat, (left - 1) as nat, true);
                        lemma_params_message_split(logic@, pos + 2, n as nat, (left - 1) as nat);
                        assert((left - 1 + arity(code)) as nat == n as nat + (left - 1) as nat);
                        lemma_params_end_advances(logic@, pos + 2, n as nat, true);
                    }
                    pos = e;
                },
                Err(m) => {
                    proof {
                        assert((left - 1 + arity(code)) as nat == n as nat + (left - 1) as nat);
                        if params_end(logic@, pos + 2, (left - 1 + arity(code)) as nat, true) is Some {
                            lemma_params_end_prefix(logic@, pos + 2, n as nat, (left - 1) as nat, true);
                        }
                        lemma_params_message_prefix(logic@, pos + 2, n as nat, (left - 1) as nat);
                    }
                    return Err(m);
                },
            }
        } else {
            return Err("Invalid parameter");
        }
        left -= 1;
    }
    Ok(pos)
}

/// Runs a condition on types alone, as the compiler checks it: every component counts as a
/// value of the type it is registered to return. Succeeds exactly when the condition runs to
/// the end of the words and leaves one boolean.
#[verifier::rlimit(60)]
pub fn test_logic(logic: &Vec<u64>) -> (r: Result<(), &'static str>)
    ensures
        r is Ok <==> is_condition(logic@, 0, logic@.len() as int),
        r is Err ==> r->Err_0 == check_message(logic@, 0, Seq::empty()),
{
    let mut stack: Vec<Kind> = Vec::new();
    let mut pos: usize = 0;
    while pos < logic.len() && logic[pos] != END_OF_SCOPE
        invariant
            pos <= logic.len(),
            stack_after(logic@, 0, Seq::empty()) == stack_after(logic@, pos as int, stack@),
            check_message(logic@, 0, Seq::empty()) == check_message(logic@, pos as int, stack@),
        decreases logic.len() - pos,
    {
        let word = logic[pos];
        let n = stack.len();
        if word == TRUE || word == FALSE {
            stack.push(Kind::Boolean);
            pos += 1;
        } else if word == NUMBER_LITERAL {
            if pos + 1 >= logic.len() {
                return Err("Expected following value");
            }
            stack.push(Kind::Number);
            pos += 2;
        } else if word == COMPONENT {
            if pos + 1 >= logic.len() {
                return Err("expected component");
            }
            let code = logic[pos + 1];
            let count = match get_number_of_component_parameters(code) {
                Some(c) => c,
                None => return Err("Component does not exist"),
            };
            let kind = match returned_kind_of(code) {
                Some(k) => k,
                None => return Err("Expected return from component"),
            };
            match mock_parameters(logic, pos + 2, count) {
                Ok(e) => {
                    proof {
                        lemma_params_end_advances(logic@, pos + 2, count as nat, true);
                    }
                    stack.push(kind);
                    pos = e;
                },
                Err(m) => return Err(m),
            }
        } else if word == NOT {
            if n < 1 || stack[n - 1] != Kind::Boolean {
                return Err("Expected boolean to negate");
            }
            pos += 1;
        } else if n < 2 {
            return Err("Expected value to compare");
        } else if word == AND || word == OR || word == XOR {
            if stack[n - 1] != Kind::Boolean || stack[n - 2] != Kind::Boolean {
                return Err("Boolean logic can only compare booleans");
            }
            stack.pop();
            pos += 1;
        } else if word == EQUALS {
            if stack[n - 1] != stack[n - 2] {
                return Err("Can only compare values of the same type");
            }
            stack.pop();
            stack.pop();
            stack.push(Kind::Boolean);
            pos += 1;
        } else if word == GREATER_THAN || word == LESSER_THAN {
            if stack[n - 1] != Kind::Number || stack[n - 2] != Kind::Number {
                return Err("Can only compare numbers");
            }
            stack.pop();
            stack.pop();
            stack.push(Kind::Boolean);
            pos += 1;
        } else if word == MULTIPLY || word == DIVIDE || word == ADD || word == SUBTRACT || word == POWER {
            if stack[n - 1] != Kind::Number || stack[n - 2] != Kind::Number {
                return Err("Arithmetic needs numbers");
            }
            stack.pop();
            pos += 1;
        } else {
            return Err("Opcode doesn't exist");
        }
    }
    if pos < logic.len() {
        return Err("Unexpected end of scope in condition");
    }
    if stack.len() == 1 && stack[0] == Kind::Boolean {
        assert(stack@ =~= seq![Kind::Boolean]);
        Ok(())
    } else {
        assert(stack@ != seq![Kind::Boolean]);
        Err("Expected one boolean from condition")
    }
}

} // verus!

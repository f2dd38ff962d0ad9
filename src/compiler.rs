//! The compiler: component calls, conditions (shunting yard), about lines, section headers
//! and whole scripts, each with the specification it meets.

use vstd::prelude::*;
use crate::codes::{
    END_OF_SCOPE, IF, READY_SECTION, PROCESS_SECTION, METADATA_SECTION, COLOR, ONE_BITS, TRUE, FALSE, NUMBER_LITERAL, COMPONENT, FLOAT, BOOLEAN, AND, OR, NOT, XOR, EQUALS, GREATER_THAN,
    LESSER_THAN, MULTIPLY, DIVIDE, ADD, SUBTRACT, POWER,
};
use crate::eval::{check_message, returned_kind, returned_kind_of, Kind, stack_after, lemma_stack_after_extend, lemma_stack_after_shift, is_condition, test_logic, params_end, component_end, lemma_params_end_split, lemma_params_end_extend, lemma_params_end_shift};
use crate::numbers::{is_reader, reading, read_range, read_bool, bool_text, float_le, at_most, check_u64_text, is_u64_text};
use crate::registry::{registered, arity, parameter_types, component_named, component_code, get_parameter_types, lemma_named_components_registered};
use crate::text::{alphabetic, alphanumeric, white_space, is_alphabetic, is_alphanumeric, is_white_space, trim, trimmed, spells, to_chars};
use crate::lexer::{Token, TokenView, tokenise, lex, view_token, view_tokens};

verus! {

/// A parameter of a component call, as written: a number (its bit pattern), a boolean, or
/// a nested call (its bounds in the script).
pub enum Parameter {
    Float(u64),
    Boolean(bool),
    Component(usize, usize),
}

/// Words that encode exactly one parameter.
pub open spec fn one_parameter(p: Seq<u64>) -> bool {
    params_end(p, 0, 1, true) == Some(p.len() as int)
}

/// Words that encode exactly one component call.
pub open spec fn one_call(w: Seq<u64>) -> bool {
    &&& w.len() >= 2
    &&& w[0] == COMPONENT
    &&& registered(w[1])
    &&& component_end(w, 0, true) == Some(w.len() as int)
}

/// A result with `v` put in front of what it holds.
pub open spec fn prepend<T>(v: Seq<T>, r: Result<Seq<T>, &'static str>) -> Result<Seq<T>, &'static str> {
    match r {
        Ok(s) => Ok(v + s),
        Err(e) => Err(e),
    }
}

/// What reading one parameter, `t[lo..hi]`, as the declared type `ty` gives; a parameter
/// that ends in `)` is a nested call whatever the type.
pub open spec fn parameter_spec<F: Fn(&[char]) -> Option<u64>>(t: Seq<char>, lo: int, hi: int, ty: u64, read: F) -> Result<Parameter, &'static str> {
    let (a, b) = trimmed(t, lo, hi);
    if a < b && t[b - 1] == ')' {
        Ok(Parameter::Component(a as usize, b as usize))
    } else if ty == FLOAT {
        match reading(read, t.subrange(a, b)) {
            Some(x) => Ok(Parameter::Float(x)),
            None => Err("Couldn't parse parameter: should be float"),
        }
    } else if ty == BOOLEAN {
        match bool_text(t.subrange(a, b)) {
            Some(v) => Ok(Parameter::Boolean(v)),
            None => Err("Couldn't parse parameter: should be boolean"),
        }
    } else {
        Err("Invalid parameters: parameter doesn't match expected type")
    }
}

/// Reads one parameter, `text[lo..hi]`, as the declared type `ty` asks.
pub fn parse_parameter<F: Fn(&[char]) -> Option<u64>>(text: &Vec<char>, lo: usize, hi: usize, ty: u64, read: &F) -> (r: Result<Parameter, &'static str>)
    requires
        lo <= hi <= text@.len(),
        is_reader(*read),
    ensures
        r == parameter_spec(text@, lo as int, hi as int, ty, *read),
        r matches Ok(Parameter::Component(x, y)) ==> lo <= x < y <= hi,
{
    let (a, b) = trim(text, lo, hi);
    if a < b && text[b - 1] == ')' {
        return Ok(Parameter::Component(a, b));
    }
    if ty == FLOAT {
        match read_range(read, text, a, b) {
            Some(bits) => Ok(Parameter::Float(bits)),
            None => Err("Couldn't parse parameter: should be float"),
        }
    } else if ty == BOOLEAN {
        match read_bool(text, a, b) {
            Some(v) => Ok(Parameter::Boolean(v)),
            None => Err("Couldn't parse parameter: should be boolean"),
        }
    } else {
        Err("Invalid parameters: parameter doesn't match expected type")
    }
}

pub open spec fn nested_within(p: Parameter, lo: int, hi: int) -> bool {
    match p {
        Parameter::Component(a, b) => lo <= a < b <= hi,
        _ => true,
    }
}

/// What reading the comma-separated parameters `t[start..hi]` gives, the first of them of
/// declared type `types[k]`: every piece must hold something, and there must be exactly as
/// many pieces as types.
pub open spec fn collect_spec<F: Fn(&[char]) -> Option<u64>>(t: Seq<char>, start: int, hi: int, types: Seq<u64>, k: int, read: F) -> Result<Seq<Parameter>, &'static str>
    decreases hi - start,
{
    let c = find_from(t, start, hi, ',');
    if start > hi || k < 0 {
        Err("Invalid parameters: Missing parameters")
    } else if c < hi {
        if c <= start {
            Err("Invalid parameters: Must have value before bracket")
        } else if k >= types.len() {
            Err("Invalid parameters: More parameters than expected types")
        } else {
            match parameter_spec(t, start, c, types[k], read) {
                Err(e) => Err(e),
                Ok(p) => prepend(seq![p], collect_spec(t, c + 1, hi, types, k + 1, read)),
            }
        }
    } else if start < hi {
        if k >= types.len() {
            Err("Invalid parameters: More parameters than expected")
        } else {
            match parameter_spec(t, start, hi, types[k], read) {
                Err(e) => Err(e),
                Ok(p) => if k + 1 < types.len() {
                    Err("Invalid parameters: Missing parameters")
                } else {
                    Ok(seq![p])
                },
            }
        }
    } else if k < types.len() {
        Err("Invalid parameters: Missing parameters")
    } else {
        Ok(Seq::empty())
    }
}

/// Splits `text[lo..hi]` on commas and reads one parameter of each declared type from the
/// pieces, in order.
pub fn collect_parameters<F: Fn(&[char]) -> Option<u64>>(text: &Vec<char>, lo: usize, hi: usize, types: &Vec<u64>, read: &F) -> (r: Result<Vec<Parameter>, &'static str>)
    requires
        lo <= hi <= text@.len(),
        is_reader(*read),
    ensures
        match r {
            Ok(v) => collect_spec(text@, lo as int, hi as int, types@, 0, *read) == Ok::<Seq<Parameter>, &'static str>(v@),
            Err(m) => collect_spec(text@, lo as int, hi as int, types@, 0, *read) == Err::<Seq<Parameter>, &'static str>(m),
        },
        r is Ok ==> r->Ok_0@.len() == types@.len(),
        r is Ok ==> forall|i: int| 0 <= i < r->Ok_0@.len() ==> nested_within(#[trigger] r->Ok_0@[i], lo as int, hi as int),
{
    let mut parameters: Vec<Parameter> = Vec::new();
    let mut start = lo;
    assert(parameters@ + Seq::<Parameter>::empty() =~= parameters@);
    loop
        invariant
            lo <= start <= hi <= text@.len(),
            parameters@.len() <= types@.len(),
            forall|k: int| 0 <= k < parameters@.len() ==> nested_within(#[trigger] parameters@[k], lo as int, hi as int),
            is_reader(*read),
            collect_spec(text@, lo as int, hi as int, types@, 0, *read)
                == prepend(parameters@, collect_spec(text@, start as int, hi as int, types@, parameters@.len() as int, *read)),
        decreases hi - start,
    {
        let c = find(text, start, hi, ',');
        let ghost before = parameters@;
        if c < hi {
            if c == start {
                return Err("Invalid parameters: Must have value before bracket");
            }
            if parameters.len() >= types.len() {
                return Err("Invalid parameters: More parameters than expected types");
            }
            let p = parse_parameter(text, start, c, types[parameters.len()], read)?;
            parameters.push(p);
            proof {
                let rest = collect_spec(text@, c + 1, hi as int, types@, parameters@.len() as int, *read);
                match rest {
                    Ok(r) => assert(before + (seq![p] + r) =~= parameters@ + r),
                    Err(_) => {},
                }
            }
            start = c + 1;
        } else {
            if start < hi {
                if parameters.len() >= types.len() {
                    return Err("Invalid parameters: More parameters than expected");
                }
                let p = parse_parameter(text, start, hi, types[parameters.len()], read)?;
                parameters.push(p);
                proof {
                    assert(before + seq![p] =~= parameters@);
                }
            } else {
                assert(before + Seq::<Parameter>::empty() =~= parameters@);
            }
            if parameters.len() < types.len() {
                return Err("Invalid parameters: Missing parameters");
            }
            return Ok(parameters);
        }
    }
}

/// What encoding the parameters `ps`, from the `k`-th on, of the call `t[lo..hi]` gives.
pub open spec fn encode_spec<F: Fn(&[char]) -> Option<u64>>(t: Seq<char>, ps: Seq<Parameter>, k: int, lo: int, hi: int, read: F) -> Result<Seq<u64>, &'static str>
    decreases hi - lo, ps.len() - k,
{
    if k < 0 || k >= ps.len() {
        Ok(Seq::empty())
    } else {
        let head: Result<Seq<u64>, &'static str> = match ps[k] {
            Parameter::Float(b) => Ok(seq![NUMBER_LITERAL, b]),
            Parameter::Boolean(v) => Ok(if v { seq![TRUE] } else { seq![FALSE] }),
            Parameter::Component(a, b) => if lo < a && b < hi && a < b {
                match call_spec(t, a as int, b as int, read) {
                    Ok(w) => if w.len() >= 2 && returned_kind(w[1]) is Some {
                        Ok(w)
                    } else {
                        Err("Expected return from component")
                    },
                    Err(e) => Err(e),
                }
            } else {
                Err("Invalid component: Parameters not valid")
            },
        };
        match head {
            Err(e) => Err(e),
            Ok(h) => prepend(h, encode_spec(t, ps, k + 1, lo, hi, read)),
        }
    }
}

/// What compiling the component call `t[lo..hi]` gives: `COMPONENT`, the code that its name
/// stands for, then each parameter's encoding; or why it cannot be compiled. A nested call
/// that hands back nothing is refused here, as in a condition: it can fill no parameter.
/// Whether a nested call's value has the parameter's declared type (number or boolean) is
/// left to the time it is cast.
pub open spec fn call_spec<F: Fn(&[char]) -> Option<u64>>(t: Seq<char>, lo: int, hi: int, read: F) -> Result<Seq<u64>, &'static str>
    decreases hi - lo + 1, 0int,
{
    let k = find_from(t, lo, hi, '(');
    if lo < 0 || hi > t.len() || lo >= hi || t[hi - 1] != ')' {
        Err("Invalid component: Must end with close bracket")
    } else if exists|j: int| lo <= j < k && !(alphabetic(#[trigger] t[j]) || t[j] == '_') {
        Err("Invalid component: Name must be made up of letters")
    } else if k >= hi {
        Err("Invalid component: Must have opening bracket")
    } else {
        match component_named(t.subrange(lo, k)) {
            None => Err("Component doesn't exist"),
            Some(code) => match parameter_types(code) {
                None => Err("Component doesn't exist"),
                Some(types) => match collect_spec(t, k + 1, hi - 1, types, 0, read) {
                    Err(e) => Err(e),
                    Ok(ps) => prepend(seq![COMPONENT, code], encode_spec(t, ps, 0, lo, hi, read)),
                },
            },
        }
    }
}

fn append_parameter(w: &mut Vec<u64>, p: Vec<u64>, Ghost(count): Ghost<nat>)
    requires
        params_end(old(w)@, 2, count, true) == Some(old(w)@.len() as int),
        one_parameter(p@),
    ensures
        final(w)@ == old(w)@ + p@,
        params_end(final(w)@, 2, count + 1, true) == Some(final(w)@.len() as int),
{
    let ghost w0 = w@;
    let ghost p0 = p@;
    let mut p = p;
    w.append(&mut p);
    proof {
        let w1 = w@;
        assert(w1 == w0 + p0);
        lemma_params_end_extend(w0, p0, 2, count, true);
        lemma_params_end_split(w1, 2, count, 1, true);
        lemma_params_end_shift(w0, p0, 0, 1, true);
        assert(w0.len() + 0 == w0.len());
    }
}

/// Compiles the component call `text[lo..hi]`, such as `give_velocity(1, 0, get_time())`:
/// `COMPONENT`, the component's code, then each parameter's encoding.
pub fn compile_call<F: Fn(&[char]) -> Option<u64>>(text: &Vec<char>, lo: usize, hi: usize, read: &F) -> (r: Result<Vec<u64>, &'static str>)
    requires
        lo <= hi <= text@.len(),
        is_reader(*read),
    ensures
        match r {
            Ok(v) => call_spec(text@, lo as int, hi as int, *read) == Ok::<Seq<u64>, &'static str>(v@),
            Err(m) => call_spec(text@, lo as int, hi as int, *read) == Err::<Seq<u64>, &'static str>(m),
        },
        r is Ok ==> one_call(r->Ok_0@),
    decreases hi - lo,
{
    if lo == hi || text[hi - 1] != ')' {
        return Err("Invalid component: Must end with close bracket");
    }
    let mut k = lo;
    while k < hi && text[k] != '('
        invariant
            lo <= k <= hi <= text@.len(),
            forall|j: int| lo <= j < k ==> text@[j] != '(' && (alphabetic(text@[j]) || text@[j] == '_'),
            find_from(text@, lo as int, hi as int, '(') == find_from(text@, k as int, hi as int, '('),
            lo < hi && text@[hi - 1] == ')',
        decreases hi - k,
    {
        if !(is_alphabetic(text[k]) || text[k] == '_') {
            proof {
                let f = find_from(text@, k as int, hi as int, '(');
                assert(f == find_from(text@, k + 1, hi as int, '('));
                lemma_find_from_bounds(text@, k + 1, hi as int, '(');
                assert(!(alphabetic(text@[k as int]) || text@[k as int] == '_'));
                assert(lo <= k < find_from(text@, lo as int, hi as int, '('));
                assert(exists|j: int| lo <= j < find_from(text@, lo as int, hi as int, '(')
                    && !(alphabetic(#[trigger] text@[j]) || text@[j] == '_'));
                assert(!(lo < 0 || hi > text@.len() || lo >= hi || text@[hi - 1] != ')'));
                assert(call_spec(text@, lo as int, hi as int, *read) == Err::<Seq<u64>, &'static str>("Invalid component: Name must be made up of letters"));
            }
            return Err("Invalid component: Name must be made up of letters");
        }
        k += 1;
    }
    proof {
        assert(find_from(text@, k as int, hi as int, '(') == k);
    }
    if k == hi {
        return Err("Invalid component: Must have opening bracket");
    }
    let code = match component_code(text, lo, k) {
        Some(c) => c,
        None => return Err("Component doesn't exist"),
    };
    proof {
        lemma_named_components_registered(text@.subrange(lo as int, k as int));
    }
    let types = match get_parameter_types(code) {
        Some(t) => t,
        None => return Err("Component doesn't exist"),
    };
    proof {
        assert(!(exists|j: int| lo <= j < find_from(text@, lo as int, hi as int, '(')
            && !(alphabetic(#[trigger] text@[j]) || text@[j] == '_')));
    }
    let parameters = collect_parameters(text, k + 1, hi - 1, &types, read)?;
    let mut words: Vec<u64> = Vec::new();
    words.push(COMPONENT);
    words.push(code);
    let ghost ps = parameters@;
    proof {
        assert(words@ =~= seq![COMPONENT, code]);
        assert(words@.subrange(2, words@.len() as int) + encode_spec(text@, ps, 0, lo as int, hi as int, *read)->Ok_0
            =~= encode_spec(text@, ps, 0, lo as int, hi as int, *read)->Ok_0);
    }
    let mut i: usize = 0;
    while i < parameters.len()
        invariant
            lo <= k < hi <= text@.len(),
            i <= parameters@.len() == types@.len() == arity(code),
            ps == parameters@,
            registered(code),
            words@.len() >= 2,
            words@[0] == COMPONENT,
            words@[1] == code,
            params_end(words@, 2, i as nat, true) == Some(words@.len() as int),
            forall|j: int| 0 <= j < parameters@.len() ==> nested_within(#[trigger] parameters@[j], k + 1, hi - 1),
            is_reader(*read),
            encode_spec(text@, ps, 0, lo as int, hi as int, *read)
                == prepend(words@.subrange(2, words@.len() as int), encode_spec(text@, ps, i as int, lo as int, hi as int, *read)),
            call_spec(text@, lo as int, hi as int, *read) == prepend(seq![COMPONENT, code], encode_spec(text@, ps, 0, lo as int, hi as int, *read)),
        decreases parameters@.len() - i,
    {
        let ghost before = words@;
        let encoded: Vec<u64> = match parameters[i] {
            Parameter::Float(bits) => {
                let e = vec![NUMBER_LITERAL, bits];
                assert(params_end(e@, 2, 0, true) == Some(2int));
                assert(e@ =~= seq![NUMBER_LITERAL, bits]);
                e
            },
            Parameter::Boolean(v) => {
                let e = if v { vec![TRUE] } else { vec![FALSE] };
                assert(params_end(e@, 1, 0, true) == Some(1int));
                assert(e@ =~= (if v { seq![TRUE] } else { seq![FALSE] }));
                e
            },
            Parameter::Component(a, b) => {
                assert(nested_within(parameters@[i as int], k + 1, hi - 1));
                let e = compile_call(text, a, b, read)?;
                if returned_kind_of(e[1]).is_none() {
                    return Err("Expected return from component");
                }
                assert((1 - 1 + arity(e@[1])) as nat == arity(e@[1]));
                e
            },
        };
        let ghost enc = encoded@;
        append_parameter(&mut words, encoded, Ghost(i as nat));
        proof {
            assert(words@[0] == before[0]);
            assert(words@[1] == before[1]);
            assert(words@.subrange(2, words@.len() as int) =~= before.subrange(2, before.len() as int) + enc);
            match encode_spec(text@, ps, i + 1, lo as int, hi as int, *read) {
                Ok(r) => {
                    assert(before.subrange(2, before.len() as int) + (enc + r)
                        =~= words@.subrange(2, words@.len() as int) + r);
                },
                Err(_) => {},
            }
        }
        i += 1;
    }
    proof {
        assert(words@ =~= seq![COMPONENT, code] + words@.subrange(2, words@.len() as int));
        assert(words@.subrange(2, words@.len() as int) + Seq::<u64>::empty() =~= words@.subrange(2, words@.len() as int));
    }
    Ok(words)
}

proof fn lemma_find_from_bounds(s: Seq<char>, lo: int, hi: int, c: char)
    requires
        lo <= hi,
    ensures
        lo <= find_from(s, lo, hi, c) <= hi,
    decreases hi - lo,
{
    if lo < hi && s[lo] != c {
        lemma_find_from_bounds(s, lo + 1, hi, c);
    }
}

/// How an operator groups with its neighbours of the same precedence.
#[derive(Clone, Copy, PartialEq, Eq, Structural, Debug)]
pub enum Direction {
    Left,
    Right,
}

/// How tightly an operator binds; an open bracket (`None`) binds least of all.
pub open spec fn precedence(op: Option<u64>) -> u64 {
    match op {
        None => 0,
        Some(o) => if o == AND || o == OR || o == XOR {
            1
        } else if o == GREATER_THAN || o == LESSER_THAN || o == EQUALS {
            2
        } else if o == ADD || o == SUBTRACT {
            3
        } else if o == MULTIPLY || o == DIVIDE {
            4
        } else if o == POWER {
            5
        } else if o == NOT {
            6
        } else {
            0
        },
    }
}

pub fn get_precedence(op: Option<u64>) -> (r: u64)
    ensures
        r == precedence(op),
{
    match op {
        None => 0,
        Some(o) => if o == AND || o == OR || o == XOR {
            1
        } else if o == GREATER_THAN || o == LESSER_THAN || o == EQUALS {
            2
        } else if o == ADD || o == SUBTRACT {
            3
        } else if o == MULTIPLY || o == DIVIDE {
            4
        } else if o == POWER {
            5
        } else if o == NOT {
            6
        } else {
            0
        },
    }
}

/// Every binary operator groups to the left; `not` to the right.
pub fn get_associative_direction(op: u64) -> (r: Direction)
    ensures
        r == (if op == NOT { Direction::Right } else { Direction::Left }),
{
    if op == NOT {
        Direction::Right
    } else {
        Direction::Left
    }
}

/// The operator that a word of a condition names.
pub open spec fn operator_named(t: Seq<char>) -> Option<u64> {
    if t == "and"@ {
        Some(AND)
    } else if t == "or"@ {
        Some(OR)
    } else if t == "not"@ {
        Some(NOT)
    } else if t == "xor"@ {
        Some(XOR)
    } else if t == "=="@ || t == "="@ {
        Some(EQUALS)
    } else if t == ">"@ {
        Some(GREATER_THAN)
    } else if t == "<"@ {
        Some(LESSER_THAN)
    } else if t == "*"@ {
        Some(MULTIPLY)
    } else if t == "/"@ {
        Some(DIVIDE)
    } else if t == "+"@ {
        Some(ADD)
    } else if t == "-"@ {
        Some(SUBTRACT)
    } else if t == "^"@ {
        Some(POWER)
    } else {
        None
    }
}

pub fn operator_code(t: &Vec<char>) -> (r: Option<u64>)
    ensures
        r == operator_named(t@),
        r is Some ==> precedence(r) >= 1,
{
    let n = t.len();
    proof {
        assert(t@.subrange(0, n as int) =~= t@);
    }
    if spells(t, 0, n, "and") {
        Some(AND)
    } else if spells(t, 0, n, "or") {
        Some(OR)
    } else if spells(t, 0, n, "not") {
        Some(NOT)
    } else if spells(t, 0, n, "xor") {
        Some(XOR)
    } else if spells(t, 0, n, "==") || spells(t, 0, n, "=") {
        Some(EQUALS)
    } else if spells(t, 0, n, ">") {
        Some(GREATER_THAN)
    } else if spells(t, 0, n, "<") {
        Some(LESSER_THAN)
    } else if spells(t, 0, n, "*") {
        Some(MULTIPLY)
    } else if spells(t, 0, n, "/") {
        Some(DIVIDE)
    } else if spells(t, 0, n, "+") {
        Some(ADD)
    } else if spells(t, 0, n, "-") {
        Some(SUBTRACT)
    } else if spells(t, 0, n, "^") {
        Some(POWER)
    } else {
        None
    }
}

/// Compiles the condition `text[lo..hi]` from infix to postfix bytecode (the shunting-yard
/// algorithm), then checks it on types alone: what it returns runs to its end and leaves
/// exactly one boolean.
/// Operators leave the holding stack for the output while the one on top binds tighter than
/// `op`, or as tightly where `op` groups to the left.
pub open spec fn pop_while(stack: Seq<Option<u64>>, out: Seq<u64>, op: u64) -> (Seq<Option<u64>>, Seq<u64>)
    decreases stack.len(),
{
    if stack.len() > 0 && stack.last() is Some && (precedence(stack.last()) > precedence(Some(op))
        || (precedence(stack.last()) == precedence(Some(op)) && op != NOT)) {
        pop_while(stack.drop_last(), out.push(stack.last()->0), op)
    } else {
        (stack, out)
    }
}

/// At a close bracket, operators leave the holding stack for the output down to the open
/// bracket, which is dropped; `None` where there is none.
pub open spec fn pop_to_open(stack: Seq<Option<u64>>, out: Seq<u64>) -> Option<(Seq<Option<u64>>, Seq<u64>)>
    decreases stack.len(),
{
    if stack.len() == 0 {
        None
    } else if stack.last() is None {
        Some((stack.drop_last(), out))
    } else {
        pop_to_open(stack.drop_last(), out.push(stack.last()->0))
    }
}

/// At the end, the operators left on the holding stack go to the output; an open bracket
/// left there is an error.
pub open spec fn flush(stack: Seq<Option<u64>>, out: Seq<u64>) -> Result<Seq<u64>, &'static str>
    decreases stack.len(),
{
    if stack.len() == 0 {
        Ok(out)
    } else if stack.last() is None {
        Err("Invalid condition")
    } else {
        flush(stack.drop_last(), out.push(stack.last()->0))
    }
}

/// The shunting-yard algorithm on tokens from the `k`-th on, with a holding stack of
/// operators (`None` for an open bracket) and the output so far.
pub open spec fn shunt<F: Fn(&[char]) -> Option<u64>>(toks: Seq<TokenView>, k: int, stack: Seq<Option<u64>>, out: Seq<u64>, read: F) -> Result<Seq<u64>, &'static str>
    decreases toks.len() - k,
{
    if k < 0 || k >= toks.len() {
        flush(stack, out)
    } else {
        let (kind, text, b) = toks[k];
        if kind == 0 {
            match operator_named(text) {
                None => Err("Invalid condition"),
                Some(op) => {
                    let (st, o) = pop_while(stack, out, op);
                    shunt(toks, k + 1, st.push(Some(op)), o, read)
                },
            }
        } else if kind == 4 {
            shunt(toks, k + 1, stack.push(None), out, read)
        } else if kind == 5 {
            match pop_to_open(stack, out) {
                None => Err("Expected opening bracket"),
                Some((st, o)) => shunt(toks, k + 1, st, o, read),
            }
        } else if kind == 2 {
            shunt(toks, k + 1, stack, out.push(if b { TRUE } else { FALSE }), read)
        } else if kind == 1 {
            match reading(read, text) {
                None => Err("Invalid condition"),
                Some(bits) => shunt(toks, k + 1, stack, out + seq![NUMBER_LITERAL, bits], read),
            }
        } else {
            match call_spec(text, 0, text.len() as int, read) {
                Err(e) => Err(e),
                Ok(w) => shunt(toks, k + 1, stack, out + w, read),
            }
        }
    }
}

/// The postfix bytecode of the condition `t[lo..hi]`, before its check on types.
pub open spec fn postfix_spec<F: Fn(&[char]) -> Option<u64>>(t: Seq<char>, lo: int, hi: int, read: F) -> Result<Seq<u64>, &'static str> {
    match lex(t, lo, hi, false, false, 0, Seq::empty()) {
        Err(e) => Err(e),
        Ok(toks) => shunt(toks, 0, Seq::empty(), Seq::empty(), read),
    }
}

pub fn compile_condition<F: Fn(&[char]) -> Option<u64>>(text: &Vec<char>, lo: usize, hi: usize, read: &F) -> (r: Result<Vec<u64>, &'static str>)
    requires
        lo <= hi <= text@.len(),
        is_reader(*read),
    ensures
        match postfix_spec(text@, lo as int, hi as int, *read) {
            Err(e) => r == Err::<Vec<u64>, &'static str>(e),
            Ok(w) => if is_condition(w, 0, w.len() as int) {
                r is Ok && r->Ok_0@ == w
            } else {
                r == Err::<Vec<u64>, &'static str>(check_message(w, 0, Seq::empty()))
            },
        },
        r is Ok ==> is_condition(r->Ok_0@, 0, r->Ok_0@.len() as int),
{
    let tokens = tokenise(text, lo, hi)?;
    let ghost toks = view_tokens(tokens@);
    let mut holding_stack: Vec<Option<u64>> = Vec::new();
    let mut output: Vec<u64> = Vec::new();
    let mut i: usize = 0;
    while i < tokens.len()
        invariant
            i <= tokens@.len(),
            is_reader(*read),
            toks == view_tokens(tokens@),
            postfix_spec(text@, lo as int, hi as int, *read) == shunt(toks, i as int, holding_stack@, output@, *read),
        decreases tokens@.len() - i,
    {
        let ghost st0 = holding_stack@;
        let ghost out0 = output@;
        assert(toks[i as int] == view_token(tokens@[i as int]));
        match &tokens[i] {
            Token::Opcode(t) => {
                let op = match operator_code(t) {
                    Some(o) => o,
                    None => return Err("Invalid condition"),
                };
                let p = get_precedence(Some(op));
                let left = get_associative_direction(op) == Direction::Left;
                while holding_stack.len() > 0
                    invariant
                        p == precedence(Some(op)),
                        left == (op != NOT),
                        pop_while(st0, out0, op) == pop_while(holding_stack@, output@, op),
                        i < tokens@.len(),
                        toks == view_tokens(tokens@),
                        toks[i as int] == view_token(tokens@[i as int]),
                        operator_named(toks[i as int].1) == Some(op),
                        toks[i as int].0 == 0,
                        postfix_spec(text@, lo as int, hi as int, *read) == shunt(toks, i as int, st0, out0, *read),
                        is_reader(*read),
                    ensures
                        pop_while(st0, out0, op) == (holding_stack@, output@),
                    decreases holding_stack@.len(),
                {
                    let top = holding_stack[holding_stack.len() - 1];
                    let q = get_precedence(top);
                    match top {
                        Some(o) => if q > p || (q == p && left) {
                            holding_stack.pop();
                            output.push(o);
                        } else {
                            break;
                        },
                        None => break,
                    }
                }
                holding_stack.push(Some(op));
            },
            Token::OpenBracket => {
                holding_stack.push(None);
            },
            Token::CloseBracket => {
                loop
                    invariant_except_break
                        pop_to_open(st0, out0) == pop_to_open(holding_stack@, output@),
                    invariant
                        i < tokens@.len(),
                        toks == view_tokens(tokens@),
                        toks[i as int] == view_token(tokens@[i as int]),
                        toks[i as int].0 == 5,
                        postfix_spec(text@, lo as int, hi as int, *read) == shunt(toks, i as int, st0, out0, *read),
                        is_reader(*read),
                    ensures
                        pop_to_open(st0, out0) == Some((holding_stack@, output@)),
                    decreases holding_stack@.len(),
                {
                    match holding_stack.pop() {
                        Some(Some(o)) => output.push(o),
                        Some(None) => break,
                        None => return Err("Expected opening bracket"),
                    }
                }
            },
            Token::Boolean(b) => {
                output.push(if *b { TRUE } else { FALSE });
            },
            Token::Number(t) => {
                proof {
                    assert(t@.subrange(0, t@.len() as int) =~= t@);
                }
                match read_range(read, t, 0, t.len()) {
                    Some(bits) => {
                        output.push(NUMBER_LITERAL);
                        output.push(bits);
                        assert(output@ =~= out0 + seq![NUMBER_LITERAL, bits]);
                    },
                    None => return Err("Invalid condition"),
                }
            },
            Token::Component(t) => {
                let mut words = compile_call(t, 0, t.len(), read)?;
                output.append(&mut words);
            },
        }
        i += 1;
    }
    loop
        invariant
            postfix_spec(text@, lo as int, hi as int, *read) == flush(holding_stack@, output@),
        ensures
            postfix_spec(text@, lo as int, hi as int, *read) == Ok::<Seq<u64>, &'static str>(output@),
        decreases holding_stack@.len(),
    {
        match holding_stack.pop() {
            Some(Some(o)) => output.push(o),
            Some(None) => return Err("Invalid condition"),
            None => break,
        }
    }
    test_logic(&output)?;
    Ok(output)
}

/// Whether `s` holds the character `c`.
pub open spec fn holds(s: Seq<char>, c: char) -> bool {
    exists|i: int| 0 <= i < s.len() && s[i] == c
}

/// The first index at or after `lo` (before `hi`) of the character `c`, or `hi`.
pub open spec fn find_from(s: Seq<char>, lo: int, hi: int, c: char) -> int
    decreases hi - lo,
{
    if lo < hi && s[lo] != c {
        find_from(s, lo + 1, hi, c)
    } else {
        lo
    }
}

pub fn find(text: &Vec<char>, lo: usize, hi: usize, c: char) -> (r: usize)
    requires
        lo <= hi <= text@.len(),
    ensures
        r as int == find_from(text@, lo as int, hi as int, c),
        lo <= r <= hi,
        r < hi ==> text@[r as int] == c,
        forall|j: int| lo <= j < r ==> text@[j] != c,
{
    let mut i = lo;
    while i < hi && text[i] != c
        invariant
            lo <= i <= hi <= text@.len(),
            forall|j: int| lo <= j < i ==> text@[j] != c,
            find_from(text@, lo as int, hi as int, c) == find_from(text@, i as int, hi as int, c),
        decreases hi - i,
    {
        i += 1;
    }
    i
}

/// The values of a comma-separated list, `t[start..end]`, each read by `read_single`;
/// `None` where one does not read.
pub open spec fn color_values<G: Fn(&[char]) -> Option<u64>>(t: Seq<char>, start: int, end: int, read_single: G) -> Option<Seq<u64>>
    decreases end - start,
{
    let c = find_from(t, start, end, ',');
    let (pa, pb) = trimmed(t, start, c);
    match reading(read_single, t.subrange(pa, pb)) {
        None => None,
        Some(b) => if c >= end || c < start {
            Some(seq![b])
        } else {
            match color_values(t, c + 1, end, read_single) {
                Some(rest) => Some(seq![b] + rest),
                None => None,
            }
        },
    }
}

/// What compiling the about line `t[lo..hi]` gives.
pub open spec fn about_spec<G: Fn(&[char]) -> Option<u64>>(t: Seq<char>, lo: int, hi: int, read_single: G) -> Result<Seq<u64>, &'static str> {
    let e = find_from(t, lo, hi, '=');
    let (na, nb) = trimmed(t, lo, e);
    let (va, vb) = trimmed(t, e + 1, hi);
    if e >= hi {
        Err("There must be an equals sign in an about line")
    } else if !(t.subrange(na, nb) == "colour"@ || t.subrange(na, nb) == "color"@) {
        Err("Unkown attribute: undefined attribute")
    } else if vb - va < 2 || t[va] != '[' || t[vb - 1] != ']' {
        Err("Invalid parameters: should be a list and have \"[\" \"]\"")
    } else {
        match color_values(t, va + 1, vb - 1, read_single) {
            None => Err("Invalid parameters: should be floating point numbers (with decimal point)"),
            Some(v) => if v.len() != 3 {
                Err("Invalid number of arguments: color attribute only has 3 values")
            } else if !(unit_value(v[0]) && unit_value(v[1]) && unit_value(v[2])) {
                Err("Invalid values: arguments should be between 0 and 1")
            } else {
                Ok(seq![COLOR] + v)
            },
        }
    }
}

/// Prefixes the values read so far to what the rest of a list gives.
pub open spec fn prefixed(v: Seq<u64>, rest: Option<Seq<u64>>) -> Option<Seq<u64>> {
    match rest {
        Some(r) => Some(v + r),
        None => None,
    }
}

/// Compiles the about line `text[lo..hi]`, `color = [r, g, b]` (or `colour`): the colour
/// attribute code, then the three components, each read as a 32-bit float and widened to
/// 64 bits, each between 0 and 1.
pub fn about_line<G: Fn(&[char]) -> Option<u64>>(text: &Vec<char>, lo: usize, hi: usize, read_single: &G) -> (r: Result<Vec<u64>, &'static str>)
    requires
        lo <= hi <= text@.len(),
        is_reader(*read_single),
    ensures
        match r {
            Ok(v) => about_spec(text@, lo as int, hi as int, *read_single) == Ok::<Seq<u64>, &'static str>(v@),
            Err(m) => about_spec(text@, lo as int, hi as int, *read_single) == Err::<Seq<u64>, &'static str>(m),
        },
        !holds(text@.subrange(lo as int, hi as int), '=') ==> r is Err,
        r is Ok ==> r->Ok_0@.len() == 4 && r->Ok_0@[0] == COLOR,
        r is Ok ==> forall|k: int| 1 <= k < 4 ==> float_le(0, #[trigger] r->Ok_0@[k]) && float_le(r->Ok_0@[k], ONE_BITS),
{
    let e = find(text, lo, hi, '=');
    if e == hi {
        assert forall|i: int| 0 <= i < hi - lo implies text@.subrange(lo as int, hi as int)[i] != '=' by {
            assert(text@.subrange(lo as int, hi as int)[i] == text@[lo + i]);
        }
        return Err("There must be an equals sign in an about line");
    }
    let (na, nb) = trim(text, lo, e);
    if !(spells(text, na, nb, "colour") || spells(text, na, nb, "color")) {
        return Err("Unkown attribute: undefined attribute");
    }
    let (va, vb) = trim(text, e + 1, hi);
    if vb - va < 2 || text[va] != '[' || text[vb - 1] != ']' {
        return Err("Invalid parameters: should be a list and have \"[\" \"]\"");
    }
    let (la, lb) = (va + 1, vb - 1);
    let mut values: Vec<u64> = Vec::new();
    let mut start = la;
    assert(text@.subrange(lo as int, hi as int)[e - lo] == '=');
    let ghost spec = about_spec(text@, lo as int, hi as int, *read_single);
    assert(values@ + Seq::<u64>::empty() =~= values@);
    loop
        invariant_except_break
            color_values(text@, la as int, lb as int, *read_single) == prefixed(values@, color_values(text@, start as int, lb as int, *read_single)),
        invariant
            la <= start <= lb <= text@.len(),
            is_reader(*read_single),
            holds(text@.subrange(lo as int, hi as int), '='),
            spec == about_spec(text@, lo as int, hi as int, *read_single),
            spec == match color_values(text@, la as int, lb as int, *read_single) {
                None => Err("Invalid parameters: should be floating point numbers (with decimal point)"),
                Some(v) => if v.len() != 3 {
                    Err("Invalid number of arguments: color attribute only has 3 values")
                } else if !(unit_value(v[0]) && unit_value(v[1]) && unit_value(v[2])) {
                    Err("Invalid values: arguments should be between 0 and 1")
                } else {
                    Ok(seq![COLOR] + v)
                },
            },
        ensures
            color_values(text@, la as int, lb as int, *read_single) == Some(values@),
        decreases lb - start,
    {
        let c = find(text, start, lb, ',');
        let (pa, pb) = trim(text, start, c);
        let ghost old_values = values@;
        match read_range(read_single, text, pa, pb) {
            Some(bits) => values.push(bits),
            None => return Err("Invalid parameters: should be floating point numbers (with decimal point)"),
        }
        if c == lb {
            proof {
                assert(old_values + seq![values@.last()] =~= values@);
            }
            break;
        }
        proof {
            let rest = color_values(text@, c + 1, lb as int, *read_single);
            match rest {
                Some(r) => {
                    assert(old_values + (seq![values@.last()] + r) =~= values@ + r);
                },
                None => {},
            }
        }
        start = c + 1;
    }
    if values.len() != 3 {
        return Err("Invalid number of arguments: color attribute only has 3 values");
    }
    let mut k: usize = 0;
    while k < 3
        invariant
            values@.len() == 3,
            k <= 3,
            holds(text@.subrange(lo as int, hi as int), '='),
            spec == about_spec(text@, lo as int, hi as int, *read_single),
            spec == (if !(unit_value(values@[0]) && unit_value(values@[1]) && unit_value(values@[2])) {
                Err::<Seq<u64>, &'static str>("Invalid values: arguments should be between 0 and 1")
            } else {
                Ok(seq![COLOR] + values@)
            }),
            forall|j: int| 0 <= j < k ==> float_le(0, #[trigger] values@[j]) && float_le(values@[j], ONE_BITS),
        decreases 3 - k,
    {
        if !(at_most(0, values[k]) && at_most(values[k], ONE_BITS)) {
            return Err("Invalid values: arguments should be between 0 and 1");
        }
        k += 1;
    }
    let r = vec![COLOR, values[0], values[1], values[2]];
    assert(r@ =~= seq![COLOR] + values@);
    Ok(r)
}

/// Compiles one line of an about section, such as `color = [0.4, 0, 0.8]`; `read_single`
/// reads a number as a 32-bit float and gives the bit pattern of its 64-bit widening.
pub fn parse_about_line<G: Fn(&[char]) -> Option<u64>>(equation: &str, read_single: &G) -> (r: Result<Vec<u64>, &'static str>)
    requires
        is_reader(*read_single),
    ensures
        match r {
            Ok(v) => about_spec(equation@, 0, equation@.len() as int, *read_single) == Ok::<Seq<u64>, &'static str>(v@),
            Err(m) => about_spec(equation@, 0, equation@.len() as int, *read_single) == Err::<Seq<u64>, &'static str>(m),
        },
        !holds(equation@, '=') ==> r is Err,
        r is Ok ==> r->Ok_0@.len() == 4 && r->Ok_0@[0] == COLOR,
        r is Ok ==> forall|k: int| 1 <= k < 4 ==> float_le(0, #[trigger] r->Ok_0@[k]) && float_le(r->Ok_0@[k], ONE_BITS),
{
    let text = to_chars(equation);
    proof {
        assert(text@.subrange(0, text@.len() as int) =~= equation@);
    }
    about_line(&text, 0, text.len(), read_single)
}

/// Compiles a component call, such as `give_velocity(1, 0, get_time())`.
pub fn parse_component<F: Fn(&[char]) -> Option<u64>>(component_call: &str, read: &F) -> (r: Result<Vec<u64>, &'static str>)
    requires
        is_reader(*read),
    ensures
        match r {
            Ok(v) => call_spec(component_call@, 0, component_call@.len() as int, *read) == Ok::<Seq<u64>, &'static str>(v@),
            Err(m) => call_spec(component_call@, 0, component_call@.len() as int, *read) == Err::<Seq<u64>, &'static str>(m),
        },
        r is Ok ==> one_call(r->Ok_0@),
{
    let text = to_chars(component_call);
    proof {
        assert(text@.subrange(0, text@.len() as int) =~= component_call@);
    }
    compile_call(&text, 0, text.len(), read)
}

/// Compiles a condition, such as `true and false or true`, to postfix bytecode; what it
/// returns runs to its end and leaves exactly one boolean.
pub fn parse_logic<F: Fn(&[char]) -> Option<u64>>(conditions: &str, read: &F) -> (r: Result<Vec<u64>, &'static str>)
    requires
        is_reader(*read),
    ensures
        match postfix_spec(conditions@, 0, conditions@.len() as int, *read) {
            Err(e) => r == Err::<Vec<u64>, &'static str>(e),
            Ok(w) => if is_condition(w, 0, w.len() as int) {
                r is Ok && r->Ok_0@ == w
            } else {
                r == Err::<Vec<u64>, &'static str>(check_message(w, 0, Seq::empty()))
            },
        },
        r is Ok ==> is_condition(r->Ok_0@, 0, r->Ok_0@.len() as int),
{
    let text = to_chars(conditions);
    compile_condition(&text, 0, text.len(), read)
}

/// The section the compiler is in.
#[derive(Clone, Copy, PartialEq, Eq, Structural, Debug)]
pub enum Section {
    Outside,
    Code,
    About,
}

/// Whether `t[lo..hi]` is a section header: it ends in `:`, and letters, digits,
/// underscores and spaces come before.
pub open spec fn header_line(t: Seq<char>, lo: int, hi: int) -> bool {
    &&& lo < hi
    &&& t[hi - 1] == ':'
    &&& forall|j: int| lo <= j < hi - 1 ==> alphanumeric(#[trigger] t[j]) || t[j] == '_' || t[j] == ' '
}

fn is_header(text: &Vec<char>, lo: usize, hi: usize) -> (r: bool)
    requires
        lo <= hi <= text@.len(),
    ensures
        r == header_line(text@, lo as int, hi as int),
{
    if lo == hi || text[hi - 1] != ':' {
        return false;
    }
    let mut i = lo;
    while i < hi - 1
        invariant
            lo <= i <= hi - 1,
            hi <= text@.len(),
            forall|j: int| lo <= j < i ==> alphanumeric(#[trigger] text@[j]) || text@[j] == '_' || text@[j] == ' ',
        decreases hi - 1 - i,
    {
        let c = text[i];
        if !(is_alphanumeric(c) || c == '_' || c == ' ') {
            return false;
        }
        i += 1;
    }
    true
}

/// The end of the word that starts at `i`: the first white space at or after it, or `hi`.
pub open spec fn word_stop(t: Seq<char>, i: int, hi: int) -> int
    decreases hi - i,
{
    if 0 <= i < hi && !white_space(t[i]) {
        word_stop(t, i + 1, hi)
    } else {
        i
    }
}

/// The bounds of the words of `t[i..hi]`, split on white space.
pub open spec fn words_of(t: Seq<char>, i: int, hi: int) -> Seq<(int, int)>
    decreases hi - i,
{
    if i < 0 || i >= hi {
        Seq::empty()
    } else if white_space(t[i]) {
        words_of(t, i + 1, hi)
    } else {
        let e = word_stop(t, i, hi);
        if e <= i || e > hi {
            Seq::empty()
        } else {
            seq![(i, e)] + words_of(t, e, hi)
        }
    }
}

proof fn lemma_word_stop_bounds(t: Seq<char>, i: int, hi: int)
    requires
        0 <= i <= hi,
    ensures
        i <= word_stop(t, i, hi) <= hi,
    decreases hi - i,
{
    if i < hi && !white_space(t[i]) {
        lemma_word_stop_bounds(t, i + 1, hi);
    }
}

fn scan_word_stop(text: &Vec<char>, i: usize, hi: usize) -> (r: usize)
    requires
        i <= hi <= text@.len(),
    ensures
        r as int == word_stop(text@, i as int, hi as int),
        i <= r <= hi,
    decreases hi - i,
{
    if i < hi && !is_white_space(text[i]) {
        scan_word_stop(text, i + 1, hi)
    } else {
        i
    }
}

pub open spec fn bounds_view(v: Seq<(usize, usize)>) -> Seq<(int, int)> {
    v.map_values(|b: (usize, usize)| (b.0 as int, b.1 as int))
}

/// The words of `text[lo..hi]`, split on white space, as bounds.
fn split_words(text: &Vec<char>, lo: usize, hi: usize) -> (r: Vec<(usize, usize)>)
    requires
        lo <= hi <= text@.len(),
    ensures
        bounds_view(r@) == words_of(text@, lo as int, hi as int),
        forall|k: int| 0 <= k < r@.len() ==> lo <= (#[trigger] r@[k]).0 < r@[k].1 <= hi,
{
    let mut words: Vec<(usize, usize)> = Vec::new();
    let mut i = lo;
    proof {
        assert(bounds_view(words@) + words_of(text@, lo as int, hi as int) =~= words_of(text@, lo as int, hi as int));
    }
    while i < hi
        invariant
            lo <= i <= hi <= text@.len(),
            forall|k: int| 0 <= k < words@.len() ==> lo <= (#[trigger] words@[k]).0 < words@[k].1 <= hi,
            words_of(text@, lo as int, hi as int) == bounds_view(words@) + words_of(text@, i as int, hi as int),
        decreases hi - i,
    {
        if is_white_space(text[i]) {
            i += 1;
        } else {
            let e = scan_word_stop(text, i, hi);
            proof {
                assert(word_stop(text@, i as int, hi as int) == word_stop(text@, i + 1, hi as int));
                lemma_word_stop_bounds(text@, i + 1, hi as int);
            }
            let ghost before = words@;
            words.push((i, e));
            proof {
                assert(bounds_view(words@) =~= bounds_view(before) + seq![(i as int, e as int)]);
                assert(bounds_view(before) + (seq![(i as int, e as int)] + words_of(text@, e as int, hi as int))
                    =~= bounds_view(words@) + words_of(text@, e as int, hi as int));
            }
            i = e;
        }
    }
    proof {
        assert(bounds_view(words@) + Seq::<(int, int)>::empty() =~= bounds_view(words@));
    }
    words
}

/// What the section header `t[lo..hi]` (without its `:`) compiles to, and the section it opens.
pub open spec fn header_spec<F: Fn(&[char]) -> Option<u64>>(t: Seq<char>, lo: int, hi: int, read: F) -> Result<(Seq<u64>, Section), &'static str> {
    let ws = words_of(t, lo, hi);
    let word = |k: int| t.subrange(ws[k].0, ws[k].1);
    if ws.len() == 1 && word(0) == "when_created"@ {
        Ok((seq![READY_SECTION], Section::Code))
    } else if ws.len() == 1 && word(0) == "repeat"@ {
        Ok((seq![PROCESS_SECTION, NUMBER_LITERAL, ONE_BITS], Section::Code))
    } else if ws.len() == 1 && word(0) == "about"@ {
        Ok((seq![METADATA_SECTION], Section::About))
    } else if ws.len() == 3 && word(0) == "repeat"@ && word(1) == "every"@ {
        if !is_u64_text(word(2)) {
            Err("Invalid value found after keyword \"every\"")
        } else {
            match reading(read, word(2)) {
                Some(bits) => Ok((seq![PROCESS_SECTION, NUMBER_LITERAL, bits], Section::Code)),
                None => Err("Invalid value found after keyword \"every\""),
            }
        }
    } else {
        Err("Invalid section name")
    }
}

/// Compiles a section header, `text[lo..hi]` without its `:`, to its words.
fn parse_header<F: Fn(&[char]) -> Option<u64>>(text: &Vec<char>, lo: usize, hi: usize, read: &F) -> (r: Result<(Vec<u64>, Section), &'static str>)
    requires
        lo <= hi <= text@.len(),
        is_reader(*read),
    ensures
        match r {
            Ok((w, s)) => header_spec(text@, lo as int, hi as int, *read) == Ok::<(Seq<u64>, Section), &'static str>((w@, s)),
            Err(m) => header_spec(text@, lo as int, hi as int, *read) == Err::<(Seq<u64>, Section), &'static str>(m),
        },
{
    let words = split_words(text, lo, hi);
    let ghost ws = words_of(text@, lo as int, hi as int);
    proof {
        assert(ws.len() == words@.len());
        assert forall|k: int| 0 <= k < ws.len() implies ws[k] == (words@[k].0 as int, words@[k].1 as int) by {
            assert(bounds_view(words@)[k] == (words@[k].0 as int, words@[k].1 as int));
        }
    }
    if words.len() == 1 {
        let (a, b) = words[0];
        if spells(text, a, b, "when_created") {
            let w = vec![READY_SECTION];
            assert(w@ =~= seq![READY_SECTION]);
            return Ok((w, Section::Code));
        } else if spells(text, a, b, "repeat") {
            let w = vec![PROCESS_SECTION, NUMBER_LITERAL, ONE_BITS];
            assert(w@ =~= seq![PROCESS_SECTION, NUMBER_LITERAL, ONE_BITS]);
            return Ok((w, Section::Code));
        } else if spells(text, a, b, "about") {
            let w = vec![METADATA_SECTION];
            assert(w@ =~= seq![METADATA_SECTION]);
            return Ok((w, Section::About));
        }
    } else if words.len() == 3 {
        let (a, b) = words[0];
        let (c, d) = words[1];
        let (e, f) = words[2];
        if spells(text, a, b, "repeat") && spells(text, c, d, "every") {
            if !check_u64_text(text, e, f) {
                return Err("Invalid value found after keyword \"every\"");
            }
            return match read_range(read, text, e, f) {
                Some(bits) => {
                    let w = vec![PROCESS_SECTION, NUMBER_LITERAL, bits];
                    assert(w@ =~= seq![PROCESS_SECTION, NUMBER_LITERAL, bits]);
                    Ok((w, Section::Code))
                },
                None => Err("Invalid value found after keyword \"every\""),
            };
        }
    }
    Err("Invalid section name")
}

/// A colour value: a number from 0 to 1.
pub open spec fn unit_value(x: u64) -> bool {
    float_le(0, x) && float_le(x, ONE_BITS)
}

/// Walks compiled words from `pos`, with `open` `if` blocks open, in section `s`: the state
/// at the end of the words, or `None` where a word does not fit. A section starts with its
/// word (a `repeat` section's also carries its frequency as a number literal), and only
/// where every block of the section before is closed, so that each section's code closes
/// its own blocks; an about
/// section holds colour attributes; a code section holds component calls, `IF` with a
/// condition that leaves one boolean and its end-of-scope word (opening a block), and the
/// end-of-scope words that close blocks.
pub open spec fn program_walk(w: Seq<u64>, pos: int, open: nat, s: Section) -> Option<(nat, Section)>
    decreases w.len() - pos,
{
    if pos < 0 || pos > w.len() {
        None
    } else if pos == w.len() {
        Some((open, s))
    } else if s == Section::About && w[pos] == COLOR {
        if pos + 3 < w.len() && unit_value(w[pos + 1]) && unit_value(w[pos + 2]) && unit_value(w[pos + 3]) {
            program_walk(w, pos + 4, open, Section::About)
        } else {
            None
        }
    } else if (w[pos] == READY_SECTION || w[pos] == PROCESS_SECTION || w[pos] == METADATA_SECTION) && open > 0 {
        None
    } else if w[pos] == READY_SECTION {
        program_walk(w, pos + 1, open, Section::Code)
    } else if w[pos] == PROCESS_SECTION {
        if pos + 2 < w.len() && w[pos + 1] == NUMBER_LITERAL {
            program_walk(w, pos + 3, open, Section::Code)
        } else {
            None
        }
    } else if w[pos] == METADATA_SECTION {
        program_walk(w, pos + 1, open, Section::About)
    } else if s != Section::Code {
        None
    } else if w[pos] == COMPONENT {
        match component_end(w, pos, true) {
            Some(e) => if pos < e <= w.len() {
                program_walk(w, e, open, Section::Code)
            } else {
                None
            },
            None => None,
        }
    } else if w[pos] == IF {
        match stack_after(w, pos + 1, Seq::empty()) {
            Some((st, c)) => if st == seq![Kind::Boolean] && pos < c < w.len() && w[c] == END_OF_SCOPE {
                program_walk(w, c + 1, open + 1, Section::Code)
            } else {
                None
            },
            None => None,
        }
    } else if w[pos] == END_OF_SCOPE {
        if open > 0 {
            program_walk(w, pos + 1, (open - 1) as nat, Section::Code)
        } else {
            None
        }
    } else {
        None
    }
}

/// A compiled program: its words walk through, and every `if` block is closed.
pub open spec fn is_program(w: Seq<u64>) -> bool {
    &&& program_walk(w, 0, 0, Section::Outside) is Some
    &&& (program_walk(w, 0, 0, Section::Outside)->0).0 == 0
}

proof fn lemma_walk_extend(w: Seq<u64>, y: Seq<u64>, pos: int, open: nat, s: Section)
    requires
        program_walk(w, pos, open, s) is Some,
    ensures
        program_walk(w + y, pos, open, s) == program_walk(w + y, w.len() as int,
            (program_walk(w, pos, open, s)->0).0, (program_walk(w, pos, open, s)->0).1),
    decreases w.len() - pos,
{
    let wy = w + y;
    if pos < w.len() {
        assert(wy[pos] == w[pos]);
        if s == Section::About && w[pos] == COLOR {
            assert(wy[pos + 1] == w[pos + 1] && wy[pos + 2] == w[pos + 2] && wy[pos + 3] == w[pos + 3]);
            lemma_walk_extend(w, y, pos + 4, open, Section::About);
        } else if w[pos] == READY_SECTION {
            lemma_walk_extend(w, y, pos + 1, open, Section::Code);
        } else if w[pos] == PROCESS_SECTION {
            assert(wy[pos + 1] == w[pos + 1]);
            lemma_walk_extend(w, y, pos + 3, open, Section::Code);
        } else if w[pos] == METADATA_SECTION {
            lemma_walk_extend(w, y, pos + 1, open, Section::About);
        } else if w[pos] == COMPONENT {
            assert(wy[pos + 1] == w[pos + 1]);
            lemma_params_end_extend(w, y, pos + 2, arity(w[pos + 1]), true);
            lemma_walk_extend(w, y, component_end(w, pos, true)->0, open, Section::Code);
        } else if w[pos] == IF {
            lemma_stack_after_extend(w, y, pos + 1, Seq::empty());
            let c = (stack_after(w, pos + 1, Seq::empty())->0).1;
            assert(wy[c] == w[c]);
            lemma_walk_extend(w, y, c + 1, open + 1, Section::Code);
        } else {
            lemma_walk_extend(w, y, pos + 1, (open - 1) as nat, Section::Code);
        }
    }
}

proof fn lemma_walk_shift(x: Seq<u64>, w: Seq<u64>, pos: int, open: nat, s: Section)
    requires
        0 <= pos <= w.len(),
    ensures
        program_walk(x + w, x.len() + pos, open, s) == program_walk(w, pos, open, s),
    decreases w.len() - pos,
{
    let xw = x + w;
    let q = x.len() + pos;
    if pos < w.len() {
        assert(xw[q] == w[pos]);
        if s == Section::About && w[pos] == COLOR {
            if pos + 3 < w.len() {
                assert(xw[q + 1] == w[pos + 1] && xw[q + 2] == w[pos + 2] && xw[q + 3] == w[pos + 3]);
                lemma_walk_shift(x, w, pos + 4, open, Section::About);
            }
        } else if w[pos] == READY_SECTION {
            lemma_walk_shift(x, w, pos + 1, open, Section::Code);
        } else if w[pos] == PROCESS_SECTION {
            if pos + 2 < w.len() {
                assert(xw[q + 1] == w[pos + 1]);
                lemma_walk_shift(x, w, pos + 3, open, Section::Code);
            }
        } else if w[pos] == METADATA_SECTION {
            lemma_walk_shift(x, w, pos + 1, open, Section::About);
        } else if s != Section::Code {
        } else if w[pos] == COMPONENT {
            if pos + 1 < w.len() {
                assert(xw[q + 1] == w[pos + 1]);
                lemma_params_end_shift(x, w, pos + 2, arity(w[pos + 1]), true);
                assert(q + 2 == x.len() + (pos + 2));
                match component_end(w, pos, true) {
                    Some(e) => if pos < e <= w.len() {
                        lemma_walk_shift(x, w, e, open, Section::Code);
                    },
                    None => {},
                }
            }
        } else if w[pos] == IF {
            lemma_stack_after_shift(x, w, pos + 1, Seq::empty());
            assert(q + 1 == x.len() + (pos + 1));
            match stack_after(w, pos + 1, Seq::empty()) {
                Some((st, c)) => if pos < c < w.len() {
                    assert(xw[x.len() + c] == w[c]);
                    lemma_walk_shift(x, w, c + 1, open + 1, Section::Code);
                },
                None => {},
            }
        } else if w[pos] == END_OF_SCOPE {
            if open > 0 {
                lemma_walk_shift(x, w, pos + 1, (open - 1) as nat, Section::Code);
            }
        }
    }
}

/// Walking `w` then `c` is walking `c` from the state `w` ends in.
proof fn lemma_walk_append(w: Seq<u64>, c: Seq<u64>)
    requires
        program_walk(w, 0, 0, Section::Outside) is Some,
    ensures
        program_walk(w + c, 0, 0, Section::Outside) == program_walk(c, 0,
            (program_walk(w, 0, 0, Section::Outside)->0).0, (program_walk(w, 0, 0, Section::Outside)->0).1),
{
    lemma_walk_extend(w, c, 0, 0, Section::Outside);
    lemma_walk_shift(w, c, 0, (program_walk(w, 0, 0, Section::Outside)->0).0, (program_walk(w, 0, 0, Section::Outside)->0).1);
    assert(w.len() + 0 == w.len());
}

/// A result with `v` put in front of the words it holds.
pub open spec fn prepend_words(v: Seq<u64>, r: Result<Seq<u64>, Option<&'static str>>) -> Result<Seq<u64>, Option<&'static str>> {
    match r {
        Ok(s) => Ok(v + s),
        Err(e) => Err(e),
    }
}

/// What compiling the trimmed line `t[a..b]` gives in section `s` with `open` blocks open:
/// its words, the section after it and the number of blocks open after it; or why it fails.
pub open spec fn line_spec<F: Fn(&[char]) -> Option<u64>, G: Fn(&[char]) -> Option<u64>>(t: Seq<char>, a: int, b: int, s: Section, open: nat, read: F, read_single: G) -> Result<(Seq<u64>, Section, nat), Option<&'static str>> {
    if header_line(t, a, b) && open > 0 {
        Err(Some("Expected closing bracket(s)"))
    } else if header_line(t, a, b) {
        match header_spec(t, a, b - 1, read) {
            Ok((w, s2)) => Ok((w, s2, open)),
            Err(e) => Err(Some(e)),
        }
    } else if s == Section::Outside {
        Err(Some("Must begin with section statement"))
    } else if s == Section::About {
        if find_from(t, a, b, '=') < b {
            match about_spec(t, a, b, read_single) {
                Ok(w) => Ok((w, Section::About, open)),
                Err(e) => Err(Some(e)),
            }
        } else if a < b {
            Err(Some("Expected attribute in about section"))
        } else {
            Ok((Seq::empty(), Section::About, open))
        }
    } else if a < b && t[b - 1] == ')' {
        match call_spec(t, a, b, read) {
            Ok(w) => Ok((w, Section::Code, open)),
            Err(e) => Err(Some(e)),
        }
    } else if b - a >= 4 && t.subrange(a, a + 3) == "if "@ && t[b - 1] == '{' {
        match postfix_spec(t, a + 3, b - 1, read) {
            Err(e) => Err(Some(e)),
            Ok(c) => if is_condition(c, 0, c.len() as int) {
                Ok((seq![IF] + c + seq![END_OF_SCOPE], Section::Code, open + 1))
            } else {
                Err(Some(check_message(c, 0, Seq::empty())))
            },
        }
    } else if open > 0 && b - a == 1 && t[a] == '}' {
        Ok((seq![END_OF_SCOPE], Section::Code, (open - 1) as nat))
    } else if a < b {
        Err(Some("Not acceptable statement"))
    } else {
        Ok((Seq::empty(), s, open))
    }
}

/// What compiling the lines of `t[start..hi]` gives, line by line, in section `s` with
/// `open` blocks open; every block must be closed at the end.
pub open spec fn script_spec<F: Fn(&[char]) -> Option<u64>, G: Fn(&[char]) -> Option<u64>>(t: Seq<char>, start: int, hi: int, s: Section, open: nat, read: F, read_single: G) -> Result<Seq<u64>, Option<&'static str>>
    decreases hi - start,
{
    let end = find_from(t, start, hi, '\n');
    let (a, b) = trimmed(t, start, end);
    if start < 0 || start > hi || end < start || end > hi {
        Err(None)
    } else {
        match line_spec(t, a, b, s, open, read, read_single) {
            Err(e) => Err(e),
            Ok((w, s2, o2)) => if end >= hi {
                if o2 == 0 {
                    Ok(w)
                } else {
                    Err(Some("Expected closing bracket(s)"))
                }
            } else {
                prepend_words(w, script_spec(t, end + 1, hi, s2, o2, read, read_single))
            },
        }
    }
}

/// What compiling a spell script gives.
pub open spec fn spell_spec<F: Fn(&[char]) -> Option<u64>, G: Fn(&[char]) -> Option<u64>>(code: Seq<char>, read: F, read_single: G) -> Result<Seq<u64>, Option<&'static str>> {
    let (lo, hi) = trimmed(code, 0, code.len() as int);
    if lo >= hi {
        Ok(Seq::empty())
    } else {
        script_spec(code, lo, hi, Section::Outside, 0, read, read_single)
    }
}

/// Compiles one trimmed line, `text[a..b]`, in section `section` with `open` blocks open:
/// its words, the section after it and the number of blocks open after it.
fn compile_line<F: Fn(&[char]) -> Option<u64>, G: Fn(&[char]) -> Option<u64>>(text: &Vec<char>, a: usize, b: usize, section: Section, open: usize, read: &F, read_single: &G) -> (r: Result<(Vec<u64>, Section, usize), &'static str>)
    requires
        a <= b <= text@.len(),
        open <= a,
        is_reader(*read),
        is_reader(*read_single),
    ensures
        match line_spec(text@, a as int, b as int, section, open as nat, *read, *read_single) {
            Ok((w, s2, o2)) => r is Ok && r->Ok_0.0@ == w && r->Ok_0.1 == s2 && r->Ok_0.2 == o2,
            Err(Some(m)) => r == Err::<(Vec<u64>, Section, usize), &'static str>(m),
            Err(None) => r is Err,
        },
        r is Ok ==> program_walk(r->Ok_0.0@, 0, open as nat, section) == Some((r->Ok_0.2 as nat, r->Ok_0.1)),
        r is Ok ==> r->Ok_0.2 <= b,
{
    if is_header(text, a, b) {
        if open > 0 {
            return Err("Expected closing bracket(s)");
        }
        let (words, s) = parse_header(text, a, b - 1, read)?;
        proof {
            if words@.len() == 3 {
                assert(program_walk(words@, 3, open as nat, s) == Some((open as nat, s)));
            } else {
                assert(program_walk(words@, 1, open as nat, s) == Some((open as nat, s)));
            }
        }
        Ok((words, s, open))
    } else if section == Section::Outside {
        Err("Must begin with section statement")
    } else if section == Section::About {
        if find(text, a, b, '=') < b {
            let words = about_line(text, a, b, read_single)?;
            proof {
                assert(program_walk(words@, 4, open as nat, Section::About) == Some((open as nat, Section::About)));
            }
            Ok((words, Section::About, open))
        } else if a < b {
            Err("Expected attribute in about section")
        } else {
            Ok((Vec::new(), Section::About, open))
        }
    } else if a < b && text[b - 1] == ')' {
        let words = compile_call(text, a, b, read)?;
        proof {
            assert(program_walk(words@, words@.len() as int, open as nat, Section::Code) == Some((open as nat, Section::Code)));
        }
        Ok((words, Section::Code, open))
    } else if b - a >= 4 && spells(text, a, a + 3, "if ") && text[b - 1] == '{' {
        let mut condition = compile_condition(text, a + 3, b - 1, read)?;
        let ghost cond = condition@;
        let mut words: Vec<u64> = Vec::new();
        words.push(IF);
        words.append(&mut condition);
        words.push(END_OF_SCOPE);
        proof {
            let tail = cond + seq![END_OF_SCOPE];
            assert(words@ =~= seq![IF] + tail);
            assert(words@ =~= seq![IF] + cond + seq![END_OF_SCOPE]);
            lemma_stack_after_extend(cond, seq![END_OF_SCOPE], 0, Seq::empty());
            lemma_stack_after_shift(seq![IF], tail, 0, Seq::empty());
            assert(words@[cond.len() as int + 1] == END_OF_SCOPE);
            assert(program_walk(words@, words@.len() as int, open as nat + 1, Section::Code)
                == Some((open as nat + 1, Section::Code)));
        }
        Ok((words, Section::Code, open + 1))
    } else if open > 0 && b - a == 1 && text[a] == '}' {
        let words: Vec<u64> = vec![END_OF_SCOPE];
        proof {
            assert(words@ =~= seq![END_OF_SCOPE]);
            assert(program_walk(words@, 1, (open - 1) as nat, Section::Code)
                == Some(((open - 1) as nat, Section::Code)));
        }
        Ok((words, Section::Code, open - 1))
    } else if a < b {
        Err("Not acceptable statement")
    } else {
        let words: Vec<u64> = Vec::new();
        proof {
            assert(program_walk(words@, 0, open as nat, section) == Some((open as nat, section)));
        }
        Ok((words, section, open))
    }
}

/// Compiles a spell script: its sections (`when_created:`, `repeat:`, `repeat every N:`,
/// `about:`), and in them component calls, `if <condition> {` ... `}` blocks, and about
/// lines. `read` reads a number as a 64-bit float, `read_single` as a 32-bit one (widened);
/// each gives the bit pattern. What it returns is a well-formed program.
pub fn parse_spell<F: Fn(&[char]) -> Option<u64>, G: Fn(&[char]) -> Option<u64>>(spell_code: &str, read: &F, read_single: &G) -> (r: Result<Vec<u64>, &'static str>)
    requires
        is_reader(*read),
        is_reader(*read_single),
    ensures
        match spell_spec(spell_code@, *read, *read_single) {
            Ok(w) => r is Ok && r->Ok_0@ == w,
            Err(Some(m)) => r == Err::<Vec<u64>, &'static str>(m),
            Err(None) => r is Err,
        },
        r is Ok ==> is_program(r->Ok_0@),
{
    let text = to_chars(spell_code);
    let (lo, hi) = trim(&text, 0, text.len());
    let mut instructions: Vec<u64> = Vec::new();
    if lo == hi {
        return Ok(instructions);
    }
    let mut section = Section::Outside;
    let mut open_blocks: usize = 0;
    let mut start = lo;
    proof {
        match script_spec(text@, lo as int, hi as int, Section::Outside, 0, *read, *read_single) {
            Ok(w) => assert(instructions@ + w =~= w),
            Err(_) => {},
        }
    }
    loop
        invariant_except_break
            open_blocks <= start,
            spell_spec(spell_code@, *read, *read_single) == prepend_words(instructions@,
                script_spec(text@, start as int, hi as int, section, open_blocks as nat, *read, *read_single)),
        invariant
            lo <= start <= hi <= text@.len(),
            is_reader(*read),
            is_reader(*read_single),
            program_walk(instructions@, 0, 0, Section::Outside) == Some((open_blocks as nat, section)),
        ensures
            spell_spec(spell_code@, *read, *read_single) == (if open_blocks == 0 {
                Ok::<Seq<u64>, Option<&'static str>>(instructions@)
            } else {
                Err(Some("Expected closing bracket(s)"))
            }),
        decreases hi - start,
    {
        let end = find(&text, start, hi, '\n');
        let (a, b) = trim(&text, start, end);
        let ghost before = instructions@;
        let ghost line = line_spec(text@, a as int, b as int, section, open_blocks as nat, *read, *read_single);
        let ghost rest = script_spec(text@, start as int, hi as int, section, open_blocks as nat, *read, *read_single);
        assert(rest == match line {
            Err(e) => Err(e),
            Ok((w, s2, o2)) => if end >= hi {
                if o2 == 0 { Ok(w) } else { Err(Some("Expected closing bracket(s)")) }
            } else {
                prepend_words(w, script_spec(text@, end + 1, hi as int, s2, o2, *read, *read_single))
            },
        });
        let (words, s, o) = compile_line(&text, a, b, section, open_blocks, read, read_single)?;
        let ghost added = words@;
        proof {
            lemma_walk_append(before, words@);
        }
        let mut words = words;
        instructions.append(&mut words);
        section = s;
        open_blocks = o;
        if end == hi {
            proof {
                assert(before + added =~= instructions@);
            }
            break;
        }
        proof {
            match script_spec(text@, end + 1, hi as int, section, open_blocks as nat, *read, *read_single) {
                Ok(r) => assert(before + (added + r) =~= instructions@ + r),
                Err(_) => {},
            }
        }
        start = end + 1;
    }
    if open_blocks == 0 {
        Ok(instructions)
    } else {
        Err("Expected closing bracket(s)")
    }
}

} // verus!

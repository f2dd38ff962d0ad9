//! The catalogue of components that may be cast, with the parameter values allowed, and
//! the check of programs against it.

use vstd::prelude::*;
use std::collections::HashMap;
use crate::codes::{TRUE, FALSE, NUMBER_LITERAL, COMPONENT, ANY, READY_SECTION, PROCESS_SECTION, METADATA_SECTION};
use crate::eval::{Value, component_end, params_end, lemma_params_end_advances};
use crate::numbers::{float_le, at_most, is_nan, is_reader, reading, read_range};
use crate::text::{to_chars, spells, trim, trimmed};
use crate::compiler::{find, find_from};
use crate::registry::{arity, registered, get_number_of_component_parameters};

verus! {

broadcast use vstd::std_specs::hash::group_hash_axioms;

/// Which components may be cast, and with which parameters: for each component code, one
/// allow-list per parameter position. An allow-list is a run of entries: `TRUE`, `FALSE`,
/// `ANY` (anything), or `NUMBER_LITERAL lo NUMBER_LITERAL hi` (a number from `lo` to `hi`,
/// both included, as bit patterns of 64-bit floats).
pub struct ComponentCatalogue {
    pub component_catalogue: HashMap<u64, Vec<Vec<u64>>>,
}

impl ComponentCatalogue {
    pub fn new() -> (r: Self)
        ensures
            r.component_catalogue@ == Map::<u64, Vec<Vec<u64>>>::empty(),
    {
        ComponentCatalogue { component_catalogue: HashMap::new() }
    }
}

/// How the number `x` fares against the allow-list entries from `pos` on: allowed, not
/// allowed, or `None` where an entry is neither `ANY`, a boolean, nor a range. Boolean
/// entries are passed over.
pub open spec fn number_allowed(a: Seq<u64>, pos: int, x: u64) -> Option<bool>
    decreases a.len() - pos,
{
    if pos < 0 || pos >= a.len() {
        Some(false)
    } else if a[pos] == ANY {
        Some(true)
    } else if a[pos] == TRUE || a[pos] == FALSE {
        number_allowed(a, pos + 1, x)
    } else if a[pos] != NUMBER_LITERAL || pos + 3 >= a.len() || a[pos + 2] != NUMBER_LITERAL {
        None
    } else if float_le(a[pos + 1], x) && float_le(x, a[pos + 3]) {
        Some(true)
    } else {
        number_allowed(a, pos + 4, x)
    }
}

/// Whether the allow-list entries from `pos` on accept the boolean word `want`: an entry
/// that is `ANY` or `want` itself accepts it; the other boolean entry and ranges are passed
/// over, entry by entry, so the bound words of a range are never read as entries; the walk
/// stops, refusing, at a word that starts no entry.
pub open spec fn bool_allowed(a: Seq<u64>, pos: int, want: u64) -> bool
    decreases a.len() - pos,
{
    if pos < 0 || pos >= a.len() {
        false
    } else if a[pos] == ANY || a[pos] == want {
        true
    } else if a[pos] == TRUE || a[pos] == FALSE {
        bool_allowed(a, pos + 1, want)
    } else if a[pos] == NUMBER_LITERAL && pos + 3 < a.len() && a[pos + 2] == NUMBER_LITERAL {
        bool_allowed(a, pos + 4, want)
    } else {
        false
    }
}

/// What checking a parameter value against an allow-list gives.
pub open spec fn parameter_check(v: Value, a: Seq<u64>) -> Result<(), &'static str> {
    match v {
        Value::Bool(b) => if bool_allowed(a, 0, if b { TRUE } else { FALSE }) {
            Ok(())
        } else {
            Err("Parameter not allowed")
        },
        Value::Number(x) => match number_allowed(a, 0, x) {
            Some(true) => Ok(()),
            Some(false) => Err("Parameter not allowed"),
            None => Err("Invalid type: Expected float"),
        },
    }
}

/// Checks a parameter value against the allow-list of its position.
pub fn check_if_parameter_allowed(parameter: Value, allowed_values: &Vec<u64>) -> (r: Result<(), &'static str>)
    ensures
        r == parameter_check(parameter, allowed_values@),
{
    let a: &Vec<u64> = allowed_values;
    assert(a@ == allowed_values@);
    match parameter {
        Value::Bool(b) => {
            let want = if b { TRUE } else { FALSE };
            let mut i: usize = 0;
            while i < a.len()
                invariant
                    i <= a@.len(),
                    a@ == allowed_values@,
                    parameter == Value::Bool(b),
                    want == (if b { TRUE } else { FALSE }),
                    bool_allowed(a@, 0, want) == bool_allowed(a@, i as int, want),
                decreases a@.len() - i,
            {
                if a[i] == want || a[i] == ANY {
                    return Ok(());
                }
                if a[i] == TRUE || a[i] == FALSE {
                    i += 1;
                } else if a[i] == NUMBER_LITERAL && a.len() - i > 3 && a[i + 2] == NUMBER_LITERAL {
                    i += 4;
                } else {
                    return Err("Parameter not allowed");
                }
            }
            Err("Parameter not allowed")
        },
        Value::Number(x) => {
            let mut i: usize = 0;
            while i < a.len()
                invariant
                    number_allowed(a@, 0, x) == number_allowed(a@, i as int, x),
                    parameter == Value::Number(x),
                    i <= a@.len(),
                    a@ == allowed_values@,
                decreases a@.len() - i,
            {
                if a[i] == ANY {
                    return Ok(());
                }
                if a[i] == TRUE || a[i] == FALSE {
                    i += 1;
                    continue;
                }
                if a[i] != NUMBER_LITERAL || a.len() - i <= 3 || a[i + 2] != NUMBER_LITERAL {
                    return Err("Invalid type: Expected float");
                }
                if at_most(a[i + 1], x) && at_most(x, a[i + 3]) {
                    return Ok(());
                }
                i += 4;
            }
            Err("Parameter not allowed")
        },
    }
}

/// The allow-lists of a component, if the catalogue holds it.
pub open spec fn allow_lists(c: ComponentCatalogue, code: u64) -> Option<Seq<Vec<u64>>> {
    if c.component_catalogue@.contains_key(code) {
        Some(c.component_catalogue@[code]@)
    } else {
        None
    }
}

/// The check of the parameters of a call from parameter `i` (of `n`) on, at `p`: where they
/// end, or why they are refused. Each literal is checked against the allow-list of its
/// position; a nested call is passed over whole.
pub open spec fn params_permission(w: Seq<u64>, p: int, i: int, n: int, lists: Seq<Vec<u64>>) -> Result<int, &'static str>
    decreases n - i,
{
    if i >= n {
        Ok(p)
    } else if p < 0 || p >= w.len() {
        Err("Expected parameter")
    } else if w[p] == COMPONENT {
        match params_end(w, p, 1, false) {
            Some(e) => params_permission(w, e, i + 1, n, lists),
            None => Err("Invalid parameter"),
        }
    } else if w[p] == NUMBER_LITERAL && p + 1 >= w.len() {
        Err("Expected number after number literal opcode")
    } else if w[p] != TRUE && w[p] != FALSE && w[p] != NUMBER_LITERAL {
        Err("Invalid parameter")
    } else if i >= lists.len() {
        Err("Parameter not allowed")
    } else {
        let v = if w[p] == NUMBER_LITERAL { Value::Number(w[p + 1]) } else { Value::Bool(w[p] == TRUE) };
        match parameter_check(v, lists[i]@) {
            Ok(()) => params_permission(w, if w[p] == NUMBER_LITERAL { p + 2 } else { p + 1 }, i + 1, n, lists),
            Err(e) => Err(e),
        }
    }
}

/// The check of the component call whose `COMPONENT` word stands at `pos`: where it ends, or
/// why it is refused.
pub open spec fn call_permission(w: Seq<u64>, pos: int, c: ComponentCatalogue) -> Result<int, &'static str> {
    if w.len() - pos < 2 {
        Err("Expected component code")
    } else if !registered(w[pos + 1]) {
        Err("Component does not exist")
    } else if allow_lists(c, w[pos + 1]) is None {
        Err("Component isn't in component catalogue")
    } else {
        params_permission(w, pos + 2, 0, arity(w[pos + 1]) as int, allow_lists(c, w[pos + 1])->0)
    }
}

/// Checks that the catalogue allows the component call whose `COMPONENT` word stands at
/// `pos`, with its literal parameters; gives where the call ends.
pub fn check_allowed_to_cast_component(w: &Vec<u64>, pos: usize, component_catalogue: &ComponentCatalogue) -> (r: Result<usize, &'static str>)
    requires
        pos < w@.len(),
        w@[pos as int] == COMPONENT,
    ensures
        match r {
            Ok(e) => call_permission(w@, pos as int, *component_catalogue) == Ok::<int, &'static str>(e as int),
            Err(m) => call_permission(w@, pos as int, *component_catalogue) == Err::<int, &'static str>(m),
        },
        r is Ok ==> component_end(w@, pos as int, false) == Some(r->Ok_0 as int),
        r is Ok ==> allow_lists(*component_catalogue, w@[pos + 1]) is Some,
        pos + 1 < w@.len() && allow_lists(*component_catalogue, w@[pos + 1]) is None ==> r is Err,
{
    if w.len() - pos < 2 {
        return Err("Expected component code");
    }
    let code = w[pos + 1];
    let n = match get_number_of_component_parameters(code) {
        Some(n) => n,
        None => return Err("Component does not exist"),
    };
    let lists = match component_catalogue.component_catalogue.get(&code) {
        Some(l) => l,
        None => return Err("Component isn't in component catalogue"),
    };
    let mut p = pos + 2;
    let mut i: usize = 0;
    while i < n
        invariant
            pos + 2 <= p <= w@.len(),
            i <= n,
            n == arity(code),
            code == w@[pos + 1],
            params_end(w@, pos + 2, n as nat, false) == params_end(w@, p as int, (n - i) as nat, false),
            allow_lists(*component_catalogue, code) == Some(lists@),
            call_permission(w@, pos as int, *component_catalogue) == params_permission(w@, p as int, i as int, n as int, lists@),
        decreases n - i,
    {
        if p >= w.len() {
            return Err("Expected parameter");
        }
        let x = w[p];
        let value = if x == TRUE {
            Value::Bool(true)
        } else if x == FALSE {
            Value::Bool(false)
        } else if x == NUMBER_LITERAL {
            if p + 1 >= w.len() {
                return Err("Expected number after number literal opcode");
            }
            Value::Number(w[p + 1])
        } else if x == COMPONENT {
            match skip_call(w, p) {
                Some(e) => {
                    proof {
                        crate::eval::lemma_params_end_split(w@, p as int, 1, (n - i - 1) as nat, false);
                        assert((1 + (n - i - 1)) as nat == (n - i) as nat);
                    }
                    p = e;
                    i += 1;
                    continue;
                },
                None => return Err("Invalid parameter"),
            }
        } else {
            return Err("Invalid parameter");
        };
        if i >= lists.len() {
            return Err("Parameter not allowed");
        }
        check_if_parameter_allowed(value, &lists[i])?;
        p = if x == NUMBER_LITERAL { p + 2 } else { p + 1 };
        i += 1;
    }
    Ok(p)
}

/// Where the component call whose `COMPONENT` word stands at `pos` ends, read by the arity
/// of each code.
pub fn skip_call(w: &Vec<u64>, pos: usize) -> (r: Option<usize>)
    requires
        pos < w@.len(),
    ensures
        match r {
            Some(e) => params_end(w@, pos as int, 1, false) == Some(e as int) && pos < e <= w@.len(),
            None => params_end(w@, pos as int, 1, false) is None,
        },
{
    let mut p = pos;
    let mut need: usize = 1;
    while need > 0
        invariant
            pos <= p <= w@.len(),
            need <= w@.len(),
            params_end(w@, pos as int, 1, false) == params_end(w@, p as int, need as nat, false),
            need == 0 ==> p > pos,
        decreases w@.len() - p,
    {
        if p >= w.len() {
            return None;
        }
        let x = w[p];
        if x == TRUE || x == FALSE {
            p += 1;
            need -= 1;
        } else if x == NUMBER_LITERAL {
            if p + 1 >= w.len() {
                return None;
            }
            p += 2;
            need -= 1;
        } else if x == COMPONENT {
            if p + 1 >= w.len() {
                return None;
            }
            let k = match get_number_of_component_parameters(w[p + 1]) {
                Some(k) => k,
                None => return None,
            };
            if k > w.len() - (p + 2) || need - 1 > w.len() - (p + 2) - k {
                proof {
                    if params_end(w@, p + 2, (need - 1 + k) as nat, false) is Some {
                        lemma_params_end_advances(w@, p + 2, (need - 1 + k) as nat, false);
                    }
                }
                return None;
            }
            p += 2;
            need = need - 1 + k;
        } else {
            return None;
        }
    }
    Some(p)
}

/// The check of a compiled program from `pos` on, `about` telling whether the walk is in an
/// about section: `Ok` where every component call outside about sections passes its check,
/// else the reason of the first that does not. A number literal is passed over with its
/// value word.
pub open spec fn permission_walk(w: Seq<u64>, pos: int, about: bool, c: ComponentCatalogue) -> Result<(), &'static str>
    decreases w.len() - pos,
{
    if pos < 0 || pos >= w.len() {
        Ok(())
    } else if w[pos] == READY_SECTION || w[pos] == PROCESS_SECTION {
        permission_walk(w, pos + 1, false, c)
    } else if w[pos] == METADATA_SECTION {
        permission_walk(w, pos + 1, true, c)
    } else if about {
        permission_walk(w, pos + 1, true, c)
    } else if w[pos] == NUMBER_LITERAL {
        if pos + 2 <= w.len() {
            permission_walk(w, pos + 2, false, c)
        } else {
            Ok(())
        }
    } else if w[pos] == COMPONENT {
        match call_permission(w, pos, c) {
            Ok(e) => if pos < e <= w.len() {
                permission_walk(w, e, false, c)
            } else {
                Ok(())
            },
            Err(m) => Err(m),
        }
    } else {
        permission_walk(w, pos + 1, false, c)
    }
}

/// Checks a compiled program against the catalogue: every component call outside about
/// sections must be in the catalogue, and each of its literal parameters allowed; nested
/// calls are left to the time they are cast.
pub fn internal_check_allowed_to_cast(instructions: &Vec<u64>, component_catalogue: &ComponentCatalogue) -> (r: Result<(), &'static str>)
    ensures
        r == permission_walk(instructions@, 0, false, *component_catalogue),
        forall|p: int| #![auto] permission_reaches(instructions@, 0, false, p, *component_catalogue) && instructions@[p] == COMPONENT
            && p + 1 < instructions@.len() && allow_lists(*component_catalogue, instructions@[p + 1]) is None ==> r is Err,
        instructions@.len() >= 2 && instructions@[0] == COMPONENT
            && allow_lists(*component_catalogue, instructions@[1]) is None ==> r is Err,
{
    proof {
        assert forall|p: int| #![auto] permission_reaches(instructions@, 0, false, p, *component_catalogue) && instructions@[p] == COMPONENT
            && p + 1 < instructions@.len() && allow_lists(*component_catalogue, instructions@[p + 1]) is None
            implies permission_walk(instructions@, 0, false, *component_catalogue) is Err by {
            lemma_reached_absent_component_refused(instructions@, 0, false, p, *component_catalogue);
        }
    }
    let w = instructions;
    let mut pos: usize = 0;
    let mut in_about = false;
    let ghost refused = instructions@.len() >= 2 && instructions@[0] == COMPONENT
        && allow_lists(*component_catalogue, instructions@[1]) is None;
    while pos < w.len()
        invariant
            pos <= w@.len(),
            w@ == instructions@,
            pos == 0 ==> !in_about,
            refused ==> pos == 0,
            refused == (instructions@.len() >= 2 && instructions@[0] == COMPONENT
                && allow_lists(*component_catalogue, instructions@[1]) is None),
            permission_walk(w@, 0, false, *component_catalogue) == permission_walk(w@, pos as int, in_about, *component_catalogue),
        decreases w@.len() - pos,
    {
        let x = w[pos];
        if x == READY_SECTION || x == PROCESS_SECTION {
            in_about = false;
            pos += 1;
        } else if x == METADATA_SECTION {
            in_about = true;
            pos += 1;
        } else if in_about {
            pos += 1;
        } else if x == NUMBER_LITERAL {
            pos = if w.len() - pos < 2 { w.len() } else { pos + 2 };
        } else if x == COMPONENT {
            let e = match check_allowed_to_cast_component(w, pos, component_catalogue) {
                Ok(e) => e,
                Err(m) => return Err(m),
            };
            proof {
                lemma_params_end_advances(w@, pos + 2, arity(w@[pos + 1]), false);
            }
            pos = e;
        } else {
            pos += 1;
        }
    }
    Ok(())
}

/// Checks a compiled program against the catalogue, and says why where it is refused.
pub fn check_allowed_to_cast(instructions: &Vec<u64>, component_catalogue: &ComponentCatalogue) -> (r: (bool, &'static str))
    ensures
        forall|p: int| #![auto] permission_reaches(instructions@, 0, false, p, *component_catalogue) && instructions@[p] == COMPONENT
            && p + 1 < instructions@.len() && allow_lists(*component_catalogue, instructions@[p + 1]) is None ==> !r.0,
        r.0 == permission_walk(instructions@, 0, false, *component_catalogue) is Ok,
        !r.0 ==> permission_walk(instructions@, 0, false, *component_catalogue) == Err::<(), &'static str>(r.1),
        instructions@.len() >= 2 && instructions@[0] == COMPONENT
            && allow_lists(*component_catalogue, instructions@[1]) is None ==> !r.0,
{
    proof {
        assert forall|p: int| #![auto] permission_reaches(instructions@, 0, false, p, *component_catalogue) && instructions@[p] == COMPONENT
            && p + 1 < instructions@.len() && allow_lists(*component_catalogue, instructions@[p + 1]) is None
            implies permission_walk(instructions@, 0, false, *component_catalogue) is Err by {
            lemma_reached_absent_component_refused(instructions@, 0, false, p, *component_catalogue);
        }
    }
    match internal_check_allowed_to_cast(instructions, component_catalogue) {
        Ok(()) => (true, ""),
        Err(reason) => (false, reason),
    }
}

/// A range entry whose bounds are numbers accepts each of its bounds.
pub proof fn lemma_range_bounds_accepted(lo: u64, hi: u64, rest: Seq<u64>)
    requires
        float_le(lo, hi),
    ensures
        parameter_check(Value::Number(lo), seq![NUMBER_LITERAL, lo, NUMBER_LITERAL, hi] + rest) == Ok::<(), &'static str>(()),
        parameter_check(Value::Number(hi), seq![NUMBER_LITERAL, lo, NUMBER_LITERAL, hi] + rest) == Ok::<(), &'static str>(()),
{
    let a = seq![NUMBER_LITERAL, lo, NUMBER_LITERAL, hi] + rest;
    assert(a[0] == NUMBER_LITERAL && a[1] == lo && a[2] == NUMBER_LITERAL && a[3] == hi);
}

/// An allow-list that starts with the wildcard accepts every value.
pub proof fn lemma_wildcard_accepts(v: Value, rest: Seq<u64>)
    ensures
        parameter_check(v, seq![ANY] + rest) == Ok::<(), &'static str>(()),
{
    let a = seq![ANY] + rest;
    assert(a[0] == ANY);
}

/// Whether the check of a program, from `q` on (in an about section or not), reaches the
/// word at `p` outside an about section, every call before it passing.
pub open spec fn permission_reaches(w: Seq<u64>, q: int, about: bool, p: int, c: ComponentCatalogue) -> bool
    decreases w.len() - q,
{
    if q < 0 || q >= w.len() {
        false
    } else if q == p && !about && w[q] != READY_SECTION && w[q] != PROCESS_SECTION && w[q] != METADATA_SECTION {
        true
    } else if w[q] == READY_SECTION || w[q] == PROCESS_SECTION {
        permission_reaches(w, q + 1, false, p, c)
    } else if w[q] == METADATA_SECTION {
        permission_reaches(w, q + 1, true, p, c)
    } else if about {
        permission_reaches(w, q + 1, true, p, c)
    } else if w[q] == NUMBER_LITERAL {
        if q + 2 <= w.len() {
            permission_reaches(w, q + 2, false, p, c)
        } else {
            false
        }
    } else if w[q] == COMPONENT {
        match call_permission(w, q, c) {
            Ok(e) => if q < e <= w.len() {
                permission_reaches(w, e, false, p, c)
            } else {
                false
            },
            Err(_) => false,
        }
    } else {
        permission_reaches(w, q + 1, false, p, c)
    }
}

/// Wherever the check of a program reaches a call of a component that the catalogue does
/// not hold, the program is refused.
pub proof fn lemma_reached_absent_component_refused(w: Seq<u64>, q: int, about: bool, p: int, c: ComponentCatalogue)
    requires
        permission_reaches(w, q, about, p, c),
        w[p] == COMPONENT,
        p + 1 < w.len(),
        allow_lists(c, w[p + 1]) is None,
    ensures
        permission_walk(w, q, about, c) is Err,
    decreases w.len() - q,
{
    if q == p && !about {
    } else if w[q] == READY_SECTION || w[q] == PROCESS_SECTION {
        lemma_reached_absent_component_refused(w, q + 1, false, p, c);
    } else if w[q] == METADATA_SECTION {
        lemma_reached_absent_component_refused(w, q + 1, true, p, c);
    } else if about {
        lemma_reached_absent_component_refused(w, q + 1, true, p, c);
    } else if w[q] == NUMBER_LITERAL {
        lemma_reached_absent_component_refused(w, q + 2, false, p, c);
    } else if w[q] == COMPONENT {
        let e = call_permission(w, q, c)->Ok_0;
        lemma_reached_absent_component_refused(w, e, false, p, c);
    } else {
        lemma_reached_absent_component_refused(w, q + 1, false, p, c);
    }
}

/// The wildcard accepts every value wherever it stands after boolean entries.
pub proof fn lemma_wildcard_after_booleans(v: Value, pre: Seq<u64>, rest: Seq<u64>)
    requires
        forall|i: int| 0 <= i < pre.len() ==> #[trigger] pre[i] == TRUE || pre[i] == FALSE,
    ensures
        parameter_check(v, pre + seq![ANY] + rest) == Ok::<(), &'static str>(()),
{
    let a = pre + seq![ANY] + rest;
    assert(a[pre.len() as int] == ANY);
    match v {
        Value::Bool(b) => {
            lemma_bool_skips_booleans(a, pre.len() as int, 0, if b { TRUE } else { FALSE });
        },
        Value::Number(x) => {
            assert forall|k: int| 0 <= k <= pre.len() implies number_allowed(a, k, x) == Some(true) by {
                lemma_number_skips_booleans(a, pre.len() as int, k, x);
            }
            assert(number_allowed(a, 0, x) == Some(true));
        },
    }
}

proof fn lemma_bool_skips_booleans(a: Seq<u64>, n: int, k: int, want: u64)
    requires
        0 <= k <= n < a.len(),
        a[n] == ANY,
        forall|i: int| 0 <= i < n ==> #[trigger] a[i] == TRUE || a[i] == FALSE,
    ensures
        bool_allowed(a, k, want),
    decreases n - k,
{
    if k < n {
        lemma_bool_skips_booleans(a, n, k + 1, want);
    }
}

/// A range entry accepts no boolean, whatever words its bounds are.
pub proof fn lemma_range_refuses_booleans(lo: u64, hi: u64, b: bool)
    ensures
        parameter_check(Value::Bool(b), seq![NUMBER_LITERAL, lo, NUMBER_LITERAL, hi]) == Err::<(), &'static str>("Parameter not allowed"),
{
    let a = seq![NUMBER_LITERAL, lo, NUMBER_LITERAL, hi];
    assert(a[0] == NUMBER_LITERAL && a[2] == NUMBER_LITERAL);
    assert(!bool_allowed(a, 4, if b { TRUE } else { FALSE }));
}

proof fn lemma_number_skips_booleans(a: Seq<u64>, n: int, k: int, x: u64)
    requires
        0 <= k <= n < a.len(),
        a[n] == ANY,
        forall|i: int| 0 <= i < n ==> #[trigger] a[i] == TRUE || a[i] == FALSE,
    ensures
        number_allowed(a, k, x) == Some(true),
    decreases n - k,
{
    if k < n {
        lemma_number_skips_booleans(a, n, k + 1, x);
    }
}

/// A component call that the catalogue does not hold is refused wherever the check of a
/// program meets it outside an about section.
pub proof fn lemma_absent_component_refused(w: Seq<u64>, pos: int, c: ComponentCatalogue)
    requires
        0 <= pos,
        pos + 1 < w.len(),
        w[pos] == COMPONENT,
        allow_lists(c, w[pos + 1]) is None,
    ensures
        permission_walk(w, pos, false, c) is Err,
{
}

/// The allow-list entries that one written restriction stands for, and whether it ends its
/// list: `ANY` (and the list ends), `true`, `false`, a number `x` (the range from `x` to
/// `x`), a range `a-b` (split at its first two `-`); anything else stands for nothing.
pub open spec fn restriction_spec<F: Fn(&[char]) -> Option<u64>>(t: Seq<char>, read: F) -> Result<(Seq<u64>, bool), &'static str> {
    if t == "ANY"@ {
        Ok((seq![ANY], true))
    } else if t == "true"@ {
        Ok((seq![TRUE], false))
    } else if t == "false"@ {
        Ok((seq![FALSE], false))
    } else {
        match reading(read, t) {
            Some(x) => Ok((seq![NUMBER_LITERAL, x, NUMBER_LITERAL, x], false)),
            None => {
                let n = t.len() as int;
                let d = find_from(t, 0, n, '-');
                let e = find_from(t, d + 1, n, '-');
                let (a, b) = trimmed(t, 0, d);
                let (c, f) = trimmed(t, d + 1, e);
                if d >= n {
                    Ok((Seq::empty(), false))
                } else {
                    match (reading(read, t.subrange(a, b)), reading(read, t.subrange(c, f))) {
                        (Some(start), Some(stop)) => Ok((seq![NUMBER_LITERAL, start, NUMBER_LITERAL, stop], false)),
                        _ => Err("Couldn't parse the range"),
                    }
                }
            },
        }
    }
}

/// The allow-list that the restrictions `rs[j..]` of one parameter stand for.
pub open spec fn restrictions_spec<F: Fn(&[char]) -> Option<u64>>(rs: Seq<&str>, j: int, read: F) -> Result<Seq<u64>, &'static str>
    decreases rs.len() - j,
{
    if j < 0 || j >= rs.len() {
        Ok(Seq::empty())
    } else {
        match restriction_spec(rs[j]@, read) {
            Err(e) => Err(e),
            Ok((entries, last)) => if last {
                Ok(entries)
            } else {
                match restrictions_spec(rs, j + 1, read) {
                    Ok(rest) => Ok(entries + rest),
                    Err(e) => Err(e),
                }
            },
        }
    }
}

/// The allow-lists that the restrictions of the parameters from the `i`-th on stand for.
pub open spec fn lists_spec<F: Fn(&[char]) -> Option<u64>>(rs: Seq<Vec<&str>>, i: int, read: F) -> Result<Seq<Seq<u64>>, &'static str>
    decreases rs.len() - i,
{
    if i < 0 || i >= rs.len() {
        Ok(Seq::empty())
    } else {
        match restrictions_spec(rs[i]@, 0, read) {
            Err(e) => Err(e),
            Ok(list) => match lists_spec(rs, i + 1, read) {
                Ok(rest) => Ok(seq![list] + rest),
                Err(e) => Err(e),
            },
        }
    }
}

fn parse_restriction<F: Fn(&[char]) -> Option<u64>>(text: &str, read: &F) -> (r: Result<(Vec<u64>, bool), &'static str>)
    requires
        is_reader(*read),
    ensures
        match r {
            Ok((v, last)) => restriction_spec(text@, *read) == Ok::<(Seq<u64>, bool), &'static str>((v@, last)),
            Err(m) => restriction_spec(text@, *read) == Err::<(Seq<u64>, bool), &'static str>(m),
        },
{
    let t = to_chars(text);
    let n = t.len();
    proof {
        assert(t@.subrange(0, n as int) =~= t@);
    }
    if spells(&t, 0, n, "ANY") {
        let v = vec![ANY];
        assert(v@ =~= seq![ANY]);
        return Ok((v, true));
    }
    if spells(&t, 0, n, "true") {
        let v = vec![TRUE];
        assert(v@ =~= seq![TRUE]);
        return Ok((v, false));
    }
    if spells(&t, 0, n, "false") {
        let v = vec![FALSE];
        assert(v@ =~= seq![FALSE]);
        return Ok((v, false));
    }
    if let Some(bits) = read_range(read, &t, 0, n) {
        let v = vec![NUMBER_LITERAL, bits, NUMBER_LITERAL, bits];
        assert(v@ =~= seq![NUMBER_LITERAL, bits, NUMBER_LITERAL, bits]);
        return Ok((v, false));
    }
    let dash = find(&t, 0, n, '-');
    if dash == n {
        return Ok((Vec::new(), false));
    }
    let end = find(&t, dash + 1, n, '-');
    let (a, b) = trim(&t, 0, dash);
    let (c, d) = trim(&t, dash + 1, end);
    match (read_range(read, &t, a, b), read_range(read, &t, c, d)) {
        (Some(start), Some(stop)) => {
            let v = vec![NUMBER_LITERAL, start, NUMBER_LITERAL, stop];
            assert(v@ =~= seq![NUMBER_LITERAL, start, NUMBER_LITERAL, stop]);
            Ok((v, false))
        },
        _ => Err("Couldn't parse the range"),
    }
}

/// Puts a component in the catalogue with one allow-list per parameter, each written as
/// restrictions (`ANY`, `true`, `false`, `0.5`, `0-10`); an `ANY` ends its list. Where a
/// range does not read, the catalogue stays as it was.
pub fn add_component_to_component_catalogue<F: Fn(&[char]) -> Option<u64>>(component_code: u64, parameter_restrictions: &Vec<Vec<&str>>, read: &F, component_catalogue: &mut ComponentCatalogue) -> (r: Result<(), &'static str>)
    requires
        is_reader(*read),
    ensures
        match lists_spec(parameter_restrictions@, 0, *read) {
            Ok(lists) => r is Ok
                && final(component_catalogue).component_catalogue@.dom() == old(component_catalogue).component_catalogue@.dom().insert(component_code)
                && (forall|k: u64| k != component_code && #[trigger] old(component_catalogue).component_catalogue@.contains_key(k)
                    ==> final(component_catalogue).component_catalogue@[k] == old(component_catalogue).component_catalogue@[k])
                && final(component_catalogue).component_catalogue@[component_code]@.len() == lists.len()
                && (forall|i: int| 0 <= i < lists.len() ==> (#[trigger] final(component_catalogue).component_catalogue@[component_code]@[i])@ == lists[i]),
            Err(m) => r == Err::<(), &'static str>(m) && *final(component_catalogue) == *old(component_catalogue),
        },
{
    let mut parsed: Vec<Vec<u64>> = Vec::new();
    let mut i: usize = 0;
    proof {
        match lists_spec(parameter_restrictions@, 0, *read) {
            Ok(l) => assert(Seq::<Seq<u64>>::empty() + l =~= l),
            Err(_) => {},
        }
    }
    while i < parameter_restrictions.len()
        invariant
            i <= parameter_restrictions@.len(),
            parsed@.len() == i,
            is_reader(*read),
            *component_catalogue == *old(component_catalogue),
            lists_spec(parameter_restrictions@, 0, *read) == match lists_spec(parameter_restrictions@, i as int, *read) {
                Ok(rest) => Ok(parsed@.map_values(|l: Vec<u64>| l@) + rest),
                Err(e) => Err(e),
            },
        decreases parameter_restrictions@.len() - i,
    {
        let mut list: Vec<u64> = Vec::new();
        let texts = &parameter_restrictions[i];
        let mut j: usize = 0;
        proof {
            match restrictions_spec(texts@, 0, *read) {
                Ok(l) => assert(Seq::<u64>::empty() + l =~= l),
                Err(_) => {},
            }
        }
        loop
            invariant_except_break
                restrictions_spec(texts@, 0, *read) == match restrictions_spec(texts@, j as int, *read) {
                    Ok(rest) => Ok(list@ + rest),
                    Err(e) => Err(e),
                },
            invariant
                is_reader(*read),
                j <= texts@.len(),
                i < parameter_restrictions@.len(),
                texts@ == parameter_restrictions@[i as int]@,
                *component_catalogue == *old(component_catalogue),
                lists_spec(parameter_restrictions@, 0, *read) == match lists_spec(parameter_restrictions@, i as int, *read) {
                    Ok(rest) => Ok(parsed@.map_values(|l: Vec<u64>| l@) + rest),
                    Err(e) => Err(e),
                },
            ensures
                restrictions_spec(texts@, 0, *read) == Ok::<Seq<u64>, &'static str>(list@),
            decreases texts@.len() - j,
        {
            if j >= texts.len() {
                proof {
                    assert(list@ + Seq::<u64>::empty() =~= list@);
                }
                break;
            }
            let (entries, last) = parse_restriction(texts[j], read)?;
            let ghost before = list@;
            let ghost added = entries@;
            let mut entries = entries;
            list.append(&mut entries);
            if last {
                break;
            }
            proof {
                match restrictions_spec(texts@, j + 1, *read) {
                    Ok(rest) => assert(before + (added + rest) =~= list@ + rest),
                    Err(_) => {},
                }
            }
            j += 1;
        }
        let ghost before = parsed@;
        parsed.push(list);
        proof {
            assert(parsed@.map_values(|l: Vec<u64>| l@) =~= before.map_values(|l: Vec<u64>| l@).push(list@));
            match lists_spec(parameter_restrictions@, i + 1, *read) {
                Ok(rest) => assert(before.map_values(|l: Vec<u64>| l@) + (seq![list@] + rest)
                    =~= parsed@.map_values(|l: Vec<u64>| l@) + rest),
                Err(_) => {},
            }
        }
        i += 1;
    }
    proof {
        assert(parsed@.map_values(|l: Vec<u64>| l@) + Seq::<Seq<u64>>::empty() =~= parsed@.map_values(|l: Vec<u64>| l@));
    }
    component_catalogue.component_catalogue.insert(component_code, parsed);
    Ok(())
}

} // verus!

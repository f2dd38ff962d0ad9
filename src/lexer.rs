//! The scanner of conditions.

use vstd::prelude::*;
use crate::text::{alphanumeric, numeric, is_alphanumeric, is_numeric, copy_range, spells};

verus! {

/// A token of a condition.
pub enum Token {
    Opcode(Vec<char>),
    Number(Vec<char>),
    Boolean(bool),
    Component(Vec<char>),
    OpenBracket,
    CloseBracket,
}

/// A token as a value: its kind (opcode, number, boolean, component, open bracket, close
/// bracket, in that order from 0), its text, and its truth for a boolean.
pub type TokenView = (int, Seq<char>, bool);

pub open spec fn view_token(t: Token) -> TokenView {
    match t {
        Token::Opcode(v) => (0, v@, false),
        Token::Number(v) => (1, v@, false),
        Token::Boolean(b) => (2, Seq::empty(), b),
        Token::Component(v) => (3, v@, false),
        Token::OpenBracket => (4, Seq::empty(), false),
        Token::CloseBracket => (5, Seq::empty(), false),
    }
}

pub open spec fn view_tokens(s: Seq<Token>) -> Seq<TokenView> {
    s.map_values(|t: Token| view_token(t))
}

pub open spec fn opcode_token(s: Seq<char>) -> TokenView {
    (0, s, false)
}

pub open spec fn open_token() -> TokenView {
    (4, Seq::empty(), false)
}

pub open spec fn close_token() -> TokenView {
    (5, Seq::empty(), false)
}

/// A result with `v` put in front of the tokens it holds.
pub open spec fn after(v: Seq<TokenView>, r: Result<Seq<TokenView>, &'static str>) -> Result<Seq<TokenView>, &'static str> {
    match r {
        Ok(s) => Ok(v + s),
        Err(e) => Err(e),
    }
}

/// The end of the run of `-` and `+` that starts at `i`, and whether it holds an odd number
/// of `-`.
pub open spec fn sign_run(t: Seq<char>, i: int, hi: int) -> (int, bool)
    decreases hi - i,
{
    if 0 <= i < hi && (t[i] == '-' || t[i] == '+') {
        let (e, odd) = sign_run(t, i + 1, hi);
        (e, if t[i] == '-' { !odd } else { odd })
    } else {
        (i, false)
    }
}

/// After an odd run of minus signs, spaces are passed over until a letter or digit (`true`)
/// or an open bracket (`false`).
pub open spec fn after_minus(t: Seq<char>, i: int, hi: int) -> Result<(int, bool), &'static str>
    decreases hi - i,
{
    if i < 0 || i >= hi {
        Err("Expected character after minus sign")
    } else if alphanumeric(t[i]) {
        Ok((i, true))
    } else if t[i] == '(' {
        Ok((i, false))
    } else if t[i] == ' ' {
        after_minus(t, i + 1, hi)
    } else {
        Err("Expected valid character after minus sign")
    }
}

/// The end of the run of letters, digits and underscores that starts at `i`.
pub open spec fn word_end(t: Seq<char>, i: int, hi: int) -> int
    decreases hi - i,
{
    if 0 <= i < hi && (alphanumeric(t[i]) || t[i] == '_') {
        word_end(t, i + 1, hi)
    } else {
        i
    }
}

/// The index after the bracket that brings `depth` open brackets down to none.
pub open spec fn closing_end(t: Seq<char>, i: int, hi: int, depth: nat) -> Option<int>
    decreases hi - i,
{
    if depth == 0 {
        Some(i)
    } else if i < 0 || i >= hi {
        None
    } else if t[i] == ')' {
        closing_end(t, i + 1, hi, (depth - 1) as nat)
    } else if t[i] == '(' {
        closing_end(t, i + 1, hi, depth + 1)
    } else {
        closing_end(t, i + 1, hi, depth)
    }
}

/// The end of the number that starts at `i`: digits and at most one decimal point.
pub open spec fn number_end(t: Seq<char>, i: int, hi: int, point: bool) -> Result<int, &'static str>
    decreases hi - i,
{
    if 0 <= i < hi && (numeric(t[i]) || t[i] == '.') {
        if t[i] == '.' && point {
            Err("Cannot have two decimal points in number")
        } else {
            number_end(t, i + 1, hi, point || t[i] == '.')
        }
    } else {
        Ok(i)
    }
}

/// The tokens of `t[i..hi]`, given whether the last token was a value (so that a minus
/// sign after it subtracts), whether a close bracket is owed after the next value, how many
/// brackets of the text are open, and the depths at which the brackets that `-(` opened are
/// owed their close bracket.
pub open spec fn lex(t: Seq<char>, i: int, hi: int, seen: bool, owed: bool, depth: nat, pending: Seq<nat>) -> Result<Seq<TokenView>, &'static str>
    decreases hi - i,
{
    if i < 0 || i >= hi || hi > t.len() {
        Ok(Seq::empty())
    } else {
        let c = t[i];
        if c == ' ' {
            lex(t, i + 1, hi, seen, owed, depth, pending)
        } else if c == '(' {
            after(seq![open_token()], lex(t, i + 1, hi, false, owed, depth + 1, pending))
        } else if c == ')' {
            let d: nat = if depth > 0 { (depth - 1) as nat } else { 0 };
            if pending.len() > 0 && pending.last() == d {
                after(seq![close_token(), close_token()], lex(t, i + 1, hi, true, owed, d, pending.drop_last()))
            } else {
                after(seq![close_token()], lex(t, i + 1, hi, true, owed, d, pending))
            }
        } else if c == '+' || c == '*' || c == '/' || c == '^' || c == '=' || c == '>' || c == '<' {
            if i + 1 < hi && t[i + 1] == '=' {
                after(seq![opcode_token(seq![c, '='])], lex(t, i + 2, hi, false, owed, depth, pending))
            } else {
                after(seq![opcode_token(seq![c])], lex(t, i + 1, hi, false, owed, depth, pending))
            }
        } else if c == '-' {
            let (e, odd_more) = sign_run(t, i + 1, hi);
            if e <= i || e > hi {
                Ok(Seq::empty())
            } else if odd_more {
                lex(t, e, hi, seen, owed, depth, pending)
            } else {
                let rewrite = (if seen { seq![opcode_token(seq!['+'])] } else { Seq::empty() })
                    + seq![open_token(), (1int, seq!['0'], false), opcode_token(seq!['-'])];
                match after_minus(t, e, hi) {
                    Err(m) => Err(m),
                    Ok((p, value)) => if p < e || p > hi {
                        Err("Expected character after minus sign")
                    } else if value {
                        after(rewrite, lex(t, p, hi, false, true, depth, pending))
                    } else {
                        after(rewrite, lex(t, p, hi, false, owed, depth, pending.push(depth)))
                    },
                }
            }
        } else if ('a' <= c <= 'z') || ('A' <= c <= 'Z') || c == '_' {
            let e = word_end(t, i + 1, hi);
            if e <= i || e > hi {
                Ok(Seq::empty())
            } else if e < hi && t[e] == '(' {
                match closing_end(t, e + 1, hi, 1) {
                    None => Err("Expected closing bracket for component"),
                    Some(f) => if f <= i || f > hi {
                        Ok(Seq::empty())
                    } else {
                        after(seq![(3int, t.subrange(i, f), false)] + (if owed { seq![close_token()] } else { Seq::empty() }),
                            lex(t, f, hi, true, false, depth, pending))
                    },
                }
            } else if t.subrange(i, e) == "true"@ {
                after(seq![(2int, Seq::empty(), true)], lex(t, e, hi, true, owed, depth, pending))
            } else if t.subrange(i, e) == "false"@ {
                after(seq![(2int, Seq::empty(), false)], lex(t, e, hi, true, owed, depth, pending))
            } else {
                after(seq![opcode_token(t.subrange(i, e))], lex(t, e, hi, false, owed, depth, pending))
            }
        } else if '0' <= c <= '9' {
            match number_end(t, i, hi, false) {
                Err(m) => Err(m),
                Ok(e) => if e <= i || e > hi {
                    Err("Unexpected character in conditions")
                } else {
                    after(seq![(1int, t.subrange(i, e), false)] + (if owed { seq![close_token()] } else { Seq::empty() }),
                        lex(t, e, hi, true, false, depth, pending))
                },
            }
        } else {
            Err("Unexpected character in conditions")
        }
    }
}

/// The depths, as numbers.
pub open spec fn depths(v: Seq<usize>) -> Seq<nat> {
    v.map_values(|x: usize| x as nat)
}

proof fn lemma_view_push(s: Seq<Token>, t: Token)
    ensures
        view_tokens(s.push(t)) == view_tokens(s).push(view_token(t)),
{
    assert(view_tokens(s.push(t)) =~= view_tokens(s).push(view_token(t)));
}

proof fn lemma_after_after(a: Seq<TokenView>, b: Seq<TokenView>, r: Result<Seq<TokenView>, &'static str>)
    ensures
        after(a, after(b, r)) == after(a + b, r),
{
    match r {
        Ok(s) => assert(a + (b + s) =~= (a + b) + s),
        Err(_) => {},
    }
}

fn single(c: char) -> (r: Vec<char>)
    ensures
        r@ == seq![c],
{
    let mut r = Vec::new();
    r.push(c);
    assert(r@ =~= seq![c]);
    r
}

fn push_token(tokens: &mut Vec<Token>, t: Token)
    ensures
        final(tokens)@ == old(tokens)@.push(t),
        view_tokens(final(tokens)@) == view_tokens(old(tokens)@).push(view_token(t)),
{
    proof {
        lemma_view_push(tokens@, t);
    }
    tokens.push(t);
}

fn scan_signs(text: &Vec<char>, i: usize, hi: usize) -> (r: (usize, bool))
    requires
        i <= hi <= text@.len(),
    ensures
        r.0 as int == sign_run(text@, i as int, hi as int).0,
        r.1 == sign_run(text@, i as int, hi as int).1,
        i <= r.0 <= hi,
    decreases hi - i,
{
    if i < hi && (text[i] == '-' || text[i] == '+') {
        let (e, odd) = scan_signs(text, i + 1, hi);
        (e, if text[i] == '-' { !odd } else { odd })
    } else {
        (i, false)
    }
}

fn scan_after_minus(text: &Vec<char>, i: usize, hi: usize) -> (r: Result<(usize, bool), &'static str>)
    requires
        i <= hi <= text@.len(),
    ensures
        match r {
            Ok((p, v)) => after_minus(text@, i as int, hi as int) == Ok::<(int, bool), &'static str>((p as int, v)) && i <= p < hi,
            Err(m) => after_minus(text@, i as int, hi as int) == Err::<(int, bool), &'static str>(m),
        },
    decreases hi - i,
{
    if i >= hi {
        Err("Expected character after minus sign")
    } else if is_alphanumeric(text[i]) {
        Ok((i, true))
    } else if text[i] == '(' {
        Ok((i, false))
    } else if text[i] == ' ' {
        scan_after_minus(text, i + 1, hi)
    } else {
        Err("Expected valid character after minus sign")
    }
}

fn scan_word(text: &Vec<char>, i: usize, hi: usize) -> (r: usize)
    requires
        i <= hi <= text@.len(),
    ensures
        r as int == word_end(text@, i as int, hi as int),
        i <= r <= hi,
    decreases hi - i,
{
    if i < hi && (is_alphanumeric(text[i]) || text[i] == '_') {
        scan_word(text, i + 1, hi)
    } else {
        i
    }
}

fn scan_closing(text: &Vec<char>, i: usize, hi: usize, depth: usize) -> (r: Option<usize>)
    requires
        i <= hi <= text@.len(),
        depth <= i,
    ensures
        match r {
            Some(f) => closing_end(text@, i as int, hi as int, depth as nat) == Some(f as int) && i <= f <= hi,
            None => closing_end(text@, i as int, hi as int, depth as nat) is None,
        },
    decreases hi - i,
{
    if depth == 0 {
        Some(i)
    } else if i >= hi {
        None
    } else if text[i] == ')' {
        scan_closing(text, i + 1, hi, depth - 1)
    } else if text[i] == '(' {
        scan_closing(text, i + 1, hi, depth + 1)
    } else {
        scan_closing(text, i + 1, hi, depth)
    }
}

fn scan_number(text: &Vec<char>, i: usize, hi: usize, point: bool) -> (r: Result<usize, &'static str>)
    requires
        i <= hi <= text@.len(),
    ensures
        match r {
            Ok(e) => number_end(text@, i as int, hi as int, point) == Ok::<int, &'static str>(e as int) && i <= e <= hi,
            Err(m) => number_end(text@, i as int, hi as int, point) == Err::<int, &'static str>(m),
        },
    decreases hi - i,
{
    if i < hi && (is_numeric(text[i]) || text[i] == '.') {
        if text[i] == '.' && point {
            Err("Cannot have two decimal points in number")
        } else {
            scan_number(text, i + 1, hi, point || text[i] == '.')
        }
    } else {
        Ok(i)
    }
}

/// Splits a condition, `text[lo..hi]`, into tokens. A run of minus signs (with plus signs
/// among them) counts by its parity; an odd one before a value `X` (a number, a component,
/// or a bracketed group) becomes `(0 - X)`, preceded by `+` where it follows a value.
pub fn tokenise(text: &Vec<char>, lo: usize, hi: usize) -> (r: Result<Vec<Token>, &'static str>)
    requires
        lo <= hi <= text@.len(),
    ensures
        match r {
            Ok(v) => lex(text@, lo as int, hi as int, false, false, 0, Seq::empty()) == Ok::<Seq<TokenView>, &'static str>(view_tokens(v@)),
            Err(m) => lex(text@, lo as int, hi as int, false, false, 0, Seq::empty()) == Err::<Seq<TokenView>, &'static str>(m),
        },
{
    let mut tokens: Vec<Token> = Vec::new();
    let mut i = lo;
    let mut seen = false;
    let mut owed = false;
    let mut depth: usize = 0;
    let mut pending: Vec<usize> = Vec::new();
    proof {
        assert(view_tokens(tokens@) =~= Seq::<TokenView>::empty());
        assert(depths(pending@) =~= Seq::<nat>::empty());
        match lex(text@, lo as int, hi as int, false, false, 0, Seq::empty()) {
            Ok(s) => assert(Seq::<TokenView>::empty() + s =~= s),
            Err(_) => {},
        }
    }
    while i < hi
        invariant
            lo <= i <= hi <= text@.len(),
            depth <= i,
            lex(text@, lo as int, hi as int, false, false, 0, Seq::empty())
                == after(view_tokens(tokens@), lex(text@, i as int, hi as int, seen, owed, depth as nat, depths(pending@))),
        decreases hi - i,
    {
        let c = text[i];
        let ghost v0 = view_tokens(tokens@);
        let ghost pd = depths(pending@);
        if c == ' ' {
            i += 1;
        } else if c == '(' {
            push_token(&mut tokens, Token::OpenBracket);
            proof {
                lemma_after_after(v0, seq![open_token()], lex(text@, i + 1, hi as int, false, owed, depth as nat + 1, pd));
                assert(v0 + seq![open_token()] =~= view_tokens(tokens@));
            }
            depth += 1;
            seen = false;
            i += 1;
        } else if c == ')' {
            push_token(&mut tokens, Token::CloseBracket);
            if depth > 0 {
                depth -= 1;
            }
            let n = pending.len();
            if n > 0 && pending[n - 1] == depth {
                push_token(&mut tokens, Token::CloseBracket);
                let ghost pv = pending@;
                pending.pop();
                proof {
                    assert(depths(pending@) =~= pd.drop_last());
                    assert(pd.last() == pv[n - 1] as nat);
                    lemma_after_after(v0, seq![close_token(), close_token()], lex(text@, i + 1, hi as int, true, owed, depth as nat, pd.drop_last()));
                    assert(v0 + seq![close_token(), close_token()] =~= view_tokens(tokens@));
                }
            } else {
                proof {
                    if n > 0 {
                        assert(pd.last() == pending@[n - 1] as nat);
                    }
                    lemma_after_after(v0, seq![close_token()], lex(text@, i + 1, hi as int, true, owed, depth as nat, pd));
                    assert(v0 + seq![close_token()] =~= view_tokens(tokens@));
                }
            }
            seen = true;
            i += 1;
        } else if c == '+' || c == '*' || c == '/' || c == '^' || c == '=' || c == '>' || c == '<' {
            let mut opcode = single(c);
            if i + 1 < hi && text[i + 1] == '=' {
                opcode.push('=');
                assert(opcode@ =~= seq![c, '=']);
                push_token(&mut tokens, Token::Opcode(opcode));
                proof {
                    lemma_after_after(v0, seq![opcode_token(seq![c, '='])], lex(text@, i + 2, hi as int, false, owed, depth as nat, pd));
                    assert(v0 + seq![opcode_token(seq![c, '='])] =~= view_tokens(tokens@));
                }
                i += 2;
            } else {
                push_token(&mut tokens, Token::Opcode(opcode));
                proof {
                    lemma_after_after(v0, seq![opcode_token(seq![c])], lex(text@, i + 1, hi as int, false, owed, depth as nat, pd));
                    assert(v0 + seq![opcode_token(seq![c])] =~= view_tokens(tokens@));
                }
                i += 1;
            }
            seen = false;
        } else if c == '-' {
            let (e, odd_more) = scan_signs(text, i + 1, hi);
            if odd_more {
                i = e;
            } else {
                let ghost rewrite = (if seen { seq![opcode_token(seq!['+'])] } else { Seq::<TokenView>::empty() })
                    + seq![open_token(), (1int, seq!['0'], false), opcode_token(seq!['-'])];
                if seen {
                    push_token(&mut tokens, Token::Opcode(single('+')));
                }
                push_token(&mut tokens, Token::OpenBracket);
                push_token(&mut tokens, Token::Number(single('0')));
                push_token(&mut tokens, Token::Opcode(single('-')));
                proof {
                    assert(view_tokens(tokens@) =~= v0 + rewrite);
                }
                match scan_after_minus(text, e, hi) {
                    Err(m) => return Err(m),
                    Ok((p, value)) => {
                        if value {
                            proof {
                                lemma_after_after(v0, rewrite, lex(text@, p as int, hi as int, false, true, depth as nat, pd));
                            }
                            owed = true;
                        } else {
                            proof {
                                lemma_after_after(v0, rewrite, lex(text@, p as int, hi as int, false, owed, depth as nat, pd.push(depth as nat)));
                            }
                            pending.push(depth);
                            proof {
                                assert(depths(pending@) =~= pd.push(depth as nat));
                            }
                        }
                        seen = false;
                        i = p;
                    },
                }
            }
        } else if ('a' <= c && c <= 'z') || ('A' <= c && c <= 'Z') || c == '_' {
            let e = scan_word(text, i + 1, hi);
            if e < hi && text[e] == '(' {
                match scan_closing(text, e + 1, hi, 1) {
                    None => return Err("Expected closing bracket for component"),
                    Some(f) => {
                        let call = copy_range(text, i, f);
                        push_token(&mut tokens, Token::Component(call));
                        if owed {
                            push_token(&mut tokens, Token::CloseBracket);
                        }
                        proof {
                            let head = seq![(3int, text@.subrange(i as int, f as int), false)]
                                + (if owed { seq![close_token()] } else { Seq::<TokenView>::empty() });
                            assert(view_tokens(tokens@) =~= v0 + head);
                            lemma_after_after(v0, head, lex(text@, f as int, hi as int, true, false, depth as nat, pd));
                        }
                        seen = true;
                        owed = false;
                        i = f;
                    },
                }
            } else if spells(text, i, e, "true") {
                push_token(&mut tokens, Token::Boolean(true));
                proof {
                    lemma_after_after(v0, seq![(2int, Seq::<char>::empty(), true)], lex(text@, e as int, hi as int, true, owed, depth as nat, pd));
                    assert(v0 + seq![(2int, Seq::<char>::empty(), true)] =~= view_tokens(tokens@));
                }
                seen = true;
                i = e;
            } else if spells(text, i, e, "false") {
                push_token(&mut tokens, Token::Boolean(false));
                proof {
                    lemma_after_after(v0, seq![(2int, Seq::<char>::empty(), false)], lex(text@, e as int, hi as int, true, owed, depth as nat, pd));
                    assert(v0 + seq![(2int, Seq::<char>::empty(), false)] =~= view_tokens(tokens@));
                }
                seen = true;
                i = e;
            } else {
                let word = copy_range(text, i, e);
                push_token(&mut tokens, Token::Opcode(word));
                proof {
                    lemma_after_after(v0, seq![opcode_token(text@.subrange(i as int, e as int))], lex(text@, e as int, hi as int, false, owed, depth as nat, pd));
                    assert(v0 + seq![opcode_token(text@.subrange(i as int, e as int))] =~= view_tokens(tokens@));
                }
                seen = false;
                i = e;
            }
        } else if '0' <= c && c <= '9' {
            match scan_number(text, i, hi, false) {
                Err(m) => return Err(m),
                Ok(e) => {
                    if e == i {
                        // A digit that `char::is_numeric` does not count stops the number at once.
                        return Err("Unexpected character in conditions");
                    }
                    let number = copy_range(text, i, e);
                    push_token(&mut tokens, Token::Number(number));
                    if owed {
                        push_token(&mut tokens, Token::CloseBracket);
                    }
                    proof {
                        let head = seq![(1int, text@.subrange(i as int, e as int), false)]
                            + (if owed { seq![close_token()] } else { Seq::<TokenView>::empty() });
                        assert(view_tokens(tokens@) =~= v0 + head);
                        lemma_after_after(v0, head, lex(text@, e as int, hi as int, true, false, depth as nat, pd));
                    }
                    seen = true;
                    owed = false;
                    i = e;
                },
            }
        } else {
            return Err("Unexpected character in conditions");
        }
    }
    proof {
        assert(view_tokens(tokens@) + Seq::<TokenView>::empty() =~= view_tokens(tokens@));
    }
    Ok(tokens)
}

} // verus!

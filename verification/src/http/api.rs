use vstd::prelude::*;
use vstd::string::StrSliceExecFns;

use crate::math::derivative::{deriv, try_derivative};
use crate::math::number::{arith_spec, well_behaved, NumOp};
use crate::math::simplify::{Arith, simp, try_simplify};
use crate::math::solve::{spec_solve, try_solve};
use crate::preprocess::display::text;
use crate::preprocess::lexer::{lex, push_char};
use crate::preprocess::parser::parse_tokens;
use crate::preprocess::translator::{self, Translator};
use crate::preprocess::types::{Equation, SExpr, text_is};

verus! {

/// `c` has the Unicode `White_Space` property (as `char::is_whitespace`
/// decides).
pub open spec fn is_white(c: char) -> bool {
    ||| '\u{9}' <= c <= '\u{d}'
    ||| c == ' '
    ||| c == '\u{85}'
    ||| c == '\u{a0}'
    ||| c == '\u{1680}'
    ||| '\u{2000}' <= c <= '\u{200a}'
    ||| c == '\u{2028}'
    ||| c == '\u{2029}'
    ||| c == '\u{202f}'
    ||| c == '\u{205f}'
    ||| c == '\u{3000}'
}

/// The separator between the head and the body of a request.
pub open spec fn blank_line() -> Seq<char> {
    seq!['\r', '\n', '\r', '\n']
}

/// The first position at or after `from` where `pat` occurs in `s`, or -1.
pub open spec fn find_sub(s: Seq<char>, pat: Seq<char>, from: int) -> int
    decreases s.len() - from,
{
    if from < 0 || from >= s.len() || from + pat.len() > s.len() {
        -1
    } else if s.subrange(from, from + pat.len()) == pat {
        from
    } else {
        find_sub(s, pat, from + 1)
    }
}

/// The last piece of `s` from `start` on, split at blank lines read from
/// the left.
pub open spec fn last_from(s: Seq<char>, start: int) -> Seq<char>
    decreases s.len() - start,
{
    let p = find_sub(s, blank_line(), start);
    if p < start || p + 4 > s.len() {
        s.subrange(start, s.len() as int)
    } else {
        last_from(s, p + 4)
    }
}

/// The last piece of `s` split at blank lines, read from the left (the body
/// of a request).
pub open spec fn last_segment(s: Seq<char>) -> Seq<char> {
    last_from(s, 0)
}

/// The first position at or after `from` where `c` occurs in `s`, or -1.
pub open spec fn find_char(s: Seq<char>, c: char, from: int) -> int
    decreases s.len() - from,
{
    if from < 0 || from >= s.len() {
        -1
    } else if s[from] == c {
        from
    } else {
        find_char(s, c, from + 1)
    }
}

/// The first line of `s` without its line ending; `None` for the empty text.
pub open spec fn first_line(s: Seq<char>) -> Option<Seq<char>> {
    if s.len() == 0 {
        None
    } else {
        let p = find_char(s, '\n', 0);
        if p < 0 {
            Some(s)
        } else {
            let l = s.take(p);
            if l.len() > 0 && l.last() == '\r' {
                Some(l.drop_last())
            } else {
                Some(l)
            }
        }
    }
}

/// The first position at or after `i` that is not white, or the length.
pub open spec fn skip_white(s: Seq<char>, i: int) -> int
    decreases s.len() - i,
{
    if 0 <= i < s.len() && is_white(s[i]) {
        skip_white(s, i + 1)
    } else {
        i
    }
}

/// The first position at or after `i` that is white, or the length.
pub open spec fn word_end(s: Seq<char>, i: int) -> int
    decreases s.len() - i,
{
    if 0 <= i < s.len() && !is_white(s[i]) {
        word_end(s, i + 1)
    } else {
        i
    }
}

/// The second of the words that white space separates in `line`.
pub open spec fn second_word(line: Seq<char>) -> Option<Seq<char>> {
    let a = skip_white(line, 0);
    if a >= line.len() {
        None
    } else {
        let b = skip_white(line, word_end(line, a));
        if b >= line.len() {
            None
        } else {
            Some(line.subrange(b, word_end(line, b)))
        }
    }
}

/// The path of a request: the second word of its first line.
pub open spec fn request_path(req: Seq<char>) -> Option<Seq<char>> {
    match first_line(req) {
        Some(l) => second_word(l),
        None => None,
    }
}

/// The two sides of `left=right`: the text before the first `=`, and the text
/// between it and the next `=` (or the end); `None` without an `=`.
pub open spec fn split_equation(f: Seq<char>) -> Option<(Seq<char>, Seq<char>)> {
    let p = find_char(f, '=', 0);
    if p < 0 {
        None
    } else {
        let q = find_char(f, '=', p + 1);
        Some((f.take(p), if q < 0 { f.subrange(p + 1, f.len() as int) } else { f.subrange(p + 1, q) }))
    }
}

/// A successful reply carrying `body`.
pub open spec fn reply(body: Seq<char>) -> Seq<char> {
    "HTTP/1.1 200 OK\r\n\r\n\r\n"@ + body + "\r\n"@
}

/// The formula parsed and simplified, within `fuel` steps for each.
pub open spec fn read_formula(f: Seq<char>, ar: Arith, fuel: nat) -> Option<SExpr> {
    match parse_tokens(lex(f), fuel) {
        Some(e) => simp(e, ar, fuel),
        None => None,
    }
}

/// The reply to a simplification request.
pub open spec fn simplify_reply(f: Seq<char>, ar: Arith, fuel: nat) -> Option<Seq<char>> {
    match read_formula(f, ar, fuel) {
        Some(e) => Some(reply(text(e))),
        None => None,
    }
}

/// The reply to a differentiation request: the simplified derivative of the
/// simplified formula.
pub open spec fn deriv_reply(f: Seq<char>, ar: Arith, fuel: nat) -> Option<Seq<char>> {
    match read_formula(f, ar, fuel) {
        Some(e) => match deriv(e, ar, fuel) {
            Some(d) => match simp(d, ar, fuel) {
                Some(r) => Some(reply(text(r))),
                None => None,
            },
            None => None,
        },
        None => None,
    }
}

/// The reply to an equation-solving request.
pub open spec fn solve_reply(f: Seq<char>, ar: Arith, fuel: nat) -> Option<Seq<char>> {
    match split_equation(f) {
        None => None,
        Some((a, b)) => match read_formula(a, ar, fuel) {
            None => None,
            Some(l) => match read_formula(b, ar, fuel) {
                None => None,
                Some(r) => match spec_solve(l, r, ar, fuel) {
                    Some((sl, sr)) => Some(reply(text(sl) + "="@ + text(sr) + "\n"@)),
                    None => None,
                },
            },
        },
    }
}

/// What becomes of a request.
pub enum SpecOutcome {
    /// This text is sent back.
    Send(Seq<char>),
    /// Nothing is sent: the path is not one of the three.
    Ignore,
    /// Handling fails: the request line has no path, or reading,
    /// simplifying, differentiating or solving the formula fails.
    Fail,
}

/// What becomes of a whole request: it is routed by its path to `/solve`,
/// `/deriv` or `/simplify`, on the formula that is its last
/// blank-line-separated piece, with at most `fuel` steps for each stage.
pub open spec fn respond(req: Seq<char>, ar: Arith, fuel: nat) -> SpecOutcome {
    let formula = last_segment(req);
    let handled = |r: Option<Seq<char>>|
        match r {
            Some(t) => SpecOutcome::Send(t),
            None => SpecOutcome::Fail,
        };
    match request_path(req) {
        None => SpecOutcome::Fail,
        Some(path) => if path == "/solve"@ {
            handled(solve_reply(formula, ar, fuel))
        } else if path == "/deriv"@ {
            handled(deriv_reply(formula, ar, fuel))
        } else if path == "/simplify"@ {
            handled(simplify_reply(formula, ar, fuel))
        } else {
            SpecOutcome::Ignore
        },
    }
}

} // verus!

verus! {

fn is_whitespace(c: char) -> (r: bool)
    ensures
        r == is_white(c),
{
    ('\u{9}' <= c && c <= '\u{d}') || c == ' ' || c == '\u{85}' || c == '\u{a0}' || c == '\u{1680}'
        || ('\u{2000}' <= c && c <= '\u{200a}') || c == '\u{2028}' || c == '\u{2029}' || c
        == '\u{202f}' || c == '\u{205f}' || c == '\u{3000}'
}

/// The characters of `s`.
fn to_chars(s: &String) -> (v: Vec<char>)
    ensures
        v@ == s@,
{
    let n = s.as_str().unicode_len();
    let mut v: Vec<char> = Vec::new();
    let mut i: usize = 0;
    while i < n
        invariant
            n == s@.len(),
            i <= n,
            v@ == s@.take(i as int),
        decreases n - i,
    {
        let c = s.as_str().get_char(i);
        v.push(c);
        assert(v@ =~= s@.take(i + 1));
        i = i + 1;
    }
    assert(v@ =~= s@);
    v
}

/// The text of characters `a` up to `b` of `v`.
fn string_of(v: &Vec<char>, a: usize, b: usize) -> (r: String)
    requires
        a <= b <= v@.len(),
    ensures
        r@ == v@.subrange(a as int, b as int),
{
    let mut s = String::new();
    let mut i = a;
    while i < b
        invariant
            a <= i <= b <= v@.len(),
            s@ == v@.subrange(a as int, i as int),
        decreases b - i,
    {
        push_char(&mut s, v[i]);
        assert(s@ =~= v@.subrange(a as int, i + 1));
        i = i + 1;
    }
    s
}

fn find_char_exec(v: &Vec<char>, c: char, from: usize) -> (r: Option<usize>)
    ensures
        match r {
            Some(p) => find_char(v@, c, from as int) == p && from <= p < v@.len(),
            None => find_char(v@, c, from as int) == -1,
        },
{
    let mut i = from;
    while i < v.len()
        invariant
            from <= i,
            find_char(v@, c, from as int) == find_char(v@, c, i as int),
        decreases v@.len() - i,
    {
        if v[i] == c {
            return Some(i);
        }
        i = i + 1;
    }
    None
}

fn blank_line_at(v: &Vec<char>, i: usize) -> (r: bool)
    requires
        i + 4 <= v@.len(),
    ensures
        r == (v@.subrange(i as int, i + 4) == blank_line()),
{
    let n = v.len();
    let r = v[i] == '\r' && v[i + 1] == '\n' && v[i + 2] == '\r' && v[i + 3] == '\n';
    proof {
        if r {
            assert(v@.subrange(i as int, i + 4) =~= blank_line());
        } else {
            if v@.subrange(i as int, i + 4) == blank_line() {
                assert(v@[i as int] == v@.subrange(i as int, i + 4)[0]);
                assert(v@[i + 1] == v@.subrange(i as int, i + 4)[1]);
                assert(v@[i + 2] == v@.subrange(i as int, i + 4)[2]);
                assert(v@[i + 3] == v@.subrange(i as int, i + 4)[3]);
            }
        }
    }
    r
}

fn find_blank_line(v: &Vec<char>, from: usize) -> (r: Option<usize>)
    ensures
        match r {
            Some(p) => find_sub(v@, blank_line(), from as int) == p && from <= p && p + 4 <= v@.len(),
            None => find_sub(v@, blank_line(), from as int) == -1,
        },
{
    let mut i = from;
    while i < v.len() && v.len() - i >= 4
        invariant
            from <= i,
            find_sub(v@, blank_line(), from as int) == find_sub(v@, blank_line(), i as int),
        decreases v@.len() - i,
    {
        if blank_line_at(v, i) {
            return Some(i);
        }
        i = i + 1;
    }
    None
}

/// Where the last blank-line-separated piece of `v` starts.
fn last_segment_start(v: &Vec<char>) -> (r: usize)
    ensures
        r <= v@.len(),
        last_segment(v@) == v@.subrange(r as int, v@.len() as int),
{
    let mut start: usize = 0;
    loop
        invariant
            start <= v@.len(),
            last_segment(v@) == last_from(v@, start as int),
        decreases v@.len() - start,
    {
        match find_blank_line(v, start) {
            Some(p) => {
                let n = v.len();
                start = p + 4;
            },
            None => {
                return start;
            },
        }
    }
}

fn skip_white_exec(v: &Vec<char>, i0: usize) -> (r: usize)
    requires
        i0 <= v@.len(),
    ensures
        r == skip_white(v@, i0 as int),
        i0 <= r <= v@.len(),
{
    let mut i = i0;
    while i < v.len() && is_whitespace(v[i])
        invariant
            i0 <= i <= v@.len(),
            skip_white(v@, i0 as int) == skip_white(v@, i as int),
        decreases v@.len() - i,
    {
        i = i + 1;
    }
    i
}

fn word_end_exec(v: &Vec<char>, i0: usize) -> (r: usize)
    requires
        i0 <= v@.len(),
    ensures
        r == word_end(v@, i0 as int),
        i0 <= r <= v@.len(),
{
    let mut i = i0;
    while i < v.len() && !is_whitespace(v[i])
        invariant
            i0 <= i <= v@.len(),
            word_end(v@, i0 as int) == word_end(v@, i as int),
        decreases v@.len() - i,
    {
        i = i + 1;
    }
    i
}

/// The path of the request whose characters are `v`.
fn request_path_exec(v: &Vec<char>) -> (r: Option<String>)
    ensures
        match r {
            Some(p) => request_path(v@) == Some(p@),
            None => request_path(v@) is None,
        },
{
    if v.len() == 0 {
        return None;
    }
    let end = match find_char_exec(v, '\n', 0) {
        Some(p) => if p > 0 && v[p - 1] == '\r' {
            p - 1
        } else {
            p
        },
        None => v.len(),
    };
    let ghost line = v@.take(end as int);
    proof {
        let p = find_char(v@, '\n', 0);
        if p >= 0 {
            let l = v@.take(p);
            if l.len() > 0 && l.last() == '\r' {
                assert(l.drop_last() =~= line);
            } else {
                assert(l =~= line);
            }
        } else {
            assert(v@ =~= line);
        }
        assert(first_line(v@) == Some(line));
    }
    let a = skip_white_exec(v, 0);
    if a >= end {
        proof {
            lemma_skip_white_prefix(v@, end as int, 0);
        }
        return None;
    }
    let we = word_end_exec(v, a);
    let b = skip_white_exec(v, if we < end { we } else { end });
    proof {
        lemma_skip_white_prefix(v@, end as int, 0);
        lemma_word_end_prefix(v@, end as int, a as int);
        lemma_skip_white_prefix(v@, end as int, if we < end { we as int } else { end as int });
    }
    if b >= end {
        return None;
    }
    let e = word_end_exec(v, b);
    let e2 = if e < end { e } else { end };
    proof {
        lemma_word_end_prefix(v@, end as int, b as int);
        assert(line.subrange(b as int, e2 as int) =~= v@.subrange(b as int, e2 as int));
    }
    Some(string_of(v, b, e2))
}

/// Scanning the first `n` characters of `s` stops where scanning all of them
/// stops, or at `n`.
proof fn lemma_skip_white_prefix(s: Seq<char>, n: int, i: int)
    requires
        0 <= i <= n <= s.len(),
    ensures
        skip_white(s.take(n), i) == if skip_white(s, i) < n { skip_white(s, i) } else { n },
    decreases n - i,
{
    lemma_scans_advance(s, i);
    if i < n {
        assert(s.take(n)[i] == s[i]);
    }
    if i < n && is_white(s[i]) {
        lemma_skip_white_prefix(s, n, i + 1);
    }
}

proof fn lemma_scans_advance(s: Seq<char>, i: int)
    ensures
        i <= skip_white(s, i),
        i <= word_end(s, i),
    decreases s.len() - i,
{
    if 0 <= i < s.len() {
        lemma_scans_advance(s, i + 1);
    }
}

proof fn lemma_word_end_prefix(s: Seq<char>, n: int, i: int)
    requires
        0 <= i <= n <= s.len(),
    ensures
        word_end(s.take(n), i) == if word_end(s, i) < n { word_end(s, i) } else { n },
    decreases n - i,
{
    lemma_scans_advance(s, i);
    if i < n {
        assert(s.take(n)[i] == s[i]);
    }
    if i < n && !is_white(s[i]) {
        lemma_word_end_prefix(s, n, i + 1);
    }
}

} // verus!

verus! {

/// The reply carrying `body`.
fn make_reply(body: String) -> (r: String)
    ensures
        r@ == reply(body@),
{
    let mut s = String::from_str("HTTP/1.1 200 OK\r\n\r\n\r\n");
    s.append(body.as_str());
    s.append("\r\n");
    s
}

/// Reads and simplifies a formula, within `fuel` steps for each stage.
fn read_formula_exec<F: Fn(NumOp, &String, &String) -> String>(
    f: String,
    arith: &F,
    fuel: u64,
) -> (r: Option<crate::preprocess::types::Expression>)
    requires
        well_behaved(*arith),
    ensures
        crate::math::simplify::opt_model(r) == read_formula(f@, arith_spec(*arith), fuel as nat),
{
    let t = translator::new();
    let e = t.try_translate(f, fuel)?;
    try_simplify(e, arith, fuel)
}

/// Answers a simplification request on `formula`.
pub fn handle_simplify<F: Fn(NumOp, &String, &String) -> String>(
    formula: String,
    arith: &F,
    fuel: u64,
) -> (r: Option<String>)
    requires
        well_behaved(*arith),
    ensures
        match r {
            Some(s) => simplify_reply(formula@, arith_spec(*arith), fuel as nat) == Some(s@),
            None => simplify_reply(formula@, arith_spec(*arith), fuel as nat) is None,
        },
{
    let form = read_formula_exec(formula, arith, fuel)?;
    Some(make_reply(form.to_text()))
}

/// Answers a differentiation request on `formula`.
pub fn handle_deriv<F: Fn(NumOp, &String, &String) -> String>(
    formula: String,
    arith: &F,
    fuel: u64,
) -> (r: Option<String>)
    requires
        well_behaved(*arith),
    ensures
        match r {
            Some(s) => deriv_reply(formula@, arith_spec(*arith), fuel as nat) == Some(s@),
            None => deriv_reply(formula@, arith_spec(*arith), fuel as nat) is None,
        },
{
    let eq = read_formula_exec(formula, arith, fuel)?;
    let d = try_derivative(eq, arith, fuel)?;
    let fin = try_simplify(d, arith, fuel)?;
    Some(make_reply(fin.to_text()))
}

/// Answers an equation-solving request on `formula`, written `left=right`.
pub fn handle_solve<F: Fn(NumOp, &String, &String) -> String>(
    formula: String,
    arith: &F,
    fuel: u64,
) -> (r: Option<String>)
    requires
        well_behaved(*arith),
    ensures
        match r {
            Some(s) => solve_reply(formula@, arith_spec(*arith), fuel as nat) == Some(s@),
            None => solve_reply(formula@, arith_spec(*arith), fuel as nat) is None,
        },
{
    let v = to_chars(&formula);
    let n = v.len();
    let p = find_char_exec(&v, '=', 0)?;
    let q = find_char_exec(&v, '=', p + 1);
    let part0 = string_of(&v, 0, p);
    let part1 = match q {
        Some(q) => string_of(&v, p + 1, q),
        None => string_of(&v, p + 1, v.len()),
    };
    proof {
        assert(v@.take(p as int) =~= v@.subrange(0, p as int));
    }
    let left = read_formula_exec(part0, arith, fuel)?;
    let right = read_formula_exec(part1, arith, fuel)?;
    let fin = try_solve(Equation { left, right }, arith, fuel)?;
    Some(make_reply(fin.to_text()))
}

/// What becomes of a request.
#[derive(Debug, PartialEq, Eq)]
pub enum Outcome {
    /// This text is sent back.
    Send(String),
    /// Nothing is sent: the path is not one of the three.
    Ignore,
    /// Handling fails.
    Fail,
}

impl View for Outcome {
    type V = SpecOutcome;

    open spec fn view(&self) -> SpecOutcome {
        match self {
            Outcome::Send(s) => SpecOutcome::Send(s@),
            Outcome::Ignore => SpecOutcome::Ignore,
            Outcome::Fail => SpecOutcome::Fail,
        }
    }
}

fn outcome(r: Option<String>) -> (o: Outcome)
    ensures
        o@ == (match r {
            Some(t) => SpecOutcome::Send(t@),
            None => SpecOutcome::Fail,
        }),
{
    match r {
        Some(t) => Outcome::Send(t),
        None => Outcome::Fail,
    }
}

/// Handles a whole request (see `respond`).
pub fn handle<F: Fn(NumOp, &String, &String) -> String>(
    request: String,
    arith: &F,
    fuel: u64,
) -> (r: Outcome)
    requires
        well_behaved(*arith),
    ensures
        r@ == respond(request@, arith_spec(*arith), fuel as nat),
{
    let v = to_chars(&request);
    let start = last_segment_start(&v);
    let formula = string_of(&v, start, v.len());
    let path = match request_path_exec(&v) {
        Some(p) => p,
        None => {
            return Outcome::Fail;
        },
    };
    if text_is(&path, "/solve") {
        outcome(handle_solve(formula, arith, fuel))
    } else if text_is(&path, "/deriv") {
        outcome(handle_deriv(formula, arith, fuel))
    } else if text_is(&path, "/simplify") {
        outcome(handle_simplify(formula, arith, fuel))
    } else {
        Outcome::Ignore
    }
}

/// A simplification request is answered with the text of the formula parsed
/// and then simplified.
pub proof fn lemma_simplify_reply_steps(f: Seq<char>, ar: Arith, n: nat)
    ensures
        simplify_reply(f, ar, n) == match parse_tokens(lex(f), n) {
            None => None,
            Some(e) => match simp(e, ar, n) {
                None => None,
                Some(s) => Some(reply(text(s))),
            },
        },
{
}

/// A differentiation request is answered with the text of the simplified
/// derivative of the simplified formula: the formula is parsed, simplified as
/// a simplification request would simplify it, differentiated, and the
/// derivative simplified again.
pub proof fn lemma_deriv_reply_steps(f: Seq<char>, ar: Arith, n: nat)
    ensures
        deriv_reply(f, ar, n) == match parse_tokens(lex(f), n) {
            None => None,
            Some(e) => match simp(e, ar, n) {
                None => None,
                Some(s) => match deriv(s, ar, n) {
                    None => None,
                    Some(d) => match simp(d, ar, n) {
                        None => None,
                        Some(r) => Some(reply(text(r))),
                    },
                },
            },
        },
        forall|s: SExpr|
            parse_tokens(lex(f), n) is Some && simp(parse_tokens(lex(f), n).unwrap(), ar, n) == Some(s)
                ==> simplify_reply(f, ar, n) == Some(reply(text(s))) && deriv_reply(f, ar, n)
                == match deriv(s, ar, n) {
                None => None,
                Some(d) => match simp(d, ar, n) {
                    None => None,
                    Some(r) => Some(reply(text(r))),
                },
            },
{
}

/// An equation-solving request is answered with the solution of the two
/// sides, each parsed and simplified, around the first `=`.
pub proof fn lemma_solve_reply_steps(f: Seq<char>, ar: Arith, n: nat)
    ensures
        solve_reply(f, ar, n) == match split_equation(f) {
            None => None,
            Some((a, b)) => match (parse_tokens(lex(a), n), parse_tokens(lex(b), n)) {
                (Some(ea), Some(eb)) => match (simp(ea, ar, n), simp(eb, ar, n)) {
                    (Some(l), Some(r)) => match spec_solve(l, r, ar, n) {
                        Some((sl, sr)) => Some(reply(text(sl) + "="@ + text(sr) + "\n"@)),
                        None => None,
                    },
                    _ => None,
                },
                _ => None,
            },
        },
{
}

proof fn lemma_find_char_at(s: Seq<char>, c: char, from: int, q: int)
    requires
        0 <= from <= q < s.len(),
        forall|j: int| from <= j < q ==> s[j] != c,
        s[q] == c,
    ensures
        find_char(s, c, from) == q,
    decreases q - from,
{
    if from < q {
        lemma_find_char_at(s, c, from + 1, q);
    }
}

proof fn lemma_skip_white_at(s: Seq<char>, i: int, q: int)
    requires
        0 <= i <= q <= s.len(),
        forall|j: int| i <= j < q ==> is_white(s[j]),
        q < s.len() ==> !is_white(s[q]),
    ensures
        skip_white(s, i) == q,
    decreases q - i,
{
    if i < q {
        lemma_skip_white_at(s, i + 1, q);
    }
}

proof fn lemma_word_end_at(s: Seq<char>, i: int, q: int)
    requires
        0 <= i <= q <= s.len(),
        forall|j: int| i <= j < q ==> !is_white(s[j]),
        q < s.len() ==> is_white(s[q]),
    ensures
        word_end(s, i) == q,
    decreases q - i,
{
    if i < q {
        lemma_word_end_at(s, i + 1, q);
    }
}

proof fn lemma_find_sub_at(s: Seq<char>, pat: Seq<char>, from: int, q: int)
    requires
        0 <= from <= q < s.len(),
        q + pat.len() <= s.len(),
        forall|j: int| from <= j < q ==> #[trigger] s.subrange(j, j + pat.len()) != pat,
        s.subrange(q, q + pat.len()) == pat,
    ensures
        find_sub(s, pat, from) == q,
    decreases q - from,
{
    if from < q {
        assert(s.subrange(from, from + pat.len()) != pat);
        lemma_find_sub_at(s, pat, from + 1, q);
    }
}

proof fn lemma_find_sub_none(s: Seq<char>, pat: Seq<char>, from: int)
    requires
        0 <= from,
        forall|j: int|
            from <= j && j + pat.len() <= s.len() ==> #[trigger] s.subrange(j, j + pat.len()) != pat,
    ensures
        find_sub(s, pat, from) == -1,
    decreases s.len() - from,
{
    if from < s.len() && from + pat.len() <= s.len() {
        lemma_find_sub_none(s, pat, from + 1);
    }
}

proof fn lemma_routing_path(method: Seq<char>, path: Seq<char>, version: Seq<char>, rest: Seq<char>)
    requires
        method.len() > 0,
        path.len() > 0,
        forall|j: int| 0 <= j < method.len() ==> !is_white(#[trigger] method[j]),
        forall|j: int| 0 <= j < path.len() ==> !is_white(#[trigger] path[j]),
        forall|j: int| 0 <= j < version.len() ==> !is_white(#[trigger] version[j]),
    ensures
        request_path(method + seq![' '] + path + seq![' '] + version + seq!['\r', '\n'] + rest)
            == Some(path),
{
    let line = method + seq![' '] + path + seq![' '] + version;
    let req = method + seq![' '] + path + seq![' '] + version + seq!['\r', '\n'] + rest;
    assert(req =~= line + seq!['\r', '\n'] + rest);
    let nm = method.len() as int;
    let np = path.len() as int;
    let nl = line.len() as int;
    assert forall|j: int| 0 <= j < nl implies req[j] == #[trigger] line[j] by {}
    assert forall|j: int| 0 <= j < nl implies #[trigger] line[j] != '\n' by {
        if j < nm {
            assert(line[j] == method[j]);
        } else if j == nm {
        } else if j < nm + 1 + np {
            assert(line[j] == path[j - nm - 1]);
        } else if j == nm + 1 + np {
        } else {
            assert(line[j] == version[j - nm - np - 2]);
        }
    }
    assert(req[nl] == '\r' && req[nl + 1] == '\n');
    lemma_find_char_at(req, '\n', 0, nl + 1);
    assert(req.take(nl + 1) =~= line.push('\r'));
    assert(req.take(nl + 1).drop_last() =~= line);
    assert(first_line(req) == Some(line));
    assert(line[0] == method[0]);
    lemma_skip_white_at(line, 0, 0);
    assert forall|j: int| 0 <= j < nm implies !is_white(line[j]) by {
        assert(line[j] == method[j]);
    }
    lemma_word_end_at(line, 0, nm);
    assert(line[nm + 1] == path[0]);
    lemma_skip_white_at(line, nm, nm + 1);
    assert forall|j: int| nm + 1 <= j < nm + 1 + np implies !is_white(line[j]) by {
        assert(line[j] == path[j - nm - 1]);
    }
    if nm + 1 + np < nl {
        assert(line[nm + 1 + np] == ' ');
    }
    lemma_word_end_at(line, nm + 1, nm + 1 + np);
    assert(line.subrange(nm + 1, nm + 1 + np) =~= path);
}

proof fn lemma_routing_body(line: Seq<char>, body: Seq<char>)
    requires
        forall|j: int| 0 <= j < line.len() ==> #[trigger] line[j] != '\r',
        forall|j: int|
            0 <= j && j + 4 <= body.len() ==> #[trigger] body.subrange(j, j + 4) != blank_line(),
    ensures
        last_segment(line + blank_line() + body) == body,
{
    let req = line + blank_line() + body;
    let nl = line.len() as int;
    assert forall|j: int| 0 <= j < nl implies #[trigger] req.subrange(j, j + 4) != blank_line() by {
        assert(req.subrange(j, j + 4)[0] == req[j]);
        assert(req[j] == line[j]);
    }
    assert(req.subrange(nl, nl + 4) =~= blank_line());
    lemma_find_sub_at(req, blank_line(), 0, nl);
    assert forall|j: int| nl + 4 <= j && j + 4 <= req.len() implies #[trigger] req.subrange(j, j + 4)
        != blank_line() by {
        assert(req.subrange(j, j + 4) =~= body.subrange(j - nl - 4, j - nl - 4 + 4));
    }
    lemma_find_sub_none(req, blank_line(), nl + 4);
    assert(req.subrange(nl + 4, req.len() as int) =~= body);
    assert(last_from(req, nl + 4) == body);
}

/// A request is routed by its path to its body: for a request line of a
/// method, a path and a version (words without white space), a blank line,
/// and a body without a blank line, the answer is the reply of that path's
/// handler on the body, and a path other than the three gets none.
pub proof fn lemma_request_routing(
    method: Seq<char>,
    path: Seq<char>,
    version: Seq<char>,
    body: Seq<char>,
    ar: Arith,
    n: nat,
)
    requires
        method.len() > 0,
        path.len() > 0,
        forall|j: int| 0 <= j < method.len() ==> !is_white(#[trigger] method[j]),
        forall|j: int| 0 <= j < path.len() ==> !is_white(#[trigger] path[j]),
        forall|j: int| 0 <= j < version.len() ==> !is_white(#[trigger] version[j]),
        forall|j: int|
            0 <= j && j + 4 <= body.len() ==> #[trigger] body.subrange(j, j + 4) != blank_line(),
    ensures
        ({
            let req = method + seq![' '] + path + seq![' '] + version + blank_line() + body;
            let handled = |r: Option<Seq<char>>|
                match r {
                    Some(t) => SpecOutcome::Send(t),
                    None => SpecOutcome::Fail,
                };
            respond(req, ar, n) == if path == "/solve"@ {
                handled(solve_reply(body, ar, n))
            } else if path == "/deriv"@ {
                handled(deriv_reply(body, ar, n))
            } else if path == "/simplify"@ {
                handled(simplify_reply(body, ar, n))
            } else {
                SpecOutcome::Ignore
            }
        }),
{
    let line = method + seq![' '] + path + seq![' '] + version;
    let req = method + seq![' '] + path + seq![' '] + version + blank_line() + body;
    let rest = seq!['\r', '\n'] + body;
    assert(req =~= method + seq![' '] + path + seq![' '] + version + seq!['\r', '\n'] + rest);
    lemma_routing_path(method, path, version, rest);
    assert(req =~= line + blank_line() + body);
    let nm = method.len() as int;
    let np = path.len() as int;
    assert forall|j: int| 0 <= j < line.len() implies #[trigger] line[j] != '\r' by {
        if j < nm {
            assert(line[j] == method[j]);
        } else if j == nm {
        } else if j < nm + 1 + np {
            assert(line[j] == path[j - nm - 1]);
        } else if j == nm + 1 + np {
        } else {
            assert(line[j] == version[j - nm - np - 2]);
        }
    }
    lemma_routing_body(line, body);
}

/// An equation `a=b` splits into its two sides at its first `=`; a third
/// part after a second `=` is left out.
pub proof fn lemma_split_equation(a: Seq<char>, b: Seq<char>, rest: Seq<char>)
    requires
        forall|j: int| 0 <= j < a.len() ==> #[trigger] a[j] != '=',
        forall|j: int| 0 <= j < b.len() ==> #[trigger] b[j] != '=',
    ensures
        split_equation(a + seq!['='] + b) == Some((a, b)),
        split_equation(a + seq!['='] + b + seq!['='] + rest) == Some((a, b)),
{
    let na = a.len() as int;
    let nb = b.len() as int;
    let f = a + seq!['='] + b;
    assert forall|j: int| 0 <= j < na implies f[j] != '=' by {
        assert(f[j] == a[j]);
    }
    lemma_find_char_at(f, '=', 0, na);
    lemma_find_char_none(f, '=', na + 1);
    assert(f.take(na) =~= a);
    assert(f.subrange(na + 1, f.len() as int) =~= b);
    let g = a + seq!['='] + b + seq!['='] + rest;
    assert forall|j: int| 0 <= j < na implies g[j] != '=' by {
        assert(g[j] == a[j]);
    }
    lemma_find_char_at(g, '=', 0, na);
    assert forall|j: int| na + 1 <= j < na + 1 + nb implies g[j] != '=' by {
        assert(g[j] == b[j - na - 1]);
    }
    lemma_find_char_at(g, '=', na + 1, na + 1 + nb);
    assert(g.take(na) =~= a);
    assert(g.subrange(na + 1, na + 1 + nb) =~= b);
}

proof fn lemma_find_char_none(s: Seq<char>, c: char, from: int)
    requires
        0 <= from,
        forall|j: int| from <= j < s.len() ==> s[j] != c,
    ensures
        find_char(s, c, from) == -1,
    decreases s.len() - from,
{
    if from < s.len() {
        lemma_find_char_none(s, c, from + 1);
    }
}

} // verus!

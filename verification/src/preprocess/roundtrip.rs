use vstd::prelude::*;
use vstd::utf8::{encode_utf8, is_ascii_chars, is_ascii_chars_encode_utf8};

use crate::preprocess::display::text;
use crate::preprocess::lexer::{
    all_letters, char_at, chars_of, digits_end, letters_end, lex, lex_from, next_token,
    number_end, number_text, operator_type, prepare_piece, prepare_prefix, prepared, spec_is_char,
    spec_is_number,
};
use crate::preprocess::parser::{p_expr, p_function, p_infix, p_loop, p_minus, parsed, shift, spec_token_precedence};
use crate::preprocess::token::{SpecToken, TokenType};
use crate::preprocess::types::{Precedence, SExpr, spec_negative_one};
use crate::preprocess::translator::translated;
use crate::math::simplify::max_fuel;

verus! {

/// A tree that reads back from its own text: sums, products, powers and
/// applications of functions (named by two or more letters) over numbers
/// written as digits with an optional point and fraction, and variables of one
/// letter.
pub open spec fn printable(e: SExpr) -> bool
    decreases e,
{
    match e {
        SExpr::Number(t) => t.token_type == TokenType::Number && exists|k: int| number_text(t.value, k),
        SExpr::Variable(t) => t.token_type == TokenType::Variable && t.value.len() == 1
            && spec_is_char(t.value[0]),
        SExpr::Function { token, input } => token.token_type == TokenType::Function
            && token.value.len() >= 2 && all_letters(token.value) && printable(*input),
        SExpr::Add { left, right } => printable(*left) && printable(*right),
        SExpr::Mul { left, right } => printable(*left) && printable(*right),
        SExpr::Pow { base, exponent } => printable(*base) && printable(*exponent),
        _ => false,
    }
}

/// The nesting depth of a tree.
pub open spec fn height(e: SExpr) -> nat
    decreases e,
{
    match e {
        SExpr::Function { input, .. } => 1 + height(*input),
        SExpr::Add { left, right } => 1 + max(height(*left), height(*right)),
        SExpr::Mul { left, right } => 1 + max(height(*left), height(*right)),
        SExpr::Pow { base, exponent } => 1 + max(height(*base), height(*exponent)),
        _ => 0,
    }
}

pub open spec fn max(a: nat, b: nat) -> nat {
    if a < b {
        b
    } else {
        a
    }
}

/// A one-character token.
pub open spec fn punct(t: TokenType, c: char) -> SpecToken {
    SpecToken { token_type: t, value: seq![c] }
}

/// The tokens of the text of a printable tree.
pub open spec fn tokens_of(e: SExpr) -> Seq<SpecToken>
    decreases e,
{
    match e {
        SExpr::Number(t) => seq![t],
        SExpr::Variable(t) => seq![t],
        SExpr::Function { token, input } => seq![token, punct(TokenType::LeftPara, '(')]
            + tokens_of(*input) + seq![punct(TokenType::RightPara, ')')],
        SExpr::Add { left, right } => binary_tokens(
            tokens_of(*left),
            punct(TokenType::Plus, '+'),
            tokens_of(*right),
        ),
        SExpr::Mul { left, right } => binary_tokens(
            tokens_of(*left),
            punct(TokenType::Star, '*'),
            tokens_of(*right),
        ),
        SExpr::Pow { base, exponent } => binary_tokens(
            tokens_of(*base),
            punct(TokenType::Caret, '^'),
            tokens_of(*exponent),
        ),
        _ => Seq::empty(),
    }
}

/// The tokens `( l op r )`.
pub open spec fn binary_tokens(l: Seq<SpecToken>, op: SpecToken, r: Seq<SpecToken>) -> Seq<
    SpecToken,
> {
    seq![punct(TokenType::LeftPara, '(')] + l + seq![op] + r + seq![punct(TokenType::RightPara, ')')]
}

/// The tokens from position `p` of `toks` on begin with `ts`.
pub open spec fn tokens_at(toks: Seq<SpecToken>, p: int, ts: Seq<SpecToken>) -> bool {
    &&& 0 <= p
    &&& p + ts.len() <= toks.len()
    &&& forall|j: int| 0 <= j < ts.len() ==> toks[p + j] == #[trigger] ts[j]
}

proof fn lemma_tokens_nonempty(e: SExpr)
    requires
        printable(e),
    ensures
        tokens_of(e).len() >= 1,
        tokens_of(e)[0].token_type == TokenType::Number || tokens_of(e)[0].token_type
            == TokenType::Variable || tokens_of(e)[0].token_type == TokenType::Function
            || tokens_of(e)[0] == punct(TokenType::LeftPara, '('),
{
}

proof fn lemma_binary_layout(l: Seq<SpecToken>, op: SpecToken, r: Seq<SpecToken>)
    ensures
        binary_tokens(l, op, r).len() == l.len() + r.len() + 3,
        binary_tokens(l, op, r)[0] == punct(TokenType::LeftPara, '('),
        binary_tokens(l, op, r)[l.len() as int + 1] == op,
        binary_tokens(l, op, r)[l.len() + r.len() as int + 2] == punct(TokenType::RightPara, ')'),
        forall|j: int| 0 <= j < l.len() ==> binary_tokens(l, op, r)[1 + j] == l[j],
        forall|j: int| 0 <= j < r.len() ==> binary_tokens(l, op, r)[l.len() + 2 + j] == r[j],
{
}

/// Parsing a printable tree's tokens as an operand, with the current token
/// its first one, ends at its last token and gives the tree.
proof fn lemma_parse_operand(e: SExpr, toks: Seq<SpecToken>, i: int, f: nat)
    requires
        printable(e),
        i >= 1,
        tokens_at(toks, i - 1, tokens_of(e)),
        i - 1 + tokens_of(e).len() < toks.len(),
        f >= 6 * height(e) + 1,
    ensures
        p_minus(toks, i, f) == Some((i - 1 + tokens_of(e).len() - 1 + 1, e)),
    decreases e, 1int,
{
    let n = tokens_of(e).len();
    assert(toks[i - 1] == tokens_of(e)[0]);
    match e {
        SExpr::Number(t) => {},
        SExpr::Variable(t) => {},
        SExpr::Function { token, input } => {
            let u = *input;
            let tu = tokens_of(u);
            let nu = tu.len() as int;
            let all = tokens_of(e);
            assert(all =~= seq![token, punct(TokenType::LeftPara, '(')] + tu + seq![
                punct(TokenType::RightPara, ')'),
            ]);
            assert(n == nu + 3);
            assert(all[0] == token);
            assert(toks[i - 1] == token);
            assert forall|j: int| 0 <= j < nu implies toks[i + 1 + j] == #[trigger] tu[j] by {
                assert(all[2 + j] == tu[j]);
                assert(toks[i - 1 + (2 + j)] == all[2 + j]);
            }
            assert(all[nu + 2] == punct(TokenType::RightPara, ')'));
            assert(toks[i - 1 + (nu + 2)] == all[nu + 2]);
            let g = (f - 1) as nat;
            lemma_parse_expr(u, toks, i + 2, Precedence::Lowest, (g - 1) as nat);
            assert(shift(toks, i) == Some(i + 1));
            assert(shift(toks, i + 1) == Some(i + 2));
            assert(p_expr(toks, i + 2, Precedence::Lowest, (g - 1) as nat) == Some(
                (i + 1 + nu - 1 + 1, u),
            ));
            assert(shift(toks, i + nu + 1) == Some(i + nu + 2));
            assert(p_function(toks, i, g) == Some((i + nu + 2, e)));
        },
        SExpr::Add { left, right } => {
            lemma_parse_binary(e, *left, *right, punct(TokenType::Plus, '+'), Precedence::Add, toks, i, f);
            assert(tokens_of(e) == binary_tokens(tokens_of(*left), punct(TokenType::Plus, '+'), tokens_of(*right)));
        },
        SExpr::Mul { left, right } => {
            lemma_parse_binary(e, *left, *right, punct(TokenType::Star, '*'), Precedence::Mul, toks, i, f);
        },
        SExpr::Pow { base, exponent } => {
            lemma_parse_binary(
                e,
                *base,
                *exponent,
                punct(TokenType::Caret, '^'),
                Precedence::Pow,
                toks,
                i,
                f,
            );
        },
        _ => {},
    }
}

proof fn lemma_parse_binary(
    e: SExpr,
    l: SExpr,
    r: SExpr,
    op: SpecToken,
    prec: Precedence,
    toks: Seq<SpecToken>,
    i: int,
    f: nat,
)
    requires
        printable(l),
        printable(r),
        (op == punct(TokenType::Plus, '+') && prec == Precedence::Add && e is Add && l
            == *e->Add_left && r == *e->Add_right) || (op == punct(TokenType::Star, '*') && prec
            == Precedence::Mul && e is Mul && l == *e->Mul_left && r == *e->Mul_right) || (op
            == punct(TokenType::Caret, '^') && prec == Precedence::Pow && e is Pow && l
            == *e->Pow_base && r == *e->Pow_exponent),
        i >= 1,
        tokens_at(toks, i - 1, binary_tokens(tokens_of(l), op, tokens_of(r))),
        i - 1 + tokens_of(l).len() + tokens_of(r).len() + 3 < toks.len(),
        f >= 6 * (1 + max(height(l), height(r))) + 1,
    ensures
        p_minus(toks, i, f) == Some((i + tokens_of(l).len() + tokens_of(r).len() + 2, e)),
    decreases e, 0int,
{
    assert(decreases_to!(e => l)) by {
        if e is Add {
        } else if e is Mul {
        } else {
        }
    }
    assert(decreases_to!(e => r)) by {
        if e is Add {
        } else if e is Mul {
        } else {
        }
    }
    let tl = tokens_of(l);
    let tr = tokens_of(r);
    let nl = tl.len() as int;
    let nr = tr.len() as int;
    let all = binary_tokens(tl, op, tr);
    lemma_binary_layout(tl, op, tr);
    lemma_tokens_nonempty(l);
    lemma_tokens_nonempty(r);
    assert(toks[i - 1] == all[0]);
    assert forall|j: int| 0 <= j < nl implies toks[i + j] == #[trigger] tl[j] by {
        assert(toks[i - 1 + (1 + j)] == all[1 + j]);
    }
    assert(toks[i - 1 + (nl + 1)] == all[nl + 1]);
    assert forall|j: int| 0 <= j < nr implies toks[i + nl + 1 + j] == #[trigger] tr[j] by {
        assert(toks[i - 1 + (nl + 2 + j)] == all[nl + 2 + j]);
    }
    assert(toks[i - 1 + (nl + nr + 2)] == all[nl + nr + 2]);
    let g = (f - 1) as nat;
    // inside the parentheses: the left operand
    lemma_parse_operand(l, toks, i + 1, (g - 1) as nat);
    assert(p_minus(toks, i + 1, (g - 1) as nat) == Some((i + nl, l)));
    // the operator and the right operand
    lemma_parse_expr(r, toks, i + nl + 2, prec, (g - 3) as nat);
    assert(p_expr(toks, i + nl + 2, prec, (g - 3) as nat) == Some((i + nl + nr + 1, r)));
    assert(shift(toks, i + nl + 1) == Some(i + nl + 2));
    assert(p_infix(toks, i + nl + 1, l, (g - 2) as nat) == Some((i + nl + nr + 1, e)));
    assert(shift(toks, i + nl) == Some(i + nl + 1));
    assert(p_loop(toks, i + nl + nr + 1, Precedence::Lowest, e, (g - 2) as nat) == Some(
        (i + nl + nr + 1, e),
    ));
    assert(p_loop(toks, i + nl, Precedence::Lowest, l, (g - 1) as nat) == Some(
        (i + nl + nr + 1, e),
    ));
    assert(p_expr(toks, i + 1, Precedence::Lowest, g) == Some((i + nl + nr + 1, e)));
    assert(shift(toks, i) == Some(i + 1));
    assert(shift(toks, i + nl + nr + 1) == Some(i + nl + nr + 2));
}

/// Parsing a printable tree's tokens as an expression that binds more strongly
/// than `prec`, followed by a token that binds no more strongly, gives the tree.
proof fn lemma_parse_expr(e: SExpr, toks: Seq<SpecToken>, i: int, prec: Precedence, f: nat)
    requires
        printable(e),
        i >= 1,
        tokens_at(toks, i - 1, tokens_of(e)),
        i - 1 + tokens_of(e).len() < toks.len(),
        spec_token_precedence(toks[i - 1 + tokens_of(e).len()]).spec_rank() <= prec.spec_rank(),
        f >= 6 * height(e) + 2,
    ensures
        p_expr(toks, i, prec, f) == Some((i - 1 + tokens_of(e).len() - 1 + 1, e)),
    decreases e, 2int,
{
    lemma_parse_operand(e, toks, i, (f - 1) as nat);
}

/// A character that ends a number or a word: neither a digit, a letter nor a
/// point.
pub open spec fn delimiter(c: char) -> bool {
    !spec_is_number(c) && !spec_is_char(c) && c != '.'
}

/// The bytes of `b` from position `p` on read `s`, and a byte follows.
pub open spec fn reads_at(b: Seq<u8>, p: int, s: Seq<char>) -> bool {
    &&& 0 <= p
    &&& p + s.len() < b.len()
    &&& forall|j: int| 0 <= j < s.len() ==> char_at(b, p + j) == #[trigger] s[j]
}

proof fn lemma_digits_end_at(b: Seq<u8>, p: int, q: int)
    requires
        0 <= p <= q < b.len(),
        forall|j: int| p <= j < q ==> spec_is_number(#[trigger] char_at(b, j)),
        !spec_is_number(char_at(b, q)),
    ensures
        digits_end(b, p) == q,
    decreases q - p,
{
    if p < q {
        lemma_digits_end_at(b, p + 1, q);
    }
}

proof fn lemma_letters_end_at(b: Seq<u8>, p: int, q: int)
    requires
        0 <= p <= q < b.len(),
        forall|j: int| p <= j < q ==> spec_is_char(#[trigger] char_at(b, j)),
        !spec_is_char(char_at(b, q)),
    ensures
        letters_end(b, p) == q,
    decreases q - p,
{
    if p < q {
        lemma_letters_end_at(b, p + 1, q);
    }
}

proof fn lemma_lex_punct(b: Seq<u8>, p: int, c: char, t: TokenType)
    requires
        0 <= p < b.len(),
        char_at(b, p) == c,
        operator_type(c) == Some(t),
    ensures
        lex_from(b, p) == seq![punct(t, c)] + lex_from(b, p + 1),
{
    assert(next_token(b, p) == (punct(t, c), p + 1));
}

proof fn lemma_literals()
    ensures
        "("@ == seq!['('],
        ")"@ == seq![')'],
        "*"@ == seq!['*'],
        "+"@ == seq!['+'],
        "^"@ == seq!['^'],
{
    reveal_strlit("(");
    reveal_strlit(")");
    reveal_strlit("*");
    reveal_strlit("+");
    reveal_strlit("^");
}

/// Lexing the text of a printable tree, followed by a delimiter, gives its
/// tokens.
proof fn lemma_lex_text(e: SExpr, b: Seq<u8>, p: int)
    requires
        printable(e),
        reads_at(b, p, text(e)),
        delimiter(char_at(b, p + text(e).len())),
    ensures
        lex_from(b, p) == tokens_of(e) + lex_from(b, p + text(e).len()),
    decreases e, 1int,
{
    lemma_literals();
    let s = text(e);
    let n = s.len() as int;
    match e {
        SExpr::Number(t) => {
            let k = choose|k: int| number_text(t.value, k);
            assert(s == t.value);
            assert forall|j: int| p <= j < p + k implies spec_is_number(#[trigger] char_at(b, j)) by {
                assert(char_at(b, j) == s[j - p]);
                assert(t.value.take(k)[j - p] == s[j - p]);
            }
            let d = digits_end(b, p);
            if k == n {
                lemma_digits_end_at(b, p, p + k);
                assert(number_end(b, p) == p + n);
            } else {
                assert(char_at(b, p + k) == s[k]);
                lemma_digits_end_at(b, p, p + k);
                assert forall|j: int| p + k + 1 <= j < p + n implies spec_is_number(
                    #[trigger] char_at(b, j),
                ) by {
                    assert(char_at(b, j) == s[j - p]);
                    assert(t.value.skip(k + 1)[j - p - k - 1] == s[j - p]);
                }
                lemma_digits_end_at(b, p + k + 1, p + n);
                assert(number_end(b, p) == p + n);
            }
            assert(char_at(b, p) == s[0]);
            assert(t.value.take(k)[0] == s[0]);
            assert(chars_of(b, p, p + n) =~= t.value) by {
                assert forall|j: int| 0 <= j < n implies chars_of(b, p, p + n)[j] == t.value[j] by {
                    assert(char_at(b, p + j) == s[j]);
                }
            }
            assert(next_token(b, p) == (t, p + n));
            assert(lex_from(b, p) == seq![t] + lex_from(b, p + n));
        },
        SExpr::Variable(t) => {
            assert(s == t.value);
            assert(char_at(b, p) == s[0]);
            lemma_letters_end_at(b, p, p + 1);
            assert(chars_of(b, p, p + 1) =~= t.value);
            assert(next_token(b, p) == (t, p + 1));
        },
        SExpr::Function { token, input } => {
            let u = *input;
            let name = token.value;
            let nn = name.len() as int;
            let su = text(u);
            let nu = su.len() as int;
            assert(s =~= name + seq!['('] + su + seq![')']);
            assert forall|j: int| p <= j < p + nn implies spec_is_char(#[trigger] char_at(b, j)) by {
                assert(char_at(b, j) == s[j - p]);
                assert(s[j - p] == name[j - p]);
            }
            assert(char_at(b, p + nn) == s[nn]);
            lemma_letters_end_at(b, p, p + nn);
            assert(char_at(b, p + 0) == s[0]);
            assert(s[0] == name[0]);
            assert(char_at(b, p) == name[0]);
            assert(chars_of(b, p, p + nn) =~= name) by {
                assert forall|j: int| 0 <= j < nn implies chars_of(b, p, p + nn)[j] == name[j] by {
                    assert(char_at(b, p + j) == s[j]);
                }
            }
            assert(next_token(b, p) == (token, p + nn));
            assert(lex_from(b, p) == seq![token] + lex_from(b, p + nn));
            lemma_lex_punct(b, p + nn, '(', TokenType::LeftPara);
            assert forall|j: int| 0 <= j < nu implies char_at(b, p + nn + 1 + j) == #[trigger] su[j] by {
                assert(char_at(b, p + (nn + 1 + j)) == s[nn + 1 + j]);
            }
            assert(char_at(b, p + nn + 1 + nu) == s[nn + 1 + nu]);
            lemma_lex_text(u, b, p + nn + 1);
            lemma_lex_punct(b, p + nn + 1 + nu, ')', TokenType::RightPara);
            assert(n == nn + nu + 2);
            assert(tokens_of(e) + lex_from(b, p + n) =~= seq![token] + (seq![
                punct(TokenType::LeftPara, '('),
            ] + (tokens_of(u) + (seq![punct(TokenType::RightPara, ')')] + lex_from(b, p + n)))));
        },
        SExpr::Add { left, right } => {
            lemma_lex_binary(e, *left, *right, '+', TokenType::Plus, b, p);
        },
        SExpr::Mul { left, right } => {
            lemma_lex_binary(e, *left, *right, '*', TokenType::Star, b, p);
        },
        SExpr::Pow { base, exponent } => {
            lemma_lex_binary(e, *base, *exponent, '^', TokenType::Caret, b, p);
        },
        _ => {},
    }
}

proof fn lemma_lex_binary(e: SExpr, l: SExpr, r: SExpr, c: char, t: TokenType, b: Seq<u8>, p: int)
    requires
        printable(l),
        printable(r),
        (c == '+' && t == TokenType::Plus && e is Add && l == *e->Add_left && r == *e->Add_right)
            || (c == '*' && t == TokenType::Star && e is Mul && l == *e->Mul_left && r
            == *e->Mul_right) || (c == '^' && t == TokenType::Caret && e is Pow && l
            == *e->Pow_base && r == *e->Pow_exponent),
        reads_at(b, p, text(e)),
        delimiter(char_at(b, p + text(e).len())),
    ensures
        lex_from(b, p) == tokens_of(e) + lex_from(b, p + text(e).len()),
    decreases e, 0int,
{
    assert(decreases_to!(e => l)) by {
        if e is Add {
        } else if e is Mul {
        } else {
        }
    }
    assert(decreases_to!(e => r)) by {
        if e is Add {
        } else if e is Mul {
        } else {
        }
    }
    lemma_literals();
    let s = text(e);
    let n = s.len() as int;
    let sl = text(l);
    let sr = text(r);
    let nl = sl.len() as int;
    let nr = sr.len() as int;
    assert(s =~= seq!['('] + sl + seq![c] + sr + seq![')']);
    assert(n == nl + nr + 3);
    assert(char_at(b, p) == s[0]);
    lemma_lex_punct(b, p, '(', TokenType::LeftPara);
    assert forall|j: int| 0 <= j < nl implies char_at(b, p + 1 + j) == #[trigger] sl[j] by {
        assert(char_at(b, p + (1 + j)) == s[1 + j]);
    }
    assert(char_at(b, p + 1 + nl) == s[1 + nl]);
    lemma_lex_text(l, b, p + 1);
    lemma_lex_punct(b, p + 1 + nl, c, t);
    assert forall|j: int| 0 <= j < nr implies char_at(b, p + 2 + nl + j) == #[trigger] sr[j] by {
        assert(char_at(b, p + (2 + nl + j)) == s[2 + nl + j]);
    }
    assert(char_at(b, p + 2 + nl + nr) == s[2 + nl + nr]);
    lemma_lex_text(r, b, p + 2 + nl);
    lemma_lex_punct(b, p + 2 + nl + nr, ')', TokenType::RightPara);
    assert(tokens_of(e) == binary_tokens(tokens_of(l), punct(t, c), tokens_of(r)));
    assert(tokens_of(e) + lex_from(b, p + n) =~= seq![punct(TokenType::LeftPara, '(')] + (
    tokens_of(l) + (seq![punct(t, c)] + (tokens_of(r) + (seq![punct(TokenType::RightPara, ')')]
        + lex_from(b, p + n))))));
}

/// The characters that the text of a printable tree is made of.
pub open spec fn in_alphabet(c: char) -> bool {
    spec_is_number(c) || spec_is_char(c) || c == '.' || c == '(' || c == ')' || c == '*' || c
        == '+' || c == '^'
}

/// Text made of those characters in which no digit stands right before a
/// letter.
pub open spec fn plain_text(s: Seq<char>) -> bool {
    &&& forall|j: int| 0 <= j < s.len() ==> in_alphabet(#[trigger] s[j])
    &&& forall|j: int|
        0 <= j < s.len() - 1 && spec_is_number(#[trigger] s[j]) ==> !spec_is_char(s[j + 1])
}

proof fn lemma_plain_concat(a: Seq<char>, b: Seq<char>)
    requires
        plain_text(a),
        plain_text(b),
        a.len() > 0 && b.len() > 0 ==> !(spec_is_number(a.last()) && spec_is_char(b[0])),
    ensures
        plain_text(a + b),
{
    let s = a + b;
    assert forall|j: int| 0 <= j < s.len() implies in_alphabet(#[trigger] s[j]) by {
        if j < a.len() {
            assert(s[j] == a[j]);
        } else {
            assert(s[j] == b[j - a.len()]);
        }
    }
    assert forall|j: int| 0 <= j < s.len() - 1 && spec_is_number(#[trigger] s[j]) implies !spec_is_char(
        s[j + 1],
    ) by {
        if j < a.len() - 1 {
            assert(s[j] == a[j] && s[j + 1] == a[j + 1]);
        } else if j == a.len() - 1 {
            assert(s[j] == a.last() && s[j + 1] == b[0]);
        } else {
            assert(s[j] == b[j - a.len()] && s[j + 1] == b[j + 1 - a.len()]);
        }
    }
}

proof fn lemma_text_plain(e: SExpr)
    requires
        printable(e),
    ensures
        plain_text(text(e)),
    decreases e,
{
    lemma_literals();
    let p = seq!['('];
    let q = seq![')'];
    assert(plain_text(p));
    assert(plain_text(q));
    match e {
        SExpr::Number(t) => {
            let k = choose|k: int| number_text(t.value, k);
            let v = t.value;
            assert forall|j: int| 0 <= j < v.len() implies spec_is_number(#[trigger] v[j]) || v[j]
                == '.' by {
                if j < k {
                    assert(v.take(k)[j] == v[j]);
                } else if j > k {
                    assert(v.skip(k + 1)[j - k - 1] == v[j]);
                }
            }
            assert(plain_text(v));
        },
        SExpr::Variable(t) => {},
        SExpr::Function { token, input } => {
            lemma_text_plain(*input);
            let name = token.value;
            assert(plain_text(name));
            lemma_plain_concat(name, p);
            lemma_plain_concat(name + p, text(*input));
            lemma_plain_concat(name + p + text(*input), q);
        },
        SExpr::Add { left, right } => {
            lemma_text_plain(*left);
            lemma_text_plain(*right);
            let o = seq!['+'];
            assert(plain_text(o));
            lemma_plain_concat(p, text(*left));
            lemma_plain_concat(p + text(*left), o);
            lemma_plain_concat(p + text(*left) + o, text(*right));
            lemma_plain_concat(p + text(*left) + o + text(*right), q);
        },
        SExpr::Mul { left, right } => {
            lemma_text_plain(*left);
            lemma_text_plain(*right);
            let o = seq!['*'];
            assert(plain_text(o));
            lemma_plain_concat(p, text(*left));
            lemma_plain_concat(p + text(*left), o);
            lemma_plain_concat(p + text(*left) + o, text(*right));
            lemma_plain_concat(p + text(*left) + o + text(*right), q);
        },
        SExpr::Pow { base, exponent } => {
            lemma_text_plain(*base);
            lemma_text_plain(*exponent);
            let o = seq!['^'];
            assert(plain_text(o));
            lemma_plain_concat(p, text(*base));
            lemma_plain_concat(p + text(*base), o);
            lemma_plain_concat(p + text(*base) + o, text(*exponent));
            lemma_plain_concat(p + text(*base) + o + text(*exponent), q);
        },
        _ => {},
    }
}

proof fn lemma_ascii_byte(c: char)
    requires
        '\0' <= c <= '\u{7f}',
    ensures
        (c as u8) as char == c,
{
}

/// The bytes of an ASCII text read back as its characters.
proof fn lemma_ascii_bytes(s: Seq<char>)
    requires
        forall|j: int| 0 <= j < s.len() ==> '\0' <= #[trigger] s[j] <= '\u{7f}',
    ensures
        encode_utf8(s).len() == s.len(),
        forall|j: int| 0 <= j < s.len() ==> #[trigger] char_at(encode_utf8(s), j) == s[j],
{
    assert(is_ascii_chars(s));
    is_ascii_chars_encode_utf8(s);
    assert forall|j: int| 0 <= j < s.len() implies #[trigger] char_at(encode_utf8(s), j) == s[j] by {
        lemma_ascii_byte(s[j]);
    }
}

proof fn lemma_prepare_plain(s: Seq<char>, m: int)
    requires
        plain_text(s),
        0 <= m <= s.len(),
        encode_utf8(s).len() == s.len(),
        forall|j: int| 0 <= j < s.len() ==> #[trigger] char_at(encode_utf8(s), j) == s[j],
    ensures
        prepare_prefix(encode_utf8(s), m) == s.take(m),
    decreases m,
{
    let b = encode_utf8(s);
    if m > 0 {
        lemma_prepare_plain(s, m - 1);
        let c = char_at(b, m - 1);
        assert(c == s[m - 1]);
        assert(in_alphabet(s[m - 1]));
        if m - 1 < b.len() - 1 {
            assert(char_at(b, m) == s[m]);
        }
        assert(prepare_piece(b, m - 1) == seq![c]);
        assert(s.take(m) =~= s.take(m - 1) + seq![c]);
    } else {
        assert(s.take(0) =~= Seq::<char>::empty());
    }
}

/// The tokens of the text of a printable tree are its tokens, then the end
/// marker.
pub proof fn lemma_lex_printable(e: SExpr)
    requires
        printable(e),
    ensures
        lex(text(e)) == tokens_of(e).push(SpecToken { token_type: TokenType::NULL, value: Seq::empty() }),
{
    let s = text(e);
    lemma_text_plain(e);
    assert forall|j: int| 0 <= j < s.len() implies '\0' <= #[trigger] s[j] <= '\u{7f}' by {
        assert(in_alphabet(s[j]));
    }
    lemma_ascii_bytes(s);
    lemma_prepare_plain(s, s.len() as int);
    assert(s.take(s.len() as int) =~= s);
    let z = s.push('\0');
    assert(prepared(encode_utf8(s)) == z);
    assert forall|j: int| 0 <= j < z.len() implies '\0' <= #[trigger] z[j] <= '\u{7f}' by {
        if j < s.len() {
            assert(z[j] == s[j]);
        }
    }
    lemma_ascii_bytes(z);
    let b = encode_utf8(z);
    assert forall|j: int| 0 <= j < s.len() implies char_at(b, 0 + j) == #[trigger] s[j] by {
        assert(char_at(b, j) == z[j]);
    }
    assert(char_at(b, s.len() as int) == z[s.len() as int]);
    lemma_lex_text(e, b, 0);
    let marker = SpecToken { token_type: TokenType::NULL, value: Seq::empty() };
    assert(next_token(b, s.len() as int) == (marker, s.len() as int + 1));
    assert(lex_from(b, s.len() as int + 1) == Seq::<SpecToken>::empty());
    assert(lex_from(b, s.len() as int) =~= seq![marker]);
    assert(tokens_of(e) + seq![marker] =~= tokens_of(e).push(marker));
}

/// A printable tree reads back from its own text: lexing and parsing what
/// `to_text` writes gives the same tree. Binary nodes are written in full
/// parentheses, so no precedence is lost. The depth bound only keeps the
/// nesting within the parser's step count.
pub proof fn lemma_text_reads_back(e: SExpr)
    requires
        printable(e),
        6 * height(e) + 2 <= max_fuel(),
    ensures
        parsed(lex(text(e))) == Some(e),
        translated(text(e)) == Some(e),
{
    lemma_lex_printable(e);
    let marker = SpecToken { token_type: TokenType::NULL, value: Seq::empty() };
    let toks = tokens_of(e).push(marker);
    lemma_tokens_nonempty(e);
    assert(tokens_at(toks, 0, tokens_of(e)));
    assert(toks[tokens_of(e).len() as int] == marker);
    lemma_parse_expr(e, toks, 1, Precedence::Lowest, max_fuel());
}

/// Subtraction groups to the left, as addition does: the tokens of `a-b-c`,
/// for operands `a`, `b` and `c` (numbers, variables, applications or
/// parenthesised expressions), parse to `(a + -1*b) + -1*c`. The depth bound
/// only keeps the nesting within the parser's step count.
pub proof fn lemma_subtraction_groups_left(a: SExpr, b: SExpr, c: SExpr)
    requires
        printable(a),
        printable(b),
        printable(c),
        6 * (height(a) + height(b) + height(c)) + 10 <= max_fuel(),
    ensures
        parsed(
            tokens_of(a) + seq![punct(TokenType::Minus, '-')] + tokens_of(b) + seq![
                punct(TokenType::Minus, '-'),
            ] + tokens_of(c) + seq![SpecToken { token_type: TokenType::NULL, value: Seq::empty() }],
        ) == Some(
            SExpr::Add {
                left: Box::new(
                    SExpr::Add {
                        left: Box::new(a),
                        right: Box::new(SExpr::Mul { left: Box::new(spec_negative_one()), right: Box::new(b) }),
                    },
                ),
                right: Box::new(SExpr::Mul { left: Box::new(spec_negative_one()), right: Box::new(c) }),
            },
        ),
{
    let minus = punct(TokenType::Minus, '-');
    let marker = SpecToken { token_type: TokenType::NULL, value: Seq::empty() };
    let ta = tokens_of(a);
    let tb = tokens_of(b);
    let tc = tokens_of(c);
    let na = ta.len() as int;
    let nb = tb.len() as int;
    let nc = tc.len() as int;
    let toks = ta + seq![minus] + tb + seq![minus] + tc + seq![marker];
    lemma_tokens_nonempty(a);
    lemma_tokens_nonempty(b);
    lemma_tokens_nonempty(c);
    assert(toks.len() == na + nb + nc + 3);
    assert forall|j: int| 0 <= j < na implies toks[0 + j] == #[trigger] ta[j] by {}
    assert(toks[na] == minus);
    assert forall|j: int| 0 <= j < nb implies toks[na + 1 + j] == #[trigger] tb[j] by {}
    assert(toks[na + 1 + nb] == minus);
    assert forall|j: int| 0 <= j < nc implies toks[na + nb + 2 + j] == #[trigger] tc[j] by {}
    assert(toks[na + nb + nc + 2] == marker);
    let mb = SExpr::Mul { left: Box::new(spec_negative_one()), right: Box::new(b) };
    let mc = SExpr::Mul { left: Box::new(spec_negative_one()), right: Box::new(c) };
    let ab = SExpr::Add { left: Box::new(a), right: Box::new(mb) };
    let abc = SExpr::Add { left: Box::new(ab), right: Box::new(mc) };
    let f0 = max_fuel();
    let f1 = (f0 - 1) as nat;
    let f2 = (f1 - 1) as nat;
    let f3 = (f2 - 1) as nat;
    let f4 = (f3 - 1) as nat;
    // the first operand
    lemma_parse_operand(a, toks, 1, f1);
    assert(p_minus(toks, 1, f1) == Some((na, a)));
    // `- b`, read at the precedence of a sum, stops at the second minus
    lemma_parse_expr(b, toks, na + 2, Precedence::Add, f3);
    assert(p_expr(toks, na + 2, Precedence::Add, f3) == Some((na + nb + 1, b)));
    assert(shift(toks, na + 1) == Some(na + 2));
    assert(p_infix(toks, na + 1, a, f2) == Some((na + nb + 1, ab)));
    // `- c`, which ends at the end marker
    lemma_parse_expr(c, toks, na + nb + 3, Precedence::Add, f4);
    assert(p_expr(toks, na + nb + 3, Precedence::Add, f4) == Some((na + nb + nc + 2, c)));
    assert(shift(toks, na + nb + 2) == Some(na + nb + 3));
    assert(p_infix(toks, na + nb + 2, ab, f3) == Some((na + nb + nc + 2, abc)));
    assert(p_loop(toks, na + nb + nc + 2, Precedence::Lowest, abc, f3) == Some(
        (na + nb + nc + 2, abc),
    ));
    assert(shift(toks, na + nb + 1) == Some(na + nb + 2));
    assert(p_loop(toks, na + nb + 1, Precedence::Lowest, ab, f2) == Some((na + nb + nc + 2, abc)));
    assert(shift(toks, na) == Some(na + 1));
    assert(p_loop(toks, na, Precedence::Lowest, a, f1) == Some((na + nb + nc + 2, abc)));
    assert(p_expr(toks, 1, Precedence::Lowest, f0) == Some((na + nb + nc + 2, abc)));
}

/// Every ASCII letter, lower or upper case, is read as a variable: the tokens
/// of the one-letter text `c` are a variable named `c` and the end marker.
pub proof fn lemma_letters_are_variables(c: char)
    requires
        ('a' <= c && c <= 'z') || ('A' <= c && c <= 'Z'),
    ensures
        lex(seq![c]) == seq![
            SpecToken { token_type: TokenType::Variable, value: seq![c] },
            SpecToken { token_type: TokenType::NULL, value: Seq::empty() },
        ],
{
    let t = SpecToken { token_type: TokenType::Variable, value: seq![c] };
    let e = SExpr::Variable(t);
    assert(printable(e));
    lemma_lex_printable(e);
    assert(text(e) == seq![c]);
    assert(tokens_of(e).push(SpecToken { token_type: TokenType::NULL, value: Seq::empty() }) =~= seq![
        t,
        SpecToken { token_type: TokenType::NULL, value: Seq::empty() },
    ]);
}

/// The binary operators that the parser reads between operands.
pub open spec fn is_infix(t: TokenType) -> bool {
    t == TokenType::Plus || t == TokenType::Minus || t == TokenType::Star || t == TokenType::Slash
        || t == TokenType::Caret
}

/// The token of an infix operator.
pub open spec fn op_token(t: TokenType) -> SpecToken {
    punct(
        t,
        if t == TokenType::Plus {
            '+'
        } else if t == TokenType::Minus {
            '-'
        } else if t == TokenType::Star {
            '*'
        } else if t == TokenType::Slash {
            '/'
        } else {
            '^'
        },
    )
}

/// How strongly an infix operator binds: `+` and `-` least, then `*` and
/// `/`, then `^`.
pub open spec fn op_rank(t: TokenType) -> int {
    if t == TokenType::Plus || t == TokenType::Minus {
        1
    } else if t == TokenType::Star || t == TokenType::Slash {
        2
    } else {
        3
    }
}

/// The tree for `l t r`: a sum, a sum with the negated right side, a product,
/// a product with the right side to the power `-1`, or a power.
pub open spec fn combine(t: TokenType, l: SExpr, r: SExpr) -> SExpr {
    if t == TokenType::Plus {
        SExpr::Add { left: Box::new(l), right: Box::new(r) }
    } else if t == TokenType::Minus {
        SExpr::Add {
            left: Box::new(l),
            right: Box::new(SExpr::Mul { left: Box::new(spec_negative_one()), right: Box::new(r) }),
        }
    } else if t == TokenType::Star {
        SExpr::Mul { left: Box::new(l), right: Box::new(r) }
    } else if t == TokenType::Slash {
        SExpr::Mul {
            left: Box::new(l),
            right: Box::new(SExpr::Pow { base: Box::new(r), exponent: Box::new(spec_negative_one()) }),
        }
    } else {
        SExpr::Pow { base: Box::new(l), exponent: Box::new(r) }
    }
}

/// Operator precedence: in `a s b t c` the second operator takes `b` first
/// exactly when it binds more strongly than the first; otherwise the two
/// group to the left. So `*` and `/` bind more strongly than `+` and `-`,
/// `^` more strongly than both, and operators of one strength group to the
/// left (`a-b-c` is `(a-b)-c`, `a^b^c` is `(a^b)^c`).
pub proof fn lemma_operator_precedence(a: SExpr, b: SExpr, c: SExpr, s: TokenType, t: TokenType)
    requires
        printable(a),
        printable(b),
        printable(c),
        is_infix(s),
        is_infix(t),
        6 * (height(a) + height(b) + height(c)) + 10 <= max_fuel(),
    ensures
        parsed(
            tokens_of(a) + seq![op_token(s)] + tokens_of(b) + seq![op_token(t)] + tokens_of(c) + seq![
                SpecToken { token_type: TokenType::NULL, value: Seq::empty() },
            ],
        ) == Some(
            if op_rank(t) > op_rank(s) {
                combine(s, a, combine(t, b, c))
            } else {
                combine(t, combine(s, a, b), c)
            },
        ),
{
    let marker = SpecToken { token_type: TokenType::NULL, value: Seq::empty() };
    let ta = tokens_of(a);
    let tb = tokens_of(b);
    let tc = tokens_of(c);
    let na = ta.len() as int;
    let nb = tb.len() as int;
    let nc = tc.len() as int;
    let toks = ta + seq![op_token(s)] + tb + seq![op_token(t)] + tc + seq![marker];
    lemma_tokens_nonempty(a);
    lemma_tokens_nonempty(b);
    lemma_tokens_nonempty(c);
    assert(toks.len() == na + nb + nc + 3);
    assert forall|j: int| 0 <= j < na implies toks[0 + j] == #[trigger] ta[j] by {}
    assert(toks[na] == op_token(s));
    assert forall|j: int| 0 <= j < nb implies toks[na + 1 + j] == #[trigger] tb[j] by {}
    assert(toks[na + 1 + nb] == op_token(t));
    assert forall|j: int| 0 <= j < nc implies toks[na + nb + 2 + j] == #[trigger] tc[j] by {}
    assert(toks[na + nb + nc + 2] == marker);
    let ps = if s == TokenType::Plus || s == TokenType::Minus {
        Precedence::Add
    } else if s == TokenType::Star || s == TokenType::Slash {
        Precedence::Mul
    } else {
        Precedence::Pow
    };
    let pt = if t == TokenType::Plus || t == TokenType::Minus {
        Precedence::Add
    } else if t == TokenType::Star || t == TokenType::Slash {
        Precedence::Mul
    } else {
        Precedence::Pow
    };
    assert(spec_token_precedence(op_token(s)) == ps);
    assert(spec_token_precedence(op_token(t)) == pt);
    assert(ps.spec_rank() == op_rank(s) && pt.spec_rank() == op_rank(t));
    let f0 = max_fuel();
    let f1 = (f0 - 1) as nat;
    let f2 = (f1 - 1) as nat;
    let f3 = (f2 - 1) as nat;
    let f4 = (f3 - 1) as nat;
    let f5 = (f4 - 1) as nat;
    let f6 = (f5 - 1) as nat;
    let end = na + nb + nc + 2;
    lemma_parse_operand(a, toks, 1, f1);
    assert(p_minus(toks, 1, f1) == Some((na, a)));
    assert(shift(toks, na) == Some(na + 1));
    assert(shift(toks, na + 1) == Some(na + 2));
    assert(shift(toks, na + nb + 1) == Some(na + nb + 2));
    assert(shift(toks, na + nb + 2) == Some(na + nb + 3));
    if op_rank(t) > op_rank(s) {
        let bc = combine(t, b, c);
        // `b t c` is read whole as the right operand of `s`
        lemma_parse_operand(b, toks, na + 2, f4);
        lemma_parse_expr(c, toks, na + nb + 3, pt, f6);
        assert(p_expr(toks, na + nb + 3, pt, f6) == Some((end, c)));
        assert(p_infix(toks, na + nb + 2, b, f5) == Some((end, bc)));
        assert(p_loop(toks, end, ps, bc, f5) == Some((end, bc)));
        assert(p_loop(toks, na + nb + 1, ps, b, f4) == Some((end, bc)));
        assert(p_expr(toks, na + 2, ps, f3) == Some((end, bc)));
        assert(p_infix(toks, na + 1, a, f2) == Some((end, combine(s, a, bc))));
        assert(p_loop(toks, end, Precedence::Lowest, combine(s, a, bc), f2) == Some(
            (end, combine(s, a, bc)),
        ));
        assert(p_loop(toks, na, Precedence::Lowest, a, f1) == Some((end, combine(s, a, bc))));
    } else {
        let ab = combine(s, a, b);
        let abc = combine(t, ab, c);
        // `b` ends at `t`, which binds no more strongly than `s`
        lemma_parse_expr(b, toks, na + 2, ps, f3);
        assert(p_expr(toks, na + 2, ps, f3) == Some((na + nb + 1, b)));
        assert(p_infix(toks, na + 1, a, f2) == Some((na + nb + 1, ab)));
        lemma_parse_expr(c, toks, na + nb + 3, pt, f4);
        assert(p_expr(toks, na + nb + 3, pt, f4) == Some((end, c)));
        assert(p_infix(toks, na + nb + 2, ab, f3) == Some((end, abc)));
        assert(p_loop(toks, end, Precedence::Lowest, abc, f3) == Some((end, abc)));
        assert(p_loop(toks, na + nb + 1, Precedence::Lowest, ab, f2) == Some((end, abc)));
        assert(p_loop(toks, na, Precedence::Lowest, a, f1) == Some((end, abc)));
    }
}

/// A leading minus before a number or a variable reads as `-1` times that
/// token, taken as a number, whatever follows.
pub proof fn lemma_leading_minus(t: SpecToken, rest: Seq<SpecToken>)
    requires
        t.token_type == TokenType::Number || t.token_type == TokenType::Variable,
    ensures
        parsed(seq![punct(TokenType::Minus, '-'), t] + rest) == Some(
            SExpr::Mul { left: Box::new(spec_negative_one()), right: Box::new(SExpr::Number(t)) },
        ),
{
    let toks = seq![punct(TokenType::Minus, '-'), t] + rest;
    let e = SExpr::Mul { left: Box::new(spec_negative_one()), right: Box::new(SExpr::Number(t)) };
    let f0 = max_fuel();
    let f1 = (f0 - 1) as nat;
    assert(toks[0] == punct(TokenType::Minus, '-') && toks[1] == t);
    assert(p_minus(toks, 1, f1) == Some((1int, e)));
    assert(p_loop(toks, 1, Precedence::Lowest, e, f1) == Some((1int, e)));
}

/// A digit right before a letter is a product: the tokens of the text `dc`,
/// for a digit `d` and an ASCII letter `c`, are the number `d`, a `*`, the
/// variable `c` and the end marker.
pub proof fn lemma_implicit_product(d: char, c: char)
    requires
        '0' <= d && d <= '9',
        ('a' <= c && c <= 'z') || ('A' <= c && c <= 'Z'),
    ensures
        lex(seq![d, c]) == seq![
            SpecToken { token_type: TokenType::Number, value: seq![d] },
            punct(TokenType::Star, '*'),
            SpecToken { token_type: TokenType::Variable, value: seq![c] },
            SpecToken { token_type: TokenType::NULL, value: Seq::empty() },
        ],
{
    let s = seq![d, c];
    assert forall|j: int| 0 <= j < s.len() implies '\0' <= #[trigger] s[j] <= '\u{7f}' by {}
    lemma_ascii_bytes(s);
    let b0 = encode_utf8(s);
    assert(char_at(b0, 0) == d && char_at(b0, 1) == c);
    assert(prepare_prefix(b0, 0) == Seq::<char>::empty());
    assert(prepare_piece(b0, 0) == seq![d, '*']);
    assert(prepare_piece(b0, 1) == seq![c]);
    assert(prepare_prefix(b0, 1) =~= seq![d, '*']);
    assert(prepare_prefix(b0, 2) =~= seq![d, '*', c]);
    let z = seq![d, '*', c, '\0'];
    assert(prepared(b0) =~= z);
    assert forall|j: int| 0 <= j < z.len() implies '\0' <= #[trigger] z[j] <= '\u{7f}' by {}
    lemma_ascii_bytes(z);
    let b = encode_utf8(z);
    assert(char_at(b, 0) == d && char_at(b, 1) == '*' && char_at(b, 2) == c && char_at(b, 3)
        == '\0');
    let num = SpecToken { token_type: TokenType::Number, value: seq![d] };
    let var = SpecToken { token_type: TokenType::Variable, value: seq![c] };
    let marker = SpecToken { token_type: TokenType::NULL, value: Seq::empty() };
    // the number
    lemma_digits_end_at(b, 0, 1);
    assert(number_end(b, 0) == 1);
    assert(chars_of(b, 0, 1) =~= seq![d]);
    assert(next_token(b, 0) == (num, 1int));
    // the star
    lemma_lex_punct(b, 1, '*', TokenType::Star);
    // the variable
    lemma_letters_end_at(b, 2, 3);
    assert(chars_of(b, 2, 3) =~= seq![c]);
    assert(next_token(b, 2) == (var, 3int));
    // the end marker
    assert(next_token(b, 3) == (marker, 4int));
    assert(lex_from(b, 4) == Seq::<SpecToken>::empty());
    assert(lex_from(b, 3) =~= seq![marker]);
    assert(lex_from(b, 2) =~= seq![var, marker]);
    assert(lex_from(b, 1) =~= seq![punct(TokenType::Star, '*'), var, marker]);
    assert(lex_from(b, 0) =~= seq![num, punct(TokenType::Star, '*'), var, marker]);
}

/// Each operator character is read as its own token: `(`, `)`, `^`, `/`,
/// `*`, `-` and `+`, and `=` as a `+`.
pub proof fn lemma_operator_chars(c: char)
    requires
        c == '(' || c == ')' || c == '^' || c == '/' || c == '*' || c == '-' || c == '+' || c == '=',
    ensures
        lex(seq![c]) == seq![
            SpecToken {
                token_type: if c == '(' {
                    TokenType::LeftPara
                } else if c == ')' {
                    TokenType::RightPara
                } else if c == '^' {
                    TokenType::Caret
                } else if c == '/' {
                    TokenType::Slash
                } else if c == '*' {
                    TokenType::Star
                } else if c == '-' {
                    TokenType::Minus
                } else {
                    TokenType::Plus
                },
                value: seq![c],
            },
            SpecToken { token_type: TokenType::NULL, value: Seq::empty() },
        ],
{
    let s = seq![c];
    assert forall|j: int| 0 <= j < s.len() implies '\0' <= #[trigger] s[j] <= '\u{7f}' by {}
    lemma_ascii_bytes(s);
    let b0 = encode_utf8(s);
    assert(char_at(b0, 0) == c);
    assert(prepare_piece(b0, 0) == seq![c]);
    assert(prepare_prefix(b0, 0) == Seq::<char>::empty());
    assert(prepare_prefix(b0, 1) =~= seq![c]);
    let z = seq![c, '\0'];
    assert(prepared(b0) =~= z);
    assert forall|j: int| 0 <= j < z.len() implies '\0' <= #[trigger] z[j] <= '\u{7f}' by {}
    lemma_ascii_bytes(z);
    let b = encode_utf8(z);
    assert(char_at(b, 0) == c && char_at(b, 1) == '\0');
    let marker = SpecToken { token_type: TokenType::NULL, value: Seq::empty() };
    assert(next_token(b, 1) == (marker, 2int));
    assert(lex_from(b, 2) == Seq::<SpecToken>::empty());
    assert(lex_from(b, 1) =~= seq![marker]);
}

} // verus!

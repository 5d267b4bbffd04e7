use vstd::prelude::*;
use vstd::utf8::{
    encode_utf8, encode_scalar, leading_byte_width_1, leading_byte_width_2, leading_byte_width_3,
    leading_byte_width_4, last_continuation_byte, second_last_continuation_byte,
    third_last_continuation_byte,
};

use crate::preprocess::token::{SpecToken, Token, TokenType};

verus! {

/// `c` is a decimal digit.
pub open spec fn spec_is_number(c: char) -> bool {
    '0' <= c <= '9'
}

/// `c` is an ASCII letter.
pub open spec fn spec_is_char(c: char) -> bool {
    'a' <= c <= 'z' || 'A' <= c <= 'Z'
}

/// The character the lexer reads for byte `i` of `b` (each byte on its own).
pub open spec fn char_at(b: Seq<u8>, i: int) -> char {
    b[i] as char
}

/// What byte `i` of the raw input contributes to the prepared text: nothing
/// for a blank or a tab; otherwise its character, followed by `*` where a digit
/// stands right before a letter (`3x` reads as `3*x`).
pub open spec fn prepare_piece(b: Seq<u8>, i: int) -> Seq<char> {
    let c = char_at(b, i);
    if c == ' ' || c == '\t' {
        Seq::empty()
    } else if i < b.len() - 1 && spec_is_number(c) && spec_is_char(char_at(b, i + 1)) {
        seq![c, '*']
    } else {
        seq![c]
    }
}

/// The prepared text of the first `n` bytes.
pub open spec fn prepare_prefix(b: Seq<u8>, n: int) -> Seq<char>
    decreases n,
{
    if n <= 0 || n > b.len() {
        Seq::empty()
    } else {
        prepare_prefix(b, n - 1) + prepare_piece(b, n - 1)
    }
}

/// The prepared text of a raw input: blanks dropped, implicit products made
/// explicit, and a NUL character appended as an end marker.
pub open spec fn prepared(b: Seq<u8>) -> Seq<char> {
    prepare_prefix(b, b.len() as int).push('\0')
}

/// The end of the run of digits that starts at `j`.
pub open spec fn digits_end(b: Seq<u8>, j: int) -> int
    decreases b.len() - j,
{
    if 0 <= j < b.len() && spec_is_number(char_at(b, j)) {
        digits_end(b, j + 1)
    } else {
        j
    }
}

/// The end of the run of letters that starts at `j`.
pub open spec fn letters_end(b: Seq<u8>, j: int) -> int
    decreases b.len() - j,
{
    if 0 <= j < b.len() && spec_is_char(char_at(b, j)) {
        letters_end(b, j + 1)
    } else {
        j
    }
}

/// The end of the number that starts at `i`: digits, then optionally a point
/// and more digits.
pub open spec fn number_end(b: Seq<u8>, i: int) -> int {
    let k = digits_end(b, i);
    if 0 <= k < b.len() && char_at(b, k) == '.' {
        digits_end(b, k + 1)
    } else {
        k
    }
}

/// The characters of bytes `i` up to `k`.
pub open spec fn chars_of(b: Seq<u8>, i: int, k: int) -> Seq<char> {
    b.subrange(i, k).map_values(|x: u8| x as char)
}

/// The category of a one-character operator token (`=` is read as `+`).
pub open spec fn operator_type(c: char) -> Option<TokenType> {
    if c == '(' {
        Some(TokenType::LeftPara)
    } else if c == ')' {
        Some(TokenType::RightPara)
    } else if c == '^' {
        Some(TokenType::Caret)
    } else if c == '/' {
        Some(TokenType::Slash)
    } else if c == '*' {
        Some(TokenType::Star)
    } else if c == '-' {
        Some(TokenType::Minus)
    } else if c == '+' || c == '=' {
        Some(TokenType::Plus)
    } else {
        None
    }
}

/// The token that starts at byte `i` and the position after it: an operator,
/// a number, a word (a `Variable` of one letter or a `Function` of more), or
/// a `NULL` token with no text for any other byte.
pub open spec fn next_token(b: Seq<u8>, i: int) -> (SpecToken, int) {
    let c = char_at(b, i);
    match operator_type(c) {
        Some(t) => (SpecToken { token_type: t, value: seq![c] }, i + 1),
        None => if spec_is_number(c) {
            let k = number_end(b, i);
            (SpecToken { token_type: TokenType::Number, value: chars_of(b, i, k) }, k)
        } else if spec_is_char(c) {
            let k = letters_end(b, i);
            (
                SpecToken {
                    token_type: if k - i > 1 {
                        TokenType::Function
                    } else {
                        TokenType::Variable
                    },
                    value: chars_of(b, i, k),
                },
                k,
            )
        } else {
            (SpecToken { token_type: TokenType::NULL, value: Seq::empty() }, i + 1)
        },
    }
}

pub proof fn lemma_runs_end(b: Seq<u8>, j: int)
    requires
        0 <= j,
    ensures
        j <= digits_end(b, j),
        j <= letters_end(b, j),
        0 <= j < b.len() && spec_is_number(char_at(b, j)) ==> j < digits_end(b, j),
        0 <= j < b.len() && spec_is_char(char_at(b, j)) ==> j < letters_end(b, j),
        j <= b.len() ==> digits_end(b, j) <= b.len(),
        j <= b.len() ==> letters_end(b, j) <= b.len(),
    decreases b.len() - j,
{
    if 0 <= j < b.len() {
        lemma_runs_end(b, j + 1);
    }
}

pub proof fn lemma_next_token_advances(b: Seq<u8>, i: int)
    requires
        0 <= i < b.len(),
    ensures
        i < next_token(b, i).1 <= b.len(),
{
    lemma_runs_end(b, i);
    let k = digits_end(b, i);
    if 0 <= k < b.len() {
        lemma_runs_end(b, k + 1);
    }
}

/// The tokens of the bytes from position `i` on.
pub open spec fn lex_from(b: Seq<u8>, i: int) -> Seq<SpecToken>
    decreases b.len() - i,
{
    if i < 0 || i >= b.len() {
        Seq::empty()
    } else {
        let (t, k) = next_token(b, i);
        proof {
            lemma_next_token_advances(b, i);
        }
        seq![t] + lex_from(b, k)
    }
}

/// The tokens of an input text: its UTF-8 bytes are prepared, and the UTF-8
/// bytes of the prepared text are read one token at a time.
pub open spec fn lex(input: Seq<char>) -> Seq<SpecToken> {
    lex_from(encode_utf8(prepared(encode_utf8(input))), 0)
}

/// The models of a list of tokens.
pub open spec fn token_views(v: Seq<Token>) -> Seq<SpecToken> {
    v.map_values(|t: Token| t@)
}

} // verus!

verus! {

/// Calls std's `String::push`. Trusted, not proved: the contract claims that
/// afterwards `s` holds its old characters followed by `c`, as std documents.
#[verifier::external_body]
pub(crate) fn push_char(s: &mut String, c: char)
    ensures
        final(s)@ == old(s)@.push(c),
{
    s.push(c);
}

pub proof fn lemma_encode_utf8_concat(a: Seq<char>, b: Seq<char>)
    ensures
        encode_utf8(a + b) == encode_utf8(a) + encode_utf8(b),
    decreases a.len(),
{
    if a.len() == 0 {
        assert(a + b =~= b);
    } else {
        lemma_encode_utf8_concat(a.drop_first(), b);
        assert((a + b).drop_first() =~= a.drop_first() + b);
        assert((a + b)[0] == a[0]);
    }
}

/// The UTF-8 bytes of a text that ends in NUL end in the byte 0.
pub proof fn lemma_encode_ends_with_nul(p: Seq<char>)
    ensures
        encode_utf8(p.push('\0')).len() > 0,
        encode_utf8(p.push('\0')).last() == 0,
{
    lemma_encode_utf8_concat(p, seq!['\0']);
    assert(p.push('\0') =~= p + seq!['\0']);
    let z: u32 = '\0' as u32;
    assert(z == 0);
    assert(z & 0x7F == 0) by (bit_vector)
        requires
            z == 0,
    ;
    assert(seq!['\0'].drop_first() =~= Seq::<char>::empty());
    assert(encode_utf8(Seq::<char>::empty()) =~= Seq::<u8>::empty());
    assert(encode_scalar(z) =~= seq![0u8]);
    assert(encode_utf8(seq!['\0']) =~= seq![0u8]);
}

fn is_number(c: char) -> (r: bool)
    ensures
        r == spec_is_number(c),
{
    '0' <= c && c <= '9'
}

fn is_char(c: char) -> (r: bool)
    ensures
        r == spec_is_char(c),
{
    'a' <= c && c <= 'z' || 'A' <= c && c <= 'Z'
}

/// Drops blanks and tabs, writes the implicit product between a digit and a
/// letter that follows it, and appends a NUL end marker.
fn prepare_string(exp: String) -> (r: String)
    ensures
        r@ == prepared(encode_utf8(exp@)),
{
    let bytes = exp.as_str().as_bytes();
    let ghost b = bytes@;
    let mut s = String::new();
    let mut i: usize = 0;
    while i < bytes.len()
        invariant
            b == bytes@,
            i <= b.len(),
            s@ == prepare_prefix(b, i as int),
        decreases b.len() - i,
    {
        let cur_char = bytes[i] as char;
        if cur_char == ' ' || cur_char == '\t' {
        } else {
            push_char(&mut s, cur_char);
            if i < bytes.len() - 1 {
                if is_number(cur_char) && is_char(bytes[i + 1] as char) {
                    push_char(&mut s, '*');
                }
            }
        }
        assert(s@ =~= prepare_prefix(b, i as int) + prepare_piece(b, i as int));
        i = i + 1;
    }
    push_char(&mut s, '\0');
    s
}

proof fn lemma_chars_of_push(b: Seq<u8>, i: int, j: int)
    requires
        0 <= i <= j < b.len(),
    ensures
        chars_of(b, i, j + 1) == chars_of(b, i, j).push(b[j] as char),
{
    assert(chars_of(b, i, j + 1) =~= chars_of(b, i, j).push(b[j] as char));
}

/// Reads the run of digits of `bytes` from `j`, appending them to `s`.
fn scan_digits(bytes: &[u8], j0: usize, s: &mut String, Ghost(i): Ghost<int>) -> (j: usize)
    requires
        bytes@.len() > 0,
        bytes@.last() == 0,
        0 <= i <= j0 < bytes@.len(),
        old(s)@ == chars_of(bytes@, i, j0 as int),
    ensures
        j == digits_end(bytes@, j0 as int),
        j0 <= j < bytes@.len(),
        final(s)@ == chars_of(bytes@, i, j as int),
{
    let ghost b = bytes@;
    let mut j = j0;
    while is_number(bytes[j] as char)
        invariant
            b == bytes@,
            b.len() > 0,
            b.last() == 0,
            0 <= i <= j0 <= j < b.len(),
            digits_end(b, j0 as int) == digits_end(b, j as int),
            s@ == chars_of(b, i, j as int),
        decreases b.len() - j,
    {
        proof {
            lemma_chars_of_push(b, i, j as int);
            assert(j != b.len() - 1);
        }
        push_char(s, bytes[j] as char);
        j = j + 1;
    }
    j
}

/// Reads the run of letters of `bytes` from `j`, appending them to `s`.
fn scan_letters(bytes: &[u8], j0: usize, s: &mut String) -> (j: usize)
    requires
        bytes@.len() > 0,
        bytes@.last() == 0,
        j0 < bytes@.len(),
        old(s)@ == Seq::<char>::empty(),
    ensures
        j == letters_end(bytes@, j0 as int),
        j0 <= j < bytes@.len(),
        final(s)@ == chars_of(bytes@, j0 as int, j as int),
{
    let ghost b = bytes@;
    let mut j = j0;
    assert(chars_of(b, j0 as int, j0 as int) =~= Seq::<char>::empty());
    while is_char(bytes[j] as char)
        invariant
            b == bytes@,
            b.len() > 0,
            b.last() == 0,
            j0 <= j < b.len(),
            letters_end(b, j0 as int) == letters_end(b, j as int),
            s@ == chars_of(b, j0 as int, j as int),
        decreases b.len() - j,
    {
        proof {
            lemma_chars_of_push(b, j0 as int, j as int);
            assert(j != b.len() - 1);
        }
        push_char(s, bytes[j] as char);
        j = j + 1;
    }
    j
}

fn operator_token(c: char) -> (r: Option<Token>)
    ensures
        match r {
            Some(t) => operator_type(c) == Some(t@.token_type) && t@.value == seq![c],
            None => operator_type(c) is None,
        },
{
    let token_type = if c == '(' {
        TokenType::LeftPara
    } else if c == ')' {
        TokenType::RightPara
    } else if c == '^' {
        TokenType::Caret
    } else if c == '/' {
        TokenType::Slash
    } else if c == '*' {
        TokenType::Star
    } else if c == '-' {
        TokenType::Minus
    } else if c == '+' || c == '=' {
        TokenType::Plus
    } else {
        return None;
    };
    let mut token_value = String::new();
    push_char(&mut token_value, c);
    assert(token_value@ =~= seq![c]);
    Some(Token { token_type, token_value })
}

/// Splits a formula into tokens; the list always ends with the `NULL` token of
/// the end marker.
pub fn run(input: String) -> (tokens: Vec<Token>)
    ensures
        token_views(tokens@) == lex(input@),
{
    let exp = prepare_string(input);
    let bytes = exp.as_str().as_bytes();
    let ghost b = bytes@;
    proof {
        lemma_encode_ends_with_nul(prepare_prefix(encode_utf8(input@), encode_utf8(input@).len() as int));
    }
    let mut tokens: Vec<Token> = Vec::new();
    let mut i: usize = 0;
    assert(token_views(tokens@) =~= Seq::<SpecToken>::empty());
    while i < bytes.len()
        invariant
            b == bytes@,
            b.len() > 0,
            b.last() == 0,
            i <= b.len(),
            token_views(tokens@) + lex_from(b, i as int) == lex_from(b, 0),
        decreases b.len() - i,
    {
        let c = bytes[i] as char;
        let ghost (t_spec, k_spec) = next_token(b, i as int);
        let (token, k) = match operator_token(c) {
            Some(t) => (t, i + 1),
            None => {
                if is_number(c) {
                    let mut temp = String::new();
                    proof {
                        assert(chars_of(b, i as int, i as int) =~= Seq::<char>::empty());
                    }
                    let mut j = scan_digits(bytes, i, &mut temp, Ghost(i as int));
                    if bytes[j] as char == '.' {
                        proof {
                            lemma_chars_of_push(b, i as int, j as int);
                            assert(j != b.len() - 1);
                        }
                        push_char(&mut temp, '.');
                        j = scan_digits(bytes, j + 1, &mut temp, Ghost(i as int));
                    }
                    (Token { token_type: TokenType::Number, token_value: temp }, j)
                } else if is_char(c) {
                    let mut temp = String::new();
                    let j = scan_letters(bytes, i, &mut temp);
                    let token_type = if j - i > 1 {
                        TokenType::Function
                    } else {
                        TokenType::Variable
                    };
                    (Token { token_type, token_value: temp }, j)
                } else {
                    (Token { token_type: TokenType::NULL, token_value: String::new() }, i + 1)
                }
            },
        };
        proof {
            lemma_next_token_advances(b, i as int);
            assert(token@ == t_spec);
            assert(k == k_spec);
        }
        let ghost old_tokens = tokens@;
        tokens.push(token);
        assert(token_views(tokens@) =~= token_views(old_tokens).push(t_spec));
        assert(lex_from(b, i as int) == seq![t_spec] + lex_from(b, k as int));
        assert(token_views(tokens@) + lex_from(b, k as int) =~= token_views(old_tokens) + lex_from(
            b,
            i as int,
        ));
        i = k;
    }
    assert(token_views(tokens@) =~= token_views(tokens@) + lex_from(b, i as int));
    tokens
}

} // verus!

verus! {

proof fn lemma_runs_stop_before_marker(b: Seq<u8>, j: int)
    requires
        b.len() > 0,
        b.last() == 0,
        0 <= j < b.len(),
    ensures
        digits_end(b, j) < b.len(),
        letters_end(b, j) < b.len(),
    decreases b.len() - j,
{
    if spec_is_number(char_at(b, j)) || spec_is_char(char_at(b, j)) {
        assert(j != b.len() - 1);
        lemma_runs_stop_before_marker(b, j + 1);
    }
}

proof fn lemma_lex_from_ends_with_marker(b: Seq<u8>, i: int)
    requires
        b.len() > 0,
        b.last() == 0,
        0 <= i < b.len(),
    ensures
        lex_from(b, i).len() > 0,
        lex_from(b, i).last() == (SpecToken { token_type: TokenType::NULL, value: Seq::empty() }),
    decreases b.len() - i,
{
    lemma_next_token_advances(b, i);
    let (t, k) = next_token(b, i);
    if k < b.len() {
        lemma_lex_from_ends_with_marker(b, k);
        assert((seq![t] + lex_from(b, k)).last() == lex_from(b, k).last());
    } else {
        lemma_runs_stop_before_marker(b, i);
        let d = digits_end(b, i);
        if 0 <= d < b.len() && char_at(b, d) == '.' {
            assert(d != b.len() - 1);
            lemma_runs_stop_before_marker(b, d + 1);
        }
        assert(i == b.len() - 1);
        assert(char_at(b, i) == '\0');
        assert(lex_from(b, k) == Seq::<SpecToken>::empty());
        assert((seq![t] + lex_from(b, k)) =~= seq![t]);
    }
}

/// The token list of any input ends with the `NULL` token, with no text, of the
/// end marker.
pub proof fn lemma_lex_ends_with_marker(input: Seq<char>)
    ensures
        lex(input).len() > 0,
        lex(input).last() == (SpecToken { token_type: TokenType::NULL, value: Seq::empty() }),
{
    let raw = encode_utf8(input);
    lemma_encode_ends_with_nul(prepare_prefix(raw, raw.len() as int));
    lemma_lex_from_ends_with_marker(encode_utf8(prepared(raw)), 0);
}

/// Every character of `s` is a decimal digit.
pub open spec fn all_digits(s: Seq<char>) -> bool {
    forall|j: int| 0 <= j < s.len() ==> spec_is_number(#[trigger] s[j])
}

/// Every character of `s` is an ASCII letter.
pub open spec fn all_letters(s: Seq<char>) -> bool {
    forall|j: int| 0 <= j < s.len() ==> spec_is_char(#[trigger] s[j])
}

/// A number text: one or more digits, then optionally a point and more digits.
pub open spec fn number_text(s: Seq<char>, k: int) -> bool {
    &&& 1 <= k <= s.len()
    &&& all_digits(s.take(k))
    &&& (k == s.len() || (s[k] == '.' && all_digits(s.skip(k + 1))))
}

/// The text of a token has the shape of its category: a number text for a
/// number, one letter for a variable, two or more letters for a function, no
/// text for `NULL`, and its one character for an operator (`=` is read as `+`).
pub open spec fn well_shaped(t: SpecToken) -> bool {
    match t.token_type {
        TokenType::Number => exists|k: int| number_text(t.value, k),
        TokenType::Variable => t.value.len() == 1 && spec_is_char(t.value[0]),
        TokenType::Function => t.value.len() >= 2 && all_letters(t.value),
        TokenType::NULL => t.value.len() == 0,
        TokenType::LeftPara => t.value == seq!['('],
        TokenType::RightPara => t.value == seq![')'],
        TokenType::Caret => t.value == seq!['^'],
        TokenType::Slash => t.value == seq!['/'],
        TokenType::Star => t.value == seq!['*'],
        TokenType::Minus => t.value == seq!['-'],
        TokenType::Plus => t.value == seq!['+'] || t.value == seq!['='],
        TokenType::Equals => false,
    }
}

proof fn lemma_digits_run(b: Seq<u8>, j: int)
    requires
        0 <= j,
    ensures
        forall|p: int| j <= p < digits_end(b, j) ==> spec_is_number(#[trigger] char_at(b, p)),
    decreases b.len() - j,
{
    if 0 <= j < b.len() && spec_is_number(char_at(b, j)) {
        lemma_digits_run(b, j + 1);
    }
}

proof fn lemma_letters_run(b: Seq<u8>, j: int)
    requires
        0 <= j,
    ensures
        forall|p: int| j <= p < letters_end(b, j) ==> spec_is_char(#[trigger] char_at(b, p)),
    decreases b.len() - j,
{
    if 0 <= j < b.len() && spec_is_char(char_at(b, j)) {
        lemma_letters_run(b, j + 1);
    }
}

proof fn lemma_next_token_shape(b: Seq<u8>, i: int)
    requires
        0 <= i < b.len(),
    ensures
        well_shaped(next_token(b, i).0),
{
    let c = char_at(b, i);
    lemma_runs_end(b, i);
    if operator_type(c) is Some {
        assert(well_shaped(next_token(b, i).0));
    } else if spec_is_number(c) {
        let d = digits_end(b, i);
        let k = number_end(b, i);
        lemma_digits_run(b, i);
        let v = chars_of(b, i, k);
        if 0 <= d < b.len() && char_at(b, d) == '.' {
            lemma_runs_end(b, d + 1);
            lemma_digits_run(b, d + 1);
            assert(v.skip(d - i + 1) =~= chars_of(b, d + 1, k));
            assert(v[d - i] == char_at(b, d));
            assert forall|j: int| 0 <= j < v.take(d - i).len() implies spec_is_number(
                #[trigger] v.take(d - i)[j],
            ) by {
                assert(v.take(d - i)[j] == char_at(b, i + j));
            }
            assert forall|j: int| 0 <= j < v.skip(d - i + 1).len() implies spec_is_number(
                #[trigger] v.skip(d - i + 1)[j],
            ) by {
                assert(v.skip(d - i + 1)[j] == char_at(b, d + 1 + j));
            }
            assert(number_text(v, d - i));
            assert(next_token(b, i).0.value == v);
            assert(well_shaped(next_token(b, i).0));
        } else {
            assert(v.take(d - i) =~= v);
            assert forall|j: int| 0 <= j < v.take(d - i).len() implies spec_is_number(
                #[trigger] v.take(d - i)[j],
            ) by {
                assert(v.take(d - i)[j] == char_at(b, i + j));
            }
            assert(number_text(v, d - i));
            assert(next_token(b, i).0.value == v);
            assert(well_shaped(next_token(b, i).0));
        }
    } else if spec_is_char(c) {
        let k = letters_end(b, i);
        lemma_letters_run(b, i);
        let v = chars_of(b, i, k);
        assert forall|j: int| 0 <= j < v.len() implies spec_is_char(#[trigger] v[j]) by {
            assert(v[j] == char_at(b, i + j));
        }
        assert(v[0] == c);
        assert(well_shaped(next_token(b, i).0));
    }
}

proof fn lemma_lex_from_shape(b: Seq<u8>, i: int)
    requires
        0 <= i,
    ensures
        forall|j: int| 0 <= j < lex_from(b, i).len() ==> well_shaped(#[trigger] lex_from(b, i)[j]),
    decreases b.len() - i,
{
    if i < b.len() {
        lemma_next_token_advances(b, i);
        lemma_next_token_shape(b, i);
        let (t, k) = next_token(b, i);
        lemma_lex_from_shape(b, k);
        assert forall|j: int| 0 <= j < lex_from(b, i).len() implies well_shaped(
            #[trigger] lex_from(b, i)[j],
        ) by {
            if j > 0 {
                assert(lex_from(b, i)[j] == lex_from(b, k)[j - 1]);
            }
        }
    }
}

/// Each token's text has the shape of its category (see `well_shaped`).
pub proof fn lemma_lex_token_shapes(input: Seq<char>)
    ensures
        forall|j: int| 0 <= j < lex(input).len() ==> well_shaped(#[trigger] lex(input)[j]),
{
    lemma_lex_from_shape(encode_utf8(prepared(encode_utf8(input))), 0);
}

/// The number of blanks and tabs among the first `n` bytes.
pub open spec fn blank_count(b: Seq<u8>, n: int) -> int
    decreases n,
{
    if n <= 0 || n > b.len() {
        0
    } else {
        blank_count(b, n - 1) + if char_at(b, n - 1) == ' ' || char_at(b, n - 1) == '\t' {
            1int
        } else {
            0int
        }
    }
}

/// The number of digits among the first `n` bytes that stand right before a
/// letter.
pub open spec fn implicit_product_count(b: Seq<u8>, n: int) -> int
    decreases n,
{
    if n <= 0 || n > b.len() {
        0
    } else {
        implicit_product_count(b, n - 1) + if n - 1 < b.len() - 1 && spec_is_number(
            char_at(b, n - 1),
        ) && spec_is_char(char_at(b, n)) {
            1int
        } else {
            0int
        }
    }
}

proof fn lemma_prepare_prefix_shape(b: Seq<u8>, n: int)
    requires
        0 <= n <= b.len(),
    ensures
        prepare_prefix(b, n).len() == n - blank_count(b, n) + implicit_product_count(b, n),
        forall|j: int|
            0 <= j < prepare_prefix(b, n).len() ==> #[trigger] prepare_prefix(b, n)[j] != ' '
                && prepare_prefix(b, n)[j] != '\t',
    decreases n,
{
    if n > 0 {
        lemma_prepare_prefix_shape(b, n - 1);
        let p = prepare_prefix(b, n - 1);
        let q = prepare_piece(b, n - 1);
        assert forall|j: int| 0 <= j < (p + q).len() implies #[trigger] (p + q)[j] != ' ' && (p
            + q)[j] != '\t' by {
            if j >= p.len() {
                assert((p + q)[j] == q[j - p.len()]);
            } else {
                assert((p + q)[j] == p[j]);
            }
        }
    }
}

/// What the lexer reads is the input with every blank and tab dropped, a `*`
/// added after each digit that stands right before a letter, and a NUL at the
/// end: no blank or tab remains, and the length changes by exactly that much.
pub proof fn lemma_prepared_shape(b: Seq<u8>)
    ensures
        prepared(b).len() == b.len() - blank_count(b, b.len() as int) + implicit_product_count(
            b,
            b.len() as int,
        ) + 1,
        prepared(b).last() == '\0',
        forall|j: int|
            0 <= j < prepared(b).len() - 1 ==> #[trigger] prepared(b)[j] != ' ' && prepared(b)[j]
                != '\t',
{
    lemma_prepare_prefix_shape(b, b.len() as int);
    let p = prepare_prefix(b, b.len() as int);
    assert forall|j: int| 0 <= j < prepared(b).len() - 1 implies #[trigger] prepared(b)[j] != ' '
        && prepared(b)[j] != '\t' by {
        assert(prepared(b)[j] == p[j]);
    }
}

/// Byte `i` of `b` is a blank or a tab.
pub open spec fn is_blank(b: Seq<u8>, i: int) -> bool {
    char_at(b, i) == ' ' || char_at(b, i) == '\t'
}

/// The first `n` bytes of `b` without their blanks and tabs.
pub open spec fn kept(b: Seq<u8>, n: int) -> Seq<u8>
    decreases n,
{
    if n <= 0 || n > b.len() {
        Seq::empty()
    } else if is_blank(b, n - 1) {
        kept(b, n - 1)
    } else {
        kept(b, n - 1).push(b[n - 1])
    }
}

/// The bytes `b` without their blanks and tabs.
pub open spec fn without_blanks(b: Seq<u8>) -> Seq<u8> {
    kept(b, b.len() as int)
}

proof fn lemma_kept_prefix(b: Seq<u8>, n: int, m: int)
    requires
        0 <= n <= m <= b.len(),
    ensures
        kept(b, n).len() <= kept(b, m).len(),
        kept(b, m).take(kept(b, n).len() as int) == kept(b, n),
    decreases m,
{
    if n < m {
        lemma_kept_prefix(b, n, m - 1);
        assert(kept(b, m).take(kept(b, n).len() as int) =~= kept(b, m - 1).take(
            kept(b, n).len() as int,
        ));
    } else {
        assert(kept(b, m).take(kept(b, n).len() as int) =~= kept(b, n));
    }
}

proof fn lemma_kept_at(b: Seq<u8>, n: int)
    requires
        0 <= n < b.len(),
        !is_blank(b, n),
    ensures
        kept(b, n).len() < without_blanks(b).len(),
        without_blanks(b)[kept(b, n).len() as int] == b[n],
{
    lemma_kept_prefix(b, n + 1, b.len() as int);
    let k = kept(b, n + 1);
    assert(without_blanks(b).take(k.len() as int)[kept(b, n).len() as int] == b[n]);
}

proof fn lemma_prepare_without_blanks(b: Seq<u8>, n: int)
    requires
        0 <= n <= b.len(),
        forall|i: int|
            0 <= i < b.len() - 1 && spec_is_number(#[trigger] char_at(b, i)) ==> !is_blank(b, i + 1),
    ensures
        prepare_prefix(b, n) == prepare_prefix(without_blanks(b), kept(b, n).len() as int),
    decreases n,
{
    let d = without_blanks(b);
    if n > 0 {
        lemma_prepare_without_blanks(b, n - 1);
        let i = n - 1;
        lemma_kept_prefix(b, n, b.len() as int);
        if !is_blank(b, i) {
            let j = kept(b, i).len() as int;
            lemma_kept_at(b, i);
            let c = char_at(b, i);
            assert(char_at(d, j) == c);
            if spec_is_number(c) && i < b.len() - 1 {
                assert(!is_blank(b, i + 1));
                lemma_kept_at(b, i + 1);
                assert(kept(b, i + 1).len() == j + 1);
                assert(char_at(d, j + 1) == char_at(b, i + 1));
            } else if spec_is_number(c) {
                assert(kept(b, n).len() == d.len());
            }
            assert(prepare_piece(d, j) == prepare_piece(b, i));
        }
    }
}

/// Blanks and tabs never change the tokens, wherever no digit stands right
/// before one: the input reads as the same input without them.
pub proof fn lemma_blanks_are_ignored(b: Seq<u8>)
    requires
        forall|i: int|
            0 <= i < b.len() - 1 && spec_is_number(#[trigger] char_at(b, i)) ==> !is_blank(b, i + 1),
    ensures
        prepared(without_blanks(b)) == prepared(b),
        lex_from(encode_utf8(prepared(without_blanks(b))), 0) == lex_from(encode_utf8(prepared(b)), 0),
{
    lemma_prepare_without_blanks(b, b.len() as int);
}

/// A blank or a tab.
pub open spec fn blank_char(c: char) -> bool {
    c == ' ' || c == '\t'
}

/// The text `s` without its blanks and tabs.
pub open spec fn drop_blank_chars(s: Seq<char>) -> Seq<char>
    decreases s.len(),
{
    if s.len() == 0 {
        s
    } else {
        (if blank_char(s[0]) {
            Seq::empty()
        } else {
            seq![s[0]]
        }) + drop_blank_chars(s.drop_first())
    }
}

/// A byte below 0x80 in the encoding of a scalar makes it its only byte, the
/// scalar itself.
proof fn lemma_scalar_low_byte(c: u32)
    ensures
        forall|j: int|
            0 <= j < encode_scalar(c).len() && #[trigger] encode_scalar(c)[j] < 0x80u8 ==> c <= 0x7f
                && encode_scalar(c).len() == 1 && encode_scalar(c)[0] == c as u8,
        c <= 0x7f ==> encode_scalar(c) == seq![c as u8],
{
    let b1 = leading_byte_width_1(c);
    let b2 = leading_byte_width_2(c);
    let b3 = leading_byte_width_3(c);
    let b4 = leading_byte_width_4(c);
    let l1 = last_continuation_byte(c);
    let l2 = second_last_continuation_byte(c);
    let l3 = third_last_continuation_byte(c);
    assert(c <= 0x7f ==> b1 == c as u8) by (bit_vector)
        requires
            b1 == (c & 0x7F) as u8,
    ;
    assert(b2 >= 0x80u8) by (bit_vector)
        requires
            b2 == 0xC0 | ((c >> 6) & 0x1F) as u8,
    ;
    assert(b3 >= 0x80u8) by (bit_vector)
        requires
            b3 == 0xE0 | ((c >> 12) & 0x0F) as u8,
    ;
    assert(b4 >= 0x80u8) by (bit_vector)
        requires
            b4 == 0xF0 | ((c >> 18) & 0x7) as u8,
    ;
    assert(l1 >= 0x80u8) by (bit_vector)
        requires
            l1 == 0x80 | (c & 0x3F) as u8,
    ;
    assert(l2 >= 0x80u8) by (bit_vector)
        requires
            l2 == 0x80 | ((c >> 6) & 0x3F) as u8,
    ;
    assert(l3 >= 0x80u8) by (bit_vector)
        requires
            l3 == 0x80 | ((c >> 12) & 0x3F) as u8,
    ;
    if c <= 0x7f {
        assert(encode_scalar(c) =~= seq![c as u8]);
    }
}

proof fn lemma_low_char(c: char)
    requires
        c as u32 <= 0x7f,
    ensures
        ((c as u32) as u8) as char == c,
{
    vstd::utf8::char_u32_cast(c, c as u32);
}

proof fn lemma_kept_same_prefix(x: Seq<u8>, y: Seq<u8>, n: int)
    requires
        0 <= n <= x.len(),
        n <= y.len(),
        forall|j: int| 0 <= j < n ==> x[j] == y[j],
    ensures
        kept(x, n) == kept(y, n),
    decreases n,
{
    if n > 0 {
        lemma_kept_same_prefix(x, y, n - 1);
        assert(x[n - 1] == y[n - 1]);
    }
}

proof fn lemma_kept_concat(a: Seq<u8>, c: Seq<u8>, m: int)
    requires
        0 <= m <= c.len(),
    ensures
        kept(a + c, a.len() + m) == kept(a, a.len() as int) + kept(c, m),
    decreases m,
{
    if m == 0 {
        lemma_kept_same_prefix(a + c, a, a.len() as int);
        assert(kept(a, a.len() as int) + kept(c, 0) =~= kept(a, a.len() as int));
    } else {
        lemma_kept_concat(a, c, m - 1);
        assert((a + c)[a.len() + m - 1] == c[m - 1]);
        assert(kept(a, a.len() as int) + kept(c, m - 1).push(c[m - 1]) =~= (kept(a, a.len() as int)
            + kept(c, m - 1)).push(c[m - 1]));
    }
}

proof fn lemma_kept_all(x: Seq<u8>, n: int)
    requires
        0 <= n <= x.len(),
        forall|j: int| 0 <= j < x.len() ==> !is_blank(x, j),
    ensures
        kept(x, n) == x.take(n),
    decreases n,
{
    if n > 0 {
        lemma_kept_all(x, n - 1);
        assert(!is_blank(x, n - 1));
        assert(x.take(n) =~= x.take(n - 1).push(x[n - 1]));
    } else {
        assert(x.take(0) =~= Seq::<u8>::empty());
    }
}

/// Dropping blank bytes from the UTF-8 bytes of a text gives the bytes of the
/// text without its blanks and tabs.
proof fn lemma_without_blanks_encode(s: Seq<char>)
    ensures
        without_blanks(encode_utf8(s)) == encode_utf8(drop_blank_chars(s)),
    decreases s.len(),
{
    if s.len() == 0 {
        assert(without_blanks(encode_utf8(s)) =~= Seq::<u8>::empty());
    } else {
        let rest = s.drop_first();
        lemma_without_blanks_encode(rest);
        let head = encode_scalar(s[0] as u32);
        assert(encode_utf8(s) == head + encode_utf8(rest));
        lemma_kept_concat(head, encode_utf8(rest), encode_utf8(rest).len() as int);
        lemma_scalar_low_byte(s[0] as u32);
        let piece = if blank_char(s[0]) {
            Seq::<char>::empty()
        } else {
            seq![s[0]]
        };
        lemma_encode_utf8_concat(piece, drop_blank_chars(rest));
        if s[0] as u32 <= 0x7f {
            lemma_low_char(s[0]);
            assert(head.len() == 1 && head[0] == (s[0] as u32) as u8);
            assert(char_at(head, 0) == s[0]);
            assert(kept(head, 0) == Seq::<u8>::empty());
            assert(seq![s[0]][0] == s[0]);
            assert(seq![s[0]].drop_first() =~= Seq::<char>::empty());
            if blank_char(s[0]) {
                assert(kept(head, 1) =~= Seq::<u8>::empty());
                assert(encode_utf8(piece) =~= Seq::<u8>::empty());
            } else {
                assert(kept(head, 1) =~= head);
                assert(encode_utf8(piece) =~= head + encode_utf8(Seq::<char>::empty()));
                assert(encode_utf8(piece) =~= head);
            }
        } else {
            assert forall|j: int| 0 <= j < head.len() implies !is_blank(head, j) by {
                assert(head[j] >= 0x80u8);
            }
            lemma_kept_all(head, head.len() as int);
            assert(seq![s[0]][0] == s[0]);
            assert(seq![s[0]].drop_first() =~= Seq::<char>::empty());
            assert(head.take(head.len() as int) =~= head);
            assert(!blank_char(s[0]));
            assert(encode_utf8(piece) =~= head + encode_utf8(Seq::<char>::empty()));
            assert(encode_utf8(piece) =~= head);
        }
        assert(encode_utf8(s) == head + encode_utf8(rest));
    }
}

/// No digit byte is followed by a blank byte in the UTF-8 bytes of a text in
/// which no digit is followed by a blank or a tab.
proof fn lemma_digit_blank_bytes(s: Seq<char>)
    requires
        forall|i: int|
            0 <= i < s.len() - 1 && spec_is_number(#[trigger] s[i]) ==> !blank_char(s[i + 1]),
    ensures
        forall|i: int|
            0 <= i < encode_utf8(s).len() - 1 && spec_is_number(#[trigger] char_at(encode_utf8(s), i))
                ==> !is_blank(encode_utf8(s), i + 1),
    decreases s.len(),
{
    if s.len() > 0 {
        let rest = s.drop_first();
        assert forall|i: int|
            0 <= i < rest.len() - 1 && spec_is_number(#[trigger] rest[i]) implies !blank_char(
            rest[i + 1],
        ) by {
            assert(rest[i] == s[i + 1] && rest[i + 1] == s[i + 2]);
        }
        lemma_digit_blank_bytes(rest);
        let head = encode_scalar(s[0] as u32);
        let br = encode_utf8(rest);
        let b = encode_utf8(s);
        assert(b == head + br);
        lemma_scalar_low_byte(s[0] as u32);
        assert forall|i: int|
            0 <= i < b.len() - 1 && spec_is_number(#[trigger] char_at(b, i)) implies !is_blank(
            b,
            i + 1,
        ) by {
            if i < head.len() {
                assert(b[i] == head[i]);
                assert(head[i] < 0x80u8);
                lemma_low_char(s[0]);
                assert(i == 0 && char_at(b, 0) == s[0]);
                assert(br.len() > 0);
                assert(rest.len() > 0);
                let h2 = encode_scalar(rest[0] as u32);
                assert(br == h2 + encode_utf8(rest.drop_first()));
                assert(b[1] == br[0] && br[0] == h2[0]);
                lemma_scalar_low_byte(rest[0] as u32);
                if is_blank(b, 1) {
                    assert(h2[0] < 0x80u8);
                    lemma_low_char(rest[0]);
                    assert(char_at(b, 1) == rest[0]);
                    assert(s[1] == rest[0]);
                }
            } else {
                assert(b[i] == br[i - head.len()]);
                assert(b[i + 1] == br[i + 1 - head.len()]);
                assert(char_at(br, i - head.len()) == char_at(b, i));
            }
        }
    }
}

/// Blanks and tabs never change the tokens of a text in which no digit
/// stands right before one: the text reads as the same text without them.
pub proof fn lemma_lex_ignores_blanks(s: Seq<char>)
    requires
        forall|i: int|
            0 <= i < s.len() - 1 && spec_is_number(#[trigger] s[i]) ==> !blank_char(s[i + 1]),
    ensures
        lex(drop_blank_chars(s)) == lex(s),
{
    lemma_digit_blank_bytes(s);
    lemma_without_blanks_encode(s);
    lemma_blanks_are_ignored(encode_utf8(s));
}

/// Only the character `=` encodes to the byte of `=`: every other character
/// takes a different byte, or bytes of 0x80 and above.
proof fn lemma_scalar_equals_byte(c: u32)
    ensures
        forall|j: int|
            0 <= j < encode_scalar(c).len() && #[trigger] encode_scalar(c)[j] == 61u8 ==> c == 61,
{
    lemma_scalar_low_byte(c);
    assert(c <= 0x7f && c as u8 == 61u8 ==> c == 61) by (bit_vector);
}

/// A byte of `=` in the UTF-8 bytes of a text comes from a `=` in the text.
proof fn lemma_encode_equals(x: Seq<char>)
    ensures
        forall|j: int|
            0 <= j < encode_utf8(x).len() && #[trigger] encode_utf8(x)[j] == 61u8 ==> exists|i: int|
                0 <= i < x.len() && #[trigger] x[i] == '=',
    decreases x.len(),
{
    if x.len() > 0 {
        let rest = x.drop_first();
        lemma_encode_equals(rest);
        let head = encode_scalar(x[0] as u32);
        lemma_scalar_equals_byte(x[0] as u32);
        assert forall|j: int|
            0 <= j < encode_utf8(x).len() && #[trigger] encode_utf8(x)[j] == 61u8 implies exists|
            i: int,
        | 0 <= i < x.len() && #[trigger] x[i] == '=' by {
            if j < head.len() {
                assert(encode_utf8(x)[j] == head[j]);
                assert(x[0] as u32 == 61);
                vstd::utf8::char_u32_cast(x[0], 61u32);
                vstd::utf8::char_u32_cast('=', 61u32);
                assert(x[0] == '=');
            } else {
                assert(encode_utf8(x)[j] == encode_utf8(rest)[j - head.len()]);
                let i = choose|i: int| 0 <= i < rest.len() && rest[i] == '=';
                assert(x[i + 1] == rest[i]);
            }
        }
    }
}

/// Each character of the prepared text of the first `n` bytes is a `*` or
/// the character of one of those bytes.
proof fn lemma_prepare_chars(b: Seq<u8>, n: int)
    requires
        0 <= n <= b.len(),
    ensures
        forall|j: int|
            0 <= j < prepare_prefix(b, n).len() ==> #[trigger] prepare_prefix(b, n)[j] == '*'
                || exists|m: int| 0 <= m < n && char_at(b, m) == prepare_prefix(b, n)[j],
    decreases n,
{
    if n > 0 {
        lemma_prepare_chars(b, n - 1);
        let p = prepare_prefix(b, n - 1);
        let q = prepare_piece(b, n - 1);
        assert forall|j: int| 0 <= j < (p + q).len() implies #[trigger] (p + q)[j] == '*' || exists|
            m: int,
        | 0 <= m < n && char_at(b, m) == (p + q)[j] by {
            if j < p.len() {
                assert((p + q)[j] == p[j]);
            } else {
                assert((p + q)[j] == q[j - p.len()]);
                if q[j - p.len()] != '*' {
                    assert(char_at(b, n - 1) == q[j - p.len()]);
                }
            }
        }
    }
}

/// Each character of a token's text is the character of some byte.
proof fn lemma_lex_from_chars(b: Seq<u8>, i: int)
    requires
        0 <= i,
    ensures
        forall|t: int, j: int|
            0 <= t < lex_from(b, i).len() && 0 <= j < lex_from(b, i)[t].value.len() ==> exists|
                m: int,
            | 0 <= m < b.len() && char_at(b, m) == #[trigger] lex_from(b, i)[t].value[j],
    decreases b.len() - i,
{
    if i < b.len() {
        lemma_next_token_advances(b, i);
        lemma_runs_end(b, i);
        let (tok, k) = next_token(b, i);
        lemma_lex_from_chars(b, k);
        let d = digits_end(b, i);
        if 0 <= d < b.len() {
            lemma_runs_end(b, d + 1);
        }
        assert forall|t: int, j: int|
            0 <= t < lex_from(b, i).len() && 0 <= j < lex_from(b, i)[t].value.len() implies exists|
            m: int,
        | 0 <= m < b.len() && char_at(b, m) == #[trigger] lex_from(b, i)[t].value[j] by {
            if t == 0 {
                assert(lex_from(b, i)[0] == tok);
                if operator_type(char_at(b, i)) is None && (spec_is_number(char_at(b, i))
                    || spec_is_char(char_at(b, i))) {
                    assert(tok.value[j] == char_at(b, i + j));
                } else {
                    assert(tok.value[j] == char_at(b, i));
                }
            } else {
                assert(lex_from(b, i)[t] == lex_from(b, k)[t - 1]);
            }
        }
    }
}

/// An `=` is read as a `+`: a `+` token has the text `=` only where the
/// input holds an `=`; from an input without one, every `+` token reads `+`.
pub proof fn lemma_plus_tokens_without_equals(input: Seq<char>)
    requires
        forall|i: int| 0 <= i < input.len() ==> input[i] != '=',
    ensures
        forall|j: int|
            0 <= j < lex(input).len() && (#[trigger] lex(input)[j]).token_type == TokenType::Plus
                ==> lex(input)[j].value == seq!['+'],
{
    let b0 = encode_utf8(input);
    let pr = prepared(b0);
    let b = encode_utf8(pr);
    lemma_lex_token_shapes(input);
    lemma_encode_equals(input);
    lemma_encode_equals(pr);
    lemma_prepare_chars(b0, b0.len() as int);
    lemma_lex_from_chars(b, 0);
    assert forall|j: int|
        0 <= j < lex(input).len() && (#[trigger] lex(input)[j]).token_type == TokenType::Plus implies lex(
        input,
    )[j].value == seq!['+'] by {
        let t = lex(input)[j];
        assert(well_shaped(t));
        if t.value == seq!['='] {
            assert(t.value[0] == '=');
            let m = choose|m: int| 0 <= m < b.len() && char_at(b, m) == t.value[0];
            assert(b[m] == 61u8);
            let i = choose|i: int| 0 <= i < pr.len() && pr[i] == '=';
            let pp = prepare_prefix(b0, b0.len() as int);
            assert(pr[i] == pp[i]);
            let m0 = choose|m0: int| 0 <= m0 < b0.len() && char_at(b0, m0) == pp[i];
            assert(b0[m0] == 61u8);
            let i0 = choose|i0: int| 0 <= i0 < input.len() && input[i0] == '=';
            assert(false);
        }
    }
}

} // verus!

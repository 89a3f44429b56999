//! The reader: from the characters of a source to tokens, and from tokens
//! to nodes.

use vstd::prelude::*;

use crate::ast::{lemma_term_of, node_of, nodes_of, term_of, texts_of, CN, E, FN, NN, Node, Term};
use crate::err::{Fault, Flaw, LErr, LErrEnum};
use crate::num::{decimal_in, find_decimal, FloatFact, FloatOp};

verus! {

/// What a token is.
#[derive(Debug, Copy, Clone, PartialEq, Eq, Structural)]
pub enum Tok {
    /// `(`
    Open,
    /// `)`
    Close,
    /// `|`, which ends a train.
    Bar,
    /// `:`, which starts a binding, or marks a primitive as monadic.
    Colon,
    /// `λ`, which starts a function.
    Lambda,
    /// `↻`, which starts a block.
    Loop,
    /// The symbol of a primitive.
    Op(FN),
    /// The symbol of a combinator.
    Co(CN),
    /// A numeral without a fraction: its size, and whether a `-` stands
    /// before it.
    Int { neg: bool, digits: u64 },
    /// A numeral with a fraction: its digits as one number, how many of
    /// them stand behind the point, and whether a `-` stands before it.
    Dec { neg: bool, digits: u64, scale: u32 },
    /// A text between quotes.
    Str,
    /// A name.
    Name,
}

/// A token, and the characters of the source that it spans.
#[derive(Debug, Copy, Clone, PartialEq, Eq, Structural)]
pub struct Token {
    pub t: Tok,
    pub start: usize,
    pub end: usize,
}

/// Whether a character separates tokens and is no token itself.
pub open spec fn is_space(c: char) -> bool {
    c == ' ' || c == '\t' || c == '\n' || c == '\r'
}

/// Whether a character is a decimal digit.
pub open spec fn is_digit(c: char) -> bool {
    '0' <= c && c <= '9'
}

/// Whether a character can start a name.
pub open spec fn is_letter(c: char) -> bool {
    ('a' <= c && c <= 'z') || ('A' <= c && c <= 'Z')
}

/// The number that a digit stands for.
pub open spec fn digit_of(c: char) -> int {
    c as int - '0' as int
}

/// Where the digits from `i` on end.
pub open spec fn digits_end(s: Seq<char>, i: int) -> int
    decreases s.len() - i,
{
    if 0 <= i < s.len() && is_digit(s[i]) {
        digits_end(s, i + 1)
    } else {
        i
    }
}

/// Where the letters and digits from `i` on end.
pub open spec fn name_end(s: Seq<char>, i: int) -> int
    decreases s.len() - i,
{
    if 0 <= i < s.len() && (is_letter(s[i]) || is_digit(s[i])) {
        name_end(s, i + 1)
    } else {
        i
    }
}

/// Where the line that holds the place `i` ends: at its line feed, or at
/// the end of the source.
pub open spec fn line_end(s: Seq<char>, i: int) -> int
    decreases s.len() - i,
{
    if 0 <= i < s.len() && s[i] != '\n' {
        line_end(s, i + 1)
    } else {
        i
    }
}

/// The number that the digits from `from` up to `to` stand for, read
/// behind the number `acc`.
pub open spec fn digits_onto(s: Seq<char>, from: int, to: int, acc: int) -> int
    decreases to - from,
{
    if from >= to {
        acc
    } else {
        digits_onto(s, from, to - 1, acc) * 10 + digit_of(s[to - 1])
    }
}

/// Where the text that starts behind a quote at `i` ends: the place behind
/// the quote that closes it. Two quotes in a row stand for one quote in the
/// text and close nothing. There is no end where no quote closes the text.
pub open spec fn text_end(s: Seq<char>, i: int) -> Option<int>
    decreases s.len() - i,
{
    if i < 0 || i >= s.len() {
        None
    } else if s[i] != '"' {
        text_end(s, i + 1)
    } else if i + 1 < s.len() && s[i + 1] == '"' {
        text_end(s, i + 2)
    } else {
        Some(i + 1)
    }
}

/// The token of a character that is a token by itself.
pub open spec fn sign_of(c: char) -> Option<Tok> {
    if c == '(' {
        Some(Tok::Open)
    } else if c == ')' {
        Some(Tok::Close)
    } else if c == '|' {
        Some(Tok::Bar)
    } else if c == ':' {
        Some(Tok::Colon)
    } else if c == 'λ' {
        Some(Tok::Lambda)
    } else if c == '↻' {
        Some(Tok::Loop)
    } else if c == '/' {
        Some(Tok::Co(CN::Fold))
    } else if c == '\\' {
        Some(Tok::Co(CN::ScanL))
    } else if c == 'ǁ' {
        Some(Tok::Co(CN::Each))
    } else if c == '+' {
        Some(Tok::Op(FN::Plus))
    } else if c == '-' {
        Some(Tok::Op(FN::Minus))
    } else if c == '×' {
        Some(Tok::Op(FN::Mult))
    } else if c == '÷' {
        Some(Tok::Op(FN::Div))
    } else if c == '¯' {
        Some(Tok::Op(FN::Max))
    } else if c == '_' {
        Some(Tok::Op(FN::Min))
    } else if c == '=' {
        Some(Tok::Op(FN::Eq))
    } else if c == '&' {
        Some(Tok::Op(FN::Amp))
    } else if c == '!' {
        Some(Tok::Op(FN::Bang))
    } else if c == 'ρ' {
        Some(Tok::Op(FN::Rho))
    } else {
        None
    }
}

/// The place of one character of the source, with that character as the
/// text.
pub open spec fn flaw_of(s: Seq<char>, start: int, end: int) -> Flaw {
    Flaw { error: s.subrange(start, end), start: start as usize, end: end as usize }
}

/// The numeral that starts with a digit at `i`; `start` is where its
/// token starts, at `i` or at the `-` before it. The digits go on to the
/// first character that is no digit; where that is a point with a digit
/// behind it, the numeral has a fraction, which goes on to the first
/// character that is no digit. The digits must make a number that a `u64`
/// holds.
pub open spec fn numeral(s: Seq<char>, start: int, i: int) -> Result<(Token, int), Fault> {
    let neg = start < i;
    let a = digits_end(s, i);
    let whole = digits_onto(s, i, a, 0);
    if a + 1 < s.len() && s[a] == '.' && is_digit(s[a + 1]) {
        let b = digits_end(s, a + 1);
        let all = digits_onto(s, a + 1, b, whole);
        if all > u64::MAX || b - (a + 1) > u32::MAX {
            Err(Fault::FloatExpected(flaw_of(s, start, b)))
        } else {
            Ok(
                (
                    Token {
                        t: Tok::Dec { neg, digits: all as u64, scale: (b - (a + 1)) as u32 },
                        start: start as usize,
                        end: b as usize,
                    },
                    b,
                ),
            )
        }
    } else if whole > u64::MAX {
        Err(Fault::IntExpected(flaw_of(s, start, a)))
    } else {
        Ok(
            (
                Token { t: Tok::Int { neg, digits: whole as u64 }, start: start as usize, end: a as usize },
                a,
            ),
        )
    }
}

/// What stands at place `i` of a source: a token, or nothing where a
/// space or a comment stands there, and the place behind it.
///
/// A comment goes from a `;` to the end of the line. A `-` with a digit
/// behind it starts a numeral. A quote starts a text, which must be closed.
/// A letter starts a name. Every other character must be a token by
/// itself.
pub open spec fn lexed(s: Seq<char>, i: int) -> Result<(Option<Token>, int), Fault>
    recommends
        0 <= i < s.len(),
{
    let c = s[i];
    if is_space(c) {
        Ok((None, i + 1))
    } else if c == ';' {
        Ok((None, line_end(s, i + 1)))
    } else if is_digit(c) {
        match numeral(s, i, i) {
            Ok((t, j)) => Ok((Some(t), j)),
            Err(e) => Err(e),
        }
    } else if c == '-' && i + 1 < s.len() && is_digit(s[i + 1]) {
        match numeral(s, i, i + 1) {
            Ok((t, j)) => Ok((Some(t), j)),
            Err(e) => Err(e),
        }
    } else if c == '"' {
        match text_end(s, i + 1) {
            Some(j) => Ok((Some(Token { t: Tok::Str, start: i as usize, end: j as usize }), j)),
            None => Err(Fault::Standard(flaw_of(s, i, s.len() as int))),
        }
    } else if is_letter(c) {
        let j = name_end(s, i + 1);
        Ok((Some(Token { t: Tok::Name, start: i as usize, end: j as usize }), j))
    } else {
        match sign_of(c) {
            Some(t) => Ok((Some(Token { t, start: i as usize, end: (i + 1) as usize }), i + 1)),
            None => Err(Fault::Standard(flaw_of(s, i, i + 1))),
        }
    }
}

/// The tokens of a source from place `i` on, behind the tokens `acc`.
pub open spec fn tokens_from(s: Seq<char>, i: int, acc: Seq<Token>) -> Result<Seq<Token>, Fault>
    decreases s.len() - i,
{
    if i < 0 || i >= s.len() {
        Ok(acc)
    } else {
        match lexed(s, i) {
            Err(e) => Err(e),
            Ok((t, j)) => if j <= i || j > s.len() {
                Ok(acc)
            } else {
                tokens_from(
                    s,
                    j,
                    match t {
                        Some(t) => acc.push(t),
                        None => acc,
                    },
                )
            },
        }
    }
}

/// The tokens of a source.
pub open spec fn tokens(s: Seq<char>) -> Result<Seq<Token>, Fault> {
    tokens_from(s, 0, Seq::empty())
}

/// The characters of a text.
pub fn chars_of(s: &str) -> (v: Vec<char>)
    ensures
        v@ == s@,
{
    let n = s.unicode_len();
    let mut v: Vec<char> = Vec::new();
    let mut i: usize = 0;
    while i < n
        invariant
            i <= n,
            n == s@.len(),
            v.len() == i,
            forall|j: int| 0 <= j < i ==> v[j] == s@[j],
        decreases n - i,
    {
        v.push(s.get_char(i));
        i += 1;
    }
    assert(v@ =~= s@);
    v
}

/// The text of some characters.
pub fn text_of(v: &Vec<char>, from: usize, to: usize) -> (s: String)
    requires
        from <= to <= v.len(),
    ensures
        s@ == v@.subrange(from as int, to as int),
{
    let mut s = String::new();
    let mut i: usize = from;
    while i < to
        invariant
            from <= i <= to,
            to <= v.len(),
            s@ == v@.subrange(from as int, i as int),
        decreases to - i,
    {
        push_char(&mut s, v[i]);
        assert(v@.subrange(from as int, i as int + 1) =~= v@.subrange(from as int, i as int).push(
            v@[i as int],
        ));
        i += 1;
    }
    s
}

/// Appends a character to a text, with `String::push` of the standard
/// library: the text is then the characters it held, with the character
/// behind them.
#[verifier::external_body]
pub(crate) fn push_char(s: &mut String, c: char)
    ensures
        final(s)@ == old(s)@.push(c),
{
    s.push(c);
}


/// Whether a character separates tokens.
pub fn space(c: char) -> (r: bool)
    ensures
        r == is_space(c),
{
    c == ' ' || c == '\t' || c == '\n' || c == '\r'
}

/// Whether a character is a digit.
pub fn digit(c: char) -> (r: bool)
    ensures
        r == is_digit(c),
{
    '0' <= c && c <= '9'
}

/// Whether a character is a letter.
pub fn letter(c: char) -> (r: bool)
    ensures
        r == is_letter(c),
{
    ('a' <= c && c <= 'z') || ('A' <= c && c <= 'Z')
}

/// The number that a digit stands for.
pub fn digit_value(c: char) -> (r: u64)
    requires
        is_digit(c),
    ensures
        r == digit_of(c),
        r <= 9,
{
    if c == '0' {
        0
    } else if c == '1' {
        1
    } else if c == '2' {
        2
    } else if c == '3' {
        3
    } else if c == '4' {
        4
    } else if c == '5' {
        5
    } else if c == '6' {
        6
    } else if c == '7' {
        7
    } else if c == '8' {
        8
    } else {
        9
    }
}

/// The token of a character that is a token by itself.
pub fn sign(c: char) -> (r: Option<Tok>)
    ensures
        r == sign_of(c),
{
    if c == '(' {
        Some(Tok::Open)
    } else if c == ')' {
        Some(Tok::Close)
    } else if c == '|' {
        Some(Tok::Bar)
    } else if c == ':' {
        Some(Tok::Colon)
    } else if c == 'λ' {
        Some(Tok::Lambda)
    } else if c == '↻' {
        Some(Tok::Loop)
    } else if c == '/' {
        Some(Tok::Co(CN::Fold))
    } else if c == '\\' {
        Some(Tok::Co(CN::ScanL))
    } else if c == 'ǁ' {
        Some(Tok::Co(CN::Each))
    } else if c == '+' {
        Some(Tok::Op(FN::Plus))
    } else if c == '-' {
        Some(Tok::Op(FN::Minus))
    } else if c == '×' {
        Some(Tok::Op(FN::Mult))
    } else if c == '÷' {
        Some(Tok::Op(FN::Div))
    } else if c == '¯' {
        Some(Tok::Op(FN::Max))
    } else if c == '_' {
        Some(Tok::Op(FN::Min))
    } else if c == '=' {
        Some(Tok::Op(FN::Eq))
    } else if c == '&' {
        Some(Tok::Op(FN::Amp))
    } else if c == '!' {
        Some(Tok::Op(FN::Bang))
    } else if c == 'ρ' {
        Some(Tok::Op(FN::Rho))
    } else {
        None
    }
}

/// The digits from `i` on: where they end, and the number they stand for
/// behind `acc`, if a `u64` holds it.
pub fn digits(v: &Vec<char>, i: usize, acc: Option<u64>) -> (r: (usize, Option<u64>))
    requires
        i <= v.len(),
    ensures
        r.0 == digits_end(v@, i as int),
        i <= r.0 <= v.len(),
        forall|k: int| i <= k < r.0 ==> is_digit(#[trigger] v@[k]),
        r.0 < v.len() ==> !is_digit(v@[r.0 as int]),
        match (acc, r.1) {
            (Some(a), Some(x)) => x == digits_onto(v@, i as int, r.0 as int, a as int),
            (Some(a), None) => digits_onto(v@, i as int, r.0 as int, a as int) > u64::MAX,
            (None, Some(_)) => false,
            (None, None) => true,
        },
{
    let mut j: usize = i;
    let mut val = acc;
    while j < v.len() && digit(v[j])
        invariant
            i <= j <= v.len(),
            digits_end(v@, i as int) == digits_end(v@, j as int),
            forall|k: int| i <= k < j ==> is_digit(#[trigger] v@[k]),
            match (acc, val) {
                (Some(a), Some(x)) => x == digits_onto(v@, i as int, j as int, a as int),
                (Some(a), None) => digits_onto(v@, i as int, j as int, a as int) > u64::MAX,
                (None, Some(_)) => false,
                (None, None) => true,
            },
            acc is Some ==> digits_onto(v@, i as int, j as int, acc->0 as int) >= 0,
        decreases v.len() - j,
    {
        let d = digit_value(v[j]);
        val = match val {
            Some(x) => {
                if x > (u64::MAX - d) / 10 {
                    None
                } else {
                    Some(x * 10 + d)
                }
            },
            None => None,
        };
        j += 1;
    }
    (j, val)
}


/// A failure at some characters of the source, with those characters as
/// its text.
pub fn flaw(v: &Vec<char>, start: usize, end: usize) -> (e: LErr)
    requires
        start <= end <= v.len(),
    ensures
        e@ == flaw_of(v@, start as int, end as int),
{
    LErr { error: text_of(v, start, end), start, end }
}

/// Where the letters and digits from `i` on end.
pub fn name_stop(v: &Vec<char>, i: usize) -> (j: usize)
    requires
        i <= v.len(),
    ensures
        j == name_end(v@, i as int),
        i <= j <= v.len(),
{
    let mut j: usize = i;
    while j < v.len() && (letter(v[j]) || digit(v[j]))
        invariant
            i <= j <= v.len(),
            name_end(v@, i as int) == name_end(v@, j as int),
        decreases v.len() - j,
    {
        j += 1;
    }
    j
}

/// Where the line that holds the place `i` ends.
pub fn line_stop(v: &Vec<char>, i: usize) -> (j: usize)
    requires
        i <= v.len(),
    ensures
        j == line_end(v@, i as int),
        i <= j <= v.len(),
{
    let mut j: usize = i;
    while j < v.len() && v[j] != '\n'
        invariant
            i <= j <= v.len(),
            line_end(v@, i as int) == line_end(v@, j as int),
        decreases v.len() - j,
    {
        j += 1;
    }
    j
}

/// Where the text that starts behind a quote at `i` ends.
pub fn text_stop(v: &Vec<char>, i: usize) -> (r: Option<usize>)
    requires
        i <= v.len(),
    ensures
        match r {
            Some(j) => text_end(v@, i as int) == Some(j as int) && i < j <= v.len(),
            None => text_end(v@, i as int) is None,
        },
{
    let mut j: usize = i;
    while j < v.len()
        invariant
            i <= j <= v.len(),
            text_end(v@, i as int) == text_end(v@, j as int),
        decreases v.len() - j,
    {
        if v[j] != '"' {
            j += 1;
        } else if v.len() - j > 1 && v[j + 1] == '"' {
            j += 2;
        } else {
            return Some(j + 1);
        }
    }
    None
}

/// The numeral that starts with a digit at `i`.
pub fn number(v: &Vec<char>, start: usize, i: usize) -> (r: Result<(Token, usize), LErrEnum>)
    requires
        start <= i < v.len(),
        is_digit(v@[i as int]),
    ensures
        match r {
            Ok((t, j)) => numeral(v@, start as int, i as int) == Ok::<(Token, int), Fault>(
                (t, j as int),
            ) && i < j <= v.len() && t.start == start && t.end == j && !(t.t is Str),
            Err(e) => numeral(v@, start as int, i as int) == Err::<(Token, int), Fault>(e@),
        },
{
    let neg = start < i;
    let (a, whole) = digits(v, i, Some(0));
    if a < v.len() && v.len() - a > 1 && v[a] == '.' && digit(v[a + 1]) {
        let (b, all) = digits(v, a + 1, whole);
        let ghost w = digits_onto(v@, i as int, a as int, 0);
        proof {
            lemma_digits_grow(v@, a as int + 1, b as int, w);
        }
        let scale = b - (a + 1);
        match all {
            Some(x) => {
                if scale > 0xffff_ffff {
                    Err(LErrEnum::FloatExpected(flaw(v, start, b)))
                } else {
                    Ok(
                        (
                            Token {
                                t: Tok::Dec { neg, digits: x, scale: scale as u32 },
                                start,
                                end: b,
                            },
                            b,
                        ),
                    )
                }
            },
            None => Err(LErrEnum::FloatExpected(flaw(v, start, b))),
        }
    } else {
        match whole {
            Some(x) => Ok((Token { t: Tok::Int { neg, digits: x }, start, end: a }, a)),
            None => Err(LErrEnum::IntExpected(flaw(v, start, a))),
        }
    }
}

/// Digits read behind a number make a number that is at least as large.
pub proof fn lemma_digits_grow(s: Seq<char>, from: int, to: int, acc: int)
    requires
        0 <= from <= to <= s.len(),
        forall|k: int| from <= k < to ==> is_digit(#[trigger] s[k]),
        acc >= 0,
    ensures
        digits_onto(s, from, to, acc) >= acc,
    decreases to - from,
{
    if from < to {
        lemma_digits_grow(s, from, to - 1, acc);
    }
}

/// What stands at place `i` of a source.
pub fn lex_at(v: &Vec<char>, i: usize) -> (r: Result<(Option<Token>, usize), LErrEnum>)
    requires
        i < v.len(),
    ensures
        match r {
            Ok((t, j)) => lexed(v@, i as int) == Ok::<(Option<Token>, int), Fault>((t, j as int))
                && i < j <= v.len() && (t matches Some(tok) ==> tok.start == i && tok.end == j && (
            tok.t is Str ==> i + 2 <= j)),
            Err(e) => lexed(v@, i as int) == Err::<(Option<Token>, int), Fault>(e@),
        },
{
    let c = v[i];
    if space(c) {
        Ok((None, i + 1))
    } else if c == ';' {
        Ok((None, line_stop(v, i + 1)))
    } else if digit(c) {
        let (t, j) = number(v, i, i)?;
        Ok((Some(t), j))
    } else if c == '-' && v.len() - i > 1 && digit(v[i + 1]) {
        let (t, j) = number(v, i, i + 1)?;
        Ok((Some(t), j))
    } else if c == '"' {
        match text_stop(v, i + 1) {
            Some(j) => Ok((Some(Token { t: Tok::Str, start: i, end: j }), j)),
            None => Err(LErrEnum::Standard(flaw(v, i, v.len()))),
        }
    } else if letter(c) {
        let j = name_stop(v, i + 1);
        Ok((Some(Token { t: Tok::Name, start: i, end: j }), j))
    } else {
        match sign(c) {
            Some(t) => Ok((Some(Token { t, start: i, end: i + 1 }), i + 1)),
            None => Err(LErrEnum::Standard(flaw(v, i, i + 1))),
        }
    }
}

/// Whether tokens lie inside a source: each one spans characters of it,
/// and a text token its two quotes at least.
pub open spec fn sound(s: Seq<char>, ts: Seq<Token>) -> bool {
    forall|k: int|
        0 <= k < ts.len() ==> (#[trigger] ts[k]).start < ts[k].end && ts[k].end <= s.len() && (
        ts[k].t is Str ==> ts[k].start + 2 <= ts[k].end)
}

/// The tokens of a source.
pub fn lex(v: &Vec<char>) -> (r: Result<Vec<Token>, LErrEnum>)
    ensures
        match r {
            Ok(ts) => tokens(v@) == Ok::<Seq<Token>, Fault>(ts@) && sound(v@, ts@),
            Err(e) => tokens(v@) == Err::<Seq<Token>, Fault>(e@),
        },
{
    let mut ts: Vec<Token> = Vec::new();
    let mut i: usize = 0;
    while i < v.len()
        invariant
            i <= v.len(),
            tokens(v@) == tokens_from(v@, i as int, ts@),
            sound(v@, ts@),
        decreases v.len() - i,
    {
        match lex_at(v, i) {
            Err(e) => {
                return Err(e);
            },
            Ok((t, j)) => {
                match t {
                    Some(t) => {
                        ts.push(t);
                    },
                    None => {},
                }
                i = j;
            },
        }
    }
    Ok(ts)
}


/// The text between the quotes of a text token: the characters from
/// `from` up to `to`, with one quote for each two quotes in a row.
pub open spec fn unquoted(s: Seq<char>, from: int, to: int) -> Seq<char>
    decreases to - from,
{
    if from >= to {
        Seq::empty()
    } else if s[from] == '"' {
        if from + 2 > to {
            seq!['"']
        } else {
            seq!['"'] + unquoted(s, from + 2, to)
        }
    } else {
        seq![s[from]] + unquoted(s, from + 1, to)
    }
}

/// The place of a token in the source, with its characters as the text.
pub open spec fn flaw_at(s: Seq<char>, t: Token) -> Flaw {
    flaw_of(s, t.start as int, t.end as int)
}

/// The node of a token that is an expression by itself: an integer that
/// fits 32 bits, a number with a fraction that `table` holds, a text, or a
/// name.
pub open spec fn atom(s: Seq<char>, t: Token, table: Seq<FloatFact>) -> Result<Node, Fault> {
    match t.t {
        Tok::Int { neg, digits } => {
            let v = if neg {
                -(digits as int)
            } else {
                digits as int
            };
            if i32::MIN <= v <= i32::MAX {
                Ok(Node { n: Term::Int(v as i32), start: t.start, end: t.end })
            } else {
                Err(Fault::IntExpected(flaw_at(s, t)))
            }
        },
        Tok::Dec { neg, digits, scale } => match decimal_in(table, neg, digits, scale) {
            Some(bits) => Ok(Node { n: Term::Float(bits), start: t.start, end: t.end }),
            None => Err(Fault::FloatNeeded(FloatOp::Decimal { neg, digits, scale })),
        },
        Tok::Str => Ok(
            Node {
                n: Term::Str(unquoted(s, t.start + 1, t.end - 1)),
                start: t.start,
                end: t.end,
            },
        ),
        Tok::Name => Ok(
            Node { n: Term::Val(s.subrange(t.start as int, t.end as int)), start: t.start, end: t.end },
        ),
        _ => Err(Fault::TermExpected(flaw_at(s, t))),
    }
}

/// The names from token `i` up to the `)` that closes them, behind the
/// names `acc`, and the place of that `)`.
pub open spec fn params_until(s: Seq<char>, ts: Seq<Token>, i: int, acc: Seq<Seq<char>>) -> Result<
    (Seq<Seq<char>>, int),
    Fault,
>
    decreases ts.len() - i,
{
    if i < 0 || i >= ts.len() {
        Err(Fault::ExprExpected)
    } else if ts[i].t is Close {
        Ok((acc, i))
    } else if ts[i].t is Name {
        params_until(s, ts, i + 1, acc.push(s.subrange(ts[i].start as int, ts[i].end as int)))
    } else {
        Err(Fault::ValueExpected(flaw_at(s, ts[i])))
    }
}

/// The element of a train that starts at token `i`, and the place behind
/// it: a primitive with the combinator behind it, a primitive marked as
/// monadic by the `:` behind it, a primitive alone, a combinator alone, or
/// the name of a function.
pub open spec fn link(s: Seq<char>, ts: Seq<Token>, i: int) -> Result<(Node, int), Fault>
    recommends
        0 <= i < ts.len(),
{
    let t = ts[i];
    match t.t {
        Tok::Op(f) => if i + 1 < ts.len() && ts[i + 1].t is Co {
            let c = ts[i + 1];
            Ok(
                (
                    Node {
                        n: Term::Mco {
                            o: Box::new(Node { n: Term::Mfn(f), start: t.start, end: t.end }),
                            co: Box::new(Node { n: Term::Cn(c.t->Co_0), start: c.start, end: c.end }),
                        },
                        start: t.start,
                        end: c.end,
                    },
                    i + 2,
                ),
            )
        } else if i + 1 < ts.len() && ts[i + 1].t is Colon {
            Ok((Node { n: Term::Mop(f), start: t.start, end: ts[i + 1].end }, i + 2))
        } else {
            Ok((Node { n: Term::Mfn(f), start: t.start, end: t.end }, i + 1))
        },
        Tok::Co(c) => Ok((Node { n: Term::Cn(c), start: t.start, end: t.end }, i + 1)),
        Tok::Name => Ok(
            (
                Node {
                    n: Term::FnVal(s.subrange(t.start as int, t.end as int)),
                    start: t.start,
                    end: t.end,
                },
                i + 1,
            ),
        ),
        _ => Err(Fault::TrainExpected(flaw_at(s, t))),
    }
}

/// The elements of a train from token `i` up to the `|` that ends it,
/// behind the elements `acc`, and the place of that `|`.
pub open spec fn train_until(s: Seq<char>, ts: Seq<Token>, i: int, acc: Seq<Node>) -> Result<
    (Seq<Node>, int),
    Fault,
>
    decreases ts.len() - i,
{
    if i < 0 || i >= ts.len() {
        Err(Fault::ExprExpected)
    } else if ts[i].t is Bar {
        Ok((acc, i))
    } else {
        match link(s, ts, i) {
            Err(e) => Err(e),
            Ok((n, j)) => if j <= i || j > ts.len() {
                Err(Fault::ExprExpected)
            } else {
                train_until(s, ts, j, acc.push(n))
            },
        }
    }
}

/// Whether a token can stand in a train.
pub open spec fn in_train(t: Tok) -> bool {
    t is Op || t is Co || t is Colon || t is Name
}

/// Whether a train starts at token `i`: tokens that can stand in a train,
/// and a `|` behind them.
pub open spec fn train_at(ts: Seq<Token>, i: int) -> bool
    decreases ts.len() - i,
{
    if i < 0 || i >= ts.len() {
        false
    } else if ts[i].t is Bar {
        true
    } else if in_train(ts[i].t) {
        train_at(ts, i + 1)
    } else {
        false
    }
}

/// The expression that starts at token `i`, and the place behind it: a
/// token that is an expression by itself, or a form in brackets.
pub open spec fn expr(s: Seq<char>, ts: Seq<Token>, i: int, table: Seq<FloatFact>) -> Result<
    (Node, int),
    Fault,
>
    decreases ts.len() - i, 1nat,
{
    if i < 0 || i >= ts.len() {
        Err(Fault::ExprExpected)
    } else if ts[i].t is Open {
        form(s, ts, i, table)
    } else {
        match atom(s, ts[i], table) {
            Ok(n) => Ok((n, i + 1)),
            Err(e) => Err(e),
        }
    }
}

/// The node of a form from its `(` at token `open` to its `)` at token
/// `close`.
pub open spec fn spanned(ts: Seq<Token>, open: int, close: int, n: Term) -> Node {
    Node { n, start: ts[open].start, end: ts[close].end }
}

/// The form whose `(` is token `i`, and the place behind its `)`.
///
/// Behind `λ` stand the names of the parameters in brackets and the
/// expressions of the body. Behind `↻` stand the expressions of a block.
/// Behind `:` stand a name and the expression bound to it. A train and a
/// `|` are applied to the expressions behind them. Anything else is a list
/// of expressions.
pub open spec fn form(s: Seq<char>, ts: Seq<Token>, i: int, table: Seq<FloatFact>) -> Result<
    (Node, int),
    Fault,
>
    decreases ts.len() - i, 0nat,
{
    if i < 0 || i + 1 >= ts.len() {
        Err(Fault::ExprExpected)
    } else {
        match ts[i + 1].t {
            Tok::Lambda => if i + 2 >= ts.len() {
                Err(Fault::ExprExpected)
            } else if !(ts[i + 2].t is Open) {
                Err(Fault::ValueExpected(flaw_at(s, ts[i + 2])))
            } else {
                match params_until(s, ts, i + 3, Seq::empty()) {
                    Err(e) => Err(e),
                    Ok((params, j)) => if j < i + 3 || j >= ts.len() {
                        Err(Fault::ExprExpected)
                    } else {
                        match exprs_until(s, ts, j + 1, table, Seq::empty()) {
                            Err(e) => Err(e),
                            Ok((body, k)) => Ok(
                                (spanned(ts, i, k, Term::Lambda { params, body }), k + 1),
                            ),
                        }
                    },
                }
            },
            Tok::Loop => match exprs_until(s, ts, i + 2, table, Seq::empty()) {
                Err(e) => Err(e),
                Ok((xs, k)) => Ok((spanned(ts, i, k, Term::DoBlock(xs)), k + 1)),
            },
            Tok::Colon => if i + 2 >= ts.len() {
                Err(Fault::ExprExpected)
            } else if !(ts[i + 2].t is Name) {
                Err(Fault::ValueExpected(flaw_at(s, ts[i + 2])))
            } else {
                match expr(s, ts, i + 3, table) {
                    Err(e) => Err(e),
                    Ok((rhs, j)) => if j < 0 || j >= ts.len() {
                        Err(Fault::ExprExpected)
                    } else if !(ts[j].t is Close) {
                        Err(Fault::TermExpected(flaw_at(s, ts[j])))
                    } else {
                        Ok(
                            (
                                spanned(
                                    ts,
                                    i,
                                    j,
                                    Term::Assign {
                                        name: s.subrange(
                                            ts[i + 2].start as int,
                                            ts[i + 2].end as int,
                                        ),
                                        rhs: Box::new(rhs),
                                    },
                                ),
                                j + 1,
                            ),
                        )
                    },
                }
            },
            _ => if train_at(ts, i + 1) {
                match train_until(s, ts, i + 1, Seq::empty()) {
                    Err(e) => Err(e),
                    Ok((train, b)) => if b < i + 1 || b >= ts.len() {
                        Err(Fault::ExprExpected)
                    } else {
                        match exprs_until(s, ts, b + 1, table, Seq::empty()) {
                            Err(e) => Err(e),
                            Ok((args, k)) => Ok(
                                (spanned(ts, i, k, Term::Apply { train, args }), k + 1),
                            ),
                        }
                    },
                }
            } else {
                match exprs_until(s, ts, i + 1, table, Seq::empty()) {
                    Err(e) => Err(e),
                    Ok((xs, k)) => Ok((spanned(ts, i, k, Term::List(xs)), k + 1)),
                }
            },
        }
    }
}

/// The expressions from token `i` up to the `)` that closes them, behind
/// the expressions `acc`, and the place of that `)`.
pub open spec fn exprs_until(
    s: Seq<char>,
    ts: Seq<Token>,
    i: int,
    table: Seq<FloatFact>,
    acc: Seq<Node>,
) -> Result<(Seq<Node>, int), Fault>
    decreases ts.len() - i, 2nat,
{
    if i < 0 || i >= ts.len() {
        Err(Fault::ExprExpected)
    } else if ts[i].t is Close {
        Ok((acc, i))
    } else {
        match expr(s, ts, i, table) {
            Err(e) => Err(e),
            Ok((n, j)) => if j <= i || j > ts.len() {
                Err(Fault::ExprExpected)
            } else {
                exprs_until(s, ts, j, table, acc.push(n))
            },
        }
    }
}

/// The expressions from token `i` to the end of the source, behind the
/// expressions `acc`.
pub open spec fn exprs_from(
    s: Seq<char>,
    ts: Seq<Token>,
    i: int,
    table: Seq<FloatFact>,
    acc: Seq<Node>,
) -> Result<Seq<Node>, Fault>
    decreases ts.len() - i,
{
    if i < 0 || i >= ts.len() {
        Ok(acc)
    } else {
        match expr(s, ts, i, table) {
            Err(e) => Err(e),
            Ok((n, j)) => if j <= i || j > ts.len() {
                Err(Fault::ExprExpected)
            } else {
                exprs_from(s, ts, j, table, acc.push(n))
            },
        }
    }
}

/// The expressions that a source holds: those of its tokens.
pub open spec fn read(s: Seq<char>, table: Seq<FloatFact>) -> Result<Seq<Node>, Fault> {
    match tokens(s) {
        Err(e) => Err(e),
        Ok(ts) => exprs_from(s, ts, 0, table, Seq::empty()),
    }
}


/// The text between the quotes of a text token.
pub fn unquote(v: &Vec<char>, from: usize, to: usize) -> (r: String)
    requires
        from <= to <= v.len(),
    ensures
        r@ == unquoted(v@, from as int, to as int),
{
    let mut r = String::new();
    let mut j: usize = from;
    while j < to
        invariant
            from <= j,
            to <= v.len(),
            unquoted(v@, from as int, to as int) == r@ + unquoted(v@, j as int, to as int),
        decreases to - j,
    {
        let ghost before = r@;
        if v[j] == '"' {
            push_char(&mut r, '"');
            assert(before + (seq!['"'] + unquoted(v@, j as int + 2, to as int)) =~= before.push(
                '"',
            ) + unquoted(v@, j as int + 2, to as int));
            assert(before + seq!['"'] =~= before.push('"'));
            if to - j < 2 {
                j = to;
            } else {
                j += 2;
            }
        } else {
            push_char(&mut r, v[j]);
            assert(before + (seq![v@[j as int]] + unquoted(v@, j as int + 1, to as int))
                =~= before.push(v@[j as int]) + unquoted(v@, j as int + 1, to as int));
            j += 1;
        }
    }
    assert(r@ + Seq::<char>::empty() =~= r@);
    r
}

/// The place of a token in the source, with its characters as the text.
pub fn blame(v: &Vec<char>, t: Token) -> (e: LErr)
    requires
        t.start <= t.end <= v.len(),
    ensures
        e@ == flaw_at(v@, t),
{
    flaw(v, t.start, t.end)
}

/// The node of a token that is an expression by itself.
pub fn leaf(v: &Vec<char>, t: Token, floats: &Vec<FloatFact>) -> (r: Result<NN, LErrEnum>)
    requires
        t.start < t.end <= v.len(),
        t.t is Str ==> t.start + 2 <= t.end,
    ensures
        match r {
            Ok(n) => atom(v@, t, floats@) == Ok::<Node, Fault>(n@),
            Err(e) => atom(v@, t, floats@) == Err::<Node, Fault>(e@),
        },
{
    match t.t {
        Tok::Int { neg, digits } => {
            if neg {
                if digits <= 2147483648 {
                    Ok(NN::new(t.start, t.end, E::INT((-(digits as i64)) as i32)))
                } else {
                    Err(LErrEnum::IntExpected(blame(v, t)))
                }
            } else {
                if digits <= 2147483647 {
                    Ok(NN::new(t.start, t.end, E::INT(digits as i32)))
                } else {
                    Err(LErrEnum::IntExpected(blame(v, t)))
                }
            }
        },
        Tok::Dec { neg, digits, scale } => match find_decimal(floats, neg, digits, scale) {
            Some(bits) => Ok(NN::new(t.start, t.end, E::FT(bits))),
            None => Err(LErrEnum::FloatNeeded(FloatOp::Decimal { neg, digits, scale })),
        },
        Tok::Str => Ok(NN::new(t.start, t.end, E::ST(unquote(v, t.start + 1, t.end - 1)))),
        Tok::Name => Ok(NN::new(t.start, t.end, E::VAL(text_of(v, t.start, t.end)))),
        _ => Err(LErrEnum::TermExpected(blame(v, t))),
    }
}

/// The names from token `i` up to the `)` that closes them.
pub fn params(v: &Vec<char>, ts: &Vec<Token>, i: usize) -> (r: Result<(Vec<String>, usize), LErrEnum>)
    requires
        sound(v@, ts@),
    ensures
        match r {
            Ok((ps, j)) => params_until(v@, ts@, i as int, Seq::empty()) == Ok::<
                (Seq<Seq<char>>, int),
                Fault,
            >((texts_of(ps@), j as int)) && i <= j < ts.len(),
            Err(e) => params_until(v@, ts@, i as int, Seq::empty()) == Err::<
                (Seq<Seq<char>>, int),
                Fault,
            >(e@),
        },
{
    let mut ps: Vec<String> = Vec::new();
    let mut j: usize = i;
    assert(texts_of(ps@) =~= Seq::empty());
    while j < ts.len()
        invariant
            i <= j,
            sound(v@, ts@),
            params_until(v@, ts@, i as int, Seq::empty()) == params_until(
                v@,
                ts@,
                j as int,
                texts_of(ps@),
            ),
        decreases ts.len() - j,
    {
        let t = ts[j];
        match t.t {
            Tok::Close => {
                return Ok((ps, j));
            },
            Tok::Name => {
                let ghost before = texts_of(ps@);
                let name = text_of(v, t.start, t.end);
                ps.push(name);
                assert(texts_of(ps@) =~= before.push(v@.subrange(t.start as int, t.end as int)));
                j += 1;
            },
            _ => {
                return Err(LErrEnum::ValueExpected(blame(v, t)));
            },
        }
    }
    Err(LErrEnum::ExprExpected)
}

/// The element of a train that starts at token `i`.
pub fn chain(v: &Vec<char>, ts: &Vec<Token>, i: usize) -> (r: Result<(NN, usize), LErrEnum>)
    requires
        sound(v@, ts@),
        i < ts.len(),
    ensures
        match r {
            Ok((n, j)) => link(v@, ts@, i as int) == Ok::<(Node, int), Fault>((n@, j as int)) && i
                < j <= ts.len(),
            Err(e) => link(v@, ts@, i as int) == Err::<(Node, int), Fault>(e@),
        },
{
    let t = ts[i];
    proof {
        reveal_with_fuel(node_of, 3);
        reveal_with_fuel(term_of, 3);
    }
    match t.t {
        Tok::Op(f) => {
            if ts.len() - i > 1 {
                let c = ts[i + 1];
                match c.t {
                    Tok::Co(co) => {
                        let o = NN::new(t.start, t.end, E::MFN(f));
                        let cn = NN::new(c.start, c.end, E::CN(co));
                        return Ok(
                            (
                                NN::new(
                                    t.start,
                                    c.end,
                                    E::MCO { o: Box::new(o), co: Box::new(cn) },
                                ),
                                i + 2,
                            ),
                        );
                    },
                    Tok::Colon => {
                        return Ok((NN::new(t.start, c.end, E::MOP(f)), i + 2));
                    },
                    _ => {},
                }
            }
            Ok((NN::new(t.start, t.end, E::MFN(f)), i + 1))
        },
        Tok::Co(c) => Ok((NN::new(t.start, t.end, E::CN(c)), i + 1)),
        Tok::Name => Ok((NN::new(t.start, t.end, E::FVAL(text_of(v, t.start, t.end))), i + 1)),
        _ => Err(LErrEnum::TrainExpected(blame(v, t))),
    }
}

/// The elements of a train from token `i` up to the `|` that ends it.
pub fn chains(v: &Vec<char>, ts: &Vec<Token>, i: usize) -> (r: Result<(Vec<NN>, usize), LErrEnum>)
    requires
        sound(v@, ts@),
    ensures
        match r {
            Ok((t, j)) => train_until(v@, ts@, i as int, Seq::empty()) == Ok::<
                (Seq<Node>, int),
                Fault,
            >((nodes_of(t@), j as int)) && i <= j < ts.len(),
            Err(e) => train_until(v@, ts@, i as int, Seq::empty()) == Err::<
                (Seq<Node>, int),
                Fault,
            >(e@),
        },
{
    let mut out: Vec<NN> = Vec::new();
    let mut j: usize = i;
    assert(nodes_of(out@) =~= Seq::empty());
    while j < ts.len()
        invariant
            i <= j,
            sound(v@, ts@),
            train_until(v@, ts@, i as int, Seq::empty()) == train_until(
                v@,
                ts@,
                j as int,
                nodes_of(out@),
            ),
        decreases ts.len() - j,
    {
        match ts[j].t {
            Tok::Bar => {
                return Ok((out, j));
            },
            _ => {},
        }
        let (n, k) = chain(v, ts, j)?;
        let ghost before = nodes_of(out@);
        out.push(n);
        assert(nodes_of(out@) =~= before.push(n@));
        j = k;
    }
    Err(LErrEnum::ExprExpected)
}

/// Whether a train starts at token `i`.
pub fn is_train(ts: &Vec<Token>, i: usize) -> (r: bool)
    ensures
        r == train_at(ts@, i as int),
{
    let mut j: usize = i;
    while j < ts.len()
        invariant
            i <= j,
            train_at(ts@, i as int) == train_at(ts@, j as int),
        decreases ts.len() - j,
    {
        match ts[j].t {
            Tok::Bar => {
                return true;
            },
            Tok::Op(_) | Tok::Co(_) | Tok::Colon | Tok::Name => {
                j += 1;
            },
            _ => {
                return false;
            },
        }
    }
    false
}


/// Whether what a part of the reader gave is what the grammar says: the
/// same node and place, or the same failure.
pub open spec fn reads(r: Result<(NN, usize), LErrEnum>, g: Result<(Node, int), Fault>) -> bool {
    match r {
        Ok((n, j)) => g == Ok::<(Node, int), Fault>((n@, j as int)),
        Err(e) => g == Err::<(Node, int), Fault>(e@),
    }
}

/// The expression that starts at token `i`, and the place behind it.
pub fn term(v: &Vec<char>, ts: &Vec<Token>, i: usize, floats: &Vec<FloatFact>) -> (r: Result<
    (NN, usize),
    LErrEnum,
>)
    requires
        sound(v@, ts@),
    ensures
        reads(r, expr(v@, ts@, i as int, floats@)),
        r matches Ok((n, j)) ==> i < j <= ts.len(),
    decreases ts.len() - i, 1nat,
{
    if i >= ts.len() {
        return Err(LErrEnum::ExprExpected);
    }
    let t = ts[i];
    match t.t {
        Tok::Open => block(v, ts, i, floats),
        _ => {
            let n = leaf(v, t, floats)?;
            Ok((n, i + 1))
        },
    }
}

/// The expressions from token `i` up to the `)` that closes them, and the
/// place of that `)`.
pub fn terms(v: &Vec<char>, ts: &Vec<Token>, i: usize, floats: &Vec<FloatFact>) -> (r: Result<
    (Vec<NN>, usize),
    LErrEnum,
>)
    requires
        sound(v@, ts@),
    ensures
        match r {
            Ok((xs, j)) => exprs_until(v@, ts@, i as int, floats@, Seq::empty()) == Ok::<
                (Seq<Node>, int),
                Fault,
            >((nodes_of(xs@), j as int)) && i <= j < ts.len(),
            Err(e) => exprs_until(v@, ts@, i as int, floats@, Seq::empty()) == Err::<
                (Seq<Node>, int),
                Fault,
            >(e@),
        },
    decreases ts.len() - i, 2nat,
{
    let mut out: Vec<NN> = Vec::new();
    let mut j: usize = i;
    assert(nodes_of(out@) =~= Seq::empty());
    while j < ts.len()
        invariant
            i <= j,
            sound(v@, ts@),
            exprs_until(v@, ts@, i as int, floats@, Seq::empty()) == exprs_until(
                v@,
                ts@,
                j as int,
                floats@,
                nodes_of(out@),
            ),
        decreases ts.len() - j,
    {
        match ts[j].t {
            Tok::Close => {
                return Ok((out, j));
            },
            _ => {},
        }
        let (n, k) = term(v, ts, j, floats)?;
        let ghost before = nodes_of(out@);
        out.push(n);
        assert(nodes_of(out@) =~= before.push(n@));
        j = k;
    }
    Err(LErrEnum::ExprExpected)
}

/// The form whose `(` is token `i`, and the place behind its `)`.
pub fn block(v: &Vec<char>, ts: &Vec<Token>, i: usize, floats: &Vec<FloatFact>) -> (r: Result<
    (NN, usize),
    LErrEnum,
>)
    requires
        sound(v@, ts@),
        i < ts.len(),
    ensures
        reads(r, form(v@, ts@, i as int, floats@)),
        r matches Ok((n, j)) ==> i < j <= ts.len(),
    decreases ts.len() - i, 0nat,
{
    if ts.len() - i < 2 {
        return Err(LErrEnum::ExprExpected);
    }
    let open = ts[i];
    let head = ts[i + 1];
    match head.t {
        Tok::Lambda => {
            if ts.len() - i < 3 {
                return Err(LErrEnum::ExprExpected);
            }
            match ts[i + 2].t {
                Tok::Open => {},
                _ => {
                    return Err(LErrEnum::ValueExpected(blame(v, ts[i + 2])));
                },
            }
            let (ps, j) = params(v, ts, i + 3)?;
            let (body, k) = terms(v, ts, j + 1, floats)?;
            let n = NN::new(open.start, ts[k].end, E::LAMBDA { params: ps, body });
            proof {
                lemma_term_of(n.n);
            }
            Ok((n, k + 1))
        },
        Tok::Loop => {
            let (xs, k) = terms(v, ts, i + 2, floats)?;
            let n = NN::new(open.start, ts[k].end, E::DOBLOCK(xs));
            proof {
                lemma_term_of(n.n);
            }
            Ok((n, k + 1))
        },
        Tok::Colon => {
            if ts.len() - i < 3 {
                return Err(LErrEnum::ExprExpected);
            }
            let name = ts[i + 2];
            match name.t {
                Tok::Name => {},
                _ => {
                    return Err(LErrEnum::ValueExpected(blame(v, name)));
                },
            }
            let (rhs, j) = term(v, ts, i + 3, floats)?;
            if j >= ts.len() {
                return Err(LErrEnum::ExprExpected);
            }
            match ts[j].t {
                Tok::Close => {},
                _ => {
                    return Err(LErrEnum::TermExpected(blame(v, ts[j])));
                },
            }
            let n = NN::new(
                open.start,
                ts[j].end,
                E::ASEXP { name: text_of(v, name.start, name.end), rhs: Box::new(rhs) },
            );
            Ok((n, j + 1))
        },
        _ => {
            if is_train(ts, i + 1) {
                let (train, b) = chains(v, ts, i + 1)?;
                let (args, k) = terms(v, ts, b + 1, floats)?;
                let n = NN::new(open.start, ts[k].end, E::APPLY { train, args });
                proof {
                    lemma_term_of(n.n);
                }
                Ok((n, k + 1))
            } else {
                let (xs, k) = terms(v, ts, i + 1, floats)?;
                let n = NN::new(open.start, ts[k].end, E::LIST(xs));
                proof {
                    lemma_term_of(n.n);
                }
                Ok((n, k + 1))
            }
        },
    }
}

/// Reads the expressions of a source. A number with a fraction is taken
/// from `floats`; where `floats` does not hold it, the failure says which
/// number is needed.
pub fn parse(source: &str, floats: &Vec<FloatFact>) -> (r: Result<Vec<NN>, LErrEnum>)
    ensures
        match r {
            Ok(ast) => read(source@, floats@) == Ok::<Seq<Node>, Fault>(nodes_of(ast@)),
            Err(e) => read(source@, floats@) == Err::<Seq<Node>, Fault>(e@),
        },
{
    let v = chars_of(source);
    let ts = lex(&v)?;
    let mut out: Vec<NN> = Vec::new();
    let mut j: usize = 0;
    assert(nodes_of(out@) =~= Seq::empty());
    while j < ts.len()
        invariant
            sound(v@, ts@),
            v@ == source@,
            tokens(source@) == Ok::<Seq<Token>, Fault>(ts@),
            exprs_from(v@, ts@, 0, floats@, Seq::empty()) == exprs_from(
                v@,
                ts@,
                j as int,
                floats@,
                nodes_of(out@),
            ),
        decreases ts.len() - j,
    {
        let (n, k) = term(&v, &ts, j, floats)?;
        let ghost before = nodes_of(out@);
        out.push(n);
        assert(nodes_of(out@) =~= before.push(n@));
        j = k;
    }
    Ok(out)
}

/// The reader of the language.
#[derive(Debug, Copy, Clone)]
pub struct LP;

impl LP {
    /// Reads the expressions of a source.
    pub fn parse(source: &str, floats: &Vec<FloatFact>) -> (r: Result<Vec<NN>, LErrEnum>)
        ensures
            match r {
                Ok(ast) => read(source@, floats@) == Ok::<Seq<Node>, Fault>(nodes_of(ast@)),
                Err(e) => read(source@, floats@) == Err::<Seq<Node>, Fault>(e@),
            },
    {
        parse(source, floats)
    }
}

/// Reads the first expression of a source that holds one.
pub fn pf(source: &str, floats: &Vec<FloatFact>) -> (n: NN)
    requires
        read(source@, floats@) is Ok,
        read(source@, floats@)->Ok_0.len() > 0,
    ensures
        n@ == read(source@, floats@)->Ok_0[0],
{
    match parse(source, floats) {
        Ok(ast) => ast[0].clone(),
        Err(_) => NN::nd(E::INT(0)),
    }
}

} // verus!

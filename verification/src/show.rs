//! How nodes read in the notation of the language.

use vstd::prelude::*;

use crate::ast::{lemma_term_of, nodes_of, texts_of, CN, E, FN, NN, Node, Term};
use crate::err::{Fault, LErrEnum};
use crate::num::{find_text, text_in, FloatOp, FloatText};
use crate::parse::push_char;

verus! {

/// The character of a digit.
pub open spec fn digit_char(d: int) -> char {
    if d == 0 {
        '0'
    } else if d == 1 {
        '1'
    } else if d == 2 {
        '2'
    } else if d == 3 {
        '3'
    } else if d == 4 {
        '4'
    } else if d == 5 {
        '5'
    } else if d == 6 {
        '6'
    } else if d == 7 {
        '7'
    } else if d == 8 {
        '8'
    } else {
        '9'
    }
}

/// The decimal numeral of a natural number.
pub open spec fn decimal_nat(n: nat) -> Seq<char>
    decreases n,
{
    if n < 10 {
        seq![digit_char(n as int)]
    } else {
        decimal_nat(n / 10).push(digit_char((n % 10) as int))
    }
}

/// The decimal numeral of an integer, with a `-` before it where it is
/// negative.
pub open spec fn decimal(i: int) -> Seq<char> {
    if i < 0 {
        seq!['-'] + decimal_nat((-i) as nat)
    } else {
        decimal_nat(i as nat)
    }
}

/// The character of a digit.
pub fn digit_sign(d: u64) -> (c: char)
    requires
        d < 10,
    ensures
        c == digit_char(d as int),
{
    if d == 0 {
        '0'
    } else if d == 1 {
        '1'
    } else if d == 2 {
        '2'
    } else if d == 3 {
        '3'
    } else if d == 4 {
        '4'
    } else if d == 5 {
        '5'
    } else if d == 6 {
        '6'
    } else if d == 7 {
        '7'
    } else if d == 8 {
        '8'
    } else {
        '9'
    }
}

/// Appends the decimal numeral of a natural number to a text.
pub fn put_nat(out: &mut String, n: u64)
    ensures
        final(out)@ == old(out)@ + decimal_nat(n as nat),
    decreases n,
{
    if n < 10 {
        push_char(out, digit_sign(n));
        assert(out@ =~= old(out)@ + decimal_nat(n as nat));
    } else {
        put_nat(out, n / 10);
        push_char(out, digit_sign(n % 10));
        assert(out@ =~= old(out)@ + decimal_nat(n as nat));
    }
}

/// Appends the decimal numeral of an integer to a text.
pub fn put_int(out: &mut String, i: i64)
    ensures
        final(out)@ == old(out)@ + decimal(i as int),
{
    if i < 0 {
        push_char(out, '-');
        let below: u64 = (-(i + 1)) as u64;
        put_nat(out, below + 1);
        assert(out@ =~= old(out)@ + decimal(i as int));
    } else {
        put_nat(out, i as u64);
    }
}

/// The symbol of a combinator, as one character.
pub fn co_char(c: CN) -> (r: char)
    ensures
        r == c.symbol(),
{
    match c {
        CN::Fold => '/',
        CN::ScanL => '\\',
        CN::Each => 'ǁ',
    }
}

/// The symbol of a primitive, as one character.
pub fn fn_char(f: FN) -> (r: char)
    ensures
        r == f.symbol(),
{
    match f {
        FN::Plus => '+',
        FN::Minus => '-',
        FN::Mult => '×',
        FN::Div => '÷',
        FN::Max => '¯',
        FN::Min => '_',
        FN::Eq => '=',
        FN::Amp => '&',
        FN::Bang => '!',
        FN::Rho => 'ρ',
    }
}

/// How a node reads in the notation of the language.
///
/// A number is its decimal numeral, a truth value `1` or `0`, a number
/// with a fraction the numeral that `texts` holds for it. A text stands
/// between quotes. A name and a symbol stand for themselves, and a
/// primitive marked as monadic has a `:` behind it. A list that holds a
/// value that is no list is its values with a space between them; a list
/// of lists is a grid; the empty list is `()`. The forms stand in brackets
/// as they are written.
pub open spec fn shown(n: Node, texts: Seq<FloatText>) -> Result<Seq<char>, Fault>
    decreases n, 0nat,
{
    match n.n {
        Term::Int(i) => Ok(decimal(i as int)),
        Term::Bool(b) => Ok(
            if b {
                seq!['1']
            } else {
                seq!['0']
            },
        ),
        Term::Float(bits) => match text_in(texts, bits) {
            Some(t) => Ok(t),
            None => Err(Fault::FloatNeeded(FloatOp::Show { bits })),
        },
        Term::Str(s) => Ok(seq!['"'] + s + seq!['"']),
        Term::Val(s) => Ok(s),
        Term::FnVal(s) => Ok(s),
        Term::Mfn(f) => Ok(seq![f.symbol()]),
        Term::Dfn(f) => Ok(seq![f.symbol()]),
        Term::Mop(f) => Ok(seq![f.symbol(), ':']),
        Term::Cn(c) => Ok(seq![c.symbol()]),
        Term::Mco { o, co } => match shown(*o, texts) {
            Err(e) => Err(e),
            Ok(a) => match shown(*co, texts) {
                Err(e) => Err(e),
                Ok(b) => Ok(a + b),
            },
        },
        Term::Dco { o, co } => match shown(*o, texts) {
            Err(e) => Err(e),
            Ok(a) => match shown(*co, texts) {
                Err(e) => Err(e),
                Ok(b) => Ok(a + b),
            },
        },
        Term::List(xs) => if xs.len() == 0 {
            Ok(seq!['(', ')'])
        } else if exists|i: int| 0 <= i < xs.len() && !((#[trigger] xs[i]).n is List) {
            joined(xs, xs.len() as int, texts, seq![' '], false)
        } else {
            match table(xs, xs.len() as int, texts) {
                Err(e) => Err(e),
                Ok(rows) => Ok(grid(rows, rows.len() as int, widths(rows, rows.len() as int))),
            }
        },
        Term::Apply { train, args } => match joined(
            train,
            train.len() as int,
            texts,
            Seq::empty(),
            false,
        ) {
            Err(e) => Err(e),
            Ok(t) => match joined(args, args.len() as int, texts, seq![' '], true) {
                Err(e) => Err(e),
                Ok(a) => Ok(seq!['('] + t + seq!['|'] + a + seq![')']),
            },
        },
        Term::Lambda { params, body } => match joined(
            body,
            body.len() as int,
            texts,
            seq![' '],
            true,
        ) {
            Err(e) => Err(e),
            Ok(b) => Ok(
                seq!['(', 'λ', ' ', '('] + spaced(params, params.len() as int) + seq![')'] + b
                    + seq![')'],
            ),
        },
        Term::DoBlock(xs) => match joined(xs, xs.len() as int, texts, seq![' '], true) {
            Err(e) => Err(e),
            Ok(b) => Ok(seq!['(', '↻'] + b + seq![')']),
        },
        Term::Assign { name, rhs } => match shown(*rhs, texts) {
            Err(e) => Err(e),
            Ok(r) => Ok(seq!['(', ':', ' '] + name + seq![' '] + r + seq![')']),
        },
        Term::Fun { arity, .. } => Ok(seq!['λ', '/'] + decimal(arity as int)),
    }
}

/// The first `k` names of a sequence with a space between them.
pub open spec fn spaced(names: Seq<Seq<char>>, k: int) -> Seq<char>
    decreases k,
{
    if k <= 0 || k > names.len() {
        Seq::empty()
    } else if k == 1 {
        names[0]
    } else {
        spaced(names, k - 1) + seq![' '] + names[k - 1]
    }
}

/// How the first `k` nodes of a sequence read, with `sep` between them,
/// and before the first one too where `lead` holds.
pub open spec fn joined(
    xs: Seq<Node>,
    k: int,
    texts: Seq<FloatText>,
    sep: Seq<char>,
    lead: bool,
) -> Result<Seq<char>, Fault>
    decreases xs, k,
{
    if k <= 0 || k > xs.len() {
        Ok(Seq::empty())
    } else {
        match joined(xs, k - 1, texts, sep, lead) {
            Err(e) => Err(e),
            Ok(before) => match shown(xs[k - 1], texts) {
                Err(e) => Err(e),
                Ok(item) => Ok(
                    if lead || k > 1 {
                        before + sep + item
                    } else {
                        before + item
                    },
                ),
            },
        }
    }
}

/// How the first `k` values of a row read, one text for each.
pub open spec fn cells(xs: Seq<Node>, k: int, texts: Seq<FloatText>) -> Result<
    Seq<Seq<char>>,
    Fault,
>
    decreases xs, k,
{
    if k <= 0 || k > xs.len() {
        Ok(Seq::empty())
    } else {
        match cells(xs, k - 1, texts) {
            Err(e) => Err(e),
            Ok(before) => match shown(xs[k - 1], texts) {
                Err(e) => Err(e),
                Ok(item) => Ok(before.push(item)),
            },
        }
    }
}

/// How the values of the first `k` rows of a list of lists read.
pub open spec fn table(xs: Seq<Node>, k: int, texts: Seq<FloatText>) -> Result<
    Seq<Seq<Seq<char>>>,
    Fault,
>
    decreases xs, k,
{
    if k <= 0 || k > xs.len() {
        Ok(Seq::empty())
    } else {
        match table(xs, k - 1, texts) {
            Err(e) => Err(e),
            Ok(before) => match xs[k - 1].n {
                Term::List(row) => match cells(row, row.len() as int, texts) {
                    Err(e) => Err(e),
                    Ok(c) => Ok(before.push(c)),
                },
                _ => match shown(xs[k - 1], texts) {
                    Err(e) => Err(e),
                    Ok(c) => Ok(before.push(seq![c])),
                },
            },
        }
    }
}

/// The larger of two numbers.
pub open spec fn larger(a: int, b: int) -> int {
    if a >= b {
        a
    } else {
        b
    }
}

/// The width of a row laid over the widths `w`: each column as wide as
/// the wider of the two, and as many columns as the longer of the two.
pub open spec fn widened(w: Seq<int>, row: Seq<Seq<char>>) -> Seq<int> {
    Seq::new(
        larger(w.len() as int, row.len() as int) as nat,
        |c: int|
            larger(
                if c < w.len() {
                    w[c]
                } else {
                    0
                },
                if c < row.len() {
                    row[c].len() as int
                } else {
                    0
                },
            ),
    )
}

/// The widths of the columns of the first `k` rows: each column as wide as
/// its widest text.
pub open spec fn widths(rows: Seq<Seq<Seq<char>>>, k: int) -> Seq<int>
    decreases k,
{
    if k <= 0 || k > rows.len() {
        Seq::empty()
    } else {
        widened(widths(rows, k - 1), rows[k - 1])
    }
}

/// `n` spaces.
pub open spec fn blanks(n: int) -> Seq<char> {
    Seq::new(
        if n > 0 {
            n as nat
        } else {
            0
        },
        |i: int| ' ',
    )
}

/// The first `k` texts of a row, each pushed to the right end of its
/// column, with a space between the columns.
pub open spec fn lined(row: Seq<Seq<char>>, k: int, w: Seq<int>) -> Seq<char>
    decreases k,
{
    if k <= 0 || k > row.len() || k > w.len() {
        Seq::empty()
    } else {
        lined(row, k - 1, w) + (if k > 1 {
            seq![' ']
        } else {
            Seq::empty()
        }) + blanks(w[k - 1] - row[k - 1].len()) + row[k - 1]
    }
}

/// The first `k` rows of a grid, each on a line of its own.
pub open spec fn grid(rows: Seq<Seq<Seq<char>>>, k: int, w: Seq<int>) -> Seq<char>
    decreases k,
{
    if k <= 0 || k > rows.len() {
        Seq::empty()
    } else {
        grid(rows, k - 1, w) + (if k > 1 {
            seq!['\n']
        } else {
            Seq::empty()
        }) + lined(rows[k - 1], rows[k - 1].len() as int, w)
    }
}


/// The texts of the rows of a grid.
pub open spec fn rows_of(rows: Seq<Vec<String>>) -> Seq<Seq<Seq<char>>> {
    Seq::new(rows.len(), |i: int| texts_of(rows[i]@))
}

/// The widths of columns as numbers.
pub open spec fn sizes_of(w: Seq<usize>) -> Seq<int> {
    Seq::new(w.len(), |i: int| w[i] as int)
}

/// Appends `n` spaces to a text.
pub fn put_blanks(out: &mut String, n: usize)
    ensures
        final(out)@ == old(out)@ + blanks(n as int),
{
    let mut i: usize = 0;
    assert(out@ =~= old(out)@ + blanks(0));
    while i < n
        invariant
            i <= n,
            out@ == old(out)@ + blanks(i as int),
        decreases n - i,
    {
        push_char(out, ' ');
        assert(out@ =~= old(out)@ + blanks(i as int + 1));
        i += 1;
    }
}

/// The names of a sequence with a space between them.
pub fn put_names(out: &mut String, names: &Vec<String>)
    ensures
        final(out)@ == old(out)@ + spaced(texts_of(names@), names.len() as int),
{
    let mut k: usize = 0;
    assert(out@ =~= old(out)@ + spaced(texts_of(names@), 0));
    while k < names.len()
        invariant
            k <= names.len(),
            out@ == old(out)@ + spaced(texts_of(names@), k as int),
        decreases names.len() - k,
    {
        let ghost before = spaced(texts_of(names@), k as int);
        if k > 0 {
            push_char(out, ' ');
        }
        out.append(names[k].as_str());
        proof {
            let after = spaced(texts_of(names@), k as int + 1);
            assert(texts_of(names@)[k as int] == names[k as int]@);
            if k > 0 {
                assert(out@ =~= old(out)@ + (before + seq![' '] + names[k as int]@));
            } else {
                assert(out@ =~= old(out)@ + names[k as int]@);
            }
        }
        k += 1;
    }
}

/// The widths of the columns of a grid.
pub fn columns(rows: &Vec<Vec<String>>) -> (w: Vec<usize>)
    ensures
        sizes_of(w@) == widths(rows_of(rows@), rows.len() as int),
{
    let mut w: Vec<usize> = Vec::new();
    let mut k: usize = 0;
    assert(sizes_of(w@) =~= widths(rows_of(rows@), 0));
    while k < rows.len()
        invariant
            k <= rows.len(),
            sizes_of(w@) == widths(rows_of(rows@), k as int),
        decreases rows.len() - k,
    {
        let row = &rows[k];
        let ghost before = sizes_of(w@);
        let ghost cells = texts_of(row@);
        assert(rows_of(rows@)[k as int] == cells);
        let mut c: usize = 0;
        while c < row.len()
            invariant
                c <= row.len(),
                cells == texts_of(row@),
                w.len() == larger(before.len() as int, c as int),
                forall|j: int|
                    0 <= j < w.len() ==> (#[trigger] w[j]) as int == larger(
                        if j < before.len() {
                            before[j]
                        } else {
                            0
                        },
                        if j < c {
                            cells[j].len() as int
                        } else {
                            0
                        },
                    ),
            decreases row.len() - c,
        {
            let n = row[c].as_str().unicode_len();
            assert(cells[c as int] == row[c as int]@);
            if c < w.len() {
                if n > w[c] {
                    w.set(c, n);
                }
            } else {
                w.push(n);
            }
            c += 1;
        }
        assert(sizes_of(w@) =~= widened(before, cells));
        k += 1;
    }
    w
}

/// Appends a row of a grid to a text.
pub fn put_line(out: &mut String, row: &Vec<String>, w: &Vec<usize>)
    requires
        row.len() <= w.len(),
    ensures
        final(out)@ == old(out)@ + lined(texts_of(row@), row.len() as int, sizes_of(w@)),
{
    let mut k: usize = 0;
    let ghost cells = texts_of(row@);
    let ghost ws = sizes_of(w@);
    assert(out@ =~= old(out)@ + lined(cells, 0, ws));
    while k < row.len()
        invariant
            k <= row.len(),
            row.len() <= w.len(),
            cells == texts_of(row@),
            ws == sizes_of(w@),
            out@ == old(out)@ + lined(cells, k as int, ws),
        decreases row.len() - k,
    {
        let ghost before = lined(cells, k as int, ws);
        if k > 0 {
            push_char(out, ' ');
        }
        let n = row[k].as_str().unicode_len();
        assert(cells[k as int] == row[k as int]@);
        assert(ws[k as int] == w[k as int]);
        let pad = if w[k] > n {
            w[k] - n
        } else {
            0
        };
        put_blanks(out, pad);
        out.append(row[k].as_str());
        proof {
            assert(blanks(pad as int) =~= blanks(ws[k as int] - cells[k as int].len()));
            if k > 0 {
                assert(out@ =~= old(out)@ + (before + seq![' '] + blanks(
                    ws[k as int] - cells[k as int].len(),
                ) + cells[k as int]));
            } else {
                assert(out@ =~= old(out)@ + (before + Seq::<char>::empty() + blanks(
                    ws[k as int] - cells[k as int].len(),
                ) + cells[k as int]));
            }
        }
        k += 1;
    }
}

/// The width of the columns of a grid reaches over each of its rows.
pub proof fn lemma_widths_cover(rows: Seq<Seq<Seq<char>>>, k: int, i: int)
    requires
        0 <= i < k <= rows.len(),
    ensures
        rows[i].len() <= widths(rows, k).len(),
    decreases k,
{
    if i < k - 1 {
        lemma_widths_cover(rows, k - 1, i);
    }
}

/// Lays the texts of a list of lists out as a grid: each row on a line of
/// its own, each text pushed to the right end of its column.
pub fn fmt_list(rows: &Vec<Vec<String>>) -> (out: String)
    ensures
        out@ == grid(
            rows_of(rows@),
            rows.len() as int,
            widths(rows_of(rows@), rows.len() as int),
        ),
{
    let w = columns(rows);
    let mut out = String::new();
    let mut k: usize = 0;
    let ghost rs = rows_of(rows@);
    let ghost ws = sizes_of(w@);
    assert(out@ =~= grid(rs, 0, ws));
    while k < rows.len()
        invariant
            k <= rows.len(),
            rs == rows_of(rows@),
            ws == sizes_of(w@),
            ws == widths(rs, rows.len() as int),
            out@ == grid(rs, k as int, ws),
        decreases rows.len() - k,
    {
        let ghost before = out@;
        if k > 0 {
            push_char(&mut out, '\n');
        }
        proof {
            lemma_widths_cover(rs, rows.len() as int, k as int);
            assert(rs[k as int] == texts_of(rows[k as int]@));
        }
        put_line(&mut out, &rows[k], &w);
        proof {
            if k > 0 {
                assert(out@ =~= before + seq!['\n'] + lined(rs[k as int], rs[k as int].len() as int, ws));
            } else {
                assert(out@ =~= before + Seq::<char>::empty() + lined(
                    rs[k as int],
                    rs[k as int].len() as int,
                    ws,
                ));
            }
        }
        k += 1;
    }
    out
}


/// Whether a text that was built is the one that the notation gives, or a
/// failure the one that it gives.
pub open spec fn reads_as(r: Result<String, LErrEnum>, g: Result<Seq<char>, Fault>) -> bool {
    match r {
        Ok(t) => g == Ok::<Seq<char>, Fault>(t@),
        Err(e) => g == Err::<Seq<char>, Fault>(e@),
    }
}

/// A failure among the first nodes is the failure of all.
pub proof fn lemma_joined_err(
    xs: Seq<Node>,
    k: int,
    texts: Seq<FloatText>,
    sep: Seq<char>,
    lead: bool,
    e: Fault,
)
    requires
        0 < k <= xs.len(),
        joined(xs, k, texts, sep, lead) == Err::<Seq<char>, Fault>(e),
    ensures
        joined(xs, xs.len() as int, texts, sep, lead) == Err::<Seq<char>, Fault>(e),
    decreases xs.len() - k,
{
    if k < xs.len() {
        lemma_joined_err(xs, k + 1, texts, sep, lead, e);
    }
}

/// A failure among the first values of a row is the failure of the row.
pub proof fn lemma_cells_err(xs: Seq<Node>, k: int, texts: Seq<FloatText>, e: Fault)
    requires
        0 < k <= xs.len(),
        cells(xs, k, texts) == Err::<Seq<Seq<char>>, Fault>(e),
    ensures
        cells(xs, xs.len() as int, texts) == Err::<Seq<Seq<char>>, Fault>(e),
    decreases xs.len() - k,
{
    if k < xs.len() {
        lemma_cells_err(xs, k + 1, texts, e);
    }
}

/// A failure among the first rows is the failure of the table.
pub proof fn lemma_table_err(xs: Seq<Node>, k: int, texts: Seq<FloatText>, e: Fault)
    requires
        0 < k <= xs.len(),
        table(xs, k, texts) == Err::<Seq<Seq<Seq<char>>>, Fault>(e),
    ensures
        table(xs, xs.len() as int, texts) == Err::<Seq<Seq<Seq<char>>>, Fault>(e),
    decreases xs.len() - k,
{
    if k < xs.len() {
        lemma_table_err(xs, k + 1, texts, e);
    }
}

/// How a node reads in the notation of the language. A number with a
/// fraction is shown by the numeral that `texts` holds for it; where
/// `texts` holds none, the failure says which number is to be shown.
pub fn show(n: &NN, texts: &Vec<FloatText>) -> (r: Result<String, LErrEnum>)
    ensures
        reads_as(r, shown(n@, texts@)),
    decreases n, 0nat,
{
    proof {
        lemma_term_of(n.n);
        reveal_strlit(" ");
        reveal_strlit("");
        assert(" "@ =~= seq![' ']);
        assert(""@ =~= Seq::<char>::empty());
    }
    let mut out = String::new();
    match &n.n {
        E::INT(i) => {
            put_int(&mut out, *i as i64);
            assert(out@ =~= decimal(*i as int));
        },
        E::BOOL(b) => {
            push_char(
                &mut out,
                if *b {
                    '1'
                } else {
                    '0'
                },
            );
            assert(out@ =~= if *b {
                seq!['1']
            } else {
                seq!['0']
            });
        },
        E::FT(bits) => match find_text(texts, *bits) {
            Some(t) => {
                out = t;
            },
            None => {
                return Err(LErrEnum::FloatNeeded(FloatOp::Show { bits: *bits }));
            },
        },
        E::ST(s) => {
            push_char(&mut out, '"');
            out.append(s.as_str());
            push_char(&mut out, '"');
            assert(out@ =~= seq!['"'] + s@ + seq!['"']);
        },
        E::VAL(s) | E::FVAL(s) => {
            out = s.clone();
        },
        E::MFN(f) | E::DFN(f) => {
            push_char(&mut out, fn_char(*f));
            assert(out@ =~= seq![f.symbol()]);
        },
        E::MOP(f) => {
            push_char(&mut out, fn_char(*f));
            push_char(&mut out, ':');
            assert(out@ =~= seq![f.symbol(), ':']);
        },
        E::CN(c) => {
            push_char(&mut out, co_char(*c));
            assert(out@ =~= seq![c.symbol()]);
        },
        E::MCO { o, co } | E::DCO { o, co } => {
            let a = show(o, texts)?;
            let b = show(co, texts)?;
            out = a;
            out.append(b.as_str());
        },
        E::LIST(xs) => {
            if xs.len() == 0 {
                push_char(&mut out, '(');
                push_char(&mut out, ')');
                assert(out@ =~= seq!['(', ')']);
            } else if !all_lists(xs) {
                out = join(xs, texts, " ", false)?;
            } else {
                let rows = rows(xs, texts)?;
                out = fmt_list(&rows);
            }
        },
        E::APPLY { train, args } => {
            let t = join(train, texts, "", false)?;
            let a = join(args, texts, " ", true)?;
            push_char(&mut out, '(');
            out.append(t.as_str());
            push_char(&mut out, '|');
            out.append(a.as_str());
            push_char(&mut out, ')');
            assert(out@ =~= seq!['('] + t@ + seq!['|'] + a@ + seq![')']);
        },
        E::LAMBDA { params, body } => {
            let b = join(body, texts, " ", true)?;
            push_char(&mut out, '(');
            push_char(&mut out, 'λ');
            push_char(&mut out, ' ');
            push_char(&mut out, '(');
            let ghost head = out@;
            put_names(&mut out, params);
            push_char(&mut out, ')');
            out.append(b.as_str());
            push_char(&mut out, ')');
            assert(head =~= seq!['(', 'λ', ' ', '(']);
            assert(out@ =~= seq!['(', 'λ', ' ', '('] + spaced(
                texts_of(params@),
                params.len() as int,
            ) + seq![')'] + b@ + seq![')']);
        },
        E::DOBLOCK(xs) => {
            let b = join(xs, texts, " ", true)?;
            push_char(&mut out, '(');
            push_char(&mut out, '↻');
            out.append(b.as_str());
            push_char(&mut out, ')');
            assert(out@ =~= seq!['(', '↻'] + b@ + seq![')']);
        },
        E::ASEXP { name, rhs } => {
            let r = show(rhs, texts)?;
            push_char(&mut out, '(');
            push_char(&mut out, ':');
            push_char(&mut out, ' ');
            out.append(name.as_str());
            push_char(&mut out, ' ');
            out.append(r.as_str());
            push_char(&mut out, ')');
            assert(out@ =~= seq!['(', ':', ' '] + name@ + seq![' '] + r@ + seq![')']);
        },
        E::UFNV { arity, .. } => {
            push_char(&mut out, 'λ');
            push_char(&mut out, '/');
            put_nat(&mut out, *arity as u64);
            assert(out@ =~= seq!['λ', '/'] + decimal(*arity as int));
        },
    }
    Ok(out)
}

/// Whether every value of a list is a list.
pub fn all_lists(xs: &Vec<NN>) -> (r: bool)
    ensures
        r == !(exists|i: int| 0 <= i < xs.len() && !((#[trigger] nodes_of(xs@)[i]).n is List)),
{
    let mut i: usize = 0;
    while i < xs.len()
        invariant
            i <= xs.len(),
            forall|j: int| 0 <= j < i ==> (#[trigger] nodes_of(xs@)[j]).n is List,
        decreases xs.len() - i,
    {
        proof {
            lemma_term_of(xs[i as int].n);
        }
        match xs[i].n {
            E::LIST(_) => {},
            _ => {
                assert(!(nodes_of(xs@)[i as int].n is List));
                return false;
            },
        }
        i += 1;
    }
    true
}

/// How the nodes of a sequence read, with `sep` between them, and before
/// the first one too where `lead` holds.
pub fn join(xs: &Vec<NN>, texts: &Vec<FloatText>, sep: &str, lead: bool) -> (r: Result<
    String,
    LErrEnum,
>)
    ensures
        reads_as(r, joined(nodes_of(xs@), xs.len() as int, texts@, sep@, lead)),
    decreases xs, 1nat,
{
    let mut out = String::new();
    let mut k: usize = 0;
    while k < xs.len()
        invariant
            k <= xs.len(),
            joined(nodes_of(xs@), k as int, texts@, sep@, lead) == Ok::<Seq<char>, Fault>(out@),
        decreases xs.len() - k,
    {
        assert(nodes_of(xs@)[k as int] == xs[k as int]@);
        match show(&xs[k], texts) {
            Err(e) => {
                proof {
                    lemma_joined_err(nodes_of(xs@), k as int + 1, texts@, sep@, lead, e@);
                }
                return Err(e);
            },
            Ok(item) => {
                if lead || k > 0 {
                    out.append(sep);
                }
                out.append(item.as_str());
            },
        }
        k += 1;
    }
    Ok(out)
}

/// How the values of a row read, one text for each.
pub fn row(xs: &Vec<NN>, texts: &Vec<FloatText>) -> (r: Result<Vec<String>, LErrEnum>)
    ensures
        match r {
            Ok(c) => cells(nodes_of(xs@), xs.len() as int, texts@) == Ok::<Seq<Seq<char>>, Fault>(
                texts_of(c@),
            ),
            Err(e) => cells(nodes_of(xs@), xs.len() as int, texts@) == Err::<
                Seq<Seq<char>>,
                Fault,
            >(e@),
        },
    decreases xs, 1nat,
{
    let mut out: Vec<String> = Vec::new();
    let mut k: usize = 0;
    assert(texts_of(out@) =~= Seq::empty());
    while k < xs.len()
        invariant
            k <= xs.len(),
            cells(nodes_of(xs@), k as int, texts@) == Ok::<Seq<Seq<char>>, Fault>(texts_of(out@)),
        decreases xs.len() - k,
    {
        let ghost before = texts_of(out@);
        assert(nodes_of(xs@)[k as int] == xs[k as int]@);
        match show(&xs[k], texts) {
            Err(e) => {
                proof {
                    lemma_cells_err(nodes_of(xs@), k as int + 1, texts@, e@);
                }
                return Err(e);
            },
            Ok(item) => {
                out.push(item);
                assert(texts_of(out@) =~= before.push(item@));
            },
        }
        k += 1;
    }
    Ok(out)
}

/// How the values of the rows of a list of lists read.
pub fn rows(xs: &Vec<NN>, texts: &Vec<FloatText>) -> (r: Result<Vec<Vec<String>>, LErrEnum>)
    ensures
        match r {
            Ok(t) => table(nodes_of(xs@), xs.len() as int, texts@) == Ok::<
                Seq<Seq<Seq<char>>>,
                Fault,
            >(rows_of(t@)) && t.len() == xs.len(),
            Err(e) => table(nodes_of(xs@), xs.len() as int, texts@) == Err::<
                Seq<Seq<Seq<char>>>,
                Fault,
            >(e@),
        },
    decreases xs, 2nat,
{
    let mut out: Vec<Vec<String>> = Vec::new();
    let mut k: usize = 0;
    assert(rows_of(out@) =~= Seq::empty());
    while k < xs.len()
        invariant
            k <= xs.len(),
            out.len() == k,
            table(nodes_of(xs@), k as int, texts@) == Ok::<Seq<Seq<Seq<char>>>, Fault>(
                rows_of(out@),
            ),
        decreases xs.len() - k,
    {
        let ghost before = rows_of(out@);
        assert(nodes_of(xs@)[k as int] == xs[k as int]@);
        proof {
            lemma_term_of(xs[k as int].n);
        }
        let cells = match &xs[k].n {
            E::LIST(inner) => row(inner, texts),
            _ => match show(&xs[k], texts) {
                Ok(c) => {
                    let mut one: Vec<String> = Vec::new();
                    one.push(c);
                    assert(texts_of(one@) =~= seq![c@]);
                    Ok(one)
                },
                Err(e) => Err(e),
            },
        };
        match cells {
            Err(e) => {
                proof {
                    lemma_table_err(nodes_of(xs@), k as int + 1, texts@, e@);
                }
                return Err(e);
            },
            Ok(c) => {
                out.push(c);
                assert(rows_of(out@) =~= before.push(texts_of(c@)));
            },
        }
        k += 1;
    }
    Ok(out)
}

/// A text with one more node behind it: the node alone where the text is
/// empty, else the text, `sep` and the node.
pub fn gen_sep(sep: &str, r: &str, n: &NN, texts: &Vec<FloatText>) -> (res: Result<String, LErrEnum>)
    ensures
        reads_as(
            res,
            match shown(n@, texts@) {
                Err(e) => Err(e),
                Ok(t) => Ok(
                    if r@.len() == 0 {
                        t
                    } else {
                        r@ + sep@ + t
                    },
                ),
            },
        ),
{
    let t = show(n, texts)?;
    if r.unicode_len() == 0 {
        Ok(t)
    } else {
        let mut out = String::from_str(r);
        out.append(sep);
        out.append(t.as_str());
        Ok(out)
    }
}

} // verus!

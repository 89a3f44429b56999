//! The primitives and combinators, the nodes of the syntax tree, which are
//! also the values of the language, and their equality.

use vstd::prelude::*;
use vstd::std_specs::cmp::PartialEqSpecImpl;

verus! {

/// The built-in primitives. Each one may be applied in a monadic (one
/// argument) or a dyadic (two argument) role.
#[derive(Debug, Copy, Clone, PartialEq, Eq, Structural)]
pub enum FN {
    Plus,
    Minus,
    Mult,
    Div,
    Max,
    Min,
    Eq,
    Amp,
    Bang,
    Rho,
}

/// The combinators, which modify how the primitive they are attached to is
/// applied.
#[derive(Debug, Copy, Clone, PartialEq, Eq, Structural)]
pub enum CN {
    Fold,
    ScanL,
    Each,
}

impl FN {
    /// The source symbol of each primitive.
    pub open spec fn symbol(self) -> char {
        match self {
            FN::Plus => '+',
            FN::Minus => '-',
            FN::Mult => '×',
            FN::Div => '÷',
            FN::Max => '¯',
            FN::Min => '_',
            FN::Eq => '=',
            FN::Amp => '&',
            FN::Bang => '!',
            FN::Rho => 'ρ',
        }
    }

    /// Whether `c` is the symbol of some primitive.
    pub open spec fn is_symbol(c: char) -> bool {
        exists|f: FN| f.symbol() == c
    }

    /// The symbol of the primitive, as text.
    pub fn as_str(&self) -> (s: &'static str)
        ensures
            s@ == seq![self.symbol()],
    {
        match self {
            FN::Plus => {
                proof { reveal_strlit("+"); }
                assert("+"@ =~= seq!['+']);
                "+"
            },
            FN::Minus => {
                proof { reveal_strlit("-"); }
                assert("-"@ =~= seq!['-']);
                "-"
            },
            FN::Mult => {
                proof { reveal_strlit("×"); }
                assert("×"@ =~= seq!['×']);
                "×"
            },
            FN::Div => {
                proof { reveal_strlit("÷"); }
                assert("÷"@ =~= seq!['÷']);
                "÷"
            },
            FN::Max => {
                proof { reveal_strlit("¯"); }
                assert("¯"@ =~= seq!['¯']);
                "¯"
            },
            FN::Min => {
                proof { reveal_strlit("_"); }
                assert("_"@ =~= seq!['_']);
                "_"
            },
            FN::Eq => {
                proof { reveal_strlit("="); }
                assert("="@ =~= seq!['=']);
                "="
            },
            FN::Amp => {
                proof { reveal_strlit("&"); }
                assert("&"@ =~= seq!['&']);
                "&"
            },
            FN::Bang => {
                proof { reveal_strlit("!"); }
                assert("!"@ =~= seq!['!']);
                "!"
            },
            FN::Rho => {
                proof { reveal_strlit("ρ"); }
                assert("ρ"@ =~= seq!['ρ']);
                "ρ"
            },
        }
    }

    /// The primitive whose symbol is `c`, if there is one.
    pub fn from_char(c: char) -> (r: Option<FN>)
        ensures
            match r {
                Some(f) => f.symbol() == c,
                None => !FN::is_symbol(c),
            },
    {
        let r = if c == '+' {
            Some(FN::Plus)
        } else if c == '-' {
            Some(FN::Minus)
        } else if c == '×' {
            Some(FN::Mult)
        } else if c == '÷' {
            Some(FN::Div)
        } else if c == '¯' {
            Some(FN::Max)
        } else if c == '_' {
            Some(FN::Min)
        } else if c == '=' {
            Some(FN::Eq)
        } else if c == '&' {
            Some(FN::Amp)
        } else if c == '!' {
            Some(FN::Bang)
        } else if c == 'ρ' {
            Some(FN::Rho)
        } else {
            None
        };
        assert(r is None ==> forall|f: FN| f.symbol() != c);
        r
    }

    /// The primitive named by a one-symbol text.
    pub fn from_string(s: &str) -> (f: FN)
        requires
            s@.len() == 1,
            FN::is_symbol(s@[0]),
        ensures
            f.symbol() == s@[0],
    {
        match FN::from_char(s.get_char(0)) {
            Some(f) => f,
            None => FN::Plus,
        }
    }
}


impl CN {
    /// The source symbol of each combinator.
    pub open spec fn symbol(self) -> char {
        match self {
            CN::Fold => '/',
            CN::ScanL => '\\',
            CN::Each => 'ǁ',
        }
    }

    /// Whether `c` is the symbol of some combinator.
    pub open spec fn is_symbol(c: char) -> bool {
        exists|f: CN| f.symbol() == c
    }

    /// The symbol of the combinator, as text.
    pub fn as_str(&self) -> (s: &'static str)
        ensures
            s@ == seq![self.symbol()],
    {
        match self {
            CN::Fold => {
                proof { reveal_strlit("/"); }
                assert("/"@ =~= seq!['/']);
                "/"
            },
            CN::ScanL => {
                proof { reveal_strlit("\\"); }
                assert("\\"@ =~= seq!['\\']);
                "\\"
            },
            CN::Each => {
                proof { reveal_strlit("ǁ"); }
                assert("ǁ"@ =~= seq!['ǁ']);
                "ǁ"
            },
        }
    }

    /// The combinator whose symbol is `c`, if there is one.
    pub fn from_char(c: char) -> (r: Option<CN>)
        ensures
            match r {
                Some(f) => f.symbol() == c,
                None => !CN::is_symbol(c),
            },
    {
        let r = if c == '/' {
            Some(CN::Fold)
        } else if c == '\\' {
            Some(CN::ScanL)
        } else if c == 'ǁ' {
            Some(CN::Each)
        } else {
            None
        };
        assert(r is None ==> forall|f: CN| f.symbol() != c);
        r
    }

    /// The combinator named by a one-symbol text.
    pub fn from_string(s: &str) -> (f: CN)
        requires
            s@.len() == 1,
            CN::is_symbol(s@[0]),
        ensures
            f.symbol() == s@[0],
    {
        match CN::from_char(s.get_char(0)) {
            Some(f) => f,
            None => CN::Fold,
        }
    }
}


/// A node of the syntax tree, and at run time a value: what it is, and the
/// span of source text it was read from (zero for a value that was computed).
#[derive(Debug)]
pub struct NN {
    pub n: E,
    pub start: usize,
    pub end: usize,
}

/// What a node is. The literals and `UFNV` are the values of the language;
/// the other variants occur in source programs only.
#[derive(Debug)]
pub enum E {
    /// An integer.
    INT(i32),
    /// A truth value; it counts as the integer 0 or 1 where integers are compared.
    BOOL(bool),
    /// A 64-bit IEEE-754 number, held as its bit pattern.
    FT(u64),
    /// A text.
    ST(String),
    /// A name that stands for a value.
    VAL(String),
    /// A name that stands for a function, as an element of a train.
    FVAL(String),
    /// A primitive as an element of a train.
    MFN(FN),
    /// A primitive as an element of a train.
    DFN(FN),
    /// A primitive that is applied to one argument wherever it stands in a train.
    MOP(FN),
    /// A combinator.
    CN(CN),
    /// A primitive with the combinator attached to it.
    MCO { o: Box<NN>, co: Box<NN> },
    /// A primitive with the combinator attached to it.
    DCO { o: Box<NN>, co: Box<NN> },
    /// A list of values.
    LIST(Vec<NN>),
    /// A train applied to one or two arguments.
    APPLY { train: Vec<NN>, args: Vec<NN> },
    /// A function of the named parameters.
    LAMBDA { params: Vec<String>, body: Vec<NN> },
    /// Expressions evaluated in turn; the last one gives the value.
    DOBLOCK(Vec<NN>),
    /// The binding of a name to the value of an expression.
    ASEXP { name: String, rhs: Box<NN> },
    /// A function value: how many arguments it takes, the code of its body,
    /// and the constant pool that the code refers to.
    UFNV { arity: usize, ops: Vec<u8>, consts: Vec<NN> },
}

/// The mathematical content of an `NN`.
pub struct Node {
    pub n: Term,
    pub start: usize,
    pub end: usize,
}

/// The mathematical content of an `E`: texts are sequences of characters,
/// vectors are sequences.
pub enum Term {
    Int(i32),
    Bool(bool),
    Float(u64),
    Str(Seq<char>),
    Val(Seq<char>),
    FnVal(Seq<char>),
    Mfn(FN),
    Dfn(FN),
    Mop(FN),
    Cn(CN),
    Mco { o: Box<Node>, co: Box<Node> },
    Dco { o: Box<Node>, co: Box<Node> },
    List(Seq<Node>),
    Apply { train: Seq<Node>, args: Seq<Node> },
    Lambda { params: Seq<Seq<char>>, body: Seq<Node> },
    DoBlock(Seq<Node>),
    Assign { name: Seq<char>, rhs: Box<Node> },
    Fun { arity: usize, ops: Seq<u8>, consts: Seq<Node> },
}

/// The content of a node.
pub open spec fn node_of(n: NN) -> Node
    decreases n,
{
    Node { n: term_of(n.n), start: n.start, end: n.end }
}

/// The content of what a node is.
pub open spec fn term_of(e: E) -> Term
    decreases e,
{
    match e {
        E::INT(i) => Term::Int(i),
        E::BOOL(b) => Term::Bool(b),
        E::FT(x) => Term::Float(x),
        E::ST(s) => Term::Str(s@),
        E::VAL(s) => Term::Val(s@),
        E::FVAL(s) => Term::FnVal(s@),
        E::MFN(f) => Term::Mfn(f),
        E::DFN(f) => Term::Dfn(f),
        E::MOP(f) => Term::Mop(f),
        E::CN(c) => Term::Cn(c),
        E::MCO { o, co } => Term::Mco { o: Box::new(node_of(*o)), co: Box::new(node_of(*co)) },
        E::DCO { o, co } => Term::Dco { o: Box::new(node_of(*o)), co: Box::new(node_of(*co)) },
        E::LIST(l) => Term::List(
            Seq::new(
                l.len() as nat,
                |i: int|
                    if 0 <= i < l.len() {
                        node_of(l[i])
                    } else {
                        arbitrary()
                    },
            ),
        ),
        E::APPLY { train, args } => Term::Apply {
            train: Seq::new(
                train.len() as nat,
                |i: int|
                    if 0 <= i < train.len() {
                        node_of(train[i])
                    } else {
                        arbitrary()
                    },
            ),
            args: Seq::new(
                args.len() as nat,
                |i: int|
                    if 0 <= i < args.len() {
                        node_of(args[i])
                    } else {
                        arbitrary()
                    },
            ),
        },
        E::LAMBDA { params, body } => Term::Lambda {
            params: Seq::new(params.len() as nat, |i: int| params[i]@),
            body: Seq::new(
                body.len() as nat,
                |i: int|
                    if 0 <= i < body.len() {
                        node_of(body[i])
                    } else {
                        arbitrary()
                    },
            ),
        },
        E::DOBLOCK(l) => Term::DoBlock(
            Seq::new(
                l.len() as nat,
                |i: int|
                    if 0 <= i < l.len() {
                        node_of(l[i])
                    } else {
                        arbitrary()
                    },
            ),
        ),
        E::ASEXP { name, rhs } => Term::Assign { name: name@, rhs: Box::new(node_of(*rhs)) },
        E::UFNV { arity, ops, consts } => Term::Fun {
            arity,
            ops: ops@,
            consts: Seq::new(
                consts.len() as nat,
                |i: int|
                    if 0 <= i < consts.len() {
                        node_of(consts[i])
                    } else {
                        arbitrary()
                    },
            ),
        },
    }
}

/// The contents of a sequence of nodes.
pub open spec fn nodes_of(l: Seq<NN>) -> Seq<Node> {
    Seq::new(l.len(), |i: int| node_of(l[i]))
}

/// The contents of a sequence of texts.
pub open spec fn texts_of(l: Seq<String>) -> Seq<Seq<char>> {
    Seq::new(l.len(), |i: int| l[i]@)
}

impl View for NN {
    type V = Node;

    open spec fn view(&self) -> Node {
        node_of(*self)
    }
}

impl View for E {
    type V = Term;

    open spec fn view(&self) -> Term {
        term_of(*self)
    }
}

/// The content of each variant that holds vectors, over `nodes_of`.
pub proof fn lemma_term_of(e: E)
    ensures
        e matches E::LIST(l) ==> term_of(e) == Term::List(nodes_of(l@)),
        e matches E::DOBLOCK(l) ==> term_of(e) == Term::DoBlock(nodes_of(l@)),
        e matches E::APPLY { train, args } ==> term_of(e) == (Term::Apply {
            train: nodes_of(train@),
            args: nodes_of(args@),
        }),
        e matches E::LAMBDA { params, body } ==> term_of(e) == (Term::Lambda {
            params: texts_of(params@),
            body: nodes_of(body@),
        }),
        e matches E::UFNV { arity, ops, consts } ==> term_of(e) == (Term::Fun {
            arity,
            ops: ops@,
            consts: nodes_of(consts@),
        }),
{
    match e {
        E::LIST(l) => {
            assert(term_of(e)->List_0 =~= nodes_of(l@));
        },
        E::DOBLOCK(l) => {
            assert(term_of(e)->DoBlock_0 =~= nodes_of(l@));
        },
        E::APPLY { train, args } => {
            assert(term_of(e)->Apply_train =~= nodes_of(train@));
            assert(term_of(e)->Apply_args =~= nodes_of(args@));
        },
        E::LAMBDA { params, body } => {
            assert(term_of(e)->Lambda_params =~= texts_of(params@));
            assert(term_of(e)->Lambda_body =~= nodes_of(body@));
        },
        E::UFNV { arity, ops, consts } => {
            assert(term_of(e)->Fun_consts =~= nodes_of(consts@));
        },
        _ => {},
    }
}


/// A copy of a vector of texts.
pub fn copy_texts(l: &Vec<String>) -> (r: Vec<String>)
    ensures
        texts_of(r@) == texts_of(l@),
{
    let mut r: Vec<String> = Vec::new();
    let mut i: usize = 0;
    while i < l.len()
        invariant
            i <= l.len(),
            r.len() == i,
            forall|j: int| 0 <= j < i ==> r[j]@ == l[j]@,
        decreases l.len() - i,
    {
        r.push(l[i].clone());
        i += 1;
    }
    assert(texts_of(r@) =~= texts_of(l@));
    r
}

/// A copy of a vector of bytes.
pub fn copy_bytes(l: &Vec<u8>) -> (r: Vec<u8>)
    ensures
        r@ == l@,
{
    let mut r: Vec<u8> = Vec::new();
    let mut i: usize = 0;
    while i < l.len()
        invariant
            i <= l.len(),
            r.len() == i,
            forall|j: int| 0 <= j < i ==> r[j] == l[j],
        decreases l.len() - i,
    {
        r.push(l[i]);
        i += 1;
    }
    assert(r@ =~= l@);
    r
}

/// A copy of a vector of nodes.
pub fn copy_nodes(l: &Vec<NN>) -> (r: Vec<NN>)
    ensures
        nodes_of(r@) == nodes_of(l@),
        r.len() == l.len(),
    decreases l,
{
    let mut r: Vec<NN> = Vec::new();
    let mut i: usize = 0;
    while i < l.len()
        invariant
            i <= l.len(),
            r.len() == i,
            forall|j: int| 0 <= j < i ==> node_of(r[j]) == node_of(l[j]),
        decreases l.len() - i,
    {
        r.push(copy_node(&l[i]));
        i += 1;
    }
    assert(nodes_of(r@) =~= nodes_of(l@));
    r
}

/// A copy of a node.
pub fn copy_node(n: &NN) -> (r: NN)
    ensures
        r@ == n@,
    decreases n,
{
    NN { n: copy_term(&n.n), start: n.start, end: n.end }
}

/// A copy of what a node is.
pub fn copy_term(e: &E) -> (r: E)
    ensures
        r@ == e@,
    decreases e,
{
    let r = match e {
        E::INT(i) => E::INT(*i),
        E::BOOL(b) => E::BOOL(*b),
        E::FT(x) => E::FT(*x),
        E::ST(s) => E::ST(s.clone()),
        E::VAL(s) => E::VAL(s.clone()),
        E::FVAL(s) => E::FVAL(s.clone()),
        E::MFN(f) => E::MFN(*f),
        E::DFN(f) => E::DFN(*f),
        E::MOP(f) => E::MOP(*f),
        E::CN(c) => E::CN(*c),
        E::MCO { o, co } => E::MCO { o: Box::new(copy_node(o)), co: Box::new(copy_node(co)) },
        E::DCO { o, co } => E::DCO { o: Box::new(copy_node(o)), co: Box::new(copy_node(co)) },
        E::LIST(l) => E::LIST(copy_nodes(l)),
        E::APPLY { train, args } => E::APPLY { train: copy_nodes(train), args: copy_nodes(args) },
        E::LAMBDA { params, body } => E::LAMBDA {
            params: copy_texts(params),
            body: copy_nodes(body),
        },
        E::DOBLOCK(l) => E::DOBLOCK(copy_nodes(l)),
        E::ASEXP { name, rhs } => E::ASEXP { name: name.clone(), rhs: Box::new(copy_node(rhs)) },
        E::UFNV { arity, ops, consts } => E::UFNV {
            arity: *arity,
            ops: copy_bytes(ops),
            consts: copy_nodes(consts),
        },
    };
    proof {
        lemma_term_of(r);
        lemma_term_of(*e);
    }
    r
}

impl Clone for NN {
    fn clone(&self) -> (r: NN)
        ensures
            r@ == self@,
    {
        copy_node(self)
    }
}

impl Clone for E {
    fn clone(&self) -> (r: E)
        ensures
            r@ == self@,
    {
        copy_term(self)
    }
}


/// The integer that a truth value counts as.
pub open spec fn bool_int(b: bool) -> i32 {
    if b {
        1
    } else {
        0
    }
}

/// Whether a bit pattern is an IEEE-754 not-a-number: all exponent bits set
/// and a fraction that is not zero.
pub open spec fn float_nan(x: u64) -> bool {
    (x / 0x10_0000_0000_0000) % 2048 == 2047 && x % 0x10_0000_0000_0000 != 0
}

/// Whether a bit pattern is an IEEE-754 zero of either sign.
pub open spec fn float_zero(x: u64) -> bool {
    x % 0x8000_0000_0000_0000 == 0
}

/// IEEE-754 equality on bit patterns: a not-a-number equals nothing, the
/// two zeros are equal, and otherwise the patterns must agree.
pub open spec fn float_same(a: u64, b: u64) -> bool {
    !float_nan(a) && !float_nan(b) && (a == b || (float_zero(a) && float_zero(b)))
}

/// Equality of nodes: the spans are not compared, and a truth value equals
/// the integer that it counts as.
pub open spec fn same_node(a: Node, b: Node) -> bool
    decreases a, 1int,
{
    match (a.n, b.n) {
        (Term::Bool(w), Term::Int(i)) => bool_int(w) == i,
        (Term::Int(i), Term::Bool(w)) => bool_int(w) == i,
        _ => same_term(a.n, b.n),
    }
}

/// Equality of what two nodes are: the same variant, with equal parts.
pub open spec fn same_term(a: Term, b: Term) -> bool
    decreases a, 0int,
{
    match a {
        Term::Int(x) => b == Term::Int(x),
        Term::Bool(x) => b == Term::Bool(x),
        Term::Float(x) => b matches Term::Float(y) && float_same(x, y),
        Term::Str(x) => b matches Term::Str(y) && x == y,
        Term::Val(x) => b matches Term::Val(y) && x == y,
        Term::FnVal(x) => b matches Term::FnVal(y) && x == y,
        Term::Mfn(x) => b == Term::Mfn(x),
        Term::Dfn(x) => b == Term::Dfn(x),
        Term::Mop(x) => b == Term::Mop(x),
        Term::Cn(x) => b == Term::Cn(x),
        Term::Mco { o, co } => b matches Term::Mco { o: o2, co: co2 } && same_node(*o, *o2)
            && same_node(*co, *co2),
        Term::Dco { o, co } => b matches Term::Dco { o: o2, co: co2 } && same_node(*o, *o2)
            && same_node(*co, *co2),
        Term::List(x) => b matches Term::List(y) && x.len() == y.len() && forall|i: int|
            0 <= i < x.len() ==> same_node(x[i], #[trigger] y[i]),
        Term::Apply { train, args } => b matches Term::Apply { train: t2, args: a2 }
            && train.len() == t2.len() && args.len() == a2.len() && (forall|i: int|
            0 <= i < train.len() ==> same_node(train[i], #[trigger] t2[i])) && (forall|i: int|
            0 <= i < args.len() ==> same_node(args[i], #[trigger] a2[i])),
        Term::Lambda { params, body } => b matches Term::Lambda { params: q, body: b2 }
            && params == q && body.len() == b2.len() && forall|i: int|
            0 <= i < body.len() ==> same_node(body[i], #[trigger] b2[i]),
        Term::DoBlock(x) => b matches Term::DoBlock(y) && x.len() == y.len() && forall|i: int|
            0 <= i < x.len() ==> same_node(x[i], #[trigger] y[i]),
        Term::Assign { name, rhs } => b matches Term::Assign { name: n2, rhs: r2 } && name == n2
            && same_node(*rhs, *r2),
        Term::Fun { arity, ops, consts } => b matches Term::Fun {
            arity: a2,
            ops: o2,
            consts: c2,
        } && arity == a2 && ops == o2 && consts.len() == c2.len() && forall|i: int|
            0 <= i < consts.len() ==> same_node(consts[i], #[trigger] c2[i]),
    }
}

/// Equality of two sequences of nodes, node by node.
pub open spec fn same_nodes(a: Seq<Node>, b: Seq<Node>) -> bool {
    a.len() == b.len() && forall|i: int| 0 <= i < a.len() ==> same_node(a[i], #[trigger] b[i])
}

/// The integer that a truth value counts as.
pub fn bool_to_int(b: bool) -> (i: i32)
    ensures
        i == bool_int(b),
{
    match b {
        true => 1,
        false => 0,
    }
}

/// IEEE-754 equality of two numbers given by their bit patterns.
pub fn float_eq(a: u64, b: u64) -> (r: bool)
    ensures
        r == float_same(a, b),
{
    let a_nan = (a / 0x10_0000_0000_0000) % 2048 == 2047 && a % 0x10_0000_0000_0000 != 0;
    let b_nan = (b / 0x10_0000_0000_0000) % 2048 == 2047 && b % 0x10_0000_0000_0000 != 0;
    !a_nan && !b_nan && (a == b || (a % 0x8000_0000_0000_0000 == 0 && b % 0x8000_0000_0000_0000
        == 0))
}

/// Whether two vectors of texts hold the same texts.
pub fn eq_texts(a: &Vec<String>, b: &Vec<String>) -> (r: bool)
    ensures
        r == (texts_of(a@) == texts_of(b@)),
{
    if a.len() != b.len() {
        assert(texts_of(a@).len() != texts_of(b@).len());
        return false;
    }
    let mut i: usize = 0;
    while i < a.len()
        invariant
            i <= a.len(),
            a.len() == b.len(),
            forall|j: int| 0 <= j < i ==> a[j]@ == b[j]@,
        decreases a.len() - i,
    {
        if a[i] != b[i] {
            assert(texts_of(a@)[i as int] != texts_of(b@)[i as int]);
            return false;
        }
        i += 1;
    }
    assert(texts_of(a@) =~= texts_of(b@));
    true
}

/// Whether two vectors hold the same bytes.
pub fn eq_bytes(a: &Vec<u8>, b: &Vec<u8>) -> (r: bool)
    ensures
        r == (a@ == b@),
{
    if a.len() != b.len() {
        return false;
    }
    let mut i: usize = 0;
    while i < a.len()
        invariant
            i <= a.len(),
            a.len() == b.len(),
            forall|j: int| 0 <= j < i ==> a[j] == b[j],
        decreases a.len() - i,
    {
        if a[i] != b[i] {
            return false;
        }
        i += 1;
    }
    assert(a@ =~= b@);
    true
}

/// Whether two vectors of nodes are equal node by node.
pub fn eq_nodes(a: &Vec<NN>, b: &Vec<NN>) -> (r: bool)
    ensures
        r == same_nodes(nodes_of(a@), nodes_of(b@)),
    decreases a,
{
    if a.len() != b.len() {
        return false;
    }
    let mut i: usize = 0;
    while i < a.len()
        invariant
            i <= a.len(),
            a.len() == b.len(),
            forall|j: int| 0 <= j < i ==> same_node(node_of(a[j]), node_of(b[j])),
        decreases a.len() - i,
    {
        if !eq_node(&a[i], &b[i]) {
            assert(!same_node(nodes_of(a@)[i as int], nodes_of(b@)[i as int]));
            return false;
        }
        i += 1;
    }
    assert forall|j: int| 0 <= j < nodes_of(a@).len() implies same_node(
        nodes_of(a@)[j],
        #[trigger] nodes_of(b@)[j],
    ) by {
        assert(same_node(node_of(a[j]), node_of(b[j])));
    }
    true
}

/// Whether two nodes are equal.
pub fn eq_node(a: &NN, b: &NN) -> (r: bool)
    ensures
        r == same_node(a@, b@),
    decreases a, 1int,
{
    match (&a.n, &b.n) {
        (E::BOOL(w), E::INT(i)) => bool_to_int(*w) == *i,
        (E::INT(i), E::BOOL(w)) => bool_to_int(*w) == *i,
        _ => eq_term(&a.n, &b.n),
    }
}

/// Whether what two nodes are is equal.
pub fn eq_term(a: &E, b: &E) -> (r: bool)
    ensures
        r == same_term(a@, b@),
    decreases a, 0int,
{
    proof {
        lemma_term_of(*a);
        lemma_term_of(*b);
    }
    match (a, b) {
        (E::INT(x), E::INT(y)) => *x == *y,
        (E::BOOL(x), E::BOOL(y)) => *x == *y,
        (E::FT(x), E::FT(y)) => float_eq(*x, *y),
        (E::ST(x), E::ST(y)) => *x == *y,
        (E::VAL(x), E::VAL(y)) => *x == *y,
        (E::FVAL(x), E::FVAL(y)) => *x == *y,
        (E::MFN(x), E::MFN(y)) => *x == *y,
        (E::DFN(x), E::DFN(y)) => *x == *y,
        (E::MOP(x), E::MOP(y)) => *x == *y,
        (E::CN(x), E::CN(y)) => *x == *y,
        (E::MCO { o, co }, E::MCO { o: o2, co: co2 }) => eq_node(o, o2) && eq_node(co, co2),
        (E::DCO { o, co }, E::DCO { o: o2, co: co2 }) => eq_node(o, o2) && eq_node(co, co2),
        (E::LIST(x), E::LIST(y)) => eq_nodes(x, y),
        (E::APPLY { train, args }, E::APPLY { train: t2, args: a2 }) => eq_nodes(train, t2)
            && eq_nodes(args, a2),
        (E::LAMBDA { params, body }, E::LAMBDA { params: q, body: b2 }) => eq_texts(params, q)
            && eq_nodes(body, b2),
        (E::DOBLOCK(x), E::DOBLOCK(y)) => eq_nodes(x, y),
        (E::ASEXP { name, rhs }, E::ASEXP { name: n2, rhs: r2 }) => *name == *n2 && eq_node(
            rhs,
            r2,
        ),
        (E::UFNV { arity, ops, consts }, E::UFNV { arity: a2, ops: o2, consts: c2 }) => *arity
            == *a2 && eq_bytes(ops, o2) && eq_nodes(consts, c2),
        _ => false,
    }
}

impl PartialEq for NN {
    fn eq(&self, other: &NN) -> (r: bool) {
        eq_node(self, other)
    }
}

impl PartialEqSpecImpl for NN {
    open spec fn obeys_eq_spec() -> bool {
        true
    }

    open spec fn eq_spec(&self, other: &NN) -> bool {
        same_node(self@, other@)
    }
}

impl PartialEq for E {
    fn eq(&self, other: &E) -> (r: bool) {
        eq_term(self, other)
    }
}

impl PartialEqSpecImpl for E {
    open spec fn obeys_eq_spec() -> bool {
        true
    }

    open spec fn eq_spec(&self, other: &E) -> bool {
        same_term(self@, other@)
    }
}


/// A value that was computed: it has no place in the source, so its span is
/// zero.
pub open spec fn val(t: Term) -> Node {
    Node { n: t, start: 0, end: 0 }
}

impl NN {
    /// A node for `n`, read from the source between `start` and `end`.
    pub fn new(start: usize, end: usize, n: E) -> (r: NN)
        ensures
            r == (NN { n, start, end }),
    {
        NN { n, start, end }
    }

    /// A boxed node for `n` with no place in the source.
    pub fn ndb(n: E) -> (r: Box<NN>)
        ensures
            *r == (NN { n, start: 0, end: 0 }),
    {
        Box::new(NN { n, start: 0, end: 0 })
    }

    /// A node for `n` with no place in the source.
    pub fn nd(n: E) -> (r: NN)
        ensures
            r == (NN { n, start: 0, end: 0 }),
            r@ == val(n@),
    {
        NN { n, start: 0, end: 0 }
    }

    /// A vector of one node for `n` with no place in the source.
    pub fn ndv(n: E) -> (r: Vec<NN>)
        ensures
            r@ == seq![NN { n, start: 0, end: 0 }],
    {
        let mut r: Vec<NN> = Vec::new();
        r.push(NN { n, start: 0, end: 0 });
        assert(r@ =~= seq![NN { n, start: 0, end: 0 }]);
        r
    }
}

/// A primitive as an element of a train.
pub fn om(o: FN) -> (e: E)
    ensures
        e == E::MFN(o),
{
    E::MFN(o)
}

/// A primitive as an element of a train.
pub fn od(o: FN) -> (e: E)
    ensures
        e == E::DFN(o),
{
    E::DFN(o)
}

/// A combinator as an element of a train.
pub fn oc(c: CN) -> (e: E)
    ensures
        e == E::CN(c),
{
    E::CN(c)
}

} // verus!

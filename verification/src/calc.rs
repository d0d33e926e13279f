//! The grammar of the calculator row: `+ - * / % ^ ( )`, unary minus and
//! decimal literals.
//!
//! Parsing is recursive descent; `^` binds tighter than unary minus on its
//! left and is right-associative, `* / %` bind tighter than `+ -`, and all
//! binary operators but `^` associate to the left. Only the structure is
//! decided here: the literals stay text, since their values are floating
//! point.

use vstd::prelude::*;

use crate::text::{chars_of, is_white, white};

verus! {

/// A binary operator.
#[derive(Clone, Copy, PartialEq, Eq, Debug)]
pub enum BinOp {
    Add,
    Sub,
    Mul,
    Div,
    Rem,
    Pow,
}

/// A parsed expression; a literal keeps its characters (digits and dots).
#[derive(Debug, PartialEq)]
pub enum Expr {
    Num(Vec<char>),
    Neg(Box<Expr>),
    Bin(BinOp, Box<Expr>, Box<Expr>),
}

/// The mathematical form of an [`Expr`].
pub enum SpecExpr {
    Num(Seq<char>),
    Neg(Box<SpecExpr>),
    Bin(BinOp, Box<SpecExpr>, Box<SpecExpr>),
}

/// The form of an [`Expr`], with each literal taken by its characters.
pub open spec fn expr_view(e: Expr) -> SpecExpr
    decreases e,
{
    match e {
        Expr::Num(v) => SpecExpr::Num(v@),
        Expr::Neg(a) => SpecExpr::Neg(Box::new(expr_view(*a))),
        Expr::Bin(op, a, b) => SpecExpr::Bin(op, Box::new(expr_view(*a)), Box::new(expr_view(*b))),
    }
}

/// Characters that may make up a literal.
pub open spec fn is_num_char(c: char) -> bool {
    ('0' <= c && c <= '9') || c == '.'
}

/// Characters the calculator accepts at all.
pub open spec fn is_calc_char(c: char) -> bool {
    is_num_char(c) || c == '+' || c == '-' || c == '*' || c == '/' || c == '%' || c == '^'
        || c == '(' || c == ')'
}

/// Operator characters; at least one must occur.
pub open spec fn is_op_char(c: char) -> bool {
    c == '+' || c == '-' || c == '*' || c == '/' || c == '%' || c == '^'
}

/// End of the run of literal characters starting at `i`.
pub open spec fn num_end(s: Seq<char>, i: int) -> int
    decreases s.len() - i,
{
    if 0 <= i < s.len() && is_num_char(s[i]) {
        num_end(s, i + 1)
    } else {
        i
    }
}

/// `expr := term (('+' | '-') term)*`, from index `i`: the tree and the
/// index after it.
pub open spec fn p_expr(s: Seq<char>, i: int) -> Option<(SpecExpr, int)>
    decreases s.len() - i, 6int,
{
    if !(0 <= i <= s.len()) {
        None
    } else {
        match p_term(s, i) {
            None => None,
            Some((e, j)) => if i <= j <= s.len() {
                p_expr_rest(s, j, e)
            } else {
                None
            },
        }
    }
}

/// The `(('+' | '-') term)*` tail, folding to the left onto `acc`.
pub open spec fn p_expr_rest(s: Seq<char>, i: int, acc: SpecExpr) -> Option<(SpecExpr, int)>
    decreases s.len() - i, 5int,
{
    if !(0 <= i <= s.len()) {
        None
    } else if i < s.len() && (s[i] == '+' || s[i] == '-') {
        let op = if s[i] == '+' {
            BinOp::Add
        } else {
            BinOp::Sub
        };
        match p_term(s, i + 1) {
            None => None,
            Some((r, j)) => if i < j <= s.len() {
                p_expr_rest(s, j, SpecExpr::Bin(op, Box::new(acc), Box::new(r)))
            } else {
                None
            },
        }
    } else {
        Some((acc, i))
    }
}

/// `term := unary (('*' | '/' | '%') unary)*`.
pub open spec fn p_term(s: Seq<char>, i: int) -> Option<(SpecExpr, int)>
    decreases s.len() - i, 4int,
{
    if !(0 <= i <= s.len()) {
        None
    } else {
        match p_unary(s, i) {
            None => None,
            Some((e, j)) => if i <= j <= s.len() {
                p_term_rest(s, j, e)
            } else {
                None
            },
        }
    }
}

/// The `(('*' | '/' | '%') unary)*` tail, folding to the left onto `acc`.
pub open spec fn p_term_rest(s: Seq<char>, i: int, acc: SpecExpr) -> Option<(SpecExpr, int)>
    decreases s.len() - i, 3int,
{
    if !(0 <= i <= s.len()) {
        None
    } else if i < s.len() && (s[i] == '*' || s[i] == '/' || s[i] == '%') {
        let op = if s[i] == '*' {
            BinOp::Mul
        } else if s[i] == '/' {
            BinOp::Div
        } else {
            BinOp::Rem
        };
        match p_unary(s, i + 1) {
            None => None,
            Some((r, j)) => if i < j <= s.len() {
                p_term_rest(s, j, SpecExpr::Bin(op, Box::new(acc), Box::new(r)))
            } else {
                None
            },
        }
    } else {
        Some((acc, i))
    }
}

/// `unary := '-' unary | power`.
pub open spec fn p_unary(s: Seq<char>, i: int) -> Option<(SpecExpr, int)>
    decreases s.len() - i, 2int,
{
    if !(0 <= i <= s.len()) {
        None
    } else if i < s.len() && s[i] == '-' {
        match p_unary(s, i + 1) {
            None => None,
            Some((e, j)) => Some((SpecExpr::Neg(Box::new(e)), j)),
        }
    } else {
        p_power(s, i)
    }
}

/// `power := atom ('^' unary)?`: the exponent is a unary, so `^` is
/// right-associative.
pub open spec fn p_power(s: Seq<char>, i: int) -> Option<(SpecExpr, int)>
    decreases s.len() - i, 1int,
{
    if !(0 <= i <= s.len()) {
        None
    } else {
        match p_atom(s, i) {
            None => None,
            Some((b, j)) => if i <= j < s.len() && s[j] == '^' {
                match p_unary(s, j + 1) {
                    None => None,
                    Some((x, k)) => Some((SpecExpr::Bin(BinOp::Pow, Box::new(b), Box::new(x)), k)),
                }
            } else {
                Some((b, j))
            },
        }
    }
}

/// `atom := '(' expr ')' | literal`.
pub open spec fn p_atom(s: Seq<char>, i: int) -> Option<(SpecExpr, int)>
    decreases s.len() - i, 0int,
{
    if !(0 <= i < s.len()) {
        None
    } else if s[i] == '(' {
        match p_expr(s, i + 1) {
            None => None,
            Some((e, j)) => if 0 <= j < s.len() && s[j] == ')' {
                Some((e, j + 1))
            } else {
                None
            },
        }
    } else if is_num_char(s[i]) {
        Some((SpecExpr::Num(s.subrange(i, num_end(s, i))), num_end(s, i)))
    } else {
        None
    }
}

/// The input with whitespace removed and one trailing `'='` dropped.
pub open spec fn calc_chars(input: Seq<char>) -> Seq<char> {
    let s = input.filter(|c: char| !is_white(c));
    if s.len() > 0 && s.last() == '=' {
        s.drop_last()
    } else {
        s
    }
}

/// What the calculator makes of `input`: a tree when the cleaned input is
/// non-empty, made only of calculator characters, holds an operator, and
/// parses as one whole expression.
pub open spec fn spec_parse_calc(input: Seq<char>) -> Option<SpecExpr> {
    let s = calc_chars(input);
    if s.len() == 0 || !(forall|k: int| 0 <= k < s.len() ==> is_calc_char(#[trigger] s[k])) || !(
    exists|k: int| 0 <= k < s.len() && is_op_char(#[trigger] s[k])) {
        None
    } else {
        match p_expr(s, 0) {
            Some((e, j)) => if j == s.len() {
                Some(e)
            } else {
                None
            },
            None => None,
        }
    }
}

struct Parser {
    s: Vec<char>,
    i: usize,
}

impl Parser {
    fn peek_is(&self, c: char) -> (r: bool)
        ensures
            r == (self.i < self.s@.len() && self.s@[self.i as int] == c),
    {
        self.i < self.s.len() && self.s[self.i] == c
    }

    fn expr(&mut self) -> (r: Option<Expr>)
        requires
            old(self).i <= old(self).s@.len(),
        ensures
            final(self).s@ == old(self).s@,
            match p_expr(old(self).s@, old(self).i as int) {
                Some((e, j)) => r matches Some(x) && expr_view(x) == e && final(self).i == j
                    && old(self).i < j <= old(self).s@.len(),
                None => r is None,
            },
        decreases old(self).s@.len() - old(self).i, 6int,
    {
        let ghost s = self.s@;
        let ghost i0 = self.i as int;
        let mut acc = match self.term() {
            None => return None,
            Some(e) => e,
        };
        while self.i < self.s.len() && (self.peek_is('+') || self.peek_is('-'))
            invariant
                self.s@ == s,
                s == old(self).s@,
                i0 == old(self).i,
                i0 < self.i <= s.len(),
                p_expr(s, i0) == p_expr_rest(s, self.i as int, expr_view(acc)),
            decreases s.len() - self.i,
        {
            let ghost i1 = self.i as int;
            let op = if self.s[self.i] == '+' {
                BinOp::Add
            } else {
                BinOp::Sub
            };
            self.i = self.i + 1;
            let r = match self.term() {
                None => return None,
                Some(r) => r,
            };
            let ghost va = expr_view(acc);
            let ghost vr = expr_view(r);
            acc = Expr::Bin(op, Box::new(acc), Box::new(r));
            assert(expr_view(acc) == SpecExpr::Bin(op, Box::new(va), Box::new(vr)));
        }
        Some(acc)
    }

    fn term(&mut self) -> (r: Option<Expr>)
        requires
            old(self).i <= old(self).s@.len(),
        ensures
            final(self).s@ == old(self).s@,
            match p_term(old(self).s@, old(self).i as int) {
                Some((e, j)) => r matches Some(x) && expr_view(x) == e && final(self).i == j
                    && old(self).i < j <= old(self).s@.len(),
                None => r is None,
            },
        decreases old(self).s@.len() - old(self).i, 4int,
    {
        let ghost s = self.s@;
        let ghost i0 = self.i as int;
        let mut acc = match self.unary() {
            None => return None,
            Some(e) => e,
        };
        while self.i < self.s.len() && (self.peek_is('*') || self.peek_is('/') || self.peek_is(
            '%',
        ))
            invariant
                self.s@ == s,
                s == old(self).s@,
                i0 == old(self).i,
                i0 < self.i <= s.len(),
                p_term(s, i0) == p_term_rest(s, self.i as int, expr_view(acc)),
            decreases s.len() - self.i,
        {
            let c = self.s[self.i];
            let op = if c == '*' {
                BinOp::Mul
            } else if c == '/' {
                BinOp::Div
            } else {
                BinOp::Rem
            };
            self.i = self.i + 1;
            let r = match self.unary() {
                None => return None,
                Some(r) => r,
            };
            let ghost va = expr_view(acc);
            let ghost vr = expr_view(r);
            acc = Expr::Bin(op, Box::new(acc), Box::new(r));
            assert(expr_view(acc) == SpecExpr::Bin(op, Box::new(va), Box::new(vr)));
        }
        Some(acc)
    }

    fn unary(&mut self) -> (r: Option<Expr>)
        requires
            old(self).i <= old(self).s@.len(),
        ensures
            final(self).s@ == old(self).s@,
            match p_unary(old(self).s@, old(self).i as int) {
                Some((e, j)) => r matches Some(x) && expr_view(x) == e && final(self).i == j
                    && old(self).i < j <= old(self).s@.len(),
                None => r is None,
            },
        decreases old(self).s@.len() - old(self).i, 2int,
    {
        if self.i < self.s.len() && self.peek_is('-') {
            self.i = self.i + 1;
            let e = match self.unary() {
                None => return None,
                Some(e) => e,
            };
            let r = Expr::Neg(Box::new(e));
            assert(expr_view(r) == SpecExpr::Neg(Box::new(expr_view(e))));
            return Some(r);
        }
        self.power()
    }

    fn power(&mut self) -> (r: Option<Expr>)
        requires
            old(self).i <= old(self).s@.len(),
        ensures
            final(self).s@ == old(self).s@,
            match p_power(old(self).s@, old(self).i as int) {
                Some((e, j)) => r matches Some(x) && expr_view(x) == e && final(self).i == j
                    && old(self).i < j <= old(self).s@.len(),
                None => r is None,
            },
        decreases old(self).s@.len() - old(self).i, 1int,
    {
        let base = match self.atom() {
            None => return None,
            Some(b) => b,
        };
        if self.i < self.s.len() && self.peek_is('^') {
            self.i = self.i + 1;
            let exp = match self.unary() {
                None => return None,
                Some(x) => x,
            };
            let r = Expr::Bin(BinOp::Pow, Box::new(base), Box::new(exp));
            assert(expr_view(r) == SpecExpr::Bin(
                BinOp::Pow,
                Box::new(expr_view(base)),
                Box::new(expr_view(exp)),
            ));
            return Some(r);
        }
        Some(base)
    }

    fn atom(&mut self) -> (r: Option<Expr>)
        requires
            old(self).i <= old(self).s@.len(),
        ensures
            final(self).s@ == old(self).s@,
            match p_atom(old(self).s@, old(self).i as int) {
                Some((e, j)) => r matches Some(x) && expr_view(x) == e && final(self).i == j
                    && old(self).i < j <= old(self).s@.len(),
                None => r is None,
            },
        decreases old(self).s@.len() - old(self).i, 0int,
    {
        let ghost s = self.s@;
        if self.i >= self.s.len() {
            return None;
        }
        let c = self.s[self.i];
        if c == '(' {
            self.i = self.i + 1;
            let e = match self.expr() {
                None => return None,
                Some(e) => e,
            };
            if !(self.i < self.s.len() && self.peek_is(')')) {
                return None;
            }
            self.i = self.i + 1;
            Some(e)
        } else if ('0' <= c && c <= '9') || c == '.' {
            let start = self.i;
            let mut text: Vec<char> = Vec::new();
            while self.i < self.s.len() && (('0' <= self.s[self.i] && self.s[self.i] <= '9')
                || self.s[self.i] == '.')
                invariant
                    self.s@ == s,
                    start < s.len(),
                    start <= self.i <= s.len(),
                    is_num_char(s[start as int]),
                    num_end(s, start as int) == num_end(s, self.i as int),
                    text@ == s.subrange(start as int, self.i as int),
                decreases s.len() - self.i,
            {
                text.push(self.s[self.i]);
                self.i = self.i + 1;
            }
            assert(self.i > start) by {
                if self.i == start {
                    assert(num_end(s, start as int) > start) by {
                        assert(num_end(s, start as int) == num_end(s, start + 1));
                        lemma_num_end_ge(s, start + 1);
                    }
                }
            }
            Some(Expr::Num(text))
        } else {
            None
        }
    }
}

proof fn lemma_num_end_ge(s: Seq<char>, i: int)
    ensures
        num_end(s, i) >= i,
    decreases s.len() - i,
{
    if 0 <= i < s.len() && is_num_char(s[i]) {
        lemma_num_end_ge(s, i + 1);
    }
}

proof fn lemma_num_end_at(s: Seq<char>, i: int, k: int)
    requires
        0 <= i <= k <= s.len(),
        forall|m: int| i <= m < k ==> is_num_char(#[trigger] s[m]),
        k == s.len() || !is_num_char(s[k]),
    ensures
        num_end(s, i) == k,
    decreases k - i,
{
    if i < k {
        lemma_num_end_at(s, i + 1, k);
    }
}

proof fn lemma_filter_keeps_all(s: Seq<char>)
    requires
        forall|k: int| 0 <= k < s.len() ==> !is_white(#[trigger] s[k]),
    ensures
        s.filter(|c: char| !is_white(c)) == s,
    decreases s.len(),
{
    reveal(Seq::filter);
    if s.len() > 0 {
        lemma_filter_keeps_all(s.drop_last());
        assert(s.drop_last().push(s.last()) =~= s);
    }
}

/// A literal: one or more digits and dots.
pub open spec fn is_literal(a: Seq<char>) -> bool {
    a.len() > 0 && forall|k: int| 0 <= k < a.len() ==> is_num_char(#[trigger] a[k])
}

/// The tree for two literals joined by one operator.
pub open spec fn bin(op: BinOp, a: Seq<char>, b: Seq<char>) -> SpecExpr {
    SpecExpr::Bin(op, Box::new(SpecExpr::Num(a)), Box::new(SpecExpr::Num(b)))
}

/// Each operator character between two literals parses to its own
/// operator: `a+b` is a sum, `a-b` a difference, `a*b` a product, `a/b` a
/// quotient, `a%b` a remainder and `a^b` a power, with the literals as
/// the two operands in order.
pub proof fn lemma_operator_between_literals(a: Seq<char>, b: Seq<char>)
    requires
        is_literal(a),
        is_literal(b),
    ensures
        spec_parse_calc(a + seq!['+'] + b) == Some(bin(BinOp::Add, a, b)),
        spec_parse_calc(a + seq!['-'] + b) == Some(bin(BinOp::Sub, a, b)),
        spec_parse_calc(a + seq!['*'] + b) == Some(bin(BinOp::Mul, a, b)),
        spec_parse_calc(a + seq!['/'] + b) == Some(bin(BinOp::Div, a, b)),
        spec_parse_calc(a + seq!['%'] + b) == Some(bin(BinOp::Rem, a, b)),
        spec_parse_calc(a + seq!['^'] + b) == Some(bin(BinOp::Pow, a, b)),
{
    lemma_one_operator(a, b, '+');
    lemma_one_operator(a, b, '-');
    lemma_one_operator(a, b, '*');
    lemma_one_operator(a, b, '/');
    lemma_one_operator(a, b, '%');
    lemma_one_operator(a, b, '^');
}

/// The operator that character `o` stands for.
pub open spec fn op_for(o: char) -> BinOp {
    if o == '+' {
        BinOp::Add
    } else if o == '-' {
        BinOp::Sub
    } else if o == '*' {
        BinOp::Mul
    } else if o == '/' {
        BinOp::Div
    } else if o == '%' {
        BinOp::Rem
    } else {
        BinOp::Pow
    }
}

/// The characters of `a o b`: the literal `a`, the operator, the literal
/// `b`; all are calculator characters and none is whitespace.
proof fn lemma_shape_chars(a: Seq<char>, b: Seq<char>, o: char)
    requires
        is_literal(a),
        is_literal(b),
        is_op_char(o),
    ensures
        ({
            let s = a + seq![o] + b;
            let n = a.len() as int;
            &&& s.len() == n + 1 + b.len()
            &&& forall|k: int| 0 <= k < n ==> is_num_char(#[trigger] s[k])
            &&& forall|k: int| n + 1 <= k < s.len() ==> is_num_char(#[trigger] s[k])
            &&& s[n] == o
            &&& forall|k: int| 0 <= k < s.len() ==> is_calc_char(#[trigger] s[k]) && !is_white(s[k])
            &&& s.subrange(0, n) == a
            &&& s.subrange(n + 1, s.len() as int) == b
        }),
{
    let s = a + seq![o] + b;
    let n = a.len() as int;
    let l = s.len() as int;
    assert forall|k: int| 0 <= k < n implies is_num_char(#[trigger] s[k]) by {
        assert(s[k] == a[k]);
    }
    assert forall|k: int| n + 1 <= k < l implies is_num_char(#[trigger] s[k]) by {
        assert(s[k] == b[k - n - 1]);
    }
    assert(s[n] == o);
    assert forall|k: int| 0 <= k < l implies is_calc_char(#[trigger] s[k]) && !is_white(s[k]) by {
        if k < n || k > n {
            assert(is_num_char(s[k]));
        }
    }
    assert(s.subrange(0, n) =~= a);
    assert(s.subrange(n + 1, l) =~= b);
}

/// Text with no whitespace that does not end in `=` cleans to itself.
proof fn lemma_clean_noop(s: Seq<char>)
    requires
        s.len() > 0,
        forall|k: int| 0 <= k < s.len() ==> !is_white(#[trigger] s[k]),
        s.last() != '=',
    ensures
        calc_chars(s) == s,
{
    lemma_filter_keeps_all(s);
}

/// A run of literal characters from `i` to `k`, ended there, is one atom.
proof fn lemma_literal_atom(s: Seq<char>, i: int, k: int)
    requires
        0 <= i < k <= s.len(),
        forall|m: int| i <= m < k ==> is_num_char(#[trigger] s[m]),
        k == s.len() || !is_num_char(s[k]),
    ensures
        p_atom(s, i) == Some((SpecExpr::Num(s.subrange(i, k)), k)),
{
    lemma_num_end_at(s, i, k);
    assert(is_num_char(s[i]));
}

proof fn lemma_shape(a: Seq<char>, b: Seq<char>, o: char)
    requires
        is_literal(a),
        is_literal(b),
        is_op_char(o),
    ensures
        ({
            let s = a + seq![o] + b;
            let n = a.len() as int;
            &&& calc_chars(s) == s
            &&& forall|k: int| 0 <= k < s.len() ==> is_calc_char(#[trigger] s[k])
            &&& is_op_char(s[n])
            &&& s[n] == o
            &&& s[0] != '-'
            &&& s[n + 1] != '-'
            &&& p_atom(s, 0) == Some((SpecExpr::Num(a), n))
            &&& p_atom(s, n + 1) == Some((SpecExpr::Num(b), s.len() as int))
        }),
{
    lemma_shape_chars(a, b, o);
    let s = a + seq![o] + b;
    let n = a.len() as int;
    let l = s.len() as int;
    assert(is_num_char(s[l - 1]));
    lemma_clean_noop(s);
    assert(is_num_char(s[0]));
    assert(is_num_char(s[n + 1]));
    lemma_literal_atom(s, 0, n);
    lemma_literal_atom(s, n + 1, l);
}

/// The right operand: a literal running to the end parses as itself.
proof fn lemma_right_operand(s: Seq<char>, i: int, nb: SpecExpr)
    requires
        0 <= i < s.len(),
        s[i] != '-',
        p_atom(s, i) == Some((nb, s.len() as int)),
    ensures
        p_unary(s, i) == Some((nb, s.len() as int)),
        p_term(s, i) == Some((nb, s.len() as int)),
{
    let l = s.len() as int;
    assert(p_power(s, i) == Some((nb, l)));
    assert(p_term_rest(s, l, nb) == Some((nb, l)));
}

proof fn lemma_tree_pow(s: Seq<char>, n: int, na: SpecExpr, nb: SpecExpr)
    requires
        0 <= n,
        n + 1 < s.len(),
        s[n] == '^',
        s[0] != '-',
        s[n + 1] != '-',
        p_atom(s, 0) == Some((na, n)),
        p_atom(s, n + 1) == Some((nb, s.len() as int)),
    ensures
        p_expr(s, 0) == Some((SpecExpr::Bin(BinOp::Pow, Box::new(na), Box::new(nb)), s.len() as int)),
{
    let l = s.len() as int;
    lemma_right_operand(s, n + 1, nb);
    let e = SpecExpr::Bin(BinOp::Pow, Box::new(na), Box::new(nb));
    assert(p_power(s, 0) == Some((e, l)));
    assert(p_unary(s, 0) == Some((e, l)));
    assert(p_term_rest(s, l, e) == Some((e, l)));
    assert(p_term(s, 0) == Some((e, l)));
    assert(p_expr_rest(s, l, e) == Some((e, l)));
}

proof fn lemma_tree_mul(s: Seq<char>, n: int, na: SpecExpr, nb: SpecExpr)
    requires
        0 <= n,
        n + 1 < s.len(),
        s[n] == '*' || s[n] == '/' || s[n] == '%',
        s[0] != '-',
        s[n + 1] != '-',
        p_atom(s, 0) == Some((na, n)),
        p_atom(s, n + 1) == Some((nb, s.len() as int)),
    ensures
        p_expr(s, 0) == Some((SpecExpr::Bin(op_for(s[n]), Box::new(na), Box::new(nb)), s.len() as int)),
{
    let l = s.len() as int;
    lemma_right_operand(s, n + 1, nb);
    let e = SpecExpr::Bin(op_for(s[n]), Box::new(na), Box::new(nb));
    assert(p_power(s, 0) == Some((na, n)));
    assert(p_unary(s, 0) == Some((na, n)));
    assert(p_term_rest(s, l, e) == Some((e, l)));
    assert(p_term_rest(s, n, na) == Some((e, l)));
    assert(p_term(s, 0) == Some((e, l)));
    assert(p_expr_rest(s, l, e) == Some((e, l)));
}

proof fn lemma_tree_add(s: Seq<char>, n: int, na: SpecExpr, nb: SpecExpr)
    requires
        0 <= n,
        n + 1 < s.len(),
        s[n] == '+' || s[n] == '-',
        s[0] != '-',
        s[n + 1] != '-',
        p_atom(s, 0) == Some((na, n)),
        p_atom(s, n + 1) == Some((nb, s.len() as int)),
    ensures
        p_expr(s, 0) == Some((SpecExpr::Bin(op_for(s[n]), Box::new(na), Box::new(nb)), s.len() as int)),
{
    let l = s.len() as int;
    lemma_right_operand(s, n + 1, nb);
    let e = SpecExpr::Bin(op_for(s[n]), Box::new(na), Box::new(nb));
    assert(p_power(s, 0) == Some((na, n)));
    assert(p_unary(s, 0) == Some((na, n)));
    assert(p_term_rest(s, n, na) == Some((na, n)));
    assert(p_term(s, 0) == Some((na, n)));
    assert(p_expr_rest(s, l, e) == Some((e, l)));
    assert(p_expr_rest(s, n, na) == Some((e, l)));
}

proof fn lemma_one_operator(a: Seq<char>, b: Seq<char>, o: char)
    requires
        is_literal(a),
        is_literal(b),
        is_op_char(o),
    ensures
        spec_parse_calc(a + seq![o] + b) == Some(bin(op_for(o), a, b)),
{
    lemma_shape(a, b, o);
    let s = a + seq![o] + b;
    let n = a.len() as int;
    let na = SpecExpr::Num(a);
    let nb = SpecExpr::Num(b);
    if o == '^' {
        lemma_tree_pow(s, n, na, nb);
    } else if o == '*' || o == '/' || o == '%' {
        lemma_tree_mul(s, n, na, nb);
    } else {
        lemma_tree_add(s, n, na, nb);
    }
}

/// Parses a calculator query. `None` unless the whole input, with its
/// whitespace and one trailing `'='` removed, is a valid expression that
/// contains at least one operator, so a plain number or an app name is
/// never taken for a sum.
pub fn parse_calc(input: &str) -> (r: Option<Expr>)
    ensures
        match spec_parse_calc(input@) {
            Some(e) => r matches Some(x) && expr_view(x) == e,
            None => r is None,
        },
        r is Some ==> exists|k: int|
            0 <= k < calc_chars(input@).len() && is_op_char(#[trigger] calc_chars(input@)[k]),
{
    let chars = chars_of(input);
    let ghost pred = |c: char| !is_white(c);
    let mut s: Vec<char> = Vec::new();
    let mut k: usize = 0;
    proof {
        reveal(Seq::filter);
        assert(chars@.take(0).filter(pred) =~= Seq::<char>::empty());
    }
    while k < chars.len()
        invariant
            k <= chars@.len(),
            chars@ == input@,
            pred == (|c: char| !is_white(c)),
            s@ == chars@.take(k as int).filter(pred),
        decreases chars.len() - k,
    {
        assert(chars@.take(k + 1).drop_last() =~= chars@.take(k as int));
        assert(chars@.take(k + 1).last() == chars@[k as int]);
        assert(pred(chars@[k as int]) == !is_white(chars@[k as int]));
        proof {
            assert(chars@.take(k + 1) =~= chars@.take(k as int).push(chars@[k as int]));
            chars@.take(k as int).lemma_filter_push(chars@[k as int], pred);
        }
        if !white(chars[k]) {
            s.push(chars[k]);
        }
        k = k + 1;
    }
    assert(chars@.take(k as int) =~= chars@);
    if s.len() > 0 && s[s.len() - 1] == '=' {
        s.pop();
    }
    let ghost cs = s@;
    assert(cs == calc_chars(input@));
    if s.len() == 0 {
        return None;
    }
    let mut j: usize = 0;
    let mut any_op = false;
    while j < s.len()
        invariant
            s@ == cs,
            cs == calc_chars(input@),
            cs.len() > 0,
            j <= cs.len(),
            forall|m: int| 0 <= m < j ==> is_calc_char(#[trigger] cs[m]),
            any_op == exists|m: int| 0 <= m < j && is_op_char(#[trigger] cs[m]),
        decreases s.len() - j,
    {
        let c = s[j];
        let num = ('0' <= c && c <= '9') || c == '.';
        let op = c == '+' || c == '-' || c == '*' || c == '/' || c == '%' || c == '^';
        if !(num || op || c == '(' || c == ')') {
            assert(!is_calc_char(cs[j as int]));
            return None;
        }
        if op {
            any_op = true;
        }
        proof {
            if any_op {
                if op {
                    assert(is_op_char(cs[j as int]));
                }
            } else {
                assert forall|m: int| 0 <= m < j + 1 implies !is_op_char(#[trigger] cs[m]) by {
                    if m == j {
                        assert(cs[m] == c);
                    }
                }
            }
        }
        j = j + 1;
    }
    if !any_op {
        return None;
    }
    let mut p = Parser { s, i: 0 };
    let e = match p.expr() {
        None => return None,
        Some(e) => e,
    };
    if p.i != p.s.len() {
        return None;
    }
    Some(e)
}

} // verus!

//! Expressions, the generation state they are evaluated against, and the
//! deterministic evaluator. Evaluation is pure except for advancing the
//! generator and counter state: identical initial state and identical
//! expression sequence always produce the identical value sequence.

use vstd::prelude::*;
use crate::error::{Error, ErrorKind, Span};
use crate::value::{Value, ValueV};

verus! {

/// Multiplier of the linear congruential generator behind seeded builtins.
pub const RNG_MUL: u64 = 6364136223846793005;
/// Increment of the linear congruential generator behind seeded builtins.
pub const RNG_INC: u64 = 1442695040888963407;

/// The mutable context threaded through all evaluation of one generation
/// stream: row counters and the deterministic generator/counter state.
#[derive(Clone, Copy, Debug, PartialEq, Eq, Structural)]
pub struct State {
    /// Index of the current logical row event, increased once per event.
    pub row_num: u64,
    /// Position of the current occurrence among its siblings, starting at 1.
    pub sub_row_num: u64,
    /// State of the deterministic seeded generator.
    pub rng: u64,
    /// State of the lexicographic counter.
    pub lexctr: u64,
}

impl State {
    /// A fresh state for one generation stream, seeded deterministically.
    pub fn new(seed: u64) -> (r: State)
        ensures
            r == (State { row_num: 0, sub_row_num: 1, rng: seed, lexctr: 0 }),
    {
        State { row_num: 0, sub_row_num: 1, rng: seed, lexctr: 0 }
    }

    /// Advances the row counter after a completed row event.
    pub fn increase_row_num(&mut self)
        ensures
            *final(self) == (State { row_num: u64::wrapping_add(old(self).row_num, 1), ..*old(self) }),
    {
        self.row_num = self.row_num.wrapping_add(1);
    }
}

/// The next state of the seeded generator.
pub open spec fn next_rng(r: u64) -> u64 {
    u64::wrapping_add(u64::wrapping_mul(r, RNG_MUL), RNG_INC)
}

/// The character for one hexadecimal digit.
pub open spec fn hex_char_of(d: u64) -> char {
    if d == 0 { '0' } else if d == 1 { '1' } else if d == 2 { '2' }
    else if d == 3 { '3' } else if d == 4 { '4' } else if d == 5 { '5' }
    else if d == 6 { '6' } else if d == 7 { '7' } else if d == 8 { '8' }
    else if d == 9 { '9' } else if d == 10 { 'a' } else if d == 11 { 'b' }
    else if d == 12 { 'c' } else if d == 13 { 'd' } else if d == 14 { 'e' }
    else { 'f' }
}

/// The sortable textual rendering of a counter value: sixteen hexadecimal
/// digits, most significant first, so that numeric order and lexicographic
/// order of the rendering agree.
pub open spec fn lex_chars(n: u64) -> Seq<char> {
    Seq::new(16, |i: int| hex_char_of((n >> ((15 - i) * 4) as u64) & 0xf))
}

/// One node of a typed expression. Given generation state, it
/// deterministically produces a value or fails with a positioned error.
#[derive(Debug)]
pub enum Expr {
    /// A literal value.
    Constant(Span, Value),
    /// The current row event index.
    RowNum(Span),
    /// The current occurrence position among siblings.
    SubRowNum(Span),
    /// A seeded random integer drawn uniformly from the inclusive range.
    RandInt(Span, u32, u32),
    /// The lexicographic counter: monotonically increasing values rendered
    /// in sortable textual order, for generating unique ordered keys.
    LexCounter(Span),
    /// Integer addition of two sub-expressions.
    Add(Span, Box<Expr>, Box<Expr>),
    /// Text concatenation of two sub-expressions.
    Concat(Span, Box<Expr>, Box<Expr>),
}

/// The mathematical view of an [`Expr`].
pub enum ExprV {
    /// A literal value.
    Constant(Span, ValueV),
    /// The current row event index.
    RowNum(Span),
    /// The current occurrence position among siblings.
    SubRowNum(Span),
    /// A seeded random integer drawn uniformly from the inclusive range.
    RandInt(Span, u32, u32),
    /// The lexicographic counter.
    LexCounter(Span),
    /// Integer addition of two sub-expressions.
    Add(Span, Box<ExprV>, Box<ExprV>),
    /// Text concatenation of two sub-expressions.
    Concat(Span, Box<ExprV>, Box<ExprV>),
}

/// The view of an expression node.
pub open spec fn expr_view(e: Expr) -> ExprV
    decreases e,
{
    match e {
        Expr::Constant(sp, v) => ExprV::Constant(sp, v@),
        Expr::RowNum(sp) => ExprV::RowNum(sp),
        Expr::SubRowNum(sp) => ExprV::SubRowNum(sp),
        Expr::RandInt(sp, lo, hi) => ExprV::RandInt(sp, lo, hi),
        Expr::LexCounter(sp) => ExprV::LexCounter(sp),
        Expr::Add(sp, a, b) => ExprV::Add(sp, Box::new(expr_view(*a)), Box::new(expr_view(*b))),
        Expr::Concat(sp, a, b) => ExprV::Concat(sp, Box::new(expr_view(*a)), Box::new(expr_view(*b))),
    }
}

impl View for Expr {
    type V = ExprV;

    open spec fn view(&self) -> ExprV {
        expr_view(*self)
    }
}

impl Value {
    /// An exact copy of this value.
    pub fn duplicate(&self) -> (r: Value)
        ensures
            r@ == self@,
    {
        match self {
            Value::Null => Value::Null,
            Value::Int(i) => Value::Int(*i),
            Value::Text(s) => Value::Text(s.clone()),
            Value::Bytes(b) => {
                let c = b.clone();
                proof {
                    assert(c@ =~= b@);
                }
                Value::Bytes(c)
            },
            Value::Timestamp(t) => Value::Timestamp(*t),
        }
    }
}

impl Expr {
    /// An exact copy of this expression tree.
    pub fn duplicate(&self) -> (r: Expr)
        ensures
            r@ == self@,
        decreases *self,
    {
        match self {
            Expr::Constant(sp, v) => Expr::Constant(*sp, v.duplicate()),
            Expr::RowNum(sp) => Expr::RowNum(*sp),
            Expr::SubRowNum(sp) => Expr::SubRowNum(*sp),
            Expr::RandInt(sp, lo, hi) => Expr::RandInt(*sp, *lo, *hi),
            Expr::LexCounter(sp) => Expr::LexCounter(*sp),
            Expr::Add(sp, a, b) => Expr::Add(*sp, Box::new(a.duplicate()), Box::new(b.duplicate())),
            Expr::Concat(sp, a, b) => Expr::Concat(*sp, Box::new(a.duplicate()), Box::new(b.duplicate())),
        }
    }
}

/// The source position of an expression node.
pub open spec fn exprv_span(e: ExprV) -> Span {
    match e {
        ExprV::Constant(sp, _) => sp,
        ExprV::RowNum(sp) => sp,
        ExprV::SubRowNum(sp) => sp,
        ExprV::RandInt(sp, _, _) => sp,
        ExprV::LexCounter(sp) => sp,
        ExprV::Add(sp, _, _) => sp,
        ExprV::Concat(sp, _, _) => sp,
    }
}

impl Expr {
    /// The source position of this node.
    pub fn span(&self) -> (r: Span)
        ensures
            r == exprv_span(self@),
    {
        match self {
            Expr::Constant(sp, _) => *sp,
            Expr::RowNum(sp) => *sp,
            Expr::SubRowNum(sp) => *sp,
            Expr::RandInt(sp, _, _) => *sp,
            Expr::LexCounter(sp) => *sp,
            Expr::Add(sp, _, _) => *sp,
            Expr::Concat(sp, _, _) => *sp,
        }
    }
}

/// What evaluating an expression against a state produces: the value or a
/// positioned error, together with the state evaluation has advanced to.
pub open spec fn spec_eval(e: ExprV, s: State) -> (Result<ValueV, Error>, State)
    decreases e,
{
    match e {
        ExprV::Constant(_, v) => (Ok(v), s),
        ExprV::RowNum(sp) => if s.row_num <= i64::MAX as u64 {
            (Ok(ValueV::Int(s.row_num as int)), s)
        } else {
            (Err(Error { kind: ErrorKind::IntegerOverflow, span: sp }), s)
        },
        ExprV::SubRowNum(sp) => if s.sub_row_num <= i64::MAX as u64 {
            (Ok(ValueV::Int(s.sub_row_num as int)), s)
        } else {
            (Err(Error { kind: ErrorKind::IntegerOverflow, span: sp }), s)
        },
        ExprV::RandInt(sp, lo, hi) => if lo > hi {
            (Err(Error { kind: ErrorKind::InvalidArguments, span: sp }), s)
        } else {
            (
                Ok(ValueV::Int(lo as int + (next_rng(s.rng) as int % (hi as int - lo as int + 1)))),
                State { rng: next_rng(s.rng), ..s },
            )
        },
        ExprV::LexCounter(_) => (
            Ok(ValueV::Text(lex_chars(s.lexctr))),
            State { lexctr: u64::wrapping_add(s.lexctr, 1), ..s },
        ),
        ExprV::Add(sp, a, b) => {
            let (ra, sa) = spec_eval(*a, s);
            match ra {
                Err(ea) => (Err(ea), sa),
                Ok(va) => {
                    let (rb, sb) = spec_eval(*b, sa);
                    match rb {
                        Err(eb) => (Err(eb), sb),
                        Ok(vb) => match (va, vb) {
                            (ValueV::Int(x), ValueV::Int(y)) => if i64::MIN <= x + y <= i64::MAX {
                                (Ok(ValueV::Int(x + y)), sb)
                            } else {
                                (Err(Error { kind: ErrorKind::IntegerOverflow, span: sp }), sb)
                            },
                            _ => (Err(Error { kind: ErrorKind::TypeMismatch, span: sp }), sb),
                        },
                    }
                },
            }
        },
        ExprV::Concat(sp, a, b) => {
            let (ra, sa) = spec_eval(*a, s);
            match ra {
                Err(ea) => (Err(ea), sa),
                Ok(va) => {
                    let (rb, sb) = spec_eval(*b, sa);
                    match rb {
                        Err(eb) => (Err(eb), sb),
                        Ok(vb) => match (va, vb) {
                            (ValueV::Text(x), ValueV::Text(y)) => (Ok(ValueV::Text(x + y)), sb),
                            _ => (Err(Error { kind: ErrorKind::TypeMismatch, span: sp }), sb),
                        },
                    }
                },
            }
        },
    }
}

/// A string slice holding exactly one hexadecimal digit character.
fn hex_digit_str(d: u64) -> (r: &'static str)
    requires
        d < 16,
    ensures
        r@ =~= seq![hex_char_of(d)],
{
    proof {
        reveal_strlit("0"); reveal_strlit("1"); reveal_strlit("2"); reveal_strlit("3");
        reveal_strlit("4"); reveal_strlit("5"); reveal_strlit("6"); reveal_strlit("7");
        reveal_strlit("8"); reveal_strlit("9"); reveal_strlit("a"); reveal_strlit("b");
        reveal_strlit("c"); reveal_strlit("d"); reveal_strlit("e"); reveal_strlit("f");
    }
    if d == 0 { "0" } else if d == 1 { "1" } else if d == 2 { "2" }
    else if d == 3 { "3" } else if d == 4 { "4" } else if d == 5 { "5" }
    else if d == 6 { "6" } else if d == 7 { "7" } else if d == 8 { "8" }
    else if d == 9 { "9" } else if d == 10 { "a" } else if d == 11 { "b" }
    else if d == 12 { "c" } else if d == 13 { "d" } else if d == 14 { "e" }
    else { "f" }
}

/// Renders a counter value in its sortable sixteen-digit textual form.
fn render_lex(n: u64) -> (r: String)
    ensures
        r@ == lex_chars(n),
{
    let mut out = String::new();
    let mut i: u64 = 0;
    while i < 16
        invariant
            i <= 16,
            out@ =~= lex_chars(n).take(i as int),
        decreases 16 - i,
    {
        let sh: u64 = (15 - i) * 4;
        let d: u64 = (n >> sh) & 0xf;
        proof {
            assert((n >> sh) & 0xf < 16) by (bit_vector);
        }
        out.append(hex_digit_str(d));
        proof {
            assert(out@ =~= lex_chars(n).take(i as int + 1));
        }
        i = i + 1;
    }
    proof {
        assert(lex_chars(n).take(16) =~= lex_chars(n));
    }
    out
}

impl Expr {
    /// Evaluates this expression, advancing the state exactly as
    /// [`spec_eval`] describes, and returning exactly the value or error it
    /// describes.
    pub fn eval(&self, state: &mut State) -> (r: Result<Value, Error>)
        ensures
            *final(state) == spec_eval(self@, *old(state)).1,
            (match r {
                Ok(v) => spec_eval(self@, *old(state)).0 == Ok::<ValueV, Error>(v@),
                Err(e) => spec_eval(self@, *old(state)).0 == Err::<ValueV, Error>(e),
            }),
        decreases *self,
    {
        match self {
            Expr::Constant(_, v) => Ok(v.duplicate()),
            Expr::RowNum(sp) => if state.row_num <= i64::MAX as u64 {
                Ok(Value::Int(state.row_num as i64))
            } else {
                Err(Error { kind: ErrorKind::IntegerOverflow, span: *sp })
            },
            Expr::SubRowNum(sp) => if state.sub_row_num <= i64::MAX as u64 {
                Ok(Value::Int(state.sub_row_num as i64))
            } else {
                Err(Error { kind: ErrorKind::IntegerOverflow, span: *sp })
            },
            Expr::RandInt(sp, lo, hi) => if lo > hi {
                Err(Error { kind: ErrorKind::InvalidArguments, span: *sp })
            } else {
                let r2 = state.rng.wrapping_mul(RNG_MUL).wrapping_add(RNG_INC);
                state.rng = r2;
                let width: u64 = *hi as u64 - *lo as u64 + 1;
                let v: u64 = *lo as u64 + r2 % width;
                Ok(Value::Int(v as i64))
            },
            Expr::LexCounter(_) => {
                let text = render_lex(state.lexctr);
                state.lexctr = state.lexctr.wrapping_add(1);
                Ok(Value::Text(text))
            },
            Expr::Add(sp, a, b) => {
                let va = match a.eval(state) {
                    Ok(v) => v,
                    Err(e) => { return Err(e); },
                };
                let vb = match b.eval(state) {
                    Ok(v) => v,
                    Err(e) => { return Err(e); },
                };
                match (va, vb) {
                    (Value::Int(x), Value::Int(y)) => match x.checked_add(y) {
                        Some(z) => Ok(Value::Int(z)),
                        None => Err(Error { kind: ErrorKind::IntegerOverflow, span: *sp }),
                    },
                    _ => Err(Error { kind: ErrorKind::TypeMismatch, span: *sp }),
                }
            },
            Expr::Concat(sp, a, b) => {
                let va = match a.eval(state) {
                    Ok(v) => v,
                    Err(e) => { return Err(e); },
                };
                let vb = match b.eval(state) {
                    Ok(v) => v,
                    Err(e) => { return Err(e); },
                };
                match (va, vb) {
                    (Value::Text(x), Value::Text(y)) => {
                        let mut joined = x;
                        joined.append(y.as_str());
                        Ok(Value::Text(joined))
                    },
                    _ => Err(Error { kind: ErrorKind::TypeMismatch, span: *sp }),
                }
            },
        }
    }
}

} // verus!

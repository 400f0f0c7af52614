use vstd::prelude::*;

use crate::errors::CalcError;
use crate::math::{det_v, inv_v, mul_scalar_v, mul_v, pow_v, sub_v, sum_v, transpose_res_v};
use crate::matrix::{mat_v_wf, MatV, Matrix};
use crate::rat::{
    fits_i64, q_add_chk, q_div_chk, q_is_int, q_is_zero, q_mul_chk, q_one, q_pow_chk, q_sub_chk,
    q_trunc, q_wf, Q, Rat,
};

verus! {

pub open spec fn is_digit_c(c: char) -> bool {
    '0' <= c && c <= '9'
}

pub open spec fn digit_val(c: char) -> int {
    c as int - '0' as int
}

pub open spec fn fits_u64(x: int) -> bool {
    0 <= x <= 0xffff_ffff_ffff_ffff
}

/// `x` times ten to the `e`, or `None` as soon as a step leaves the machine
/// representation.
pub open spec fn pow10_chk(x: int, e: nat) -> Option<int>
    decreases e,
{
    if e == 0 {
        Some(x)
    } else {
        let y = x * 10;
        if fits_i64(y) {
            pow10_chk(y, (e - 1) as nat)
        } else {
            None
        }
    }
}

/// The digits of a decimal exponent, read left to right from `k` to the
/// end of the token; at least one digit is needed, and the exponent's own
/// magnitude must fit the machine's unsigned word.
pub open spec fn exp_go(s: Seq<char>, k: int, seen: bool, e: int) -> Option<int>
    decreases s.len() - k,
{
    if k < 0 || k >= s.len() {
        if seen {
            Some(e)
        } else {
            None
        }
    } else {
        let c = s[k];
        if is_digit_c(c) {
            let e2 = e * 10 + digit_val(c);
            if fits_u64(e2) {
                exp_go(s, k + 1, true, e2)
            } else {
                None
            }
        } else {
            None
        }
    }
}

/// Applies a decimal exponent to the mantissa `num / den`: a positive
/// exponent scales the numerator, a negative one the denominator, and zero
/// stays zero under any exponent.
pub open spec fn apply_exp(num: int, den: int, neg: bool, e: nat) -> Option<(int, int)> {
    if num == 0 {
        Some((0, den))
    } else if neg {
        match pow10_chk(den, e) {
            None => None,
            Some(d2) => Some((num, d2)),
        }
    } else {
        match pow10_chk(num, e) {
            None => None,
            Some(n2) => Some((n2, den)),
        }
    }
}

/// One left-to-right scan of a numeric literal: `num` accumulates the
/// mantissa's magnitude and `den` the power of ten behind the decimal
/// point; an `e` or `E` hands the rest of the token to the exponent scan.
/// The scan fails on a foreign character, a second point, a digitless
/// mantissa or exponent, or a magnitude that does not fit the machine
/// representation.
pub open spec fn lit_go(
    s: Seq<char>,
    k: int,
    seen_digit: bool,
    seen_dot: bool,
    num: int,
    den: int,
) -> Option<(int, int)>
    decreases s.len() - k,
{
    if k < 0 || k >= s.len() {
        if seen_digit {
            Some((num, den))
        } else {
            None
        }
    } else {
        let c = s[k];
        if is_digit_c(c) {
            let num2 = num * 10 + digit_val(c);
            let den2 = if seen_dot {
                den * 10
            } else {
                den
            };
            if fits_i64(num2) && fits_i64(den2) {
                lit_go(s, k + 1, true, seen_dot, num2, den2)
            } else {
                None
            }
        } else if c == '.' {
            if seen_dot {
                None
            } else {
                lit_go(s, k + 1, seen_digit, true, num, den)
            }
        } else if (c == 'e' || c == 'E') && seen_digit {
            if k + 1 < s.len() && (s[k + 1] == '+' || s[k + 1] == '-') {
                match exp_go(s, k + 2, false, 0) {
                    None => None,
                    Some(e) => apply_exp(num, den, s[k + 1] == '-', e as nat),
                }
            } else {
                match exp_go(s, k + 1, false, 0) {
                    None => None,
                    Some(e) => apply_exp(num, den, false, e as nat),
                }
            }
        } else {
            None
        }
    }
}

/// The exact value of a decimal numeric literal: an optional sign, digits
/// with at most one decimal point and at least one digit, and an optional
/// decimal exponent (`e` or `E`, an optional sign, digits).
pub open spec fn lit_q(s: Seq<char>) -> Option<Q> {
    if s.len() == 0 {
        None
    } else if s[0] == '-' {
        match lit_go(s, 1, false, false, 0, 1) {
            None => None,
            Some((n, d)) => Some(Q { n: -n, d: d }),
        }
    } else if s[0] == '+' {
        match lit_go(s, 1, false, false, 0, 1) {
            None => None,
            Some((n, d)) => Some(Q { n: n, d: d }),
        }
    } else {
        match lit_go(s, 0, false, false, 0, 1) {
            None => None,
            Some((n, d)) => Some(Q { n: n, d: d }),
        }
    }
}

/// Parses a decimal numeric literal into an exact scalar.
#[verifier::loop_isolation(false)]
pub fn parse_lit(s: &str) -> (r: Option<Rat>)
    ensures
        match r {
            Some(v) => v.wf() && lit_q(s@) == Some(v@),
            None => lit_q(s@) is None,
        },
{
    let len = s.unicode_len();
    if len == 0 {
        return None;
    }
    let c0 = s.get_char(0);
    let neg: bool = c0 == '-';
    let start: usize = if c0 == '-' || c0 == '+' {
        1
    } else {
        0
    };
    let mut k = start;
    let mut seen_digit = false;
    let mut seen_dot = false;
    let mut num: i64 = 0;
    let mut den: i64 = 1;
    while k < len
        invariant
            len == s@.len(),
            start <= k <= len,
            num >= 0,
            den >= 1,
            lit_go(s@, k as int, seen_digit, seen_dot, num as int, den as int) == lit_go(
                s@,
                start as int,
                false,
                false,
                0,
                1,
            ),
        decreases len - k,
    {
        let c = s.get_char(k);
        if c >= '0' && c <= '9' {
            let d = (c as u32) - ('0' as u32);
            let num2: i128 = (num as i128) * 10 + (d as i128);
            if num2 > (i64::MAX as i128) {
                return None;
            }
            if seen_dot {
                let den2: i128 = (den as i128) * 10;
                if den2 > (i64::MAX as i128) {
                    return None;
                }
                den = den2 as i64;
            }
            num = num2 as i64;
            seen_digit = true;
        } else if c == '.' {
            if seen_dot {
                return None;
            }
            seen_dot = true;
        } else if (c == 'e' || c == 'E') && seen_digit {
            let mut neg_exp = false;
            let mut k2 = k + 1;
            if k2 < len {
                let c2 = s.get_char(k2);
                if c2 == '+' {
                    k2 = k2 + 1;
                } else if c2 == '-' {
                    neg_exp = true;
                    k2 = k2 + 1;
                }
            }
            let ghost e_start = k2 as int;
            let mut e: u64 = 0;
            let mut seen_e = false;
            while k2 < len
                invariant
                    e_start <= k2 <= len,
                    exp_go(s@, k2 as int, seen_e, e as int) == exp_go(s@, e_start, false, 0),
                decreases len - k2,
            {
                let c3 = s.get_char(k2);
                if c3 >= '0' && c3 <= '9' {
                    let d3 = (c3 as u32) - ('0' as u32);
                    let e2: u128 = (e as u128) * 10 + (d3 as u128);
                    if e2 > (u64::MAX as u128) {
                        return None;
                    }
                    e = e2 as u64;
                    seen_e = true;
                } else {
                    return None;
                }
                k2 = k2 + 1;
            }
            if !seen_e {
                return None;
            }
            if num == 0 {
                return Some(Rat { num: 0, den });
            }
            if neg_exp {
                let ghost den0 = den as int;
                let mut i2: u64 = 0;
                while i2 < e
                    invariant
                        i2 <= e,
                        den >= 1,
                        pow10_chk(den as int, (e - i2) as nat) == pow10_chk(den0, e as nat),
                    decreases e - i2,
                {
                    let d2: i128 = (den as i128) * 10;
                    if d2 > (i64::MAX as i128) {
                        return None;
                    }
                    den = d2 as i64;
                    i2 = i2 + 1;
                }
            } else {
                let ghost num0 = num as int;
                let mut i2: u64 = 0;
                while i2 < e
                    invariant
                        i2 <= e,
                        num >= 1,
                        pow10_chk(num as int, (e - i2) as nat) == pow10_chk(num0, e as nat),
                    decreases e - i2,
                {
                    let n2: i128 = (num as i128) * 10;
                    if n2 > (i64::MAX as i128) {
                        return None;
                    }
                    num = n2 as i64;
                    i2 = i2 + 1;
                }
            }
            if neg {
                return Some(Rat { num: -num, den });
            } else {
                return Some(Rat { num, den });
            }
        } else {
            return None;
        }
        k = k + 1;
    }
    if !seen_digit {
        return None;
    }
    if neg {
        Some(Rat { num: -num, den })
    } else {
        Some(Rat { num, den })
    }
}

pub open spec fn is_lparen_s(t: Seq<char>) -> bool {
    t.len() == 1 && t[0] == '('
}

pub open spec fn is_rparen_s(t: Seq<char>) -> bool {
    t.len() == 1 && t[0] == ')'
}

fn tok_lparen(t: &str) -> (r: bool)
    ensures
        r == is_lparen_s(t@),
{
    t.unicode_len() == 1 && t.get_char(0) == '('
}

fn tok_rparen(t: &str) -> (r: bool)
    ensures
        r == is_rparen_s(t@),
{
    t.unicode_len() == 1 && t.get_char(0) == ')'
}

/// The operators of the expression grammar. `Transp`, `Det` and `Inv` are
/// unary and written after their operand; the rest are binary infix.
#[derive(Clone, Copy, Debug, PartialEq, Eq, Structural)]
pub enum Operators {
    Mul,
    Div,
    Sum,
    Sub,
    Pow,
    Transp,
    Det,
    Inv,
}

/// The precedence table of the grammar: `+ - *` bind weakest, `/` and `DET`
/// sit in the middle, and `^ INV T` bind strongest.
pub open spec fn prec_of(t: Seq<char>) -> Option<int> {
    if t.len() == 1 {
        let c = t[0];
        if c == '+' || c == '-' || c == '*' {
            Some(1)
        } else if c == '/' {
            Some(2)
        } else if c == '^' || c == 'T' {
            Some(3)
        } else {
            None
        }
    } else if t.len() == 3 {
        if t[0] == 'D' && t[1] == 'E' && t[2] == 'T' {
            Some(2)
        } else if t[0] == 'I' && t[1] == 'N' && t[2] == 'V' {
            Some(3)
        } else {
            None
        }
    } else {
        None
    }
}

pub open spec fn is_op_s(t: Seq<char>) -> bool {
    prec_of(t) is Some
}

/// The operator a token names, if any.
pub open spec fn op_of(t: Seq<char>) -> Option<Operators> {
    if t.len() == 1 {
        let c = t[0];
        if c == '+' {
            Some(Operators::Sum)
        } else if c == '-' {
            Some(Operators::Sub)
        } else if c == '*' {
            Some(Operators::Mul)
        } else if c == '/' {
            Some(Operators::Div)
        } else if c == '^' {
            Some(Operators::Pow)
        } else if c == 'T' {
            Some(Operators::Transp)
        } else {
            None
        }
    } else if t.len() == 3 {
        if t[0] == 'D' && t[1] == 'E' && t[2] == 'T' {
            Some(Operators::Det)
        } else if t[0] == 'I' && t[1] == 'N' && t[2] == 'V' {
            Some(Operators::Inv)
        } else {
            None
        }
    } else {
        None
    }
}

pub open spec fn op_is_unary(op: Operators) -> bool {
    op == Operators::Transp || op == Operators::Det || op == Operators::Inv
}

fn token_prec(t: &str) -> (r: Option<u8>)
    ensures
        match r {
            Some(p) => prec_of(t@) == Some(p as int),
            None => prec_of(t@) is None,
        },
{
    let len = t.unicode_len();
    if len == 1 {
        let c = t.get_char(0);
        if c == '+' || c == '-' || c == '*' {
            Some(1)
        } else if c == '/' {
            Some(2)
        } else if c == '^' || c == 'T' {
            Some(3)
        } else {
            None
        }
    } else if len == 3 {
        let a = t.get_char(0);
        let b = t.get_char(1);
        let c = t.get_char(2);
        if a == 'D' && b == 'E' && c == 'T' {
            Some(2)
        } else if a == 'I' && b == 'N' && c == 'V' {
            Some(3)
        } else {
            None
        }
    } else {
        None
    }
}

fn token_op(t: &str) -> (r: Option<Operators>)
    ensures
        r == op_of(t@),
{
    let len = t.unicode_len();
    if len == 1 {
        let c = t.get_char(0);
        if c == '+' {
            Some(Operators::Sum)
        } else if c == '-' {
            Some(Operators::Sub)
        } else if c == '*' {
            Some(Operators::Mul)
        } else if c == '/' {
            Some(Operators::Div)
        } else if c == '^' {
            Some(Operators::Pow)
        } else if c == 'T' {
            Some(Operators::Transp)
        } else {
            None
        }
    } else if len == 3 {
        let a = t.get_char(0);
        let b = t.get_char(1);
        let c = t.get_char(2);
        if a == 'D' && b == 'E' && c == 'T' {
            Some(Operators::Det)
        } else if a == 'I' && b == 'N' && c == 'V' {
            Some(Operators::Inv)
        } else {
            None
        }
    } else {
        None
    }
}

/// Whether a token names an operator of the grammar.
pub fn is_operator(key: &str) -> (r: bool)
    ensures
        r == is_op_s(key@),
{
    token_prec(key).is_some()
}

fn str_eq(a: &str, b: &str) -> (r: bool)
    ensures
        r == (a@ == b@),
{
    let la = a.unicode_len();
    let lb = b.unicode_len();
    if la != lb {
        return false;
    }
    let mut i: usize = 0;
    while i < la
        invariant
            i <= la,
            la == a@.len(),
            la == b@.len(),
            forall|x: int| 0 <= x < i ==> a@[x] == b@[x],
        decreases la - i,
    {
        if a.get_char(i) != b.get_char(i) {
            return false;
        }
        i = i + 1;
    }
    proof {
        assert(a@ =~= b@);
    }
    true
}

/// Mathematical value of an evaluation result: a scalar or a matrix.
pub ghost enum ValueV {
    Scalar(Q),
    Matrix(MatV),
}

pub open spec fn value_v_wf(v: ValueV) -> bool {
    match v {
        ValueV::Scalar(q) => q_wf(q),
        ValueV::Matrix(mv) => mat_v_wf(mv),
    }
}

/// The result of an evaluation and the stored kind of a variable.
pub enum Value {
    Scalar(Rat),
    Matrix(Matrix),
}

impl View for Value {
    type V = ValueV;

    open spec fn view(&self) -> ValueV {
        match self {
            Value::Scalar(r) => ValueV::Scalar(r@),
            Value::Matrix(m) => ValueV::Matrix(m@),
        }
    }
}

impl Value {
    pub open spec fn wf(&self) -> bool {
        match self {
            Value::Scalar(r) => r.wf(),
            Value::Matrix(m) => m.wf(),
        }
    }

    pub fn as_scalar(&self) -> (r: Option<&Rat>)
        ensures
            match r {
                Some(v) => *self is Scalar && self@ == ValueV::Scalar(v@),
                None => !(*self is Scalar),
            },
    {
        if let Self::Scalar(v) = self {
            Some(v)
        } else {
            None
        }
    }

    pub fn as_matrix(&self) -> (r: Option<&Matrix>)
        ensures
            match r {
                Some(v) => *self is Matrix && self@ == ValueV::Matrix(v@),
                None => !(*self is Matrix),
            },
    {
        if let Self::Matrix(v) = self {
            Some(v)
        } else {
            None
        }
    }

    /// Returns `true` if the value is [`Scalar`].
    ///
    /// [`Scalar`]: Value::Scalar
    #[must_use]
    pub fn is_scalar(&self) -> (r: bool)
        ensures
            r == (*self is Scalar),
    {
        matches!(self, Self::Scalar(..))
    }

    /// Returns `true` if the value is [`Matrix`].
    ///
    /// [`Matrix`]: Value::Matrix
    #[must_use]
    pub fn is_matrix(&self) -> (r: bool)
        ensures
            r == (*self is Matrix),
    {
        matches!(self, Self::Matrix(..))
    }
}

/// Mathematical value of a tree node's payload.
pub ghost enum OperandV {
    Operation(Operators),
    Scalar(Q),
    Matrix(MatV),
}

/// A tree node's payload: an operator at an internal node, or a scalar or
/// matrix at a leaf.
pub enum Operand {
    Operation(Operators),
    Scalar(Rat),
    Matrix(Matrix),
}

impl View for Operand {
    type V = OperandV;

    open spec fn view(&self) -> OperandV {
        match self {
            Operand::Operation(o) => OperandV::Operation(*o),
            Operand::Scalar(r) => OperandV::Scalar(r@),
            Operand::Matrix(m) => OperandV::Matrix(m@),
        }
    }
}

impl Operand {
    /// Returns `true` if the operand is [`Operation`].
    ///
    /// [`Operation`]: Operand::Operation
    #[must_use]
    pub fn is_operation(&self) -> (r: bool)
        ensures
            r == (*self is Operation),
    {
        matches!(self, Self::Operation(..))
    }

    /// Returns `true` if the operand is [`Scalar`].
    ///
    /// [`Scalar`]: Operand::Scalar
    #[must_use]
    pub fn is_scalar(&self) -> (r: bool)
        ensures
            r == (*self is Scalar),
    {
        matches!(self, Self::Scalar(..))
    }

    /// Returns `true` if the operand is [`Matrix`].
    ///
    /// [`Matrix`]: Operand::Matrix
    #[must_use]
    pub fn is_matrix(&self) -> (r: bool)
        ensures
            r == (*self is Matrix),
    {
        matches!(self, Self::Matrix(..))
    }

    pub fn as_operation(&self) -> (r: Option<&Operators>)
        ensures
            match r {
                Some(v) => *self is Operation && self@ == OperandV::Operation(*v),
                None => !(*self is Operation),
            },
    {
        if let Self::Operation(v) = self {
            Some(v)
        } else {
            None
        }
    }

    pub fn as_scalar(&self) -> (r: Option<&Rat>)
        ensures
            match r {
                Some(v) => *self is Scalar && self@ == OperandV::Scalar(v@),
                None => !(*self is Scalar),
            },
    {
        if let Self::Scalar(v) = self {
            Some(v)
        } else {
            None
        }
    }

    pub fn as_matrix(&self) -> (r: Option<&Matrix>)
        ensures
            match r {
                Some(v) => *self is Matrix && self@ == OperandV::Matrix(v@),
                None => !(*self is Matrix),
            },
    {
        if let Self::Matrix(v) = self {
            Some(v)
        } else {
            None
        }
    }
}

/// Mathematical value of an expression tree: one payload and up to two
/// exclusively owned children.
pub ghost struct TreeV {
    pub op: OperandV,
    pub left: Option<Box<TreeV>>,
    pub right: Option<Box<TreeV>>,
}

/// Every scalar and matrix in the tree is well-formed.
pub open spec fn tree_wf(t: TreeV) -> bool
    decreases t,
{
    &&& match t.op {
        OperandV::Operation(_) => true,
        OperandV::Scalar(q) => q_wf(q),
        OperandV::Matrix(mv) => mat_v_wf(mv),
    }
    &&& match t.left {
        None => true,
        Some(b) => tree_wf(*b),
    }
    &&& match t.right {
        None => true,
        Some(b) => tree_wf(*b),
    }
}

/// A node of the expression tree, owning its children.
pub struct ExpTree {
    pub op: Operand,
    pub left_op: Option<Box<ExpTree>>,
    pub right_op: Option<Box<ExpTree>>,
}

impl View for ExpTree {
    type V = TreeV;

    open spec fn view(&self) -> TreeV
        decreases self,
    {
        TreeV {
            op: self.op@,
            left: match self.left_op {
                None => None,
                Some(b) => Some(Box::new((*b)@)),
            },
            right: match self.right_op {
                None => None,
                Some(b) => Some(Box::new((*b)@)),
            },
        }
    }
}

impl DeepView for ExpTree {
    type V = TreeV;

    open spec fn deep_view(&self) -> TreeV {
        self.view()
    }
}

impl ExpTree {
    pub fn new(op: Operand) -> (r: ExpTree)
        ensures
            r.op == op,
            r.left_op is None,
            r.right_op is None,
    {
        ExpTree { op, left_op: None, right_op: None }
    }

    pub fn left_op(&self) -> (r: &Option<Box<ExpTree>>)
        ensures
            r == &self.left_op,
    {
        &self.left_op
    }

    pub fn set_left_op(&mut self, left_op: ExpTree)
        ensures
            final(self).op == old(self).op,
            final(self).right_op == old(self).right_op,
            final(self).left_op matches Some(b) && *b == left_op,
    {
        self.left_op = Some(Box::new(left_op));
    }

    pub fn right_op(&self) -> (r: &Option<Box<ExpTree>>)
        ensures
            r == &self.right_op,
    {
        &self.right_op
    }

    pub fn set_right_op(&mut self, right_op: ExpTree)
        ensures
            final(self).op == old(self).op,
            final(self).left_op == old(self).left_op,
            final(self).right_op matches Some(b) && *b == right_op,
    {
        self.right_op = Some(Box::new(right_op));
    }

    pub fn op(&self) -> (r: &Operand)
        ensures
            r == &self.op,
    {
        &self.op
    }

    pub fn set_op(&mut self, op: Operand)
        ensures
            final(self).op == op,
            final(self).left_op == old(self).left_op,
            final(self).right_op == old(self).right_op,
    {
        self.op = op;
    }

    pub fn is_leaf(&self) -> (r: bool)
        ensures
            r == (self.left_op is None && self.right_op is None),
    {
        self.left_op.is_none() && self.right_op.is_none()
    }
}

/// The variable store: named values supplied by the caller. A later binding
/// of the same name shadows an earlier one.
pub struct Definitions(pub Vec<(String, Value)>);

pub open spec fn assoc_map(s: Seq<(String, Value)>) -> Map<Seq<char>, ValueV>
    decreases s.len(),
{
    if s.len() == 0 {
        Map::empty()
    } else {
        assoc_map(s.drop_last()).insert(s.last().0@, s.last().1@)
    }
}

impl View for Definitions {
    type V = Map<Seq<char>, ValueV>;

    open spec fn view(&self) -> Map<Seq<char>, ValueV> {
        assoc_map(self.0@)
    }
}

pub open spec fn defs_wf(d: &Definitions) -> bool {
    forall|i: int| 0 <= i < d.0@.len() ==> (#[trigger] d.0@[i]).1.wf()
}

impl Definitions {
    /// The value bound to a name, if any; the latest binding wins.
    #[verifier::loop_isolation(false)]
    pub fn get(&self, name: &str) -> (r: Option<&Value>)
        ensures
            match r {
                Some(v) => self@.contains_key(name@) && v@ == self@[name@] && (defs_wf(self)
                    ==> v.wf()),
                None => !self@.contains_key(name@),
            },
    {
        let mut i: usize = self.0.len();
        proof {
            assert(self.0@.take(self.0@.len() as int) =~= self.0@);
        }
        while i > 0
            invariant
                i <= self.0@.len(),
                assoc_map(self.0@).contains_key(name@) == assoc_map(
                    self.0@.take(i as int),
                ).contains_key(name@),
                assoc_map(self.0@).contains_key(name@) ==> assoc_map(self.0@)[name@] == assoc_map(
                    self.0@.take(i as int),
                )[name@],
            decreases i,
        {
            let idx = i - 1;
            proof {
                assert(self.0@.take(i as int).last() == self.0@[idx as int]);
                assert(self.0@.take(i as int).drop_last() =~= self.0@.take(idx as int));
            }
            let pair = &self.0[idx];
            if str_eq(pair.0.as_str(), name) {
                return Some(&pair.1);
            }
            i = idx;
        }
        proof {
            assert(self.0@.take(0) =~= Seq::<(String, Value)>::empty());
        }
        None
    }
}

fn in_variable_defintions(key: &str, map: &Definitions) -> (r: bool)
    ensures
        r == map@.contains_key(key@),
{
    map.get(key).is_some()
}

/// Splitting on spaces: each space ends the current token, and consecutive
/// spaces yield empty tokens.
pub open spec fn split_go(s: Seq<char>, start: int, i: int, acc: Seq<Seq<char>>) -> Seq<Seq<char>>
    decreases s.len() - i,
{
    if i < 0 || i >= s.len() {
        acc.push(s.subrange(start, s.len() as int))
    } else if s[i] == ' ' {
        split_go(s, i + 1, i + 1, acc.push(s.subrange(start, i)))
    } else {
        split_go(s, start, i + 1, acc)
    }
}

pub open spec fn split_s(s: Seq<char>) -> Seq<Seq<char>> {
    split_go(s, 0, 0, Seq::empty())
}

/// Splits the raw expression text on single spaces.
#[verifier::loop_isolation(false)]
fn split_tokens(s: &str) -> (r: Vec<String>)
    ensures
        r.deep_view() == split_s(s@),
{
    let mut acc: Vec<String> = Vec::new();
    let mut start: usize = 0;
    let mut i: usize = 0;
    let len = s.unicode_len();
    proof {
        assert(acc.deep_view() =~= Seq::<Seq<char>>::empty());
    }
    while i < len
        invariant
            start <= i <= len,
            split_go(s@, start as int, i as int, acc.deep_view()) == split_s(s@),
        decreases len - i,
    {
        let c = s.get_char(i);
        if c == ' ' {
            let tok = s.substring_char(start, i).to_owned();
            let ghost old_acc = acc.deep_view();
            acc.push(tok);
            proof {
                assert(acc.deep_view() =~= old_acc.push(s@.subrange(start as int, i as int)));
            }
            start = i + 1;
        }
        i = i + 1;
    }
    let tok = s.substring_char(start, len).to_owned();
    let ghost old_acc = acc.deep_view();
    acc.push(tok);
    proof {
        assert(acc.deep_view() =~= old_acc.push(s@.subrange(start as int, len as int)));
    }
    acc
}

/// Pops the operator stack to the output until a left parenthesis has been
/// popped and discarded, or the stack is empty.
pub open spec fn pop_paren(st: Seq<Seq<char>>, out: Seq<Seq<char>>) -> (Seq<Seq<char>>, Seq<
    Seq<char>,
>)
    decreases st.len(),
{
    if st.len() == 0 {
        (st, out)
    } else if is_lparen_s(st.last()) {
        (st.drop_last(), out)
    } else {
        pop_paren(st.drop_last(), out.push(st.last()))
    }
}

/// Pops operators of precedence at least `p` to the output, stopping at a
/// left parenthesis or a weaker operator.
pub open spec fn pop_ops(st: Seq<Seq<char>>, out: Seq<Seq<char>>, p: int) -> (Seq<Seq<char>>, Seq<
    Seq<char>,
>)
    decreases st.len(),
{
    if st.len() == 0 {
        (st, out)
    } else {
        let top = st.last();
        if is_lparen_s(top) {
            (st, out)
        } else {
            match prec_of(top) {
                None => (st, out),
                Some(tp) => if tp >= p {
                    pop_ops(st.drop_last(), out.push(top), p)
                } else {
                    (st, out)
                },
            }
        }
    }
}

/// One pass of the shunting yard over the token sequence: parentheses
/// group, numeric literals and names bound in the store go straight to the
/// output, operators wait on the stack until an operator of lower
/// precedence arrives, and any remaining token is passed through for the
/// tree builder to reject. At the end the stack drains to the output.
pub open spec fn shunt(
    toks: Seq<Seq<char>>,
    k: int,
    st: Seq<Seq<char>>,
    out: Seq<Seq<char>>,
    dom: Set<Seq<char>>,
) -> Seq<Seq<char>>
    decreases toks.len() - k,
{
    if k < 0 || k >= toks.len() {
        out + st.reverse()
    } else {
        let t = toks[k];
        if is_lparen_s(t) {
            shunt(toks, k + 1, st.push(t), out, dom)
        } else if is_rparen_s(t) {
            let (st2, out2) = pop_paren(st, out);
            shunt(toks, k + 1, st2, out2, dom)
        } else if lit_q(t) is Some || dom.contains(t) {
            shunt(toks, k + 1, st, out.push(t), dom)
        } else if is_op_s(t) {
            let (st2, out2) = pop_ops(st, out, prec_of(t)->0);
            shunt(toks, k + 1, st2.push(t), out2, dom)
        } else {
            shunt(toks, k + 1, st, out.push(t), dom)
        }
    }
}

/// The postfix order of a token sequence under a variable store.
pub open spec fn postfix_of(toks: Seq<Seq<char>>, dom: Set<Seq<char>>) -> Seq<Seq<char>> {
    shunt(toks, 0, Seq::empty(), Seq::empty(), dom)
}

/// Converts an infix token sequence into postfix order by the shunting
/// yard, using the store only to recognize bound names.
#[verifier::loop_isolation(false)]
#[verifier::rlimit(60)]
pub fn infix_to_postfix(infix_exp: &Vec<String>, definitions: &Definitions) -> (r: Vec<String>)
    ensures
        r.deep_view() == postfix_of(infix_exp.deep_view(), definitions@.dom()),
{
    let ghost toks = infix_exp.deep_view();
    let ghost dom = definitions@.dom();
    let mut stack: Vec<String> = Vec::new();
    let mut postfix: Vec<String> = Vec::new();
    let mut idx: usize = 0;
    proof {
        assert(stack.deep_view() =~= Seq::<Seq<char>>::empty());
        assert(postfix.deep_view() =~= Seq::<Seq<char>>::empty());
    }
    while idx < infix_exp.len()
        invariant
            idx <= infix_exp@.len(),
            shunt(toks, idx as int, stack.deep_view(), postfix.deep_view(), dom) == shunt(
                toks,
                0,
                Seq::empty(),
                Seq::empty(),
                dom,
            ),
        decreases infix_exp@.len() - idx,
    {
        let elem: &String = &infix_exp[idx];
        let s: &str = elem.as_str();
        proof {
            assert(toks[idx as int] == s@);
        }
        if tok_lparen(s) {
            let ghost old_stack = stack.deep_view();
            stack.push(elem.clone());
            proof {
                assert(stack.deep_view() =~= old_stack.push(s@));
            }
        } else if tok_rparen(s) {
            let ghost st0 = stack.deep_view();
            let ghost out0 = postfix.deep_view();
            let mut done = false;
            while !done
                invariant
                    !done ==> pop_paren(stack.deep_view(), postfix.deep_view()) == pop_paren(
                        st0,
                        out0,
                    ),
                    done ==> (stack.deep_view(), postfix.deep_view()) == pop_paren(st0, out0),
                decreases stack@.len() + (if done {
                    0int
                } else {
                    1
                }),
            {
                let ghost st_pre = stack.deep_view();
                let ghost out_pre = postfix.deep_view();
                match stack.pop() {
                    None => {
                        done = true;
                    },
                    Some(top) => {
                        proof {
                            assert(stack.deep_view() =~= st_pre.drop_last());
                            assert(top@ == st_pre.last());
                        }
                        if tok_lparen(top.as_str()) {
                            done = true;
                        } else {
                            postfix.push(top);
                            proof {
                                assert(postfix.deep_view() =~= out_pre.push(st_pre.last()));
                            }
                        }
                    },
                }
            }
        } else if parse_lit(s).is_some() || in_variable_defintions(s, definitions) {
            let ghost old_out = postfix.deep_view();
            postfix.push(elem.clone());
            proof {
                assert(postfix.deep_view() =~= old_out.push(s@));
            }
        } else {
            match token_prec(s) {
                Some(p) => {
                    let ghost st0 = stack.deep_view();
                    let ghost out0 = postfix.deep_view();
                    let mut done = false;
                    while !done
                        invariant
                            !done ==> pop_ops(stack.deep_view(), postfix.deep_view(), p as int)
                                == pop_ops(st0, out0, p as int),
                            done ==> (stack.deep_view(), postfix.deep_view()) == pop_ops(
                                st0,
                                out0,
                                p as int,
                            ),
                        decreases stack@.len() + (if done {
                            0int
                        } else {
                            1
                        }),
                    {
                        let ghost st_pre = stack.deep_view();
                        let ghost out_pre = postfix.deep_view();
                        match stack.pop() {
                            None => {
                                done = true;
                            },
                            Some(top) => {
                                proof {
                                    assert(stack.deep_view() =~= st_pre.drop_last());
                                    assert(top@ == st_pre.last());
                                }
                                let ts = top.as_str();
                                if tok_lparen(ts) {
                                    stack.push(top);
                                    proof {
                                        assert(stack.deep_view() =~= st_pre.drop_last().push(
                                            st_pre.last(),
                                        ));
                                        assert(stack.deep_view() =~= st_pre);
                                    }
                                    done = true;
                                } else {
                                    match token_prec(ts) {
                                        Some(tp) => {
                                            if tp >= p {
                                                postfix.push(top);
                                                proof {
                                                    assert(postfix.deep_view() =~= out_pre.push(
                                                        st_pre.last(),
                                                    ));
                                                }
                                            } else {
                                                stack.push(top);
                                                proof {
                                                    assert(stack.deep_view()
                                                        =~= st_pre.drop_last().push(st_pre.last()));
                                                    assert(stack.deep_view() =~= st_pre);
                                                }
                                                done = true;
                                            }
                                        },
                                        None => {
                                            stack.push(top);
                                            proof {
                                                assert(stack.deep_view()
                                                    =~= st_pre.drop_last().push(st_pre.last()));
                                                assert(stack.deep_view() =~= st_pre);
                                            }
                                            done = true;
                                        },
                                    }
                                }
                            },
                        }
                    }
                    let ghost st_mid = stack.deep_view();
                    stack.push(elem.clone());
                    proof {
                        assert(stack.deep_view() =~= st_mid.push(s@));
                    }
                },
                None => {
                    let ghost old_out = postfix.deep_view();
                    postfix.push(elem.clone());
                    proof {
                        assert(postfix.deep_view() =~= old_out.push(s@));
                    }
                },
            }
        }
        idx = idx + 1;
    }
    let ghost st_end = stack.deep_view();
    let ghost out_end = postfix.deep_view();
    let mut done = false;
    while !done
        invariant
            !done ==> postfix.deep_view() + stack.deep_view().reverse() == out_end
                + st_end.reverse(),
            done ==> stack.deep_view().len() == 0 && postfix.deep_view() == out_end
                + st_end.reverse(),
        decreases stack@.len() + (if done {
            0int
        } else {
            1
        }),
    {
        let ghost st_pre = stack.deep_view();
        let ghost out_pre = postfix.deep_view();
        match stack.pop() {
            None => {
                proof {
                    assert(st_pre.reverse() =~= Seq::<Seq<char>>::empty());
                    assert(out_pre + st_pre.reverse() =~= out_pre);
                }
                done = true;
            },
            Some(top) => {
                postfix.push(top);
                proof {
                    assert(stack.deep_view() =~= st_pre.drop_last());
                    assert(postfix.deep_view() =~= out_pre.push(st_pre.last()));
                    assert(postfix.deep_view() + stack.deep_view().reverse() =~= out_pre
                        + st_pre.reverse());
                }
            },
        }
    }
    postfix
}

pub open spec fn scalar_leaf(q: Q) -> TreeV {
    TreeV { op: OperandV::Scalar(q), left: None, right: None }
}

pub open spec fn matrix_leaf(mv: MatV) -> TreeV {
    TreeV { op: OperandV::Matrix(mv), left: None, right: None }
}

/// Folds the postfix tokens over a stack of trees: numeric literals and
/// bound names push leaves; a unary operator takes the top of the stack as
/// its left child (or none, when the stack is empty); a binary operator
/// takes the top as its right child and the next as its left child,
/// underflowing fatally; an unrecognized token aborts the build. At the end
/// the stack must hold exactly one tree.
pub open spec fn build_s(
    toks: Seq<Seq<char>>,
    d: Map<Seq<char>, ValueV>,
    k: int,
    stack: Seq<TreeV>,
) -> Result<TreeV, CalcError>
    decreases toks.len() - k,
{
    if k < 0 || k >= toks.len() {
        if stack.len() == 1 {
            Ok(stack.last())
        } else {
            Err(CalcError::StructuralError)
        }
    } else {
        let t = toks[k];
        match lit_q(t) {
            Some(q) => build_s(toks, d, k + 1, stack.push(scalar_leaf(q))),
            None => if d.contains_key(t) {
                match d[t] {
                    ValueV::Scalar(q) => build_s(toks, d, k + 1, stack.push(scalar_leaf(q))),
                    ValueV::Matrix(mv) => build_s(toks, d, k + 1, stack.push(matrix_leaf(mv))),
                }
            } else {
                match op_of(t) {
                    Some(op) => if op_is_unary(op) {
                        if stack.len() >= 1 {
                            let node = TreeV {
                                op: OperandV::Operation(op),
                                left: Some(Box::new(stack.last())),
                                right: None,
                            };
                            build_s(toks, d, k + 1, stack.drop_last().push(node))
                        } else {
                            let node = TreeV {
                                op: OperandV::Operation(op),
                                left: None,
                                right: None,
                            };
                            build_s(toks, d, k + 1, stack.push(node))
                        }
                    } else {
                        if stack.len() >= 2 {
                            let node = TreeV {
                                op: OperandV::Operation(op),
                                left: Some(Box::new(stack.drop_last().last())),
                                right: Some(Box::new(stack.last())),
                            };
                            build_s(toks, d, k + 1, stack.drop_last().drop_last().push(node))
                        } else {
                            Err(CalcError::StackUnderflow)
                        }
                    },
                    None => Err(CalcError::MalformedToken),
                }
            },
        }
    }
}

fn is_unary_op(op: Operators) -> (r: bool)
    ensures
        r == op_is_unary(op),
{
    matches!(op, Operators::Transp | Operators::Det | Operators::Inv)
}

/// Builds the expression tree from a postfix token sequence, resolving
/// names against the variable store.
#[verifier::loop_isolation(false)]
#[verifier::rlimit(60)]
pub fn postfix_to_tree(postfix_exp: &Vec<String>, definitions: &Definitions) -> (r: Result<
    ExpTree,
    CalcError,
>)
    requires
        defs_wf(definitions),
    ensures
        match r {
            Ok(t) => build_s(postfix_exp.deep_view(), definitions@, 0, Seq::empty()) == Ok::<
                TreeV,
                CalcError,
            >(t@) && tree_wf(t@),
            Err(e) => build_s(postfix_exp.deep_view(), definitions@, 0, Seq::empty()) == Err::<
                TreeV,
                CalcError,
            >(e),
        },
{
    let ghost toks = postfix_exp.deep_view();
    let ghost d = definitions@;
    let mut stack: Vec<ExpTree> = Vec::new();
    let mut idx: usize = 0;
    proof {
        assert(stack.deep_view() =~= Seq::<TreeV>::empty());
    }
    while idx < postfix_exp.len()
        invariant
            idx <= postfix_exp@.len(),
            build_s(toks, d, idx as int, stack.deep_view()) == build_s(toks, d, 0, Seq::empty()),
            forall|x: int| 0 <= x < stack@.len() ==> tree_wf(#[trigger] stack.deep_view()[x]),
        decreases postfix_exp@.len() - idx,
    {
        let elem: &String = &postfix_exp[idx];
        let s: &str = elem.as_str();
        proof {
            assert(toks[idx as int] == s@);
        }
        let ghost st_pre = stack.deep_view();
        if let Some(num) = parse_lit(s) {
            stack.push(ExpTree::new(Operand::Scalar(num)));
            proof {
                assert(stack.deep_view() =~= st_pre.push(scalar_leaf(num@)));
            }
        } else {
            match definitions.get(s) {
                Some(val) => {
                    match val {
                        Value::Scalar(num) => {
                            let num2 = *num;
                            stack.push(ExpTree::new(Operand::Scalar(num2)));
                            proof {
                                assert(stack.deep_view() =~= st_pre.push(scalar_leaf(num2@)));
                            }
                        },
                        Value::Matrix(mat) => {
                            let mat2 = mat.clone();
                            stack.push(ExpTree::new(Operand::Matrix(mat2)));
                            proof {
                                assert(stack.deep_view() =~= st_pre.push(matrix_leaf(mat2@)));
                            }
                        },
                    }
                },
                None => {
                    match token_op(s) {
                        Some(operand) => {
                            let mut node = ExpTree::new(Operand::Operation(operand));
                            if is_unary_op(operand) {
                                match stack.pop() {
                                    Some(left_child) => {
                                        proof {
                                            assert(stack.deep_view() =~= st_pre.drop_last());
                                        }
                                        node.set_left_op(left_child);
                                    },
                                    None => {
                                    },
                                }
                            } else {
                                match stack.pop() {
                                    Some(right_child) => {
                                        node.set_right_op(right_child);
                                    },
                                    None => {
                                        return Err(CalcError::StackUnderflow);
                                    },
                                }
                                proof {
                                    assert(stack.deep_view() =~= st_pre.drop_last());
                                }
                                match stack.pop() {
                                    Some(left_child) => {
                                        node.set_left_op(left_child);
                                    },
                                    None => {
                                        return Err(CalcError::StackUnderflow);
                                    },
                                }
                                proof {
                                    assert(stack.deep_view() =~= st_pre.drop_last().drop_last());
                                }
                            }
                            let ghost st_mid = stack.deep_view();
                            stack.push(node);
                            proof {
                                assert(stack.deep_view() =~= st_mid.push(node@));
                            }
                        },
                        None => {
                            return Err(CalcError::MalformedToken);
                        },
                    }
                },
            }
        }
        idx = idx + 1;
    }
    if stack.len() == 1 {
        match stack.pop() {
            Some(tree) => Ok(tree),
            None => Err(CalcError::StructuralError),
        }
    } else {
        Err(CalcError::StructuralError)
    }
}

/// A scalar raised to a scalar: defined for integer exponents only; a
/// negative exponent inverts a non-zero base first.
pub open spec fn spow_s(a: Q, b: Q) -> Result<ValueV, CalcError> {
    if !q_is_int(b) {
        Err(CalcError::UnsupportedOperation)
    } else {
        let k = q_trunc(b);
        if k >= 0 {
            match q_pow_chk(a, k as nat) {
                None => Err(CalcError::Overflow),
                Some(v) => Ok(ValueV::Scalar(v)),
            }
        } else if q_is_zero(a) {
            Err(CalcError::UnsupportedOperation)
        } else {
            match q_div_chk(q_one(), a) {
                None => Err(CalcError::Overflow),
                Some(ia) => match q_pow_chk(ia, (-k) as nat) {
                    None => Err(CalcError::Overflow),
                    Some(v) => Ok(ValueV::Scalar(v)),
                },
            }
        }
    }
}

/// Clamping of an integer to the range of a signed byte, as the matrix
/// power's exponent conversion does.
pub open spec fn to_i8_sat(x: int) -> int {
    if x > 127 {
        127
    } else if x < -128 {
        -128
    } else {
        x
    }
}

/// The value a tree denotes: a leaf yields its scalar or matrix, an
/// internal node dispatches on its operator and on the runtime kinds of its
/// solved children. The first failure anywhere aborts the whole walk.
pub open spec fn solve_s(t: TreeV) -> Result<ValueV, CalcError>
    decreases t,
{
    if t.left is None && t.right is None {
        match t.op {
            OperandV::Operation(_) => Err(CalcError::StructuralError),
            OperandV::Scalar(q) => Ok(ValueV::Scalar(q)),
            OperandV::Matrix(mv) => Ok(ValueV::Matrix(mv)),
        }
    } else {
        match t.op {
            OperandV::Operation(op) => match op {
                Operators::Mul => match (t.left, t.right) {
                    (Some(lb), Some(rb)) => match solve_s(*lb) {
                        Err(e) => Err(e),
                        Ok(lv) => match solve_s(*rb) {
                            Err(e) => Err(e),
                            Ok(rv) => match (lv, rv) {
                                (ValueV::Scalar(a), ValueV::Scalar(b)) => match q_mul_chk(a, b) {
                                    None => Err(CalcError::Overflow),
                                    Some(v) => Ok(ValueV::Scalar(v)),
                                },
                                (ValueV::Scalar(a), ValueV::Matrix(mb)) => match mul_scalar_v(
                                    mb,
                                    a,
                                ) {
                                    Err(e) => Err(e),
                                    Ok(mc) => Ok(ValueV::Matrix(mc)),
                                },
                                (ValueV::Matrix(ma), ValueV::Scalar(b)) => match mul_scalar_v(
                                    ma,
                                    b,
                                ) {
                                    Err(e) => Err(e),
                                    Ok(mc) => Ok(ValueV::Matrix(mc)),
                                },
                                (ValueV::Matrix(ma), ValueV::Matrix(mb)) => match mul_v(ma, mb) {
                                    Err(e) => Err(e),
                                    Ok(mc) => Ok(ValueV::Matrix(mc)),
                                },
                            },
                        },
                    },
                    _ => Err(CalcError::StructuralError),
                },
                Operators::Div => Err(CalcError::UnsupportedOperation),
                Operators::Sum => match (t.left, t.right) {
                    (Some(lb), Some(rb)) => match solve_s(*lb) {
                        Err(e) => Err(e),
                        Ok(lv) => match solve_s(*rb) {
                            Err(e) => Err(e),
                            Ok(rv) => match (lv, rv) {
                                (ValueV::Scalar(a), ValueV::Scalar(b)) => match q_add_chk(a, b) {
                                    None => Err(CalcError::Overflow),
                                    Some(v) => Ok(ValueV::Scalar(v)),
                                },
                                (ValueV::Matrix(ma), ValueV::Matrix(mb)) => match sum_v(ma, mb) {
                                    Err(e) => Err(e),
                                    Ok(mc) => Ok(ValueV::Matrix(mc)),
                                },
                                _ => Err(CalcError::TypeMismatch),
                            },
                        },
                    },
                    _ => Err(CalcError::StructuralError),
                },
                Operators::Sub => match (t.left, t.right) {
                    (Some(lb), Some(rb)) => match solve_s(*lb) {
                        Err(e) => Err(e),
                        Ok(lv) => match solve_s(*rb) {
                            Err(e) => Err(e),
                            Ok(rv) => match (lv, rv) {
                                (ValueV::Scalar(a), ValueV::Scalar(b)) => match q_sub_chk(a, b) {
                                    None => Err(CalcError::Overflow),
                                    Some(v) => Ok(ValueV::Scalar(v)),
                                },
                                (ValueV::Matrix(ma), ValueV::Matrix(mb)) => match sub_v(ma, mb) {
                                    Err(e) => Err(e),
                                    Ok(mc) => Ok(ValueV::Matrix(mc)),
                                },
                                _ => Err(CalcError::TypeMismatch),
                            },
                        },
                    },
                    _ => Err(CalcError::StructuralError),
                },
                Operators::Pow => match (t.left, t.right) {
                    (Some(lb), Some(rb)) => match solve_s(*lb) {
                        Err(e) => Err(e),
                        Ok(lv) => match solve_s(*rb) {
                            Err(e) => Err(e),
                            Ok(rv) => match (lv, rv) {
                                (ValueV::Scalar(a), ValueV::Scalar(b)) => spow_s(a, b),
                                (ValueV::Matrix(ma), ValueV::Scalar(b)) => match pow_v(
                                    ma,
                                    to_i8_sat(q_trunc(b)),
                                ) {
                                    Err(e) => Err(e),
                                    Ok(mc) => Ok(ValueV::Matrix(mc)),
                                },
                                _ => Err(CalcError::TypeMismatch),
                            },
                        },
                    },
                    _ => Err(CalcError::StructuralError),
                },
                Operators::Transp => if t.right is Some {
                    Err(CalcError::StructuralError)
                } else {
                    match t.left {
                        None => Err(CalcError::StructuralError),
                        Some(lb) => match solve_s(*lb) {
                            Err(e) => Err(e),
                            Ok(lv) => match lv {
                                ValueV::Scalar(_) => Err(CalcError::TypeMismatch),
                                ValueV::Matrix(ma) => match transpose_res_v(ma) {
                                    Err(e) => Err(e),
                                    Ok(mc) => Ok(ValueV::Matrix(mc)),
                                },
                            },
                        },
                    }
                },
                Operators::Det => if t.right is Some {
                    Err(CalcError::StructuralError)
                } else {
                    match t.left {
                        None => Err(CalcError::StructuralError),
                        Some(lb) => match solve_s(*lb) {
                            Err(e) => Err(e),
                            Ok(lv) => match lv {
                                ValueV::Scalar(_) => Err(CalcError::TypeMismatch),
                                ValueV::Matrix(ma) => match det_v(ma) {
                                    Err(e) => Err(e),
                                    Ok(d) => Ok(ValueV::Scalar(d)),
                                },
                            },
                        },
                    }
                },
                Operators::Inv => if t.right is Some {
                    Err(CalcError::StructuralError)
                } else {
                    match t.left {
                        None => Err(CalcError::StructuralError),
                        Some(lb) => match solve_s(*lb) {
                            Err(e) => Err(e),
                            Ok(lv) => match lv {
                                ValueV::Scalar(_) => Err(CalcError::TypeMismatch),
                                ValueV::Matrix(ma) => match inv_v(ma) {
                                    Err(e) => Err(e),
                                    Ok(mc) => Ok(ValueV::Matrix(mc)),
                                },
                            },
                        },
                    }
                },
            },
            _ => Err(CalcError::StructuralError),
        }
    }
}

/// Relates an evaluation result to its mathematical mirror.
pub open spec fn res_value_is(r: Result<Value, CalcError>, o: Result<ValueV, CalcError>) -> bool {
    match o {
        Ok(v) => r matches Ok(x) && x.wf() && x@ == v,
        Err(e) => r matches Err(e2) && e2 == e,
    }
}

/// A scalar raised to a scalar exponent.
fn scalar_pow(a: &Rat, b: &Rat) -> (r: Result<Value, CalcError>)
    requires
        a.wf(),
        b.wf(),
    ensures
        res_value_is(r, spow_s(a@, b@)),
{
    if !b.is_int() {
        return Err(CalcError::UnsupportedOperation);
    }
    let k = b.trunc();
    if k >= 0 {
        match a.checked_pow(k as u64) {
            Some(v) => Ok(Value::Scalar(v)),
            None => Err(CalcError::Overflow),
        }
    } else if a.is_zero() {
        Err(CalcError::UnsupportedOperation)
    } else {
        let one = Rat::one();
        let ia = match one.checked_div(a) {
            Some(v) => v,
            None => {
                return Err(CalcError::Overflow);
            },
        };
        let mag: u64 = if k == i64::MIN {
            0x8000_0000_0000_0000u64
        } else {
            (-k) as u64
        };
        match ia.checked_pow(mag) {
            Some(v) => Ok(Value::Scalar(v)),
            None => Err(CalcError::Overflow),
        }
    }
}

impl ExpTree {
    /// Evaluates the tree to a single scalar or matrix value.
    pub fn solve(&self) -> (r: Result<Value, CalcError>)
        requires
            tree_wf(self@),
        ensures
            res_value_is(r, solve_s(self@)),
        decreases *self,
    {
        if self.is_leaf() {
            return match &self.op {
                Operand::Operation(_) => Err(CalcError::StructuralError),
                Operand::Scalar(v) => Ok(Value::Scalar(*v)),
                Operand::Matrix(v) => Ok(Value::Matrix(v.clone())),
            };
        }
        let op = match &self.op {
            Operand::Operation(o) => *o,
            _ => {
                return Err(CalcError::StructuralError);
            },
        };
        match op {
            Operators::Div => Err(CalcError::UnsupportedOperation),
            Operators::Mul | Operators::Sum | Operators::Sub | Operators::Pow => {
                let (lb, rb) = match (&self.left_op, &self.right_op) {
                    (Some(lb), Some(rb)) => (lb, rb),
                    _ => {
                        return Err(CalcError::StructuralError);
                    },
                };
                let lv = match lb.solve() {
                    Ok(v) => v,
                    Err(e) => {
                        return Err(e);
                    },
                };
                let rv = match rb.solve() {
                    Ok(v) => v,
                    Err(e) => {
                        return Err(e);
                    },
                };
                match op {
                    Operators::Mul => match (lv, rv) {
                        (Value::Scalar(a), Value::Scalar(b)) => match a.checked_mul(&b) {
                            Some(v) => Ok(Value::Scalar(v)),
                            None => Err(CalcError::Overflow),
                        },
                        (Value::Scalar(a), Value::Matrix(mb)) => match crate::math::mul_scalar(
                            &mb,
                            a,
                        ) {
                            Ok(mc) => Ok(Value::Matrix(mc)),
                            Err(e) => Err(e),
                        },
                        (Value::Matrix(ma), Value::Scalar(b)) => match crate::math::mul_scalar(
                            &ma,
                            b,
                        ) {
                            Ok(mc) => Ok(Value::Matrix(mc)),
                            Err(e) => Err(e),
                        },
                        (Value::Matrix(ma), Value::Matrix(mb)) => match crate::math::mul(
                            &ma,
                            &mb,
                        ) {
                            Ok(mc) => Ok(Value::Matrix(mc)),
                            Err(e) => Err(e),
                        },
                    },
                    Operators::Sum => match (lv, rv) {
                        (Value::Scalar(a), Value::Scalar(b)) => match a.checked_add(&b) {
                            Some(v) => Ok(Value::Scalar(v)),
                            None => Err(CalcError::Overflow),
                        },
                        (Value::Matrix(ma), Value::Matrix(mb)) => match crate::math::sum(
                            &ma,
                            &mb,
                        ) {
                            Ok(mc) => Ok(Value::Matrix(mc)),
                            Err(e) => Err(e),
                        },
                        _ => Err(CalcError::TypeMismatch),
                    },
                    Operators::Sub => match (lv, rv) {
                        (Value::Scalar(a), Value::Scalar(b)) => match a.checked_sub(&b) {
                            Some(v) => Ok(Value::Scalar(v)),
                            None => Err(CalcError::Overflow),
                        },
                        (Value::Matrix(ma), Value::Matrix(mb)) => match crate::math::sub(
                            &ma,
                            &mb,
                        ) {
                            Ok(mc) => Ok(Value::Matrix(mc)),
                            Err(e) => Err(e),
                        },
                        _ => Err(CalcError::TypeMismatch),
                    },
                    _ => match (lv, rv) {
                        (Value::Scalar(a), Value::Scalar(b)) => scalar_pow(&a, &b),
                        (Value::Matrix(ma), Value::Scalar(b)) => {
                            let k = b.trunc();
                            let e: i8 = if k > 127 {
                                127
                            } else if k < -128 {
                                -128
                            } else {
                                k as i8
                            };
                            match crate::math::pow(&ma, e) {
                                Ok(mc) => Ok(Value::Matrix(mc)),
                                Err(e2) => Err(e2),
                            }
                        },
                        _ => Err(CalcError::TypeMismatch),
                    },
                }
            },
            Operators::Transp | Operators::Det | Operators::Inv => {
                if self.right_op.is_some() {
                    return Err(CalcError::StructuralError);
                }
                let lb = match &self.left_op {
                    Some(lb) => lb,
                    None => {
                        return Err(CalcError::StructuralError);
                    },
                };
                let lv = match lb.solve() {
                    Ok(v) => v,
                    Err(e) => {
                        return Err(e);
                    },
                };
                let ma = match lv {
                    Value::Scalar(_) => {
                        return Err(CalcError::TypeMismatch);
                    },
                    Value::Matrix(ma) => ma,
                };
                match op {
                    Operators::Transp => match crate::math::transpose(&ma) {
                        Ok(mc) => Ok(Value::Matrix(mc)),
                        Err(e) => Err(e),
                    },
                    Operators::Det => match crate::math::det(&ma) {
                        Ok(d) => Ok(Value::Scalar(d)),
                        Err(e) => Err(e),
                    },
                    _ => match crate::math::inv(&ma) {
                        Ok(mc) => Ok(Value::Matrix(mc)),
                        Err(e) => Err(e),
                    },
                }
            },
        }
    }
}

/// The value of an expression: split on spaces, convert to postfix, build
/// the tree against the store, and evaluate it.
pub open spec fn calc_s(input: Seq<char>, d: Map<Seq<char>, ValueV>) -> Result<ValueV, CalcError> {
    match build_s(postfix_of(split_s(input), d.dom()), d, 0, Seq::empty()) {
        Err(e) => Err(e),
        Ok(t) => solve_s(t),
    }
}

/// Evaluates an infix expression of space-separated tokens against the
/// variable store, to a single scalar or matrix value.
pub fn calculate(infix_exp: &str, definitions: &Definitions) -> (r: Result<Value, CalcError>)
    requires
        defs_wf(definitions),
    ensures
        res_value_is(r, calc_s(infix_exp@, definitions@)),
{
    let tokens = split_tokens(infix_exp);
    let postfix = infix_to_postfix(&tokens, definitions);
    match postfix_to_tree(&postfix, definitions) {
        Err(e) => Err(e),
        Ok(tree) => tree.solve(),
    }
}

} // verus!

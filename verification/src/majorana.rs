//! The Majorana algebra engine: sparse polynomials over bitmask-encoded
//! basis elements with complex integer coefficients.
//!
//! A basis key is a `u64` bitmask: bit `i` set means generator `c_i` is a
//! factor of the (canonically ascending) generator product. A polynomial is
//! a vector of terms with strictly ascending keys and nonzero coefficients;
//! zero terms are pruned eagerly after every arithmetic operation.

use vstd::prelude::*;

verus! {

/// A complex number with 64-bit signed integer parts.
#[derive(Clone, Copy, PartialEq, Eq, Structural)]
pub struct Cpx {
    pub re: i64,
    pub im: i64,
}

/// One term of a polynomial: a basis key and its coefficient.
#[derive(Clone, Copy, PartialEq, Eq, Structural)]
pub struct Term {
    pub key: u64,
    pub coeff: Cpx,
}

/// The errors an input line can be rejected with. Parsing and evaluation
/// never panic: every malformed input or arithmetic overflow is reported.
#[derive(Debug)]
pub enum EvalError {
    /// An atom that is neither a complex literal nor a generator reference.
    MalformedAtom(String),
    /// A generator reference whose index is 64 or more.
    GeneratorOutOfRange(String),
    /// A `*` with no expression to its right.
    MissingOperand,
    /// A `+` standing where a product operand is expected.
    StrayOperator,
    /// A coefficient left the range of 64-bit signed integers.
    Overflow,
}

pub open spec fn c_zero() -> Cpx {
    Cpx { re: 0, im: 0 }
}

pub open spec fn c_one() -> Cpx {
    Cpx { re: 1, im: 0 }
}

pub open spec fn c_is_zero(c: Cpx) -> bool {
    c.re == 0 && c.im == 0
}

/// Whether a mathematical integer fits in an `i64`.
pub open spec fn fits(v: int) -> bool {
    i64::MIN <= v <= i64::MAX
}

/// Exact complex addition; `None` when a part leaves the `i64` range.
pub open spec fn cadd(a: Cpx, b: Cpx) -> Option<Cpx> {
    if fits(a.re + b.re) && fits(a.im + b.im) {
        Some(Cpx { re: (a.re + b.re) as i64, im: (a.im + b.im) as i64 })
    } else {
        None
    }
}

/// The real part of `a * b`, negated when `neg`, as an unbounded integer.
pub open spec fn prod_re(a: Cpx, b: Cpx, neg: bool) -> int {
    if neg {
        -(a.re * b.re - a.im * b.im)
    } else {
        a.re * b.re - a.im * b.im
    }
}

/// The imaginary part of `a * b`, negated when `neg`, as an unbounded integer.
pub open spec fn prod_im(a: Cpx, b: Cpx, neg: bool) -> int {
    if neg {
        -(a.re * b.im + a.im * b.re)
    } else {
        a.re * b.im + a.im * b.re
    }
}

/// Exact complex multiplication with an optional sign flip; `None` when a
/// part leaves the `i64` range.
pub open spec fn cmuls(a: Cpx, b: Cpx, neg: bool) -> Option<Cpx> {
    if fits(prod_re(a, b, neg)) && fits(prod_im(a, b, neg)) {
        Some(Cpx { re: prod_re(a, b, neg) as i64, im: prod_im(a, b, neg) as i64 })
    } else {
        None
    }
}

/// The normal-form invariant: keys strictly ascending, no zero coefficients.
pub open spec fn wf_terms(s: Seq<Term>) -> bool {
    &&& forall|i: int, j: int| 0 <= i < j < s.len() ==> s[i].key < s[j].key
    &&& forall|i: int| 0 <= i < s.len() ==> !c_is_zero(#[trigger] s[i].coeff)
}

/// The coefficient a term vector gives to basis key `k` (the first match,
/// which for a well-formed vector is the only one), or zero.
pub open spec fn coeff_of(s: Seq<Term>, k: u64) -> Cpx
    decreases s.len(),
{
    if s.len() == 0 {
        c_zero()
    } else if s[0].key == k {
        s[0].coeff
    } else {
        coeff_of(s.drop_first(), k)
    }
}

pub open spec fn contains_key(s: Seq<Term>, k: u64) -> bool {
    exists|i: int| 0 <= i < s.len() && s[i].key == k
}

/// Polynomial addition: merge of two vectors sorted by key, coefficients at
/// shared keys summed, zero results pruned. `None` when a sum overflows.
pub open spec fn sadd(a: Seq<Term>, b: Seq<Term>) -> Option<Seq<Term>>
    decreases a.len() + b.len(),
{
    if a.len() == 0 {
        Some(b)
    } else if b.len() == 0 {
        Some(a)
    } else if a[0].key < b[0].key {
        match sadd(a.drop_first(), b) {
            Some(r) => Some(seq![a[0]] + r),
            None => None,
        }
    } else if b[0].key < a[0].key {
        match sadd(a, b.drop_first()) {
            Some(r) => Some(seq![b[0]] + r),
            None => None,
        }
    } else {
        match cadd(a[0].coeff, b[0].coeff) {
            Some(c) => match sadd(a.drop_first(), b.drop_first()) {
                Some(r) => if c_is_zero(c) {
                    Some(r)
                } else {
                    Some(seq![Term { key: a[0].key, coeff: c }] + r)
                },
                None => None,
            },
            None => None,
        }
    }
}

/// Whether bit `i` of `x` is set (generator `c_i` occurs in basis key `x`).
pub open spec fn bit_set(x: u64, i: u64) -> bool {
    (x >> i) & 1 == 1
}

/// How many bits of `x` are set at positions `j` and above.
pub open spec fn cnt_from(x: u64, j: u64) -> nat
    decreases 64 - j,
{
    if j >= 64 {
        0
    } else {
        (if bit_set(x, j) { 1nat } else { 0nat }) + cnt_from(x, (j + 1) as u64)
    }
}

/// The number of adjacent transpositions needed to merge the generator
/// products `x` and `y` into canonical ascending order, counted from
/// position `i` upward: for each generator of `y`, the generators of `x`
/// with a strictly greater index that it must move past.
pub open spec fn flips_from(x: u64, y: u64, i: u64) -> nat
    decreases 64 - i,
{
    if i >= 64 {
        0
    } else {
        (if bit_set(y, i) { cnt_from(x, (i + 1) as u64) } else { 0nat }) + flips_from(
            x,
            y,
            (i + 1) as u64,
        )
    }
}

/// Whether the product of basis elements `x` and `y` carries a `-1` factor.
pub open spec fn sgn_odd(x: u64, y: u64) -> bool {
    flips_from(x, y, 0) % 2 == 1
}

proof fn lemma_cnt_bound(x: u64, j: u64)
    ensures
        cnt_from(x, j) <= 64,
    decreases 64 - j,
{
    if j < 64 {
        lemma_cnt_bound(x, (j + 1) as u64);
        assert(cnt_from(x, (j + 1) as u64) <= 63) by {
            lemma_cnt_tail(x, (j + 1) as u64);
        }
    }
}

proof fn lemma_cnt_tail(x: u64, j: u64)
    ensures
        cnt_from(x, j) <= 64 - (if j < 64 { j as int } else { 64 }),
    decreases 64 - j,
{
    if j < 64 {
        lemma_cnt_tail(x, (j + 1) as u64);
    }
}

proof fn lemma_flips_bound(x: u64, y: u64, i: u64)
    ensures
        flips_from(x, y, i) <= 64 * 64,
    decreases 64 - i,
{
    if i < 64 {
        lemma_flips_bound(x, y, (i + 1) as u64);
        lemma_cnt_tail(x, (i + 1) as u64);
        assert(flips_from(x, y, (i + 1) as u64) <= 64 * 63) by {
            lemma_flips_tail(x, y, (i + 1) as u64);
        }
    }
}

proof fn lemma_flips_tail(x: u64, y: u64, i: u64)
    ensures
        flips_from(x, y, i) <= 64 * (64 - (if i < 64 { i as int } else { 64 })),
    decreases 64 - i,
{
    if i < 64 {
        lemma_flips_tail(x, y, (i + 1) as u64);
        lemma_cnt_tail(x, (i + 1) as u64);
    }
}

/// The transposition-parity sign rule: whether simplifying the product of
/// basis elements `x` and `y` needs an odd number of adjacent swaps, so that
/// `c(x) * c(y) == (-1)^prod(x, y) * c(x ^ y)`.
pub fn prod(x: u64, y: u64) -> (r: bool)
    ensures
        r == sgn_odd(x, y),
{
    let mut count: u64 = 0;
    let mut i: u64 = 0;
    proof {
        lemma_flips_bound(x, y, 0);
    }
    while i < 64
        invariant
            0 <= i <= 64,
            count + flips_from(x, y, i) == flips_from(x, y, 0),
            flips_from(x, y, 0) <= 64 * 64,
        decreases 64 - i,
    {
        if (y >> i) & 1 == 1 {
            let mut j: u64 = i + 1;
            proof {
                lemma_cnt_bound(x, i);
            }
            while j < 64
                invariant
                    i + 1 <= j <= 64,
                    i < 64,
                    bit_set(y, i),
                    count + cnt_from(x, j) + flips_from(x, y, (i + 1) as u64) == flips_from(
                        x,
                        y,
                        0,
                    ),
                    flips_from(x, y, 0) <= 64 * 64,
                decreases 64 - j,
            {
                if (x >> j) & 1 == 1 {
                    count = count + 1;
                }
                j = j + 1;
            }
        }
        i = i + 1;
    }
    count % 2 == 1
}

/// Polynomial multiplication, defined as the left-to-right accumulation of
/// the pairwise term products into `acc`: the product of terms `(k1, c1)`
/// and `(k2, c2)` contributes `c1 * c2 * (-1)^sgn(k1, k2)` at key
/// `k1 ^ k2`. `None` exactly when a coefficient leaves the `i64` range.
pub open spec fn smul(a: Seq<Term>, b: Seq<Term>, i: nat, j: nat, acc: Seq<Term>) -> Option<
    Seq<Term>,
>
    decreases a.len() - i, b.len() - j,
{
    if i >= a.len() {
        Some(acc)
    } else if j >= b.len() {
        smul(a, b, (i + 1) as nat, 0, acc)
    } else {
        match cmuls(a[i as int].coeff, b[j as int].coeff, sgn_odd(a[i as int].key, b[j as int].key)) {
            Some(c) => {
                let t: Seq<Term> = if c_is_zero(c) {
                    Seq::empty()
                } else {
                    seq![Term { key: a[i as int].key ^ b[j as int].key, coeff: c }]
                };
                match sadd(acc, t) {
                    Some(acc2) => smul(a, b, i, (j + 1) as nat, acc2),
                    None => None,
                }
            },
            None => None,
        }
    }
}

/// The full product of two polynomials, starting from the empty accumulator.
pub open spec fn spoly_mul(a: Seq<Term>, b: Seq<Term>) -> Option<Seq<Term>> {
    smul(a, b, 0, 0, Seq::empty())
}

/// A sparse polynomial over the Majorana algebra: a sum of basis keys, each
/// weighted by a nonzero complex coefficient, kept sorted by key.
pub struct MajoranaExpr {
    terms: Vec<Term>,
}

impl View for MajoranaExpr {
    type V = Seq<Term>;

    closed spec fn view(&self) -> Seq<Term> {
        self.terms@
    }
}

impl MajoranaExpr {
    /// The normal-form invariant of the polynomial.
    pub open spec fn wf(&self) -> bool {
        wf_terms(self@)
    }

    /// The zero polynomial.
    pub fn new() -> (r: MajoranaExpr)
        ensures
            r@ == Seq::<Term>::empty(),
            r.wf(),
    {
        MajoranaExpr { terms: Vec::new() }
    }

    /// Parse an atom into a one-term polynomial: a complex literal becomes
    /// `{0 -> value}` (pruned if zero), a generator reference `c<i1>c<i2>...`
    /// with strictly ascending indices below 64 becomes `{key -> 1+0i}` with
    /// the named bits set. Anything else is reported: an index of 64 or more
    /// as `GeneratorOutOfRange`, any other failure as `MalformedAtom`, both
    /// carrying the offending atom.
    pub fn from_str(s: &str) -> (r: Result<MajoranaExpr, EvalError>)
        ensures
            r is Ok ==> r->Ok_0.wf(),
            (r is Ok) == (spec_atom(s@) is Some),
            r is Ok ==> Some(r->Ok_0@) == spec_atom(s@),
            (r is Ok) == (parse_complex(s@) is Some || (gen_shape(s@, 0) && gen_keys(s@, 0, -1)
                is Some)),
            parse_complex(s@) is Some ==> r is Ok && r->Ok_0@ == scalar_terms(
                parse_complex(s@)->Some_0,
            ),
            (parse_complex(s@) is None && gen_shape(s@, 0) && gen_keys(s@, 0, -1) is Some) ==> (
            r is Ok && r->Ok_0@ == seq![
                Term { key: gen_keys(s@, 0, -1)->Some_0, coeff: c_one() },
            ]),
            (parse_complex(s@) is None && gen_shape(s@, 0) && gen_keys(s@, 0, -1) is None
                && gen_big(s@, 0)) ==> (r is Err && r->Err_0 is GeneratorOutOfRange
                && r->Err_0->GeneratorOutOfRange_0@ == s@),
            (parse_complex(s@) is None && !(gen_shape(s@, 0) && gen_keys(s@, 0, -1) is Some)
                && !(gen_shape(s@, 0) && gen_keys(s@, 0, -1) is None && gen_big(s@, 0))) ==> (
            r is Err && r->Err_0 is MalformedAtom && r->Err_0->MalformedAtom_0@ == s@),
    {
        match parse_complex_exec(s) {
            Some(c) => {
                if c.re == 0 && c.im == 0 {
                    Ok(MajoranaExpr::new())
                } else {
                    let mut tv: Vec<Term> = Vec::new();
                    tv.push(Term { key: 0, coeff: c });
                    let p = MajoranaExpr { terms: tv };
                    proof {
                        assert(p@ =~= scalar_terms(c));
                    }
                    Ok(p)
                }
            },
            None => match parse_gen_exec(s) {
                GenScan::Key(k) => {
                    let mut tv: Vec<Term> = Vec::new();
                    tv.push(Term { key: k, coeff: Cpx { re: 1, im: 0 } });
                    let p = MajoranaExpr { terms: tv };
                    proof {
                        assert(p@ =~= seq![Term { key: k, coeff: c_one() }]);
                    }
                    Ok(p)
                },
                GenScan::Big => Err(EvalError::GeneratorOutOfRange(String::from_str(s))),
                GenScan::Bad => Err(EvalError::MalformedAtom(String::from_str(s))),
            },
        }
    }

    /// The identity polynomial `{0 -> 1+0i}`, the empty product.
    pub fn one() -> (r: MajoranaExpr)
        ensures
            r@ == identity_poly(),
            r.wf(),
    {
        let mut tv: Vec<Term> = Vec::new();
        tv.push(Term { key: 0, coeff: Cpx { re: 1, im: 0 } });
        let p = MajoranaExpr { terms: tv };
        proof {
            assert(p@ =~= identity_poly());
        }
        p
    }

    /// An owned copy of the polynomial.
    pub fn duplicate(&self) -> (r: MajoranaExpr)
        ensures
            r@ == self@,
    {
        let mut tv: Vec<Term> = Vec::new();
        let mut i: usize = 0;
        while i < self.terms.len()
            invariant
                0 <= i <= self@.len(),
                tv@ == self@.take(i as int),
            decreases self@.len() - i,
        {
            tv.push(self.terms[i]);
            proof {
                assert(tv@ =~= self@.take(i + 1));
            }
            i = i + 1;
        }
        proof {
            assert(self@.take(self@.len() as int) =~= self@);
        }
        MajoranaExpr { terms: tv }
    }

    /// The textual normal form: `"0"` for the zero polynomial, otherwise
    /// each term as `(<re>+<im>i)c<i1>c<i2>...` with generator indices
    /// ascending, terms joined by ` + ` in ascending key order.
    pub fn render(&self) -> (r: String)
        requires
            self.wf(),
        ensures
            r@ == spec_render(self@),
    {
        if self.terms.len() == 0 {
            proof {
                reveal_strlit("0");
            }
            let z = String::from_str("0");
            proof {
                assert(z@ =~= spec_render(self@));
            }
            return z;
        }
        let mut out = String::new();
        let mut i: usize = 0;
        proof {
            reveal_strlit("(");
            reveal_strlit(")");
            reveal_strlit(" + ");
            assert(out@ + render_terms(self@, 0) =~= render_terms(self@, 0));
        }
        while i < self.terms.len()
            invariant
                0 <= i <= self@.len(),
                self@.len() > 0,
                out@ + render_terms(self@, i as int) == render_terms(self@, 0),
            decreases self@.len() - i,
        {
            let ghost pre = out@;
            proof {
                reveal_strlit("(");
                reveal_strlit(")");
                reveal_strlit(" + ");
            }
            let t = self.terms[i];
            out.append("(");
            push_cpx(&mut out, t.coeff);
            out.append(")");
            push_gens(&mut out, t.key);
            proof {
                assert(out@ =~= pre + term_str(self@[i as int]));
            }
            if i + 1 < self.terms.len() {
                out.append(" + ");
                proof {
                    assert(" + "@ =~= seq![' ', '+', ' ']);
                    assert(out@ + render_terms(self@, i + 1) =~= pre + render_terms(
                        self@,
                        i as int,
                    ));
                }
            } else {
                proof {
                    assert(out@ + render_terms(self@, i + 1) =~= pre + render_terms(
                        self@,
                        i as int,
                    ));
                }
            }
            i = i + 1;
        }
        proof {
            assert(render_terms(self@, i as int) =~= Seq::<char>::empty());
            assert(out@ + Seq::<char>::empty() =~= out@);
            assert(out@ =~= spec_render(self@));
        }
        out
    }

    /// The coefficient of basis key `k`, or zero if `k` is absent.
    pub fn get(&self, k: u64) -> (r: Cpx)
        requires
            self.wf(),
        ensures
            r == coeff_of(self@, k),
    {
        let mut i: usize = 0;
        proof {
            assert(self@.skip(0) =~= self@);
        }
        while i < self.terms.len()
            invariant
                0 <= i <= self.terms.len(),
                coeff_of(self@, k) == coeff_of(self@.skip(i as int), k),
            decreases self.terms.len() - i,
        {
            proof {
                assert(self@.skip(i as int).drop_first() =~= self@.skip(i + 1));
            }
            if self.terms[i].key == k {
                return self.terms[i].coeff;
            }
            i = i + 1;
        }
        Cpx { re: 0, im: 0 }
    }

    /// How many terms the normal form has.
    pub fn term_count(&self) -> (r: usize)
        ensures
            r == self@.len(),
    {
        self.terms.len()
    }

    /// The term at position `i` of the normal form (keys ascend with `i`).
    pub fn term_at(&self, i: usize) -> (r: Term)
        requires
            i < self@.len(),
        ensures
            r == self@[i as int],
    {
        self.terms[i]
    }

    /// Structural equality, which for well-formed polynomials is equality
    /// of the key-to-coefficient mappings.
    pub fn eq_poly(&self, other: &MajoranaExpr) -> (r: bool)
        ensures
            r == (self@ == other@),
    {
        if self.terms.len() != other.terms.len() {
            proof {
                assert(self@ != other@);
            }
            return false;
        }
        let mut i: usize = 0;
        while i < self.terms.len()
            invariant
                0 <= i <= self.terms.len(),
                self.terms.len() == other.terms.len(),
                forall|j: int| 0 <= j < i ==> self@[j] == other@[j],
            decreases self.terms.len() - i,
        {
            if self.terms[i].key != other.terms[i].key
                || self.terms[i].coeff != other.terms[i].coeff {
                proof {
                    assert(self@[i as int] != other@[i as int]);
                }
                return false;
            }
            i = i + 1;
        }
        proof {
            assert(self@ =~= other@);
        }
        true
    }

    /// Polynomial addition. Returns the sum in normal form, or
    /// `Err(Overflow)` exactly when some coefficient sum leaves `i64`.
    pub fn add(&self, rhs: &MajoranaExpr) -> (r: Result<MajoranaExpr, EvalError>)
        requires
            self.wf(),
            rhs.wf(),
        ensures
            (r is Ok) == (sadd(self@, rhs@) is Some),
            r matches Ok(p) ==> Some(p@) == sadd(self@, rhs@) && p.wf(),
            r matches Err(e) ==> e is Overflow,
    {
        let mut out: Vec<Term> = Vec::new();
        let mut i: usize = 0;
        let mut j: usize = 0;
        let a_len = self.terms.len();
        let b_len = rhs.terms.len();
        proof {
            assert(self@.skip(0) =~= self@);
            assert(rhs@.skip(0) =~= rhs@);
            if sadd(self@, rhs@) is Some {
                assert(sadd(self@, rhs@).unwrap() =~= Seq::<Term>::empty()
                    + sadd(self@, rhs@).unwrap());
            }
        }
        while i < a_len || j < b_len
            invariant
                0 <= i <= a_len == self@.len(),
                0 <= j <= b_len == rhs@.len(),
                sadd(self@, rhs@) matches Some(t)
                    ==> sadd(self@.skip(i as int), rhs@.skip(j as int)) matches Some(s)
                        && t == out@ + s,
                sadd(self@, rhs@) is None
                    ==> sadd(self@.skip(i as int), rhs@.skip(j as int)) is None,
            decreases a_len - i + b_len - j,
        {
            let ghost sa = self@.skip(i as int);
            let ghost sb = rhs@.skip(j as int);
            let ghost out0 = out@;
            proof {
                if i < a_len {
                    assert(sa.drop_first() =~= self@.skip(i + 1));
                    assert(sa[0] == self@[i as int]);
                }
                if j < b_len {
                    assert(sb.drop_first() =~= rhs@.skip(j + 1));
                    assert(sb[0] == rhs@[j as int]);
                }
            }
            if i >= a_len {
                out.push(rhs.terms[j]);
                proof {
                    assert(sa =~= Seq::<Term>::empty());
                    assert(sadd(sa, sb) == Some(sb));
                    let t = sadd(self@, rhs@).unwrap();
                    assert(t == out0 + sb);
                    assert(out0 + sb =~= (out0 + seq![sb[0]]) + sb.drop_first());
                }
                j = j + 1;
            } else if j >= b_len {
                out.push(self.terms[i]);
                proof {
                    assert(sb =~= Seq::<Term>::empty());
                    assert(sadd(sa, sb) == Some(sa));
                    let t = sadd(self@, rhs@).unwrap();
                    assert(t == out0 + sa);
                    assert(out0 + sa =~= (out0 + seq![sa[0]]) + sa.drop_first());
                }
                i = i + 1;
            } else {
                let ta = self.terms[i];
                let tb = rhs.terms[j];
                if ta.key < tb.key {
                    out.push(ta);
                    proof {
                        if sadd(self@, rhs@) is Some {
                            let t = sadd(self@, rhs@).unwrap();
                            let r1 = sadd(sa.drop_first(), sb).unwrap();
                            assert(t == out0 + (seq![sa[0]] + r1));
                            assert(out0 + (seq![sa[0]] + r1) =~= (out0 + seq![sa[0]]) + r1);
                        }
                    }
                    i = i + 1;
                } else if tb.key < ta.key {
                    out.push(tb);
                    proof {
                        if sadd(self@, rhs@) is Some {
                            let t = sadd(self@, rhs@).unwrap();
                            let r1 = sadd(sa, sb.drop_first()).unwrap();
                            assert(t == out0 + (seq![sb[0]] + r1));
                            assert(out0 + (seq![sb[0]] + r1) =~= (out0 + seq![sb[0]]) + r1);
                        }
                    }
                    j = j + 1;
                } else {
                    let re128 = ta.coeff.re as i128 + tb.coeff.re as i128;
                    let im128 = ta.coeff.im as i128 + tb.coeff.im as i128;
                    if re128 < i64::MIN as i128 || re128 > i64::MAX as i128
                        || im128 < i64::MIN as i128 || im128 > i64::MAX as i128 {
                        proof {
                            assert(cadd(sa[0].coeff, sb[0].coeff) is None);
                            assert(sadd(sa, sb) is None);
                        }
                        return Err(EvalError::Overflow);
                    }
                    let c = Cpx { re: re128 as i64, im: im128 as i64 };
                    proof {
                        assert(cadd(sa[0].coeff, sb[0].coeff) == Some(c));
                    }
                    if !(c.re == 0 && c.im == 0) {
                        out.push(Term { key: ta.key, coeff: c });
                        proof {
                            if sadd(self@, rhs@) is Some {
                                let t = sadd(self@, rhs@).unwrap();
                                let r1 = sadd(sa.drop_first(), sb.drop_first()).unwrap();
                                let hd = Term { key: sa[0].key, coeff: c };
                                assert(t == out0 + (seq![hd] + r1));
                                assert(out0 + (seq![hd] + r1) =~= (out0 + seq![hd]) + r1);
                            }
                        }
                    }
                    i = i + 1;
                    j = j + 1;
                }
            }
        }
        proof {
            assert(self@.skip(i as int) =~= Seq::<Term>::empty());
            assert(rhs@.skip(j as int) =~= Seq::<Term>::empty());
            if sadd(self@, rhs@) is Some {
                assert(sadd(self@, rhs@).unwrap() =~= out@);
                lemma_sadd_props(self@, rhs@);
            }
        }
        Ok(MajoranaExpr { terms: out })
    }

    /// Polynomial multiplication: every pair of terms `(k1, c1)`, `(k2, c2)`
    /// contributes `c1 * c2 * (-1)^sgn(k1, k2)` at key `k1 ^ k2` (shared
    /// generators cancel through the XOR, the transposition parity supplies
    /// the sign). Returns the normal form, or `Err(Overflow)` exactly when
    /// some coefficient leaves `i64`.
    pub fn mul(&self, rhs: &MajoranaExpr) -> (r: Result<MajoranaExpr, EvalError>)
        requires
            self.wf(),
            rhs.wf(),
        ensures
            (r is Ok) == (spoly_mul(self@, rhs@) is Some),
            r matches Ok(p) ==> Some(p@) == spoly_mul(self@, rhs@) && p.wf(),
            r matches Err(e) ==> e is Overflow,
    {
        let mut acc = MajoranaExpr::new();
        let a_len = self.terms.len();
        let b_len = rhs.terms.len();
        let mut i: usize = 0;
        while i < a_len
            invariant
                0 <= i <= a_len == self@.len(),
                b_len == rhs@.len(),
                self.wf(),
                rhs.wf(),
                acc.wf(),
                smul(self@, rhs@, i as nat, 0, acc@) == spoly_mul(self@, rhs@),
            decreases a_len - i,
        {
            let mut j: usize = 0;
            while j < b_len
                invariant
                    0 <= i < a_len == self@.len(),
                    0 <= j <= b_len == rhs@.len(),
                    self.wf(),
                    rhs.wf(),
                    acc.wf(),
                    smul(self@, rhs@, i as nat, j as nat, acc@) == spoly_mul(self@, rhs@),
                decreases b_len - j,
            {
                let ta = self.terms[i];
                let tb = rhs.terms[j];
                let neg = prod(ta.key, tb.key);
                let ar = ta.coeff.re as i128;
                let ai = ta.coeff.im as i128;
                let br = tb.coeff.re as i128;
                let bi = tb.coeff.im as i128;
                proof {
                    lemma_i64_prod_bound(ar as int, br as int);
                    lemma_i64_prod_bound(ai as int, bi as int);
                    lemma_i64_prod_bound(ar as int, bi as int);
                    lemma_i64_prod_bound(ai as int, br as int);
                }
                let p_rr = ar * br;
                let p_ii = ai * bi;
                let p_ri = ar * bi;
                let p_ir = ai * br;
                let d_re = p_rr - p_ii;
                let d_im = match p_ri.checked_add(p_ir) {
                    Some(v) => v,
                    None => {
                        proof {
                            assert(!fits(prod_im(ta.coeff, tb.coeff, neg)));
                            assert(cmuls(ta.coeff, tb.coeff, neg) is None);
                        }
                        return Err(EvalError::Overflow);
                    },
                };
                let v_re: i128 = if neg { -d_re } else { d_re };
                let v_im: i128 = if neg { -d_im } else { d_im };
                proof {
                    assert(v_re as int == prod_re(ta.coeff, tb.coeff, neg));
                    assert(v_im as int == prod_im(ta.coeff, tb.coeff, neg));
                }
                if v_re < i64::MIN as i128 || v_re > i64::MAX as i128
                    || v_im < i64::MIN as i128 || v_im > i64::MAX as i128 {
                    proof {
                        assert(cmuls(ta.coeff, tb.coeff, neg) is None);
                    }
                    return Err(EvalError::Overflow);
                }
                let c = Cpx { re: v_re as i64, im: v_im as i64 };
                proof {
                    assert(cmuls(ta.coeff, tb.coeff, neg) == Some(c));
                }
                if c.re == 0 && c.im == 0 {
                    proof {
                        assert(sadd(acc@, Seq::<Term>::empty()) == Some(acc@));
                    }
                } else {
                    let mut tv: Vec<Term> = Vec::new();
                    tv.push(Term { key: ta.key ^ tb.key, coeff: c });
                    let sing = MajoranaExpr { terms: tv };
                    proof {
                        assert(sing@ =~= seq![Term { key: ta.key ^ tb.key, coeff: c }]);
                    }
                    match acc.add(&sing) {
                        Ok(acc2) => {
                            acc = acc2;
                        },
                        Err(_) => {
                            return Err(EvalError::Overflow);
                        },
                    }
                }
                j = j + 1;
            }
            i = i + 1;
        }
        Ok(acc)
    }
}

/// The product of two `i64`-ranged integers stays well inside `i128`.
proof fn lemma_i64_prod_bound(a: int, b: int)
    by (nonlinear_arith)
    requires
        -0x8000000000000000 <= a <= 0x7fffffffffffffff,
        -0x8000000000000000 <= b <= 0x7fffffffffffffff,
    ensures
        -0x3fffffffffffffff8000000000000000 <= a * b <= 0x40000000000000000000000000000000,
{
}

/// Where addition succeeds it preserves the normal form, sums coefficients
/// pointwise, and introduces no key absent from both operands.
pub proof fn lemma_sadd_props(a: Seq<Term>, b: Seq<Term>)
    requires
        wf_terms(a),
        wf_terms(b),
        sadd(a, b) is Some,
    ensures
        wf_terms(sadd(a, b).unwrap()),
        forall|k: u64|
            coeff_of(#[trigger] sadd(a, b).unwrap(), k).re == coeff_of(a, k).re + coeff_of(b, k).re
            && coeff_of(sadd(a, b).unwrap(), k).im == coeff_of(a, k).im + coeff_of(b, k).im,
        forall|i: int| 0 <= i < sadd(a, b).unwrap().len()
            ==> contains_key(a, #[trigger] sadd(a, b).unwrap()[i].key)
                || contains_key(b, sadd(a, b).unwrap()[i].key),
    decreases a.len() + b.len(),
{
    let r = sadd(a, b).unwrap();
    if a.len() == 0 {
        assert forall|k: u64| coeff_of(a, k) == c_zero() by {}
        assert forall|i: int| 0 <= i < r.len() implies contains_key(b, r[i].key) by {
            assert(b[i].key == r[i].key);
        }
    } else if b.len() == 0 {
        assert forall|k: u64| coeff_of(b, k) == c_zero() by {}
        assert forall|i: int| 0 <= i < r.len() implies contains_key(a, r[i].key) by {
            assert(a[i].key == r[i].key);
        }
    } else {
        let a1 = a.drop_first();
        let b1 = b.drop_first();
        assert(wf_terms(a1));
        assert(wf_terms(b1));
        if a[0].key < b[0].key {
            let r1 = sadd(a1, b).unwrap();
            lemma_sadd_props(a1, b);
            assert(r =~= seq![a[0]] + r1);
            assert(r.drop_first() =~= r1);
            assert forall|k: u64|
                coeff_of(r, k).re == coeff_of(a, k).re + coeff_of(b, k).re
                && coeff_of(r, k).im == coeff_of(a, k).im + coeff_of(b, k).im by {
                if k == a[0].key {
                    lemma_coeff_absent(b, k);
                    lemma_coeff_absent(a1, k);
                } else {
                    assert(coeff_of(r, k) == coeff_of(r1, k));
                    assert(coeff_of(a, k) == coeff_of(a1, k));
                }
            }
            assert forall|i: int| 0 <= i < r.len()
                implies contains_key(a, r[i].key) || contains_key(b, r[i].key) by {
                if i == 0 {
                    assert(a[0].key == r[0].key);
                } else {
                    assert(r[i] == r1[i - 1]);
                    if contains_key(a1, r1[i - 1].key) {
                        let w = choose|w: int| 0 <= w < a1.len() && a1[w].key == r1[i - 1].key;
                        assert(a[w + 1].key == r[i].key);
                    }
                }
            }
            assert forall|i: int, j: int| 0 <= i < j < r.len() implies r[i].key < r[j].key by {
                if i == 0 {
                    lemma_min_key(a, b, r1[j - 1].key);
                }
            }
        } else if b[0].key < a[0].key {
            let r1 = sadd(a, b1).unwrap();
            lemma_sadd_props(a, b1);
            assert(r =~= seq![b[0]] + r1);
            assert(r.drop_first() =~= r1);
            assert forall|k: u64|
                coeff_of(r, k).re == coeff_of(a, k).re + coeff_of(b, k).re
                && coeff_of(r, k).im == coeff_of(a, k).im + coeff_of(b, k).im by {
                if k == b[0].key {
                    lemma_coeff_absent(a, k);
                    lemma_coeff_absent(b1, k);
                } else {
                    assert(coeff_of(r, k) == coeff_of(r1, k));
                    assert(coeff_of(b, k) == coeff_of(b1, k));
                }
            }
            assert forall|i: int| 0 <= i < r.len()
                implies contains_key(a, r[i].key) || contains_key(b, r[i].key) by {
                if i == 0 {
                    assert(b[0].key == r[0].key);
                } else {
                    assert(r[i] == r1[i - 1]);
                    if contains_key(b1, r1[i - 1].key) {
                        let w = choose|w: int| 0 <= w < b1.len() && b1[w].key == r1[i - 1].key;
                        assert(b[w + 1].key == r[i].key);
                    }
                }
            }
            assert forall|i: int, j: int| 0 <= i < j < r.len() implies r[i].key < r[j].key by {
                if i == 0 {
                    lemma_min_key(a, b, r1[j - 1].key);
                }
            }
        } else {
            let c = cadd(a[0].coeff, b[0].coeff).unwrap();
            let r1 = sadd(a1, b1).unwrap();
            lemma_sadd_props(a1, b1);
            if c_is_zero(c) {
                assert(r == r1);
                assert forall|k: u64|
                    coeff_of(r, k).re == coeff_of(a, k).re + coeff_of(b, k).re
                    && coeff_of(r, k).im == coeff_of(a, k).im + coeff_of(b, k).im by {
                    if k == a[0].key {
                        lemma_coeff_absent(a1, k);
                        lemma_coeff_absent(b1, k);
                        lemma_wf_coeff_zero_or_present(r1, k);
                        if contains_key(a1, k) {
                            let w = choose|w: int| 0 <= w < a1.len() && a1[w].key == k;
                            assert(a[0].key < a1[w].key);
                        }
                        if contains_key(b1, k) {
                            let w = choose|w: int| 0 <= w < b1.len() && b1[w].key == k;
                            assert(b[0].key < b1[w].key);
                        }
                        if coeff_of(r1, k) != c_zero() {
                            lemma_coeff_present(r1, k);
                        }
                    }
                }
                assert forall|i: int| 0 <= i < r.len()
                    implies contains_key(a, r[i].key) || contains_key(b, r[i].key) by {
                    if contains_key(a1, r1[i].key) {
                        let w = choose|w: int| 0 <= w < a1.len() && a1[w].key == r1[i].key;
                        assert(a[w + 1].key == r[i].key);
                    } else {
                        let w = choose|w: int| 0 <= w < b1.len() && b1[w].key == r1[i].key;
                        assert(b[w + 1].key == r[i].key);
                    }
                }
            } else {
                assert(r =~= seq![Term { key: a[0].key, coeff: c }] + r1);
                assert(r.drop_first() =~= r1);
                assert forall|k: u64|
                    coeff_of(r, k).re == coeff_of(a, k).re + coeff_of(b, k).re
                    && coeff_of(r, k).im == coeff_of(a, k).im + coeff_of(b, k).im by {
                    if k == a[0].key {
                        lemma_coeff_absent(a1, k);
                        lemma_coeff_absent(b1, k);
                    } else {
                        assert(coeff_of(r, k) == coeff_of(r1, k));
                    }
                }
                assert forall|i: int| 0 <= i < r.len()
                    implies contains_key(a, r[i].key) || contains_key(b, r[i].key) by {
                    if i == 0 {
                        assert(a[0].key == r[0].key);
                    } else {
                        assert(r[i] == r1[i - 1]);
                        if contains_key(a1, r1[i - 1].key) {
                            let w = choose|w: int| 0 <= w < a1.len() && a1[w].key == r1[i - 1].key;
                            assert(a[w + 1].key == r[i].key);
                        } else {
                            let w = choose|w: int| 0 <= w < b1.len() && b1[w].key == r1[i - 1].key;
                            assert(b[w + 1].key == r[i].key);
                        }
                    }
                }
                assert forall|i: int, j: int| 0 <= i < j < r.len() implies r[i].key < r[j].key by {
                    if i == 0 {
                        lemma_min_key(a, b, r1[j - 1].key);
                    }
                }
            }
        }
    }
}

/// The one-term polynomial `c_i` (for `i < 64`).
pub open spec fn gen_poly(i: u64) -> Seq<Term> {
    seq![Term { key: 1u64 << i, coeff: c_one() }]
}

/// The identity polynomial `{0 -> 1+0i}`.
pub open spec fn identity_poly() -> Seq<Term> {
    seq![Term { key: 0u64, coeff: c_one() }]
}

proof fn lemma_xor_comm(x: u64, y: u64)
    by (bit_vector)
    ensures
        x ^ y == y ^ x,
{
}

proof fn lemma_xor_self(x: u64)
    by (bit_vector)
    ensures
        x ^ x == 0,
{
}

proof fn lemma_xor_zero(x: u64)
    by (bit_vector)
    ensures
        0u64 ^ x == x,
        x ^ 0u64 == x,
{
}

proof fn lemma_xor_cancel(x: u64, y: u64, k: u64)
    by (bit_vector)
    ensures
        (x ^ y == k) <==> (y == x ^ k),
{
}

proof fn lemma_bit_zero(t: u64)
    by (bit_vector)
    ensures
        !bit_set(0u64, t),
{
}

proof fn lemma_bit_single(g: u64, t: u64)
    by (bit_vector)
    requires
        g < 64,
        t < 64,
    ensures
        bit_set(1u64 << g, t) <==> g == t,
{
}

proof fn lemma_cnt_single(g: u64, j: u64)
    requires
        g < 64,
    ensures
        cnt_from(1u64 << g, j) == if j <= g { 1nat } else { 0nat },
    decreases 64 - j,
{
    if j < 64 {
        lemma_bit_single(g, j);
        lemma_cnt_single(g, (j + 1) as u64);
    }
}

proof fn lemma_cnt_zero_x(j: u64)
    ensures
        cnt_from(0u64, j) == 0,
    decreases 64 - j,
{
    if j < 64 {
        lemma_bit_zero(j);
        lemma_cnt_zero_x((j + 1) as u64);
    }
}

proof fn lemma_flips_single_y(x: u64, g: u64, t: u64)
    requires
        g < 64,
    ensures
        flips_from(x, 1u64 << g, t) == if t <= g { cnt_from(x, (g + 1) as u64) } else { 0nat },
    decreases 64 - t,
{
    if t < 64 {
        lemma_bit_single(g, t);
        lemma_flips_single_y(x, g, (t + 1) as u64);
    }
}

proof fn lemma_flips_x_zero(y: u64, t: u64)
    ensures
        flips_from(0u64, y, t) == 0,
    decreases 64 - t,
{
    if t < 64 {
        lemma_cnt_zero_x((t + 1) as u64);
        lemma_flips_x_zero(y, (t + 1) as u64);
    }
}

proof fn lemma_flips_y_zero(x: u64, t: u64)
    ensures
        flips_from(x, 0u64, t) == 0,
    decreases 64 - t,
{
    if t < 64 {
        lemma_bit_zero(t);
        lemma_flips_y_zero(x, (t + 1) as u64);
    }
}

/// The product of two single generators: `c_i * c_j` is the basis element
/// `(1<<i) ^ (1<<j)` with coefficient `-1` exactly when `i > j` (one
/// transposition is needed to put the generators in ascending order).
proof fn lemma_gen_mul(i: u64, j: u64)
    requires
        i < 64,
        j < 64,
    ensures
        spoly_mul(gen_poly(i), gen_poly(j)) == Some(
            seq![
                Term {
                    key: (1u64 << i) ^ (1u64 << j),
                    coeff: Cpx { re: if i > j { -1i64 } else { 1 }, im: 0 },
                },
            ],
        ),
{
    let a = gen_poly(i);
    let b = gen_poly(j);
    let ki = 1u64 << i;
    let kj = 1u64 << j;
    lemma_flips_single_y(ki, j, 0);
    lemma_cnt_single(i, (j + 1) as u64);
    assert(flips_from(ki, kj, 0) == if i > j { 1nat } else { 0nat });
    assert(sgn_odd(ki, kj) == (i > j));
    let neg = i > j;
    let c = Cpx { re: if neg { -1i64 } else { 1 }, im: 0 };
    assert(c_one().re == 1 && c_one().im == 0);
    assert(prod_re(c_one(), c_one(), neg) == if neg { -(1 * 1 - 0 * 0) } else { 1 * 1 - 0 * 0 });
    assert(prod_re(c_one(), c_one(), neg) == if neg { -1int } else { 1int });
    assert(prod_im(c_one(), c_one(), neg) == 0int);
    assert(cmuls(a[0].coeff, b[0].coeff, sgn_odd(a[0].key, b[0].key)) == Some(c));
    let t = seq![Term { key: ki ^ kj, coeff: c }];
    assert(sadd(Seq::<Term>::empty(), t) == Some(t));
    assert(smul(a, b, 0, 0, Seq::empty()) == smul(a, b, 0, 1, t));
    assert(smul(a, b, 0, 1, t) == smul(a, b, 1, 0, t));
    assert(smul(a, b, 1, 0, t) == Some(t));
}

/// Anticommutation: for distinct generator indices `i` and `j`, the products
/// `c_i * c_j` and `c_j * c_i` are additive inverses — their sum is the zero
/// polynomial.
pub proof fn lemma_anticommute(i: u64, j: u64)
    requires
        i < 64,
        j < 64,
        i != j,
    ensures
        spoly_mul(gen_poly(i), gen_poly(j)) is Some,
        spoly_mul(gen_poly(j), gen_poly(i)) is Some,
        sadd(
            spoly_mul(gen_poly(i), gen_poly(j)).unwrap(),
            spoly_mul(gen_poly(j), gen_poly(i)).unwrap(),
        ) == Some(Seq::<Term>::empty()),
{
    lemma_gen_mul(i, j);
    lemma_gen_mul(j, i);
    lemma_xor_comm(1u64 << i, 1u64 << j);
    let p = spoly_mul(gen_poly(i), gen_poly(j)).unwrap();
    let q = spoly_mul(gen_poly(j), gen_poly(i)).unwrap();
    assert(p[0].key == q[0].key);
    assert(p[0].coeff.re + q[0].coeff.re == 0);
    assert(cadd(p[0].coeff, q[0].coeff) == Some(c_zero()));
    assert(p.drop_first() =~= Seq::<Term>::empty());
    assert(q.drop_first() =~= Seq::<Term>::empty());
    assert(sadd(p.drop_first(), q.drop_first()) == Some(Seq::<Term>::empty()));
}

/// Squaring a generator gives the identity: `c_i * c_i == {0 -> 1+0i}`.
pub proof fn lemma_square_identity(i: u64)
    requires
        i < 64,
    ensures
        spoly_mul(gen_poly(i), gen_poly(i)) == Some(identity_poly()),
{
    lemma_gen_mul(i, i);
    lemma_xor_self(1u64 << i);
}

/// Addition is commutative: the merge of two term vectors is the same in
/// either order, overflow included.
pub proof fn lemma_add_comm(a: Seq<Term>, b: Seq<Term>)
    ensures
        sadd(a, b) == sadd(b, a),
    decreases a.len() + b.len(),
{
    if a.len() == 0 && b.len() == 0 {
        assert(a =~= b);
    } else if a.len() == 0 || b.len() == 0 {
    } else if a[0].key < b[0].key {
        lemma_add_comm(a.drop_first(), b);
    } else if b[0].key < a[0].key {
        lemma_add_comm(a, b.drop_first());
    } else {
        lemma_add_comm(a.drop_first(), b.drop_first());
        assert(cadd(a[0].coeff, b[0].coeff) == cadd(b[0].coeff, a[0].coeff));
    }
}

/// The normal form is canonical: well-formed vectors with the same
/// coefficient at every key are equal.
pub proof fn lemma_canonical(a: Seq<Term>, b: Seq<Term>)
    requires
        wf_terms(a),
        wf_terms(b),
        forall|k: u64| coeff_of(a, k) == coeff_of(b, k),
    ensures
        a == b,
    decreases a.len() + b.len(),
{
    if a.len() == 0 && b.len() == 0 {
        assert(a =~= b);
    } else if a.len() == 0 {
        lemma_coeff_present(b, b[0].key);
        lemma_coeff_absent(a, b[0].key);
        assert(false);
    } else if b.len() == 0 {
        lemma_coeff_present(a, a[0].key);
        lemma_coeff_absent(b, a[0].key);
        assert(false);
    } else {
        if a[0].key < b[0].key {
            lemma_coeff_present(a, a[0].key);
            assert(!contains_key(b, a[0].key)) by {
                if contains_key(b, a[0].key) {
                    let w = choose|w: int| 0 <= w < b.len() && b[w].key == a[0].key;
                    assert(w == 0 || b[0].key < b[w].key);
                }
            }
            lemma_coeff_absent(b, a[0].key);
            assert(false);
        } else if b[0].key < a[0].key {
            lemma_coeff_present(b, b[0].key);
            assert(!contains_key(a, b[0].key)) by {
                if contains_key(a, b[0].key) {
                    let w = choose|w: int| 0 <= w < a.len() && a[w].key == b[0].key;
                    assert(w == 0 || a[0].key < a[w].key);
                }
            }
            lemma_coeff_absent(a, b[0].key);
            assert(false);
        } else {
            let a1 = a.drop_first();
            let b1 = b.drop_first();
            assert(wf_terms(a1));
            assert(wf_terms(b1));
            assert forall|k: u64| coeff_of(a1, k) == coeff_of(b1, k) by {
                if k == a[0].key {
                    assert(!contains_key(a1, k)) by {
                        if contains_key(a1, k) {
                            let w = choose|w: int| 0 <= w < a1.len() && a1[w].key == k;
                            assert(a[0].key < a[w + 1].key);
                        }
                    }
                    assert(!contains_key(b1, k)) by {
                        if contains_key(b1, k) {
                            let w = choose|w: int| 0 <= w < b1.len() && b1[w].key == k;
                            assert(b[0].key < b[w + 1].key);
                        }
                    }
                    lemma_coeff_absent(a1, k);
                    lemma_coeff_absent(b1, k);
                } else {
                    assert(coeff_of(a, k) == coeff_of(a1, k));
                    assert(coeff_of(b, k) == coeff_of(b1, k));
                }
            }
            lemma_canonical(a1, b1);
            assert(coeff_of(a, a[0].key) == a[0].coeff);
            assert(coeff_of(b, b[0].key) == b[0].coeff);
            assert(a[0] == b[0]);
            assert(a =~= seq![a[0]] + a1);
            assert(b =~= seq![b[0]] + b1);
            assert(a == b);
        }
    }
}

/// Addition is associative wherever every intermediate sum is defined.
pub proof fn lemma_add_assoc(a: Seq<Term>, b: Seq<Term>, c: Seq<Term>)
    requires
        wf_terms(a),
        wf_terms(b),
        wf_terms(c),
        sadd(a, b) is Some,
        sadd(sadd(a, b).unwrap(), c) is Some,
        sadd(b, c) is Some,
        sadd(a, sadd(b, c).unwrap()) is Some,
    ensures
        sadd(sadd(a, b).unwrap(), c) == sadd(a, sadd(b, c).unwrap()),
{
    let ab = sadd(a, b).unwrap();
    let bc = sadd(b, c).unwrap();
    let l = sadd(ab, c).unwrap();
    let r = sadd(a, bc).unwrap();
    lemma_sadd_props(a, b);
    lemma_sadd_props(ab, c);
    lemma_sadd_props(b, c);
    lemma_sadd_props(a, bc);
    assert forall|k: u64| coeff_of(l, k) == coeff_of(r, k) by {
        assert(coeff_of(l, k).re == coeff_of(a, k).re + coeff_of(b, k).re + coeff_of(c, k).re);
        assert(coeff_of(r, k).re == coeff_of(a, k).re + coeff_of(b, k).re + coeff_of(c, k).re);
        assert(coeff_of(l, k).im == coeff_of(a, k).im + coeff_of(b, k).im + coeff_of(c, k).im);
        assert(coeff_of(r, k).im == coeff_of(a, k).im + coeff_of(b, k).im + coeff_of(c, k).im);
    }
    lemma_canonical(l, r);
}

/// Merging a term whose key exceeds every key of a sorted vector appends it.
proof fn lemma_sadd_append(s: Seq<Term>, t: Term)
    requires
        wf_terms(s),
        forall|i: int| 0 <= i < s.len() ==> (#[trigger] s[i].key) < t.key,
        !c_is_zero(t.coeff),
    ensures
        sadd(s, seq![t]) == Some(s.push(t)),
    decreases s.len(),
{
    if s.len() == 0 {
        assert(seq![t] =~= s.push(t));
    } else {
        let s1 = s.drop_first();
        assert(forall|i: int| 0 <= i < s1.len() ==> #[trigger] s1[i] == s[i + 1]);
        lemma_sadd_append(s1, t);
        assert(seq![s[0]] + s1.push(t) =~= s.push(t));
    }
}

proof fn lemma_id_left_from(p: Seq<Term>, j: nat)
    requires
        wf_terms(p),
        j <= p.len(),
    ensures
        smul(identity_poly(), p, 0, j, p.take(j as int)) == Some(p),
    decreases p.len() - j,
{
    let id = identity_poly();
    if j == p.len() {
        assert(p.take(j as int) =~= p);
        assert(smul(id, p, 0, j, p) == smul(id, p, 1, 0, p));
        assert(smul(id, p, 1, 0, p) == Some(p));
    } else {
        let t = p[j as int];
        lemma_flips_x_zero(t.key, 0);
        assert(!sgn_odd(0u64, t.key));
        assert(c_one().re == 1 && c_one().im == 0);
        assert(prod_re(c_one(), t.coeff, false) == 1 * t.coeff.re - 0 * t.coeff.im);
        assert(prod_re(c_one(), t.coeff, false) == t.coeff.re);
        assert(prod_im(c_one(), t.coeff, false) == 1 * t.coeff.im + 0 * t.coeff.re);
        assert(prod_im(c_one(), t.coeff, false) == t.coeff.im);
        assert(cmuls(id[0].coeff, t.coeff, sgn_odd(id[0].key, t.key)) == Some(t.coeff));
        lemma_xor_zero(t.key);
        assert(Term { key: 0u64 ^ t.key, coeff: t.coeff } == t);
        lemma_sadd_append(p.take(j as int), t);
        assert(p.take(j as int).push(t) =~= p.take(j as int + 1));
        assert(smul(id, p, 0, j, p.take(j as int)) == smul(id, p, 0, (j + 1) as nat, p.take(j as int + 1)));
        lemma_id_left_from(p, (j + 1) as nat);
    }
}

/// Multiplying the identity polynomial by any polynomial leaves it unchanged.
pub proof fn lemma_identity_left(p: Seq<Term>)
    requires
        wf_terms(p),
    ensures
        spoly_mul(identity_poly(), p) == Some(p),
{
    assert(p.take(0) =~= Seq::<Term>::empty());
    lemma_id_left_from(p, 0);
}

proof fn lemma_id_right_from(p: Seq<Term>, i: nat)
    requires
        wf_terms(p),
        i <= p.len(),
    ensures
        smul(p, identity_poly(), i, 0, p.take(i as int)) == Some(p),
    decreases p.len() - i,
{
    let id = identity_poly();
    if i == p.len() {
        assert(p.take(i as int) =~= p);
        assert(smul(p, id, i, 0, p) == Some(p));
    } else {
        let t = p[i as int];
        lemma_flips_y_zero(t.key, 0);
        assert(!sgn_odd(t.key, 0u64));
        assert(c_one().re == 1 && c_one().im == 0);
        assert(prod_re(t.coeff, c_one(), false) == t.coeff.re * 1 - t.coeff.im * 0);
        assert(prod_re(t.coeff, c_one(), false) == t.coeff.re);
        assert(prod_im(t.coeff, c_one(), false) == t.coeff.re * 0 + t.coeff.im * 1);
        assert(prod_im(t.coeff, c_one(), false) == t.coeff.im);
        assert(cmuls(t.coeff, id[0].coeff, sgn_odd(t.key, id[0].key)) == Some(t.coeff));
        lemma_xor_zero(t.key);
        assert(Term { key: t.key ^ 0u64, coeff: t.coeff } == t);
        lemma_sadd_append(p.take(i as int), t);
        assert(p.take(i as int).push(t) =~= p.take(i as int + 1));
        assert(smul(p, id, i, 0, p.take(i as int)) == smul(p, id, i, 1, p.take(i as int + 1)));
        assert(smul(p, id, i, 1, p.take(i as int + 1)) == smul(p, id, (i + 1) as nat, 0, p.take(i as int + 1)));
        lemma_id_right_from(p, (i + 1) as nat);
    }
}

/// Multiplying any polynomial by the identity polynomial leaves it unchanged.
pub proof fn lemma_identity_right(p: Seq<Term>)
    requires
        wf_terms(p),
    ensures
        spoly_mul(p, identity_poly()) == Some(p),
{
    assert(p.take(0) =~= Seq::<Term>::empty());
    lemma_id_right_from(p, 0);
}

proof fn lemma_xor_inv(x: u64, k: u64)
    by (bit_vector)
    ensures
        x ^ (x ^ k) == k,
{
}

proof fn lemma_mul_distrib_int(p: int, q: int, r: int)
    by (nonlinear_arith)
    ensures
        p * (q + r) == p * q + p * r,
{
}

/// The contribution of the pairwise term products, rows `i` and up (row `i`
/// from column `j` up), to the coefficient of key `k`: real part, as an
/// unbounded integer.
spec fn msum_re(a: Seq<Term>, b: Seq<Term>, i: nat, j: nat, k: u64) -> int
    decreases a.len() - i, b.len() - j,
{
    if i >= a.len() {
        0
    } else if j >= b.len() {
        msum_re(a, b, (i + 1) as nat, 0, k)
    } else {
        (if a[i as int].key ^ b[j as int].key == k {
            prod_re(a[i as int].coeff, b[j as int].coeff, sgn_odd(a[i as int].key, b[j as int].key))
        } else {
            0
        }) + msum_re(a, b, i, (j + 1) as nat, k)
    }
}

/// As `msum_re`, imaginary part.
spec fn msum_im(a: Seq<Term>, b: Seq<Term>, i: nat, j: nat, k: u64) -> int
    decreases a.len() - i, b.len() - j,
{
    if i >= a.len() {
        0
    } else if j >= b.len() {
        msum_im(a, b, (i + 1) as nat, 0, k)
    } else {
        (if a[i as int].key ^ b[j as int].key == k {
            prod_im(a[i as int].coeff, b[j as int].coeff, sgn_odd(a[i as int].key, b[j as int].key))
        } else {
            0
        }) + msum_im(a, b, i, (j + 1) as nat, k)
    }
}

/// Where multiplication succeeds, the result is well formed and each of its
/// coefficients is the accumulator's plus the signed sum of the pairwise
/// products that land on its key.
proof fn lemma_smul_coeff(a: Seq<Term>, b: Seq<Term>, i: nat, j: nat, acc: Seq<Term>)
    requires
        wf_terms(acc),
        smul(a, b, i, j, acc) is Some,
    ensures
        wf_terms(smul(a, b, i, j, acc).unwrap()),
        forall|k: u64|
            coeff_of(#[trigger] smul(a, b, i, j, acc).unwrap(), k).re == coeff_of(acc, k).re
                + msum_re(a, b, i, j, k) && coeff_of(smul(a, b, i, j, acc).unwrap(), k).im
                == coeff_of(acc, k).im + msum_im(a, b, i, j, k),
    decreases a.len() - i, b.len() - j,
{
    let r = smul(a, b, i, j, acc).unwrap();
    if i >= a.len() {
    } else if j >= b.len() {
        lemma_smul_coeff(a, b, (i + 1) as nat, 0, acc);
        assert(smul(a, b, i, j, acc) == smul(a, b, (i + 1) as nat, 0, acc));
        assert forall|k: u64|
            coeff_of(#[trigger] smul(a, b, i, j, acc).unwrap(), k).re == coeff_of(acc, k).re
                + msum_re(a, b, i, j, k) && coeff_of(smul(a, b, i, j, acc).unwrap(), k).im
                == coeff_of(acc, k).im + msum_im(a, b, i, j, k) by {
            assert(coeff_of(smul(a, b, (i + 1) as nat, 0, acc).unwrap(), k).re == coeff_of(
                acc,
                k,
            ).re + msum_re(a, b, (i + 1) as nat, 0, k));
            assert(msum_re(a, b, i, j, k) == msum_re(a, b, (i + 1) as nat, 0, k));
            assert(msum_im(a, b, i, j, k) == msum_im(a, b, (i + 1) as nat, 0, k));
        }
    } else {
        let ta = a[i as int];
        let tb = b[j as int];
        let c = cmuls(ta.coeff, tb.coeff, sgn_odd(ta.key, tb.key)).unwrap();
        let t: Seq<Term> = if c_is_zero(c) {
            Seq::empty()
        } else {
            seq![Term { key: ta.key ^ tb.key, coeff: c }]
        };
        assert(wf_terms(t));
        let acc2 = sadd(acc, t).unwrap();
        lemma_sadd_props(acc, t);
        lemma_smul_coeff(a, b, i, (j + 1) as nat, acc2);
        assert forall|k: u64|
            coeff_of(#[trigger] smul(a, b, i, j, acc).unwrap(), k).re == coeff_of(acc, k).re
                + msum_re(a, b, i, j, k) && coeff_of(smul(a, b, i, j, acc).unwrap(), k).im
                == coeff_of(acc, k).im + msum_im(a, b, i, j, k) by {
            let contrib_re: int = if ta.key ^ tb.key == k {
                prod_re(ta.coeff, tb.coeff, sgn_odd(ta.key, tb.key))
            } else {
                0
            };
            let contrib_im: int = if ta.key ^ tb.key == k {
                prod_im(ta.coeff, tb.coeff, sgn_odd(ta.key, tb.key))
            } else {
                0
            };
            assert(c.re as int == prod_re(ta.coeff, tb.coeff, sgn_odd(ta.key, tb.key))
                && c.im as int == prod_im(ta.coeff, tb.coeff, sgn_odd(ta.key, tb.key)));
            assert(coeff_of(Seq::<Term>::empty(), k) == c_zero());
            if !c_is_zero(c) {
                assert(t[0] == Term { key: ta.key ^ tb.key, coeff: c });
                assert(t.drop_first() =~= Seq::<Term>::empty());
            }
            assert(coeff_of(t, k).re == contrib_re && coeff_of(t, k).im == contrib_im);
            assert(coeff_of(acc2, k).re == coeff_of(acc, k).re + coeff_of(t, k).re);
            assert(coeff_of(acc2, k).im == coeff_of(acc, k).im + coeff_of(t, k).im);
            assert(smul(a, b, i, j, acc) == smul(a, b, i, (j + 1) as nat, acc2));
            assert(coeff_of(smul(a, b, i, (j + 1) as nat, acc2).unwrap(), k).re == coeff_of(
                acc2,
                k,
            ).re + msum_re(a, b, i, (j + 1) as nat, k));
            assert(coeff_of(r, k).re == coeff_of(acc2, k).re + msum_re(a, b, i, (j + 1) as nat, k));
            assert(coeff_of(r, k).im == coeff_of(acc2, k).im + msum_im(a, b, i, (j + 1) as nat, k));
            assert(msum_re(a, b, i, j, k) == contrib_re + msum_re(a, b, i, (j + 1) as nat, k));
            assert(msum_im(a, b, i, j, k) == contrib_im + msum_im(a, b, i, (j + 1) as nat, k));
        }
    }
}

/// The row contribution of one left-hand term over columns `j` and up of
/// `b` to the coefficient of key `k`: real part.
spec fn rrow_re(t: Term, b: Seq<Term>, j: nat, k: u64) -> int
    decreases b.len() - j,
{
    if j >= b.len() {
        0
    } else {
        (if t.key ^ b[j as int].key == k {
            prod_re(t.coeff, b[j as int].coeff, sgn_odd(t.key, b[j as int].key))
        } else {
            0
        }) + rrow_re(t, b, (j + 1) as nat, k)
    }
}

/// As `rrow_re`, imaginary part.
spec fn rrow_im(t: Term, b: Seq<Term>, j: nat, k: u64) -> int
    decreases b.len() - j,
{
    if j >= b.len() {
        0
    } else {
        (if t.key ^ b[j as int].key == k {
            prod_im(t.coeff, b[j as int].coeff, sgn_odd(t.key, b[j as int].key))
        } else {
            0
        }) + rrow_im(t, b, (j + 1) as nat, k)
    }
}

proof fn lemma_msum_split(a: Seq<Term>, b: Seq<Term>, i: nat, j: nat, k: u64)
    requires
        i < a.len(),
    ensures
        msum_re(a, b, i, j, k) == rrow_re(a[i as int], b, j, k) + msum_re(a, b, (i + 1) as nat, 0, k),
        msum_im(a, b, i, j, k) == rrow_im(a[i as int], b, j, k) + msum_im(a, b, (i + 1) as nat, 0, k),
    decreases b.len() - j,
{
    if j < b.len() {
        lemma_msum_split(a, b, i, (j + 1) as nat, k);
    }
}

/// A row's contribution to key `k` is the single product of the row's
/// coefficient with the matching coefficient of `b`, with the parity sign.
proof fn lemma_rrow_coeff(t: Term, b: Seq<Term>, j: nat, k: u64)
    requires
        wf_terms(b),
        j <= b.len(),
    ensures
        rrow_re(t, b, j, k) == prod_re(
            t.coeff,
            coeff_of(b.skip(j as int), t.key ^ k),
            sgn_odd(t.key, t.key ^ k),
        ),
        rrow_im(t, b, j, k) == prod_im(
            t.coeff,
            coeff_of(b.skip(j as int), t.key ^ k),
            sgn_odd(t.key, t.key ^ k),
        ),
    decreases b.len() - j,
{
    let q = t.key ^ k;
    lemma_prod_zero(t.coeff, sgn_odd(t.key, q));
    if j >= b.len() {
        assert(b.skip(j as int) =~= Seq::<Term>::empty());
        assert(coeff_of(Seq::<Term>::empty(), q) == c_zero());
    } else {
        assert(b.skip(j as int)[0] == b[j as int]);
        assert(b.skip(j as int).drop_first() =~= b.skip(j as int + 1));
        lemma_xor_cancel(t.key, b[j as int].key, k);
        lemma_xor_inv(t.key, k);
        lemma_rrow_coeff(t, b, (j + 1) as nat, k);
        if b[j as int].key == q {
            assert(!contains_key(b.skip(j as int + 1), q)) by {
                if contains_key(b.skip(j as int + 1), q) {
                    let tail = b.skip(j as int + 1);
                    let w = choose|w: int| 0 <= w < tail.len() && #[trigger] tail[w].key == q;
                    assert(b[j as int + 1 + w].key == q);
                    assert(b[j as int].key < b[j as int + 1 + w].key);
                }
            }
            lemma_coeff_absent(b.skip(j as int + 1), q);
            assert(coeff_of(b.skip(j as int), q) == b[j as int].coeff);
        }
    }
}

proof fn lemma_prod_zero(c1: Cpx, s: bool)
    ensures
        prod_re(c1, c_zero(), s) == 0,
        prod_im(c1, c_zero(), s) == 0,
{
    assert(c_zero().re == 0 && c_zero().im == 0);
    assert(c1.re * 0 == 0 && c1.im * 0 == 0);
}

proof fn lemma_prod_linear(c1: Cpx, zb: Cpx, zc: Cpx, zs: Cpx, s: bool)
    requires
        zs.re == zb.re + zc.re,
        zs.im == zb.im + zc.im,
    ensures
        prod_re(c1, zs, s) == prod_re(c1, zb, s) + prod_re(c1, zc, s),
        prod_im(c1, zs, s) == prod_im(c1, zb, s) + prod_im(c1, zc, s),
{
    lemma_mul_distrib_int(c1.re as int, zb.re as int, zc.re as int);
    lemma_mul_distrib_int(c1.im as int, zb.im as int, zc.im as int);
    lemma_mul_distrib_int(c1.re as int, zb.im as int, zc.im as int);
    lemma_mul_distrib_int(c1.im as int, zb.re as int, zc.re as int);
}

proof fn lemma_msum_distrib(a: Seq<Term>, b: Seq<Term>, c: Seq<Term>, i: nat, k: u64)
    requires
        wf_terms(b),
        wf_terms(c),
        sadd(b, c) is Some,
    ensures
        msum_re(a, sadd(b, c).unwrap(), i, 0, k) == msum_re(a, b, i, 0, k) + msum_re(a, c, i, 0, k),
        msum_im(a, sadd(b, c).unwrap(), i, 0, k) == msum_im(a, b, i, 0, k) + msum_im(a, c, i, 0, k),
    decreases a.len() - i,
{
    let bc = sadd(b, c).unwrap();
    lemma_sadd_props(b, c);
    if i < a.len() {
        let t = a[i as int];
        lemma_msum_split(a, bc, i, 0, k);
        lemma_msum_split(a, b, i, 0, k);
        lemma_msum_split(a, c, i, 0, k);
        lemma_rrow_coeff(t, bc, 0, k);
        lemma_rrow_coeff(t, b, 0, k);
        lemma_rrow_coeff(t, c, 0, k);
        assert(bc.skip(0) =~= bc);
        assert(b.skip(0) =~= b);
        assert(c.skip(0) =~= c);
        let q = t.key ^ k;
        lemma_prod_linear(
            t.coeff,
            coeff_of(b, q),
            coeff_of(c, q),
            coeff_of(bc, q),
            sgn_odd(t.key, q),
        );
        lemma_msum_distrib(a, b, c, (i + 1) as nat, k);
    }
}

/// The row of pairwise products contributed by one left-hand term: real
/// part of its contribution to the coefficient of key `k`.
spec fn mrow_re(t: Term, b: Seq<Term>, k: u64) -> int {
    prod_re(t.coeff, coeff_of(b, t.key ^ k), sgn_odd(t.key, t.key ^ k))
}

/// As `mrow_re`, imaginary part.
spec fn mrow_im(t: Term, b: Seq<Term>, k: u64) -> int {
    prod_im(t.coeff, coeff_of(b, t.key ^ k), sgn_odd(t.key, t.key ^ k))
}

/// The sum of the rows of all left-hand terms.
spec fn rowsum_re(a: Seq<Term>, b: Seq<Term>, k: u64) -> int
    decreases a.len(),
{
    if a.len() == 0 {
        0
    } else {
        mrow_re(a[0], b, k) + rowsum_re(a.drop_first(), b, k)
    }
}

/// As `rowsum_re`, imaginary part.
spec fn rowsum_im(a: Seq<Term>, b: Seq<Term>, k: u64) -> int
    decreases a.len(),
{
    if a.len() == 0 {
        0
    } else {
        mrow_im(a[0], b, k) + rowsum_im(a.drop_first(), b, k)
    }
}

/// The pairwise sum over all rows equals the sum of the per-term rows.
proof fn lemma_msum_is_rowsum(a: Seq<Term>, b: Seq<Term>, i: nat, k: u64)
    requires
        wf_terms(b),
        i <= a.len(),
    ensures
        msum_re(a, b, i, 0, k) == rowsum_re(a.skip(i as int), b, k),
        msum_im(a, b, i, 0, k) == rowsum_im(a.skip(i as int), b, k),
    decreases a.len() - i,
{
    if i == a.len() {
        assert(a.skip(i as int) =~= Seq::<Term>::empty());
    } else {
        lemma_msum_split(a, b, i, 0, k);
        lemma_rrow_coeff(a[i as int], b, 0, k);
        assert(b.skip(0) =~= b);
        lemma_msum_is_rowsum(a, b, (i + 1) as nat, k);
        assert(a.skip(i as int)[0] == a[i as int]);
        assert(a.skip(i as int).drop_first() =~= a.skip(i as int + 1));
    }
}

proof fn lemma_mul_distrib_int_left(p: int, q: int, r: int)
    by (nonlinear_arith)
    ensures
        (q + r) * p == q * p + r * p,
{
}

/// A row is additive in its term's coefficient.
proof fn lemma_mrow_linear(ka: u64, ca: Cpx, cb: Cpx, cs: Cpx, b: Seq<Term>, k: u64)
    requires
        cs.re == ca.re + cb.re,
        cs.im == ca.im + cb.im,
    ensures
        mrow_re(Term { key: ka, coeff: cs }, b, k) == mrow_re(Term { key: ka, coeff: ca }, b, k)
            + mrow_re(Term { key: ka, coeff: cb }, b, k),
        mrow_im(Term { key: ka, coeff: cs }, b, k) == mrow_im(Term { key: ka, coeff: ca }, b, k)
            + mrow_im(Term { key: ka, coeff: cb }, b, k),
{
    let z = coeff_of(b, ka ^ k);
    lemma_mul_distrib_int_left(z.re as int, ca.re as int, cb.re as int);
    lemma_mul_distrib_int_left(z.im as int, ca.im as int, cb.im as int);
    lemma_mul_distrib_int_left(z.im as int, ca.re as int, cb.re as int);
    lemma_mul_distrib_int_left(z.re as int, ca.im as int, cb.im as int);
}

/// The rows of a merged vector are the rows of its two operands together.
proof fn lemma_rowsum_merge(a: Seq<Term>, b: Seq<Term>, c: Seq<Term>, k: u64)
    requires
        wf_terms(a),
        wf_terms(b),
        sadd(a, b) is Some,
    ensures
        rowsum_re(sadd(a, b).unwrap(), c, k) == rowsum_re(a, c, k) + rowsum_re(b, c, k),
        rowsum_im(sadd(a, b).unwrap(), c, k) == rowsum_im(a, c, k) + rowsum_im(b, c, k),
    decreases a.len() + b.len(),
{
    let ab = sadd(a, b).unwrap();
    if a.len() == 0 {
        assert(ab == b);
    } else if b.len() == 0 {
        assert(ab == a);
    } else if a[0].key < b[0].key {
        lemma_rowsum_merge(a.drop_first(), b, c, k);
        let rest = sadd(a.drop_first(), b).unwrap();
        assert(ab == seq![a[0]] + rest);
        assert(ab[0] == a[0]);
        assert(ab.drop_first() =~= rest);
    } else if b[0].key < a[0].key {
        lemma_rowsum_merge(a, b.drop_first(), c, k);
        let rest = sadd(a, b.drop_first()).unwrap();
        assert(ab == seq![b[0]] + rest);
        assert(ab[0] == b[0]);
        assert(ab.drop_first() =~= rest);
    } else {
        let s = cadd(a[0].coeff, b[0].coeff).unwrap();
        lemma_rowsum_merge(a.drop_first(), b.drop_first(), c, k);
        let rest = sadd(a.drop_first(), b.drop_first()).unwrap();
        lemma_mrow_linear(a[0].key, a[0].coeff, b[0].coeff, s, c, k);
        assert(mrow_re(Term { key: a[0].key, coeff: a[0].coeff }, c, k) == mrow_re(a[0], c, k));
        assert(mrow_re(Term { key: b[0].key, coeff: b[0].coeff }, c, k) == mrow_re(b[0], c, k));
        assert(mrow_im(Term { key: a[0].key, coeff: a[0].coeff }, c, k) == mrow_im(a[0], c, k));
        assert(mrow_im(Term { key: b[0].key, coeff: b[0].coeff }, c, k) == mrow_im(b[0], c, k));
        if c_is_zero(s) {
            assert(ab == rest);
            lemma_prod_zero(coeff_of(c, a[0].key ^ k), sgn_odd(a[0].key, a[0].key ^ k));
            assert(prod_re(s, coeff_of(c, a[0].key ^ k), sgn_odd(a[0].key, a[0].key ^ k)) == 0)
                by {
                assert(s.re == 0 && s.im == 0);
                assert(s.re * coeff_of(c, a[0].key ^ k).re == 0);
                assert(s.im * coeff_of(c, a[0].key ^ k).im == 0);
                assert(s.re * coeff_of(c, a[0].key ^ k).im == 0);
                assert(s.im * coeff_of(c, a[0].key ^ k).re == 0);
            }
            assert(prod_im(s, coeff_of(c, a[0].key ^ k), sgn_odd(a[0].key, a[0].key ^ k)) == 0)
                by {
                assert(s.re == 0 && s.im == 0);
                assert(s.re * coeff_of(c, a[0].key ^ k).re == 0);
                assert(s.im * coeff_of(c, a[0].key ^ k).im == 0);
                assert(s.re * coeff_of(c, a[0].key ^ k).im == 0);
                assert(s.im * coeff_of(c, a[0].key ^ k).re == 0);
            }
            assert(mrow_re(Term { key: a[0].key, coeff: s }, c, k) == 0);
            assert(mrow_im(Term { key: a[0].key, coeff: s }, c, k) == 0);
        } else {
            let hd = Term { key: a[0].key, coeff: s };
            assert(ab == seq![hd] + rest);
            assert(ab[0] == hd);
            assert(ab.drop_first() =~= rest);
        }
    }
}

/// Multiplication distributes over addition from the right too: wherever
/// all four operations are defined, `(a + b) * c == a * c + b * c`.
pub proof fn lemma_mul_distributes_right(a: Seq<Term>, b: Seq<Term>, c: Seq<Term>)
    requires
        wf_terms(a),
        wf_terms(b),
        wf_terms(c),
        sadd(a, b) is Some,
        spoly_mul(sadd(a, b).unwrap(), c) is Some,
        spoly_mul(a, c) is Some,
        spoly_mul(b, c) is Some,
        sadd(spoly_mul(a, c).unwrap(), spoly_mul(b, c).unwrap()) is Some,
    ensures
        spoly_mul(sadd(a, b).unwrap(), c) == sadd(
            spoly_mul(a, c).unwrap(),
            spoly_mul(b, c).unwrap(),
        ),
{
    let ab = sadd(a, b).unwrap();
    let l = spoly_mul(ab, c).unwrap();
    let ac = spoly_mul(a, c).unwrap();
    let bc = spoly_mul(b, c).unwrap();
    let r = sadd(ac, bc).unwrap();
    lemma_sadd_props(a, b);
    lemma_smul_coeff(ab, c, 0, 0, Seq::empty());
    lemma_smul_coeff(a, c, 0, 0, Seq::empty());
    lemma_smul_coeff(b, c, 0, 0, Seq::empty());
    lemma_sadd_props(ac, bc);
    assert forall|k: u64| coeff_of(l, k) == coeff_of(r, k) by {
        lemma_msum_is_rowsum(ab, c, 0, k);
        lemma_msum_is_rowsum(a, c, 0, k);
        lemma_msum_is_rowsum(b, c, 0, k);
        assert(ab.skip(0) =~= ab);
        assert(a.skip(0) =~= a);
        assert(b.skip(0) =~= b);
        lemma_rowsum_merge(a, b, c, k);
        assert(coeff_of(Seq::<Term>::empty(), k) == c_zero());
        assert(coeff_of(l, k).re == msum_re(ab, c, 0, 0, k));
        assert(coeff_of(r, k).re == msum_re(a, c, 0, 0, k) + msum_re(b, c, 0, 0, k));
        assert(coeff_of(l, k).im == msum_im(ab, c, 0, 0, k));
        assert(coeff_of(r, k).im == msum_im(a, c, 0, 0, k) + msum_im(b, c, 0, 0, k));
    }
    lemma_canonical(l, r);
}

/// Multiplication distributes over addition: wherever all four operations
/// are defined, `a * (b + c) == a * b + a * c`.
pub proof fn lemma_mul_distributes(a: Seq<Term>, b: Seq<Term>, c: Seq<Term>)
    requires
        wf_terms(a),
        wf_terms(b),
        wf_terms(c),
        sadd(b, c) is Some,
        spoly_mul(a, sadd(b, c).unwrap()) is Some,
        spoly_mul(a, b) is Some,
        spoly_mul(a, c) is Some,
        sadd(spoly_mul(a, b).unwrap(), spoly_mul(a, c).unwrap()) is Some,
    ensures
        spoly_mul(a, sadd(b, c).unwrap()) == sadd(
            spoly_mul(a, b).unwrap(),
            spoly_mul(a, c).unwrap(),
        ),
{
    let bc = sadd(b, c).unwrap();
    let l = spoly_mul(a, bc).unwrap();
    let ab = spoly_mul(a, b).unwrap();
    let ac = spoly_mul(a, c).unwrap();
    let r = sadd(ab, ac).unwrap();
    lemma_sadd_props(b, c);
    lemma_smul_coeff(a, bc, 0, 0, Seq::empty());
    lemma_smul_coeff(a, b, 0, 0, Seq::empty());
    lemma_smul_coeff(a, c, 0, 0, Seq::empty());
    lemma_sadd_props(ab, ac);
    assert forall|k: u64| coeff_of(l, k) == coeff_of(r, k) by {
        lemma_msum_distrib(a, b, c, 0, k);
        assert(coeff_of(Seq::<Term>::empty(), k) == c_zero());
        assert(coeff_of(l, k).re == msum_re(a, bc, 0, 0, k));
        assert(coeff_of(r, k).re == msum_re(a, b, 0, 0, k) + msum_re(a, c, 0, 0, k));
        assert(coeff_of(l, k).im == msum_im(a, bc, 0, 0, k));
        assert(coeff_of(r, k).im == msum_im(a, b, 0, 0, k) + msum_im(a, c, 0, 0, k));
    }
    lemma_canonical(l, r);
}

/// The numeric value of a digit character, `None` for any other character.
pub open spec fn digit_sval(c: char) -> Option<u64> {
    match c {
        '0' => Some(0u64),
        '1' => Some(1u64),
        '2' => Some(2u64),
        '3' => Some(3u64),
        '4' => Some(4u64),
        '5' => Some(5u64),
        '6' => Some(6u64),
        '7' => Some(7u64),
        '8' => Some(8u64),
        '9' => Some(9u64),
        _ => None,
    }
}

pub open spec fn is_digit(c: char) -> bool {
    digit_sval(c) is Some
}

/// The value of a digit string, most significant digit first.
pub open spec fn digits_nat(s: Seq<char>) -> nat
    decreases s.len(),
{
    if s.len() == 0 {
        0
    } else {
        digits_nat(s.drop_last()) * 10 + (digit_sval(s.last()).unwrap_or(0) as nat)
    }
}

/// The first position at or after `i` that holds no digit (or the end).
pub open spec fn digits_end(s: Seq<char>, i: int) -> int
    decreases s.len() - i,
{
    if i < 0 || i >= s.len() {
        if i < 0 {
            0
        } else {
            s.len() as int
        }
    } else if is_digit(s[i]) {
        digits_end(s, i + 1)
    } else {
        i
    }
}

/// `m` with a sign applied, as an unbounded integer.
pub open spec fn signed_val(neg: bool, m: nat) -> int {
    if neg {
        -(m as int)
    } else {
        m as int
    }
}

/// The complex value of two signed integer parts, if both fit in `i64`.
pub open spec fn mk_cpx(re_neg: bool, re_m: nat, im_neg: bool, im_m: nat) -> Option<Cpx> {
    if fits(signed_val(re_neg, re_m)) && fits(signed_val(im_neg, im_m)) {
        Some(
            Cpx {
                re: signed_val(re_neg, re_m) as i64,
                im: signed_val(im_neg, im_m) as i64,
            },
        )
    } else {
        None
    }
}

/// The complex-literal grammar: an optional leading `-`, then one of
/// `<digits>`, `<digits>i`, or `<digits>(+|-)<digits>i`, with each integer
/// part fitting in `i64`. (A `+` can only reach this parser through a direct
/// call: the lexer makes `+` a token of its own.)
pub open spec fn parse_complex(s: Seq<char>) -> Option<Cpx> {
    let neg0 = s.len() > 0 && s[0] == '-';
    let b = if neg0 {
        s.drop_first()
    } else {
        s
    };
    let p = digits_end(b, 0);
    if b.len() == 0 || p == 0 {
        None
    } else if p == b.len() {
        mk_cpx(neg0, digits_nat(b), false, 0)
    } else if p == b.len() - 1 && b[b.len() - 1] == 'i' {
        mk_cpx(false, 0, neg0, digits_nat(b.take(p)))
    } else if b[p] == '+' || b[p] == '-' {
        let q = digits_end(b, p + 1);
        if q > p + 1 && q == b.len() - 1 && b[b.len() - 1] == 'i' {
            mk_cpx(neg0, digits_nat(b.take(p)), b[p] == '-', digits_nat(b.subrange(p + 1, q)))
        } else {
            None
        }
    } else {
        None
    }
}

/// The generator-reference shape from position `i`: one or more groups
/// `c<digits>`, ending exactly at the end of the atom.
pub open spec fn gen_shape(s: Seq<char>, i: int) -> bool
    decreases s.len() - i,
{
    if i < 0 || i >= s.len() || s[i] != 'c' {
        false
    } else {
        let e = digits_end(s, i + 1);
        e > i + 1 && e <= s.len() && (e == s.len() || gen_shape(s, e))
    }
}

/// The basis key of a well-shaped generator atom from position `i`, given
/// the previous group's index `last`: defined when every index is below 64
/// and the indices strictly ascend (as the rendered form has them).
pub open spec fn gen_keys(s: Seq<char>, i: int, last: int) -> Option<u64>
    decreases s.len() - i,
{
    if i < 0 || i >= s.len() || s[i] != 'c' {
        None
    } else {
        let e = digits_end(s, i + 1);
        let v = digits_nat(s.subrange(i + 1, e));
        if !(e > i + 1 && e <= s.len()) {
            None
        } else if v >= 64 || v as int <= last {
            None
        } else if e == s.len() {
            Some(1u64 << (v as u64))
        } else {
            match gen_keys(s, e, v as int) {
                Some(k) => Some((1u64 << (v as u64)) | k),
                None => None,
            }
        }
    }
}

/// Whether some group of a generator atom names an index of 64 or more.
pub open spec fn gen_big(s: Seq<char>, i: int) -> bool
    decreases s.len() - i,
{
    if i < 0 || i >= s.len() || s[i] != 'c' {
        false
    } else {
        let e = digits_end(s, i + 1);
        let v = digits_nat(s.subrange(i + 1, e));
        if !(e > i + 1 && e <= s.len()) {
            false
        } else if v >= 64 {
            true
        } else if e == s.len() {
            false
        } else {
            gen_big(s, e)
        }
    }
}

/// The polynomial an atom denotes: a complex literal as `{0 -> value}`
/// (pruned if zero), a generator reference as `{key -> 1+0i}`; `None` where
/// the atom is out of the grammar.
pub open spec fn spec_atom(s: Seq<char>) -> Option<Seq<Term>> {
    if parse_complex(s) is Some {
        Some(scalar_terms(parse_complex(s)->Some_0))
    } else if gen_shape(s, 0) && gen_keys(s, 0, -1) is Some {
        Some(seq![Term { key: gen_keys(s, 0, -1)->Some_0, coeff: c_one() }])
    } else {
        None
    }
}

/// The one-term polynomial of a scalar atom.
pub open spec fn scalar_terms(c: Cpx) -> Seq<Term> {
    if c_is_zero(c) {
        Seq::empty()
    } else {
        seq![Term { key: 0u64, coeff: c }]
    }
}

/// The character of a decimal digit.
pub open spec fn digit_char(d: nat) -> char {
    if d == 0 {
        '0'
    } else if d == 1 {
        '1'
    } else if d == 2 {
        '2'
    } else if d == 3 {
        '3'
    } else if d == 4 {
        '4'
    } else if d == 5 {
        '5'
    } else if d == 6 {
        '6'
    } else if d == 7 {
        '7'
    } else if d == 8 {
        '8'
    } else {
        '9'
    }
}

/// The decimal digits of `n`, most significant first, no leading zeros.
pub open spec fn nat_str(n: nat) -> Seq<char>
    decreases n,
{
    if n < 10 {
        seq![digit_char(n)]
    } else {
        nat_str(n / 10).push(digit_char(n % 10))
    }
}

/// The textual form of a coefficient: `re+imi` or `re-|im|i`.
pub open spec fn cpx_str(c: Cpx) -> Seq<char> {
    let re_part = if c.re < 0 {
        seq!['-'] + nat_str((-c.re) as nat)
    } else {
        nat_str(c.re as nat)
    };
    let im_part = if c.im < 0 {
        seq!['-'] + nat_str((-c.im) as nat)
    } else {
        seq!['+'] + nat_str(c.im as nat)
    };
    re_part + im_part + seq!['i']
}

/// The generator factors of a basis key, ascending: `c<i>` per set bit.
pub open spec fn gens_str(key: u64, i: u64) -> Seq<char>
    decreases 64 - i,
{
    if i >= 64 {
        Seq::empty()
    } else {
        (if bit_set(key, i) {
            seq!['c'] + nat_str(i as nat)
        } else {
            Seq::empty()
        }) + gens_str(key, (i + 1) as u64)
    }
}

/// One rendered term: the coefficient in parentheses, then its generators.
pub open spec fn term_str(t: Term) -> Seq<char> {
    seq!['('] + cpx_str(t.coeff) + seq![')'] + gens_str(t.key, 0)
}

/// The rendered terms from index `i` on, joined by ` + `.
pub open spec fn render_terms(s: Seq<Term>, i: int) -> Seq<char>
    decreases s.len() - i,
{
    if i < 0 || i >= s.len() {
        Seq::empty()
    } else {
        term_str(s[i]) + (if i + 1 < s.len() {
            seq![' ', '+', ' ']
        } else {
            Seq::empty()
        }) + render_terms(s, i + 1)
    }
}

/// The textual form of a polynomial: `"0"` when zero, else the terms in
/// ascending key order joined by ` + `.
pub open spec fn spec_render(s: Seq<Term>) -> Seq<char> {
    if s.len() == 0 {
        seq!['0']
    } else {
        render_terms(s, 0)
    }
}

proof fn lemma_digit_char_val(m: nat)
    requires
        m < 10,
    ensures
        digit_sval(digit_char(m)) == Some(m as u64),
        is_digit(digit_char(m)),
{
}

/// Decimal rendering inverts: the digits of `n` are nonempty, all digits,
/// and read back as `n`.
proof fn lemma_nat_str_digits(n: nat)
    ensures
        nat_str(n).len() > 0,
        forall|j: int| 0 <= j < nat_str(n).len() ==> is_digit(#[trigger] nat_str(n)[j]),
        digits_nat(nat_str(n)) == n,
    decreases n,
{
    if n < 10 {
        lemma_digit_char_val(n);
        assert(nat_str(n) =~= seq![digit_char(n)]);
        assert(nat_str(n).drop_last() =~= Seq::<char>::empty());
        assert(digits_nat(Seq::<char>::empty()) == 0);
        assert(nat_str(n).last() == digit_char(n));
        assert(digits_nat(nat_str(n)) == 0 * 10 + n);
    } else {
        lemma_nat_str_digits(n / 10);
        lemma_digit_char_val(n % 10);
        let x = nat_str(n / 10);
        let d = digit_char(n % 10);
        assert(nat_str(n) == x.push(d));
        assert(x.push(d).drop_last() =~= x);
        assert(x.push(d).last() == d);
        assert(digits_nat(nat_str(n)) == (n / 10) * 10 + n % 10);
        assert forall|j: int| 0 <= j < nat_str(n).len() implies is_digit(
            #[trigger] nat_str(n)[j],
        ) by {
            if j < x.len() {
                assert(x.push(d)[j] == x[j]);
            } else {
                assert(x.push(d)[j] == d);
            }
        }
    }
}

/// A run of digits from `i` to `e`, with `e` at the end or a non-digit,
/// is exactly what the digit scan consumes.
proof fn lemma_digits_end_run(s: Seq<char>, i: int, e: int)
    requires
        0 <= i <= e <= s.len(),
        forall|j: int| i <= j < e ==> is_digit(#[trigger] s[j]),
        e == s.len() || !is_digit(s[e]),
    ensures
        digits_end(s, i) == e,
    decreases e - i,
{
    if i < e {
        lemma_digits_end_run(s, i + 1, e);
    }
}

/// The rendered text of a coefficient parses back to the same coefficient:
/// the scalar half of the render/re-evaluate round trip.
pub proof fn lemma_cpx_render_parse(c: Cpx)
    ensures
        parse_complex(cpx_str(c)) == Some(c),
{
    let rm: nat = if c.re < 0 {
        (-c.re) as nat
    } else {
        c.re as nat
    };
    let im_m: nat = if c.im < 0 {
        (-c.im) as nat
    } else {
        c.im as nat
    };
    let rs = nat_str(rm);
    let ims = nat_str(im_m);
    let sep: char = if c.im < 0 {
        '-'
    } else {
        '+'
    };
    lemma_nat_str_digits(rm);
    lemma_nat_str_digits(im_m);
    let s = cpx_str(c);
    let core = rs + seq![sep] + ims + seq!['i'];
    assert(s =~= if c.re < 0 {
        seq!['-'] + core
    } else {
        core
    });
    let neg0 = s.len() > 0 && s[0] == '-';
    assert(!is_digit('-') && !is_digit('+') && !is_digit('i'));
    if c.re < 0 {
        assert(s[0] == '-');
        assert(neg0);
        assert(s.drop_first() =~= core);
    } else {
        assert(s[0] == rs[0] && is_digit(rs[0]));
        assert(!neg0);
    }
    let b: Seq<char> = if neg0 {
        s.drop_first()
    } else {
        s
    };
    assert(b == core);
    let p = rs.len() as int;
    let n = b.len() as int;
    assert(n == p + 1 + ims.len() + 1);
    assert forall|j: int| 0 <= j < p implies is_digit(#[trigger] b[j]) by {
        assert(b[j] == rs[j]);
    }
    assert(b[p] == sep);
    lemma_digits_end_run(b, 0, p);
    assert(digits_end(b, 0) == p);
    assert(p != 0 && p != n && p != n - 1);
    assert forall|j: int| p + 1 <= j < n - 1 implies is_digit(#[trigger] b[j]) by {
        assert(b[j] == ims[j - (p + 1)]);
    }
    assert(b[n - 1] == 'i');
    lemma_digits_end_run(b, p + 1, n - 1);
    assert(digits_end(b, p + 1) == n - 1);
    assert(b.take(p) =~= rs);
    assert(b.subrange(p + 1, n - 1) =~= ims);
    assert(parse_complex(s) == mk_cpx(neg0, rm, sep == '-', im_m));
    assert(signed_val(neg0, rm) == c.re as int);
    assert(signed_val(sep == '-', im_m) == c.im as int);
    assert(mk_cpx(neg0, rm, sep == '-', im_m) == Some(c));
}

/// The bits of `key` at positions `i` and above.
pub open spec fn high_bits(key: u64, i: u64) -> u64 {
    if i >= 64 {
        0
    } else {
        key & !((((1u64 << i) - 1) as u64))
    }
}

proof fn lemma_high_bits_zero(key: u64)
    by (bit_vector)
    ensures
        high_bits(key, 0) == key,
{
}

proof fn lemma_high_bits_unset(key: u64, i: u64)
    by (bit_vector)
    requires
        i < 64,
        !bit_set(key, i),
    ensures
        high_bits(key, i) == high_bits(key, (i + 1) as u64),
{
}

proof fn lemma_high_bits_set(key: u64, i: u64)
    by (bit_vector)
    requires
        i < 64,
        bit_set(key, i),
    ensures
        high_bits(key, i) == (1u64 << i) | high_bits(key, (i + 1) as u64),
        high_bits(key, i) != 0,
{
}

/// The generator text of `key` from position `i` is empty exactly when no
/// bit at `i` or above is set; otherwise it begins with `c`.
proof fn lemma_gens_str_head(key: u64, i: u64)
    requires
        i <= 64,
    ensures
        (gens_str(key, i).len() == 0) == (high_bits(key, i) == 0),
        gens_str(key, i).len() > 0 ==> gens_str(key, i)[0] == 'c',
    decreases 64 - i,
{
    if i >= 64 {
    } else {
        lemma_gens_str_head(key, (i + 1) as u64);
        if bit_set(key, i) {
            lemma_high_bits_set(key, i);
            lemma_nat_str_digits(i as nat);
            assert(gens_str(key, i)[0] == 'c');
        } else {
            lemma_high_bits_unset(key, i);
            assert(gens_str(key, i) =~= gens_str(key, (i + 1) as u64));
        }
    }
}

/// The digit scan sees only the suffix it starts in.
proof fn lemma_digits_end_shift(x: Seq<char>, y: Seq<char>, k: int)
    requires
        0 <= k <= y.len(),
    ensures
        digits_end(x + y, x.len() + k) == x.len() + digits_end(y, k),
    decreases y.len() - k,
{
    if k < y.len() {
        assert((x + y)[x.len() + k] == y[k]);
        if is_digit(y[k]) {
            lemma_digits_end_shift(x, y, k + 1);
        }
    }
}

/// The generator grammar sees only the suffix it starts in.
proof fn lemma_gen_shift(x: Seq<char>, y: Seq<char>, k: int, last: int)
    requires
        0 <= k <= y.len(),
    ensures
        gen_shape(x + y, x.len() + k) == gen_shape(y, k),
        gen_keys(x + y, x.len() + k, last) == gen_keys(y, k, last),
    decreases y.len() - k,
{
    let s = x + y;
    let xl = x.len() as int;
    if k < y.len() {
        assert(s[xl + k] == y[k]);
        if y[k] == 'c' {
            lemma_digits_end_shift(x, y, k + 1);
            let e = digits_end(y, k + 1);
            lemma_digits_end_le(y, k + 1);
            assert(k + 1 <= e <= y.len());
            assert(s.subrange(xl + k + 1, xl + e) =~= y.subrange(k + 1, e));
            if e > k + 1 {
                let v = digits_nat(y.subrange(k + 1, e));
                if e < y.len() {
                    lemma_gen_shift(x, y, e, v as int);
                }
                assert(gen_shape(s, xl + k) == gen_shape(y, k));
            }
        }
    }
}

/// The digit scan never passes the end.
proof fn lemma_digits_end_le(s: Seq<char>, i: int)
    requires
        0 <= i <= s.len(),
    ensures
        i <= digits_end(s, i) <= s.len(),
    decreases s.len() - i,
{
    if i < s.len() && is_digit(s[i]) {
        lemma_digits_end_le(s, i + 1);
    }
}

/// The rendered generator text of a nonzero key parses back to the same
/// key: the generator half of the render/re-evaluate round trip.
proof fn lemma_gens_render_parse_from(key: u64, i: u64, last: int)
    requires
        i <= 64,
        -1 <= last < i,
        high_bits(key, i) != 0,
    ensures
        gen_shape(gens_str(key, i), 0),
        gen_keys(gens_str(key, i), 0, last) == Some(high_bits(key, i)),
    decreases 64 - i,
{
    let s = gens_str(key, i);
    if !bit_set(key, i) {
        lemma_high_bits_unset(key, i);
        assert(s =~= gens_str(key, (i + 1) as u64));
        lemma_gens_render_parse_from(key, (i + 1) as u64, last);
    } else {
        lemma_high_bits_set(key, i);
        lemma_nat_str_digits(i as nat);
        let rs = nat_str(i as nat);
        let rest = gens_str(key, (i + 1) as u64);
        let grp = seq!['c'] + rs;
        assert(s =~= grp + rest);
        assert(s[0] == 'c');
        lemma_gens_str_head(key, (i + 1) as u64);
        assert forall|j: int| 1 <= j < 1 + rs.len() implies is_digit(#[trigger] s[j]) by {
            assert(s[j] == rs[j - 1]);
        }
        let e = 1 + rs.len() as int;
        if rest.len() == 0 {
            assert(s =~= grp);
            assert(e == s.len());
            lemma_digits_end_run(s, 1, e);
        } else {
            assert(s[e] == rest[0] && rest[0] == 'c');
            assert(!is_digit('c'));
            lemma_digits_end_run(s, 1, e);
        }
        assert(digits_end(s, 1) == e);
        assert(s.subrange(1, e) =~= rs);
        assert(digits_nat(s.subrange(1, e)) == i as nat);
        if rest.len() == 0 {
            assert(high_bits(key, (i + 1) as u64) == 0);
            assert(gen_keys(s, 0, last) == Some(1u64 << i));
            assert(high_bits(key, i) == (1u64 << i) | 0u64);
            assert((1u64 << i) | 0u64 == 1u64 << i) by (bit_vector);
            assert(gen_shape(s, 0));
        } else {
            assert(high_bits(key, (i + 1) as u64) != 0);
            lemma_gens_render_parse_from(key, (i + 1) as u64, i as int);
            lemma_gen_shift(grp, rest, 0, i as int);
            assert(grp + rest == s);
            assert(grp.len() as int == e);
            assert(gen_shape(s, e) == gen_shape(rest, 0));
            assert(gen_keys(s, e, i as int) == gen_keys(rest, 0, i as int));
            assert(gen_keys(rest, 0, i as int) == Some(high_bits(key, (i + 1) as u64)));
            assert(gen_keys(s, 0, last) == Some(
                (1u64 << i) | high_bits(key, (i + 1) as u64),
            ));
            assert(gen_shape(s, 0));
        }
    }
}

/// The generator half of the render/re-evaluate round trip: for a nonzero
/// basis key, the rendered text `c<i1>c<i2>...` is an atom that the atom
/// grammar reads back as exactly that key with coefficient one.
pub proof fn lemma_gens_render_parse(key: u64)
    requires
        key != 0,
    ensures
        spec_atom(gens_str(key, 0)) == Some(seq![Term { key: key, coeff: c_one() }]),
{
    lemma_high_bits_zero(key);
    lemma_gens_render_parse_from(key, 0, -1);
    let s = gens_str(key, 0);
    lemma_gens_str_head(key, 0);
    assert(s[0] == 'c');
    assert(!is_digit('c') && 'c' != '-');
    assert(parse_complex(s) is None) by {
        assert(s.len() > 0 && s[0] != '-');
        assert(digits_end(s, 0) == 0);
    }
}

fn push_digit(out: &mut String, d: u64)
    requires
        d < 10,
    ensures
        final(out)@ == old(out)@ + seq![digit_char(d as nat)],
{
    proof {
        reveal_strlit("0");
        reveal_strlit("1");
        reveal_strlit("2");
        reveal_strlit("3");
        reveal_strlit("4");
        reveal_strlit("5");
        reveal_strlit("6");
        reveal_strlit("7");
        reveal_strlit("8");
        reveal_strlit("9");
    }
    if d == 0 {
        out.append("0");
    } else if d == 1 {
        out.append("1");
    } else if d == 2 {
        out.append("2");
    } else if d == 3 {
        out.append("3");
    } else if d == 4 {
        out.append("4");
    } else if d == 5 {
        out.append("5");
    } else if d == 6 {
        out.append("6");
    } else if d == 7 {
        out.append("7");
    } else if d == 8 {
        out.append("8");
    } else {
        out.append("9");
    }
}

fn push_nat(out: &mut String, n: u64)
    ensures
        final(out)@ == old(out)@ + nat_str(n as nat),
    decreases n,
{
    if n < 10 {
        push_digit(out, n);
    } else {
        push_nat(out, n / 10);
        push_digit(out, n % 10);
        proof {
            assert(old(out)@ + nat_str((n / 10) as nat) + seq![digit_char((n % 10) as nat)]
                =~= old(out)@ + nat_str(n as nat));
        }
    }
}

fn push_cpx(out: &mut String, c: Cpx)
    ensures
        final(out)@ == old(out)@ + cpx_str(c),
{
    proof {
        reveal_strlit("-");
        reveal_strlit("+");
        reveal_strlit("i");
    }
    if c.re < 0 {
        out.append("-");
        let m = (-(c.re as i128)) as u64;
        push_nat(out, m);
    } else {
        push_nat(out, c.re as u64);
    }
    if c.im < 0 {
        out.append("-");
        let m = (-(c.im as i128)) as u64;
        push_nat(out, m);
    } else {
        out.append("+");
        push_nat(out, c.im as u64);
    }
    out.append("i");
    proof {
        let re_part: Seq<char> = if c.re < 0 {
            seq!['-'] + nat_str((-c.re) as nat)
        } else {
            nat_str(c.re as nat)
        };
        let im_part: Seq<char> = if c.im < 0 {
            seq!['-'] + nat_str((-c.im) as nat)
        } else {
            seq!['+'] + nat_str(c.im as nat)
        };
        assert(out@ =~= old(out)@ + (re_part + im_part + seq!['i']));
    }
}

fn push_gens(out: &mut String, key: u64)
    ensures
        final(out)@ == old(out)@ + gens_str(key, 0),
{
    let mut i: u64 = 0;
    while i < 64
        invariant
            0 <= i <= 64,
            out@ + gens_str(key, i) == old(out)@ + gens_str(key, 0),
        decreases 64 - i,
    {
        let ghost pre = out@;
        proof {
            reveal_strlit("c");
        }
        if (key >> i) & 1 == 1 {
            out.append("c");
            push_nat(out, i);
            proof {
                assert(out@ =~= pre + (seq!['c'] + nat_str(i as nat)));
                assert(out@ + gens_str(key, (i + 1) as u64) =~= pre + gens_str(key, i));
            }
        } else {
            proof {
                assert(out@ + gens_str(key, (i + 1) as u64) =~= pre + gens_str(key, i));
            }
        }
        i = i + 1;
    }
}

/// A digit magnitude greater than any value accepted into an `i64` part.
pub open spec fn mag_cap() -> nat {
    0x8000000000000001
}

/// A digit string's value, clamped to `mag_cap`.
pub open spec fn clamped(v: nat) -> nat {
    if v > mag_cap() {
        mag_cap()
    } else {
        v
    }
}

fn digit_of(c: char) -> (r: Option<u64>)
    ensures
        r == digit_sval(c),
{
    match c {
        '0' => Some(0u64),
        '1' => Some(1u64),
        '2' => Some(2u64),
        '3' => Some(3u64),
        '4' => Some(4u64),
        '5' => Some(5u64),
        '6' => Some(6u64),
        '7' => Some(7u64),
        '8' => Some(8u64),
        '9' => Some(9u64),
        _ => None,
    }
}

/// Scan the digit run of `s` from `from`: its end index and its value,
/// clamped to `mag_cap` (large enough to decide every `i64` range check).
fn scan_digits(s: &str, from: usize) -> (r: (usize, u128))
    requires
        from <= s@.len(),
    ensures
        r.0 == digits_end(s@, from as int),
        from <= r.0 <= s@.len(),
        r.1 as nat == clamped(digits_nat(s@.subrange(from as int, r.0 as int))),
        r.1 <= 0x8000000000000001u128,
{
    let n = s.unicode_len();
    let mut p = from;
    let mut mag: u128 = 0;
    proof {
        assert(s@.subrange(from as int, from as int) =~= Seq::<char>::empty());
    }
    while p < n
        invariant
            from <= p <= n == s@.len(),
            digits_end(s@, from as int) == digits_end(s@, p as int),
            mag as nat == clamped(digits_nat(s@.subrange(from as int, p as int))),
            mag <= 0x8000000000000001u128,
        decreases n - p,
    {
        let c = s.get_char(p);
        match digit_of(c) {
            None => {
                return (p, mag);
            },
            Some(d) => {
                let ghost v = digits_nat(s@.subrange(from as int, p as int));
                let m10 = mag * 10 + (d as u128);
                let newmag = if m10 > 0x8000000000000001u128 {
                    0x8000000000000001u128
                } else {
                    m10
                };
                proof {
                    assert(s@.subrange(from as int, p + 1).drop_last() =~= s@.subrange(
                        from as int,
                        p as int,
                    ));
                    assert(s@.subrange(from as int, p + 1).last() == s@[p as int]);
                    assert(digits_nat(s@.subrange(from as int, p + 1)) == v * 10 + (d as nat));
                    if v > mag_cap() {
                        assert(v * 10 + d >= v) by (nonlinear_arith)
                            requires
                                v >= 0,
                                d >= 0,
                        ;
                    }
                    assert(newmag as nat == clamped(v * 10 + (d as nat)));
                }
                mag = newmag;
                p = p + 1;
            },
        }
    }
    (p, mag)
}

/// The two signed parts as an exec complex value, deciding the range checks
/// on the clamped magnitudes.
fn mk_cpx_exec(
    re_neg: bool,
    re_m: u128,
    im_neg: bool,
    im_m: u128,
    Ghost(re_v): Ghost<nat>,
    Ghost(im_v): Ghost<nat>,
) -> (r: Option<Cpx>)
    requires
        re_m as nat == clamped(re_v),
        im_m as nat == clamped(im_v),
    ensures
        r == mk_cpx(re_neg, re_v, im_neg, im_v),
{
    let re_ok = if re_neg {
        re_m <= 0x8000000000000000u128
    } else {
        re_m <= 0x7fffffffffffffffu128
    };
    let im_ok = if im_neg {
        im_m <= 0x8000000000000000u128
    } else {
        im_m <= 0x7fffffffffffffffu128
    };
    if !(re_ok && im_ok) {
        return None;
    }
    let re: i64 = if re_neg {
        (-(re_m as i128)) as i64
    } else {
        re_m as i64
    };
    let im: i64 = if im_neg {
        (-(im_m as i128)) as i64
    } else {
        im_m as i64
    };
    Some(Cpx { re, im })
}

/// Parse a complex literal, or return `None` where the atom is out of the
/// literal grammar.
fn parse_complex_exec(s: &str) -> (r: Option<Cpx>)
    ensures
        r == parse_complex(s@),
{
    let n = s.unicode_len();
    let neg0 = n > 0 && s.get_char(0) == '-';
    let off: usize = if neg0 {
        1
    } else {
        0
    };
    let b = s.substring_char(off, n);
    proof {
        if neg0 {
            assert(s@.drop_first() =~= s@.subrange(1, n as int));
        } else {
            assert(s@ =~= s@.subrange(0, n as int));
        }
    }
    let bl = b.unicode_len();
    if bl == 0 {
        return None;
    }
    let (p, mag) = scan_digits(b, 0);
    if p == 0 {
        return None;
    }
    let ghost bsq = b@;
    let ghost re_v = digits_nat(bsq.subrange(0, p as int));
    if p == bl {
        proof {
            assert(bsq.subrange(0, p as int) =~= bsq);
        }
        return mk_cpx_exec(neg0, mag, false, 0, Ghost(re_v), Ghost(0));
    }
    if p == bl - 1 && b.get_char(bl - 1) == 'i' {
        proof {
            assert(bsq.subrange(0, p as int) =~= bsq.take(p as int));
        }
        return mk_cpx_exec(false, 0, neg0, mag, Ghost(0), Ghost(re_v));
    }
    let sep = b.get_char(p);
    if sep == '+' || sep == '-' {
        let (q, mag2) = scan_digits(b, p + 1);
        let ghost im_v = digits_nat(bsq.subrange(p + 1, q as int));
        if q > p + 1 && q == bl - 1 && b.get_char(bl - 1) == 'i' {
            proof {
                assert(bsq.subrange(0, p as int) =~= bsq.take(p as int));
            }
            return mk_cpx_exec(neg0, mag, sep == '-', mag2, Ghost(re_v), Ghost(im_v));
        }
        return None;
    }
    None
}

proof fn lemma_or_zero(x: u64)
    by (bit_vector)
    ensures
        0u64 | x == x,
{
}

proof fn lemma_or_assoc(a: u64, b: u64, c: u64)
    by (bit_vector)
    ensures
        a | (b | c) == (a | b) | c,
{
}

/// The key `gen_keys` builds, with the bits gathered so far folded in.
pub open spec fn gen_or(k: u64, o: Option<u64>) -> Option<u64> {
    match o {
        Some(x) => Some(k | x),
        None => None,
    }
}

enum GenScan {
    Key(u64),
    Big,
    Bad,
}

/// Scan a generator atom: its basis key, or why it has none.
fn parse_gen_exec(s: &str) -> (r: GenScan)
    ensures
        (r is Key) == (gen_shape(s@, 0) && gen_keys(s@, 0, -1) is Some),
        r matches GenScan::Key(k) ==> gen_keys(s@, 0, -1) == Some(k),
        (r is Big) == (gen_shape(s@, 0) && gen_keys(s@, 0, -1) is None && gen_big(s@, 0)),
{
    let n = s.unicode_len();
    if n == 0 {
        return GenScan::Bad;
    }
    let mut i: usize = 0;
    let mut key: u64 = 0;
    let mut last: i64 = -1;
    let mut dead = false;
    let mut big = false;
    proof {
        if gen_keys(s@, 0, -1) is Some {
            lemma_or_zero(gen_keys(s@, 0, -1).unwrap());
        }
    }
    loop
        invariant
            0 <= i < n == s@.len(),
            -1 <= last < 64,
            gen_shape(s@, 0) == gen_shape(s@, i as int),
            !dead ==> gen_or(key, gen_keys(s@, i as int, last as int)) == gen_keys(s@, 0, -1),
            dead ==> gen_keys(s@, 0, -1) is None,
            gen_big(s@, 0) == (big || gen_big(s@, i as int)),
            big ==> dead,
        decreases n - i,
    {
        let c = s.get_char(i);
        if c != 'c' {
            return GenScan::Bad;
        }
        let (e, mag) = scan_digits(s, i + 1);
        if e == i + 1 {
            return GenScan::Bad;
        }
        let ghost v = digits_nat(s@.subrange(i + 1, e as int));
        let ghost last0 = last as int;
        let ghost key0 = key;
        let group_dead: bool;
        if mag >= 64 {
            proof {
                assert(v >= 64);
                assert(gen_keys(s@, i as int, last0) is None);
                assert(gen_big(s@, i as int));
            }
            big = true;
            dead = true;
            group_dead = true;
        } else {
            let vi = mag as i64;
            proof {
                assert(v < 64 && vi as int == v);
            }
            if vi <= last {
                proof {
                    assert(gen_keys(s@, i as int, last0) is None);
                }
                dead = true;
                group_dead = true;
            } else {
                group_dead = false;
                if !dead {
                    key = key | (1u64 << (mag as u64));
                }
            }
            last = vi;
        }
        if e == n {
            proof {
                assert(gen_shape(s@, i as int));
                if !dead {
                    assert(gen_keys(s@, i as int, last0) == Some(1u64 << (v as u64)));
                }
            }
            if dead {
                if big {
                    return GenScan::Big;
                } else {
                    return GenScan::Bad;
                }
            } else {
                return GenScan::Key(key);
            }
        }
        proof {
            assert(gen_shape(s@, i as int) == gen_shape(s@, e as int));
            if !dead {
                assert(gen_keys(s@, i as int, last0) == gen_or(
                    1u64 << (v as u64),
                    gen_keys(s@, e as int, v as int),
                ));
                if gen_keys(s@, e as int, v as int) is Some {
                    lemma_or_assoc(key0, 1u64 << (v as u64), gen_keys(s@, e as int, v as int).unwrap());
                }
            }
            assert(gen_big(s@, i as int) == (big || gen_big(s@, e as int)) || big);
        }
        i = e;
    }
}

/// A key below the heads of two sorted vectors is absent from their sum.
proof fn lemma_min_key(a: Seq<Term>, b: Seq<Term>, k: u64)
    requires
        wf_terms(a),
        wf_terms(b),
        a.len() > 0,
        b.len() > 0,
        sadd(a, b) is Some,
        contains_key(a, k) || contains_key(b, k),
    ensures
        k >= a[0].key || k >= b[0].key,
{
    if contains_key(a, k) {
        let w = choose|w: int| 0 <= w < a.len() && a[w].key == k;
        assert(w == 0 || a[0].key < a[w].key);
    } else {
        let w = choose|w: int| 0 <= w < b.len() && b[w].key == k;
        assert(w == 0 || b[0].key < b[w].key);
    }
}

/// A key no vector entry carries has coefficient zero.
pub proof fn lemma_coeff_absent(s: Seq<Term>, k: u64)
    requires
        !contains_key(s, k),
    ensures
        coeff_of(s, k) == c_zero(),
    decreases s.len(),
{
    if s.len() > 0 {
        assert(s[0].key != k);
        assert(forall|i: int| 0 <= i < s.drop_first().len()
            ==> #[trigger] s.drop_first()[i] == s[i + 1]);
        lemma_coeff_absent(s.drop_first(), k);
    }
}

/// In a well-formed vector, a present key's coefficient is its entry.
pub proof fn lemma_coeff_present(s: Seq<Term>, k: u64)
    requires
        wf_terms(s),
        contains_key(s, k),
    ensures
        exists|i: int| 0 <= i < s.len() && s[i].key == k && #[trigger] s[i].coeff == coeff_of(s, k),
        !c_is_zero(coeff_of(s, k)),
    decreases s.len(),
{
    let w = choose|w: int| 0 <= w < s.len() && s[w].key == k;
    if s[0].key == k {
        assert(s[0].coeff == coeff_of(s, k));
    } else {
        assert(w > 0);
        let s1 = s.drop_first();
        assert(forall|i: int| 0 <= i < s1.len() ==> #[trigger] s1[i] == s[i + 1]);
        assert(s1[w - 1].key == k);
        lemma_coeff_present(s1, k);
        let v = choose|i: int| 0 <= i < s1.len() && s1[i].key == k
            && #[trigger] s1[i].coeff == coeff_of(s1, k);
        assert(s[v + 1].coeff == coeff_of(s, k));
    }
}

/// In a well-formed vector every coefficient is zero or carried by an entry.
pub proof fn lemma_wf_coeff_zero_or_present(s: Seq<Term>, k: u64)
    requires
        wf_terms(s),
    ensures
        contains_key(s, k) ==> !c_is_zero(coeff_of(s, k)),
        !contains_key(s, k) ==> coeff_of(s, k) == c_zero(),
{
    if contains_key(s, k) {
        lemma_coeff_present(s, k);
    } else {
        lemma_coeff_absent(s, k);
    }
}

} // verus!

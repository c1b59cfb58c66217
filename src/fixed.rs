use vstd::prelude::*;

use crate::entry::MAX_MAGNITUDE;

verus! {

/// ASCII `-`.
pub const MINUS: u8 = 45;
/// ASCII `.`.
pub const DOT: u8 = 46;
/// ASCII `0`.
pub const ZERO: u8 = 48;
/// ASCII `9`.
pub const NINE: u8 = 57;

/// Why a value field could not be read.
#[derive(Clone, Copy, Debug, PartialEq, Eq, Structural)]
pub enum ValueError {
    /// The field holds no bytes.
    Empty,
    /// The digits make a magnitude above `MAX_MAGNITUDE` tenths.
    TooLarge,
}

pub open spec fn is_digit(c: u8) -> bool {
    48 <= c <= 57
}

/// The number formed by the decimal digits of `s`, every other byte being skipped.
pub open spec fn digits_value(s: Seq<u8>) -> nat
    decreases s.len(),
{
    if s.len() == 0 {
        0
    } else if is_digit(s.last()) {
        digits_value(s.drop_last()) * 10 + (s.last() - 48) as nat
    } else {
        digits_value(s.drop_last())
    }
}

/// The scaled value that a non-empty field stands for: its digits, negated when
/// the field starts with a minus sign.
pub open spec fn field_value(s: Seq<u8>) -> int {
    if s.len() > 0 && s[0] == 45 {
        -(digits_value(s) as int)
    } else {
        digits_value(s) as int
    }
}

/// Reads a decimal value with a fixed number of fractional digits as an integer
/// scaled by that power of ten: an optional leading `-`, then the digits, any
/// other byte (the decimal point) being skipped.
pub fn utf8_funky_int(b: &[u8]) -> (r: Result<i64, ValueError>)
    ensures
        r == (if b@.len() == 0 {
            Err(ValueError::Empty)
        } else if digits_value(b@) > MAX_MAGNITUDE {
            Err(ValueError::TooLarge)
        } else {
            Ok(field_value(b@) as i64)
        }),
        r is Ok ==> -MAX_MAGNITUDE <= r->Ok_0 <= MAX_MAGNITUDE,
{
    if b.len() == 0 {
        return Err(ValueError::Empty);
    }
    let negative = b[0] == MINUS;
    let mut acc: i64 = 0;
    let mut over = false;
    let mut i: usize = 0;
    while i < b.len()
        invariant
            0 <= i <= b@.len(),
            over ==> digits_value(b@.subrange(0, i as int)) > MAX_MAGNITUDE,
            !over ==> acc == digits_value(b@.subrange(0, i as int)),
            !over ==> acc <= MAX_MAGNITUDE,
        decreases b@.len() - i,
    {
        let c = b[i];
        proof {
            assert(b@.subrange(0, i + 1).drop_last() =~= b@.subrange(0, i as int));
        }
        if !over && c >= ZERO && c <= NINE {
            let d = (c - ZERO) as i64;
            if acc > (MAX_MAGNITUDE - d) / 10 {
                over = true;
            } else {
                acc = acc * 10 + d;
            }
        }
        i = i + 1;
    }
    proof {
        assert(b@.subrange(0, b@.len() as int) =~= b@);
    }
    if over {
        Err(ValueError::TooLarge)
    } else if negative {
        Ok(-acc)
    } else {
        Ok(acc)
    }
}

pub open spec fn digit_char(d: nat) -> u8 {
    (d + 48) as u8
}

/// Decimal digits of `n`, most significant first, without leading zeros.
pub open spec fn nat_digits(n: nat) -> Seq<u8>
    decreases n,
{
    if n < 10 {
        seq![digit_char(n)]
    } else {
        nat_digits(n / 10).push(digit_char(n % 10))
    }
}

pub open spec fn abs_int(v: int) -> nat {
    if v < 0 { (-v) as nat } else { v as nat }
}

/// Text of a scaled value with one fractional digit: a `-` for negative values,
/// the whole tenths, a `.` and the last digit.
pub open spec fn render_value(v: int) -> Seq<u8> {
    let body = nat_digits(abs_int(v) / 10) + seq![46u8, digit_char(abs_int(v) % 10)];
    if v < 0 { seq![45u8] + body } else { body }
}

fn push_digits(out: &mut Vec<u8>, n: u128)
    ensures
        final(out)@ == old(out)@ + nat_digits(n as nat),
    decreases n,
{
    if n >= 10 {
        push_digits(out, n / 10);
    }
    out.push((n % 10) as u8 + ZERO);
    proof {
        assert(final(out)@ =~= old(out)@ + nat_digits(n as nat));
    }
}

/// Writes a scaled value as decimal text with one fractional digit.
pub fn render_fixed(v: i128) -> (r: Vec<u8>)
    ensures
        r@ == render_value(v as int),
{
    let n: u128 = if v < 0 { (-(v + 1)) as u128 + 1 } else { v as u128 };
    render_signed(v < 0, n)
}

/// Text of the scaled value of magnitude `n`, negative when `negative` holds.
pub fn render_signed(negative: bool, n: u128) -> (r: Vec<u8>)
    ensures
        r@ == render_value(if negative { -(n as int) } else { n as int }),
{
    let mut out: Vec<u8> = Vec::new();
    if negative && n > 0 {
        out.push(MINUS);
    }
    push_digits(&mut out, n / 10);
    out.push(DOT);
    out.push((n % 10) as u8 + ZERO);
    proof {
        assert(out@ =~= render_value(if negative { -(n as int) } else { n as int }));
    }
    out
}

proof fn lemma_nat_digits_value(n: nat)
    ensures
        digits_value(nat_digits(n)) == n,
        forall|i: int| 0 <= i < nat_digits(n).len() ==> is_digit(#[trigger] nat_digits(n)[i]),
    decreases n,
{
    if n >= 10 {
        lemma_nat_digits_value(n / 10);
        let s = nat_digits(n);
        assert(s.drop_last() =~= nat_digits(n / 10));
        assert(is_digit(s.last()) && s.last() - 48 == n % 10);
        assert(digits_value(s) == digits_value(nat_digits(n / 10)) * 10 + n % 10);
        assert(n == (n / 10) * 10 + n % 10) by (nonlinear_arith);
        assert forall|i: int| 0 <= i < s.len() implies is_digit(#[trigger] s[i]) by {
            if i < s.len() - 1 {
                assert(s[i] == nat_digits(n / 10)[i]);
            }
        }
    } else {
        let s = nat_digits(n);
        assert(s.drop_last() =~= Seq::<u8>::empty());
        assert(digits_value(s) == digits_value(s.drop_last()) * 10 + (s.last() - 48) as nat);
    }
}

proof fn lemma_digits_skip_prefix(p: Seq<u8>, s: Seq<u8>)
    requires
        forall|i: int| 0 <= i < p.len() ==> !is_digit(#[trigger] p[i]),
    ensures
        digits_value(p + s) == digits_value(s),
    decreases s.len(),
{
    if s.len() == 0 {
        assert(p + s =~= p);
        lemma_digits_none(p);
    } else {
        assert((p + s).drop_last() =~= p + s.drop_last());
        lemma_digits_skip_prefix(p, s.drop_last());
    }
}

proof fn lemma_digits_none(p: Seq<u8>)
    requires
        forall|i: int| 0 <= i < p.len() ==> !is_digit(#[trigger] p[i]),
    ensures
        digits_value(p) == 0,
    decreases p.len(),
{
    if p.len() > 0 {
        lemma_digits_none(p.drop_last());
    }
}

/// Reading back the text of a value gives the value again.
pub proof fn lemma_render_parse_round_trip(v: int)
    requires
        -MAX_MAGNITUDE <= v <= MAX_MAGNITUDE,
    ensures
        render_value(v).len() > 0,
        digits_value(render_value(v)) <= MAX_MAGNITUDE,
        field_value(render_value(v)) == v,
        render_value(field_value(render_value(v))) == render_value(v),
{
    let a = abs_int(v);
    let ds = nat_digits(a / 10);
    let body = ds + seq![46u8, digit_char(a % 10)];
    lemma_nat_digits_value(a / 10);
    assert(body.drop_last().drop_last() =~= ds);
    assert(digits_value(body) == a) by {
        assert(body.last() == digit_char(a % 10));
        assert(body.drop_last().last() == 46u8);
        assert(digits_value(body.drop_last()) == digits_value(ds));
        assert(digits_value(body) == digits_value(ds) * 10 + a % 10);
        assert(a == (a / 10) * 10 + a % 10) by (nonlinear_arith);
    }
    if v < 0 {
        assert(ds.len() > 0);
        assert(is_digit(ds[0]));
        lemma_digits_skip_prefix(seq![45u8], body);
        assert(render_value(v) == seq![45u8] + body);
    } else {
        assert(body[0] == ds[0]);
        assert(is_digit(ds[0]));
    }
}

/// Decimal digits without a superfluous leading zero: `0`, or a non-zero digit
/// followed by digits.
pub open spec fn plain_digits(d: Seq<u8>) -> bool {
    &&& d.len() >= 1
    &&& forall|i: int| 0 <= i < d.len() ==> is_digit(#[trigger] d[i])
    &&& (d.len() == 1 || d[0] != ZERO)
}

/// The shape of a value written with one fractional digit: an optional `-`,
/// plain digits, a `.` and one digit; a minus sign only before a non-zero value.
pub open spec fn canonical_decimal(s: Seq<u8>) -> bool {
    let body = if s.len() > 0 && s[0] == MINUS { s.drop_first() } else { s };
    &&& body.len() >= 3
    &&& plain_digits(body.subrange(0, body.len() - 2))
    &&& body[body.len() - 2] == DOT
    &&& is_digit(body.last())
    &&& (s.len() > 0 && s[0] == MINUS ==> digits_value(s) > 0)
}

proof fn lemma_digits_positive(d: Seq<u8>)
    requires
        d.len() >= 1,
        forall|i: int| 0 <= i < d.len() ==> is_digit(#[trigger] d[i]),
        d[0] != ZERO,
    ensures
        digits_value(d) >= 1,
    decreases d.len(),
{
    if d.len() > 1 {
        lemma_digits_positive(d.drop_last());
    }
}

proof fn lemma_plain_digits(d: Seq<u8>)
    requires
        plain_digits(d),
    ensures
        nat_digits(digits_value(d)) == d,
    decreases d.len(),
{
    let n = digits_value(d);
    if d.len() == 1 {
        assert(d.drop_last() =~= Seq::<u8>::empty());
        assert(is_digit(d[0]));
        assert(d.last() == d[0]);
        assert(digits_value(d.drop_last()) == 0);
        assert(n == digits_value(d.drop_last()) * 10 + (d.last() - 48) as nat);
        assert(n == (d[0] - 48) as nat);
        assert(n < 10);
        assert(nat_digits(n) == seq![digit_char(n)]);
        assert(nat_digits(n) =~= d);
    } else {
        let d0 = d.drop_last();
        assert(plain_digits(d0)) by {
            assert forall|i: int| 0 <= i < d0.len() implies is_digit(#[trigger] d0[i]) by {
                assert(d0[i] == d[i]);
            }
        }
        lemma_plain_digits(d0);
        lemma_digits_positive(d0);
        let v = digits_value(d0);
        let l = (d.last() - 48) as nat;
        assert(is_digit(d[d.len() - 1]));
        assert(n == v * 10 + l);
        assert(n / 10 == v && n % 10 == l) by (nonlinear_arith)
            requires n == v * 10 + l, l < 10;
        assert(nat_digits(n) =~= d);
    }
}

/// Rendering the value read from a canonical decimal text gives back the text.
pub proof fn lemma_parse_render_round_trip(s: Seq<u8>)
    requires
        canonical_decimal(s),
    ensures
        render_value(field_value(s)) == s,
{
    let neg = s.len() > 0 && s[0] == MINUS;
    let body = if neg { s.drop_first() } else { s };
    let ip = body.subrange(0, body.len() - 2);
    let l = body.last();
    assert(body =~= ip + seq![DOT, l]);
    lemma_plain_digits(ip);
    let v = digits_value(ip);
    assert(body.drop_last().drop_last() =~= ip);
    assert(digits_value(body.drop_last()) == v);
    let n = digits_value(body);
    let dl = (l - 48) as nat;
    assert(is_digit(l));
    assert(dl < 10);
    assert(n == v * 10 + dl);
    assert(n / 10 == v && n % 10 == dl) by (nonlinear_arith)
        requires n == v * 10 + dl, dl < 10;
    assert(digit_char(dl) == l);
    if neg {
        assert(s =~= seq![MINUS] + body);
        lemma_digits_skip_prefix(seq![MINUS], body);
        assert(field_value(s) == -(n as int));
        assert(abs_int(field_value(s)) == n);
        assert(render_value(field_value(s)) =~= s);
    } else {
        assert(field_value(s) == n as int);
        assert(render_value(field_value(s)) =~= s);
    }
}

} // verus!

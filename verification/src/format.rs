//! Values as text.

use crate::ast::{bool_text, comma_joined, quote_string, quoted_text};
use crate::blob::texts;
use crate::num::{
    absolute, finite, is_finite, is_less, is_nan, is_zero, less, magnitude, nan, zero, Arithmetic,
    Calc, Reading, TextOp, ZERO,
};
use crate::text::{chars_of, decimal, decimal_text, join, text_of};
use crate::value::{val, Val, Value};
use vstd::prelude::*;

verus! {

// ---- digits ---------------------------------------------------------------------------------

pub open spec fn is_digit(c: char) -> bool {
    '0' <= c && c <= '9'
}

pub open spec fn digit_value(c: char) -> int {
    c as u32 - 48
}

/// Where the exponent letter stands, or the end.
pub open spec fn exponent_mark(t: Seq<char>, i: int) -> int
    decreases t.len() - i,
{
    if i < 0 || i >= t.len() || t[i] == 'e' {
        i
    } else {
        exponent_mark(t, i + 1)
    }
}

/// The digits among the first `n` characters.
pub open spec fn digits_before(t: Seq<char>, n: int) -> Seq<int>
    decreases n,
{
    if n <= 0 {
        Seq::empty()
    } else if is_digit(t[n - 1]) {
        digits_before(t, n - 1).push(digit_value(t[n - 1]))
    } else {
        digits_before(t, n - 1)
    }
}

/// The number that the digits from `i` on spell, or nothing where another
/// character stands, or the number is above any exponent's.
pub open spec fn spelled(t: Seq<char>, i: int, sofar: int) -> Option<int>
    decreases t.len() - i,
{
    if i < 0 || i >= t.len() {
        Some(sofar)
    } else if !is_digit(t[i]) || sofar * 10 + digit_value(t[i]) > 0x7fff_ffff {
        None
    } else {
        spelled(t, i + 1, sofar * 10 + digit_value(t[i]))
    }
}

/// The exponent behind the mark; zero where there is none that can be read.
pub open spec fn exponent_after(t: Seq<char>, mark: int) -> int {
    let at = mark + 1;
    if at >= t.len() {
        0
    } else if t[at] == '-' {
        if at + 1 >= t.len() {
            0
        } else {
            match spelled(t, at + 1, 0) {
                Some(n) => -n,
                None => 0,
            }
        }
    } else {
        match spelled(t, at, 0) {
            Some(n) => n,
            None => 0,
        }
    }
}

/// The number of the first `n` digits; digits that are missing count as zeros.
pub open spec fn leading(d: Seq<int>, n: int) -> int
    decreases n,
{
    if n <= 0 {
        0
    } else {
        leading(d, n - 1) * 10 + if n - 1 < d.len() {
            d[n - 1]
        } else {
            0
        }
    }
}

/// The number of the first six digits, rounded half up.
pub open spec fn six_rounded(d: Seq<int>) -> int {
    leading(d, 6) + if d.len() > 6 && d[6] >= 5 {
        1int
    } else {
        0int
    }
}

/// Six digits and the exponent of the first.
pub struct Decimal {
    pub digits: int,
    pub exponent: int,
}

/// Six significant digits of a number in scientific notation.
pub open spec fn rounded(t: Seq<char>) -> Decimal {
    let mark = exponent_mark(t, 0);
    let v = six_rounded(digits_before(t, mark));
    let e = exponent_after(t, mark);
    if v >= 1_000_000 {
        Decimal { digits: 100_000, exponent: e + 1 }
    } else {
        Decimal { digits: v, exponent: e }
    }
}

/// The character of a digit.
pub open spec fn digit_char(n: int) -> char {
    (48 + n) as char
}

/// A number below a million as six digits.
pub open spec fn six_digits(v: int) -> Seq<char> {
    seq![
        digit_char(v / 100_000 % 10),
        digit_char(v / 10_000 % 10),
        digit_char(v / 1_000 % 10),
        digit_char(v / 100 % 10),
        digit_char(v / 10 % 10),
        digit_char(v % 10),
    ]
}

/// Without the zeros at the end.
pub open spec fn trimmed(s: Seq<char>) -> Seq<char>
    decreases s.len(),
{
    if s.len() > 0 && s.last() == '0' {
        trimmed(s.drop_last())
    } else {
        s
    }
}

/// Digits with a fraction behind a point, unless it is empty.
pub open spec fn with_fraction(whole: Seq<char>, fraction: Seq<char>) -> Seq<char> {
    if trimmed(fraction).len() == 0 {
        whole
    } else {
        whole + seq!['.'] + trimmed(fraction)
    }
}

/// `n` zeros.
pub open spec fn zeros(n: nat) -> Seq<char> {
    Seq::new(n, |i: int| '0')
}

/// A positive number: with an exponent where it is below 0.0001 or has more
/// than six digits before the point, else without.
pub open spec fn laid_out(d: Decimal) -> Seq<char> {
    let s = six_digits(d.digits);
    if d.exponent < -4 || d.exponent >= 6 {
        with_fraction(s.take(1), s.skip(1)) + if d.exponent < 0 {
            "e-"@ + decimal_text((-d.exponent) as nat)
        } else {
            "e+"@ + decimal_text(d.exponent as nat)
        }
    } else if d.exponent >= 0 {
        with_fraction(s.take(d.exponent + 1), s.skip(d.exponent + 1))
    } else {
        "0."@ + trimmed(zeros((-d.exponent - 1) as nat) + s)
    }
}

/// A number as text: six significant digits, halves rounded up.
pub open spec fn number_text(m: Reading, n: u64) -> Seq<char> {
    if nan(n) {
        "nan"@
    } else if !finite(n) {
        if less(n, ZERO) {
            "-inf"@
        } else {
            "inf"@
        }
    } else if zero(n) {
        "0"@
    } else {
        let plain = laid_out(rounded(m.written(TextOp::Scientific, magnitude(n) as u64, 0)));
        if less(n, ZERO) {
            "-"@ + plain
        } else {
            plain
        }
    }
}

fn find_mark(t: &Vec<char>) -> (r: usize)
    ensures
        r == exponent_mark(t@, 0),
        r <= t@.len(),
{
    let mut i: usize = 0;
    while i < t.len() && t[i] != 'e'
        invariant
            i <= t@.len(),
            exponent_mark(t@, 0) == exponent_mark(t@, i as int),
        decreases t.len() - i,
    {
        i = i + 1;
    }
    i
}

fn digit_number(c: char) -> (r: u64)
    requires
        is_digit(c),
    ensures
        r == digit_value(c),
        r <= 9,
{
    (c as u32 - 48) as u64
}

/// The number that the first six digits form, rounded by the seventh.
fn six_of(t: &Vec<char>, mark: usize) -> (r: u64)
    requires
        mark <= t@.len(),
    ensures
        r == six_rounded(digits_before(t@, mark as int)),
        r <= 1_000_000,
{
    let mut d: Vec<u64> = Vec::new();
    let mut i: usize = 0;
    let ghost all = digits_before(t@, mark as int);
    while i < mark
        invariant
            i <= mark <= t@.len(),
            d@.map_values(|n: u64| n as int) =~= digits_before(t@, i as int),
            forall|k: int| 0 <= k < d@.len() ==> #[trigger] d@[k] <= 9,
        decreases mark - i,
    {
        let c = t[i];
        if '0' <= c && c <= '9' {
            let ghost before = d@.map_values(|n: u64| n as int);
            let v: u64 = digit_number(c);
            d.push(v);
            assert(d@.map_values(|n: u64| n as int) =~= before.push(v as int));
        }
        i = i + 1;
    }
    let mut v: u64 = 0;
    let mut k: usize = 0;
    while k < 6
        invariant
            k <= 6,
            d@.map_values(|n: u64| n as int) == all,
            forall|k: int| 0 <= k < d@.len() ==> #[trigger] d@[k] <= 9,
            v == leading(all, k as int),
            k == 0 ==> v <= 0,
            k == 1 ==> v <= 9,
            k == 2 ==> v <= 99,
            k == 3 ==> v <= 999,
            k == 4 ==> v <= 9_999,
            k == 5 ==> v <= 99_999,
            k == 6 ==> v <= 999_999,
        decreases 6 - k,
    {
        let more: u64 = if k < d.len() {
            assert(all[k as int] == d@[k as int]);
            d[k]
        } else {
            0
        };
        assert(all.len() == d@.len());
        v = v * 10 + more;
        k = k + 1;
    }
    assert(all.len() == d@.len());
    if d.len() > 6 {
        assert(all[6] == d@[6]);
        if d[6] >= 5 {
            return v + 1;
        }
    }
    v
}

/// The number that the digits from `from` on spell.
fn spell(t: &Vec<char>, from: usize) -> (r: Option<u64>)
    requires
        from <= t@.len(),
    ensures
        match r {
            Some(n) => spelled(t@, from as int, 0) == Some(n as int) && n <= 0x7fff_ffff,
            None => spelled(t@, from as int, 0) is None,
        },
{
    let mut n: u64 = 0;
    let mut i: usize = from;
    while i < t.len()
        invariant
            from <= i <= t@.len(),
            n <= 0x7fff_ffff,
            spelled(t@, from as int, 0) == spelled(t@, i as int, n as int),
        decreases t.len() - i,
    {
        let c = t[i];
        if !('0' <= c && c <= '9') {
            return None;
        }
        let next: u64 = n * 10 + digit_number(c);
        if next > 0x7fff_ffff {
            return None;
        }
        n = next;
        i = i + 1;
    }
    Some(n)
}

/// The exponent behind the mark, as a sign and a size.
fn exponent_of(t: &Vec<char>, mark: usize) -> (r: (bool, u64))
    requires
        mark <= t@.len(),
    ensures
        exponent_after(t@, mark as int) == if r.0 {
            -(r.1 as int)
        } else {
            r.1 as int
        },
        r.1 <= 0x7fff_ffff,
        r.1 == 0 ==> !r.0,
{
    if mark >= t.len() || mark + 1 >= t.len() {
        return (false, 0);
    }
    let at: usize = mark + 1;
    if t[at] == '-' {
        if at + 1 >= t.len() {
            return (false, 0);
        }
        match spell(t, at + 1) {
            Some(n) => (n > 0, n),
            None => (false, 0),
        }
    } else {
        match spell(t, at) {
            Some(n) => (false, n),
            None => (false, 0),
        }
    }
}

fn push_digit(v: &mut Vec<char>, n: u64)
    requires
        n < 10,
    ensures
        final(v)@ == old(v)@.push(digit_char(n as int)),
{
    v.push((48 + n as u8) as char);
}

fn digit_list(v: u64) -> (r: Vec<char>)
    requires
        v < 1_000_000,
    ensures
        r@ == six_digits(v as int),
{
    let mut out: Vec<char> = Vec::new();
    push_digit(&mut out, v / 100_000 % 10);
    push_digit(&mut out, v / 10_000 % 10);
    push_digit(&mut out, v / 1_000 % 10);
    push_digit(&mut out, v / 100 % 10);
    push_digit(&mut out, v / 10 % 10);
    push_digit(&mut out, v % 10);
    assert(out@ =~= six_digits(v as int));
    out
}

fn trim(v: &mut Vec<char>)
    ensures
        final(v)@ == trimmed(old(v)@),
{
    let ghost whole = trimmed(v@);
    while v.len() > 0 && v[v.len() - 1] == '0'
        invariant
            whole == trimmed(v@),
        decreases v.len(),
    {
        v.pop();
    }
}

fn part(v: &Vec<char>, from: usize, to: usize) -> (r: Vec<char>)
    requires
        from <= to <= v@.len(),
    ensures
        r@ == v@.subrange(from as int, to as int),
{
    let mut out: Vec<char> = Vec::new();
    for i in from..to
        invariant
            from <= to <= v@.len(),
            out@ =~= v@.subrange(from as int, i as int),
    {
        out.push(v[i]);
    }
    out
}

fn push_fraction(s: &mut String, mut fraction: Vec<char>)
    ensures
        final(s)@ == with_fraction(old(s)@, fraction@),
{
    let ghost start = s@;
    let ghost given = fraction@;
    trim(&mut fraction);
    if fraction.len() > 0 {
        s.push('.');
        let t = text_of(&fraction);
        s.append(t.as_str());
        assert(s@ =~= start + seq!['.'] + trimmed(given));
    }
}

/// Lays out six digits with the exponent `size`, negative or not.
fn lay_out(v: u64, below: bool, size: u64) -> (r: String)
    requires
        v < 1_000_000,
        size == 0 ==> !below,
    ensures
        r@ == laid_out(
            (Decimal {
                digits: v as int,
                exponent: if below {
                    -(size as int)
                } else {
                    size as int
                },
            }),
        ),
{
    let s = digit_list(v);
    let ghost sv = six_digits(v as int);
    if (below && size > 4) || (!below && size >= 6) {
        let first = part(&s, 0, 1);
        let mut out = text_of(&first);
        let rest = part(&s, 1, 6);
        push_fraction(&mut out, rest);
        assert(sv.subrange(0, 1) =~= sv.take(1));
        assert(sv.subrange(1, 6) =~= sv.skip(1));
        let ghost mantissa = out@;
        if below {
            out.append("e-");
        } else {
            out.append("e+");
        }
        let n = decimal(size);
        out.append(n.as_str());
        proof {
            if below {
                assert(out@ =~= mantissa + ("e-"@ + decimal_text(size as nat)));
            } else {
                assert(out@ =~= mantissa + ("e+"@ + decimal_text(size as nat)));
            }
        }
        out
    } else if !below {
        let ip: usize = size as usize + 1;
        let first = part(&s, 0, ip);
        let mut out = text_of(&first);
        let rest = part(&s, ip, 6);
        push_fraction(&mut out, rest);
        assert(sv.subrange(0, ip as int) =~= sv.take(ip as int));
        assert(sv.subrange(ip as int, 6) =~= sv.skip(ip as int));
        out
    } else {
        let mut fraction: Vec<char> = Vec::new();
        let n: usize = size as usize - 1;
        for i in 0..n
            invariant
                fraction@ =~= zeros(i as nat),
        {
            fraction.push('0');
        }
        for i in 0..6
            invariant
                s@ == sv,
                sv.len() == 6,
                fraction@ =~= zeros(n as nat) + sv.take(i as int),
        {
            fraction.push(s[i]);
        }
        assert(sv.take(6) =~= sv);
        trim(&mut fraction);
        let mut out = String::new();
        out.append("0.");
        let t = text_of(&fraction);
        out.append(t.as_str());
        assert(out@ =~= "0."@ + trimmed(zeros(n as nat) + sv));
        out
    }
}

/// A number as text: six significant digits, halves rounded up, and an exponent
/// where the number is very large or very small.
pub fn format_number<A: Arithmetic>(calc: &mut Calc<A>, n: u64) -> (r: String)
    ensures
        forall|m: Reading| #[trigger]
            final(calc).agrees(m) ==> old(calc).agrees(m) && r@ == number_text(m, n),
{
    if is_nan(n) {
        return "nan".to_owned();
    }
    if !is_finite(n) {
        return if is_less(n, ZERO) {
            "-inf".to_owned()
        } else {
            "inf".to_owned()
        };
    }
    if is_zero(n) {
        return "0".to_owned();
    }
    let sci = calc.write(TextOp::Scientific, absolute(n), 0);
    let t = chars_of(sci.as_str());
    let mark: usize = find_mark(&t);
    let mut v: u64 = six_of(&t, mark);
    let (mut below, mut size): (bool, u64) = exponent_of(&t, mark);
    if v >= 1_000_000 {
        v = 100_000;
        if below {
            size = size - 1;
            if size == 0 {
                below = false;
            }
        } else {
            size = size + 1;
        }
    }
    let plain = lay_out(v, below, size);
    proof {
        let d = rounded(sci@);
        assert(plain@ == laid_out(d));
    }
    if is_less(n, ZERO) {
        let mut s = String::new();
        s.append("-");
        s.append(plain.as_str());
        assert(s@ =~= "-"@ + plain@);
        s
    } else {
        plain
    }
}

// ---- values ----------------------------------------------------------------------------------

/// The text of a closure, by its number.
pub open spec fn closure_text(functions: Seq<Seq<char>>, f: usize) -> Seq<char> {
    if f < functions.len() {
        functions[f as int]
    } else {
        Seq::empty()
    }
}

/// A value as it is displayed: texts in quotes.
pub open spec fn repr_of(m: Reading, v: Val, functions: Seq<Seq<char>>) -> Seq<char>
    decreases v,
{
    match v {
        Val::Undef => "undef"@,
        Val::Bool(b) => bool_text(b),
        Val::Number(n) => number_text(m, n),
        Val::Str(s) => quoted_text(s),
        Val::Vector(items) => "["@ + comma_joined(repr_parts(m, items, functions)) + "]"@,
        Val::Range { start, step, end } => "["@ + number_text(m, start) + " : "@ + number_text(
            m,
            step,
        ) + " : "@ + number_text(m, end) + "]"@,
        Val::Function(f) => closure_text(functions, f),
    }
}

/// The items of a list as they are displayed.
pub open spec fn repr_parts(m: Reading, items: Seq<Val>, functions: Seq<Seq<char>>) -> Seq<
    Seq<char>,
>
    decreases items,
{
    Seq::new(
        items.len(),
        |i: int|
            if 0 <= i < items.len() {
                repr_of(m, items[i], functions)
            } else {
                Seq::empty()
            },
    )
}

/// A value as text: a text as it is, all else as it is displayed.
pub open spec fn str_of(m: Reading, v: Val, functions: Seq<Seq<char>>) -> Seq<char> {
    match v {
        Val::Str(s) => s,
        _ => repr_of(m, v, functions),
    }
}

impl Value {
    /// The value as it is displayed: texts in quotes. `functions` holds the
    /// texts of closures by their numbers.
    pub fn repr<A: Arithmetic>(&self, calc: &mut Calc<A>, functions: &Vec<String>) -> (r: String)
        ensures
            forall|m: Reading| #[trigger]
                final(calc).agrees(m) ==> old(calc).agrees(m) && r@ == repr_of(
                    m,
                    self@,
                    texts(functions@),
                ),
        decreases *self,
    {
        match self {
            Value::Undef => "undef".to_owned(),
            Value::Bool(b) => if *b {
                "true".to_owned()
            } else {
                "false".to_owned()
            },
            Value::Number(n) => format_number(calc, *n),
            Value::Str(s) => quote_string(s.as_str()),
            Value::Vector(items) => {
                let list: &Vec<Value> = &**items;
                let ghost lv = self@->Vector_0;
                let ghost fv = texts(functions@);
                let mut parts: Vec<String> = Vec::new();
                let mut i: usize = 0;
                while i < list.len()
                    invariant
                        *self matches Value::Vector(l) && l@ == list@,
                        fv == texts(functions@),
                        lv.len() == list@.len(),
                        forall|k: int| 0 <= k < list@.len() ==> lv[k] == val(#[trigger] list@[k]),
                        i <= list@.len(),
                        parts@.len() == i,
                        forall|m: Reading| #[trigger]
                            calc.agrees(m) ==> old(calc).agrees(m) && forall|k: int|
                                0 <= k < i ==> #[trigger] texts(parts@)[k] == repr_of(
                                    m,
                                    lv[k],
                                    fv,
                                ),
                    decreases list.len() - i,
                {
                    assert(lv[i as int] == val(list@[i as int]));
                    let ghost before = texts(parts@);
                    let part = list[i].repr(calc, functions);
                    parts.push(part);
                    assert(texts(parts@) =~= before.push(part@));
                    i = i + 1;
                }
                let inner = join(&parts, ", ");
                let mut s = "[".to_owned();
                s.append(inner.as_str());
                s.append("]");
                proof {
                    assert forall|m: Reading| #[trigger] calc.agrees(m) implies s@ == repr_of(
                        m,
                        self@,
                        fv,
                    ) by {
                        let all = repr_parts(m, lv, fv);
                        assert forall|k: int| 0 <= k < parts@.len() implies texts(parts@)[k]
                            == all[k] by {}
                        assert(texts(parts@) =~= all);
                    }
                }
                s
            },
            Value::Range { start, step, end } => {
                let a = format_number(calc, *start);
                let b = format_number(calc, *step);
                let c = format_number(calc, *end);
                let mut s = "[".to_owned();
                s.append(a.as_str());
                s.append(" : ");
                s.append(b.as_str());
                s.append(" : ");
                s.append(c.as_str());
                s.append("]");
                s
            },
            Value::Function(f) => if *f < functions.len() {
                assert(texts(functions@)[*f as int] == functions@[*f as int]@);
                functions[*f].clone()
            } else {
                String::new()
            },
        }
    }

    /// The value as text: a text as it is, all else as it is displayed.
    pub fn to_str<A: Arithmetic>(&self, calc: &mut Calc<A>, functions: &Vec<String>) -> (r: String)
        ensures
            forall|m: Reading| #[trigger]
                final(calc).agrees(m) ==> old(calc).agrees(m) && r@ == str_of(
                    m,
                    self@,
                    texts(functions@),
                ),
    {
        match self {
            Value::Str(s) => s.clone(),
            _ => self.repr(calc, functions),
        }
    }
}

} // verus!

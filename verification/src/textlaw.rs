//! What is read back from texts that are escaped, and from numbers as they are shown.

use crate::format::{
    digit_char, laid_out, leading, number_text, six_digits, six_rounded, trimmed, zeros, Decimal,
};
use crate::json::{hex, json_char, json_chars, json_quoted};
use crate::num::{finite, less, negative, Reading, ZERO};
use crate::palette::{hex_byte, hex_color, hex_digit, Color};
use crate::threemf::{xml_char, xml_text};
use vstd::prelude::*;

verus! {

// ---- JSON --------------------------------------------------------------------------------------

/// The value of a lower-case hexadecimal digit.
pub open spec fn hex_worth(c: char) -> int {
    if c as int >= 97 {
        c as int - 87
    } else {
        c as int - 48
    }
}

/// The character that starts at a place of a text in quotes, and the place behind it.
pub open spec fn char_read(s: Seq<char>, at: int) -> (int, int) {
    if s[at] != '\\' {
        (s[at] as int, at + 1)
    } else if s[at + 1] == 'u' {
        (
            4096 * hex_worth(s[at + 2]) + 256 * hex_worth(s[at + 3]) + 16 * hex_worth(s[at + 4])
                + hex_worth(s[at + 5]),
            at + 6,
        )
    } else if s[at + 1] == 'b' {
        (8, at + 2)
    } else if s[at + 1] == 't' {
        (9, at + 2)
    } else if s[at + 1] == 'n' {
        (10, at + 2)
    } else if s[at + 1] == 'f' {
        (12, at + 2)
    } else if s[at + 1] == 'r' {
        (13, at + 2)
    } else {
        (s[at + 1] as int, at + 2)
    }
}

/// The characters, by their numbers, up to the next quotation mark that ends the text,
/// and the place behind it.
pub open spec fn text_read(s: Seq<char>, at: int) -> (Seq<int>, int)
    decreases s.len() - at,
{
    if at < 0 || at >= s.len() {
        (Seq::empty(), at)
    } else if s[at] == '"' {
        (Seq::empty(), at + 1)
    } else {
        let (c, next) = char_read(s, at);
        if next <= at || next > s.len() {
            (Seq::empty(), at)
        } else {
            let (rest, end) = text_read(s, next);
            (seq![c] + rest, end)
        }
    }
}

proof fn lemma_json_front(t: Seq<char>)
    requires
        t.len() > 0,
    ensures
        json_chars(t) == json_char(t[0]) + json_chars(t.skip(1)),
    decreases t.len(),
{
    if t.len() == 1 {
        assert(t.drop_last() =~= Seq::empty());
        assert(t.skip(1) =~= Seq::empty());
        assert(json_chars(t.drop_last()) =~= Seq::empty());
        assert(json_chars(t) =~= json_char(t[0]) + json_chars(t.skip(1)));
    } else {
        lemma_json_front(t.drop_last());
        assert(t.drop_last().skip(1) =~= t.skip(1).drop_last());
        assert(json_chars(t) =~= json_char(t[0]) + json_chars(t.skip(1)));
    }
}

proof fn lemma_char_read(s: Seq<char>, pre: Seq<char>, c: char, post: Seq<char>)
    requires
        s == pre + json_char(c) + post,
    ensures
        char_read(s, pre.len() as int) == (c as int, (pre.len() + json_char(c).len()) as int),
        s[pre.len() as int] != '"',
        json_char(c).len() > 0,
{
    let at = pre.len() as int;
    let e = json_char(c);
    assert(forall|i: int| 0 <= i < e.len() ==> s[at + i] == #[trigger] e[i]);
    assert(s[at] == e[0]);
    if e.len() >= 2 {
        assert(s[at + 1] == e[1]);
    }
    if e.len() == 6 {
        assert(s[at + 2] == e[2]);
        assert(s[at + 3] == e[3]);
        assert(s[at + 4] == e[4]);
        assert(s[at + 5] == e[5]);
        let k = c as int;
        assert(0 <= k < 32);
        assert(k / 16 < 2);
        assert(hex(k / 16) as int == 48 + k / 16);
        assert(hex_worth(hex(k / 16)) == k / 16);
        assert(hex_worth(hex(k % 16)) == k % 16);
    }
}

proof fn lemma_text_read(s: Seq<char>, pre: Seq<char>, t: Seq<char>, post: Seq<char>)
    requires
        s == pre + json_chars(t) + seq!['"'] + post,
    ensures
        text_read(s, pre.len() as int) == (
            t.map_values(|c: char| c as int),
            (pre.len() + json_chars(t).len() + 1) as int,
        ),
    decreases t.len(),
{
    let f = |c: char| c as int;
    let q = seq!['"'];
    if t.len() == 0 {
        assert(s[pre.len() as int] == '"');
        assert(t.map_values(f) =~= Seq::empty());
    } else {
        lemma_json_front(t);
        let e = json_char(t[0]);
        let rest = json_chars(t.skip(1));
        assert(s =~= pre + e + (rest + q + post));
        lemma_char_read(s, pre, t[0], rest + q + post);
        assert(s =~= (pre + e) + rest + q + post);
        lemma_text_read(s, pre + e, t.skip(1), post);
        assert(t.map_values(f) =~= seq![t[0] as int] + t.skip(1).map_values(f));
    }
}

/// A text in quotes reads back: up to the quotation mark that ends it, and character
/// by character.
pub proof fn law_json_reads_back(t: Seq<char>, post: Seq<char>)
    ensures
        text_read(json_quoted(t) + post, 1) == (
            t.map_values(|c: char| c as int),
            json_quoted(t).len() as int,
        ),
{
    let s = json_quoted(t) + post;
    assert(s =~= seq!['"'] + json_chars(t) + seq!['"'] + post);
    lemma_text_read(s, seq!['"'], t, post);
}

// ---- XML ---------------------------------------------------------------------------------------

/// The character that starts at a place of a text in XML, and the place behind it.
pub open spec fn entity_read(s: Seq<char>, at: int) -> (char, int) {
    if s[at] != '&' {
        (s[at], at + 1)
    } else if s[at + 1] == 'l' {
        ('<', at + 4)
    } else if s[at + 1] == 'g' {
        ('>', at + 4)
    } else if s[at + 1] == 'q' {
        ('"', at + 6)
    } else if s[at + 2] == 'm' {
        ('&', at + 5)
    } else {
        ('\'', at + 6)
    }
}

/// The characters of a text in XML from a place on.
pub open spec fn entities_read(s: Seq<char>, at: int) -> Seq<char>
    decreases s.len() - at,
{
    if at < 0 || at >= s.len() {
        Seq::empty()
    } else {
        let (c, next) = entity_read(s, at);
        if next <= at || next > s.len() {
            Seq::empty()
        } else {
            seq![c] + entities_read(s, next)
        }
    }
}

proof fn lemma_entity(c: char)
    ensures
        xml_char(c).len() > 0,
        forall|s: Seq<char>, at: int|
            0 <= at && at + xml_char(c).len() <= s.len() && (forall|i: int|
                0 <= i < xml_char(c).len() ==> s[at + i] == #[trigger] xml_char(c)[i])
                ==> #[trigger] entity_read(s, at) == (c, at + xml_char(c).len()),
        !xml_char(c).contains('<'),
        !xml_char(c).contains('>'),
        !xml_char(c).contains('"'),
{
    reveal_strlit("&amp;");
    reveal_strlit("&lt;");
    reveal_strlit("&gt;");
    reveal_strlit("&quot;");
    reveal_strlit("&apos;");
    let e = xml_char(c);
    assert forall|s: Seq<char>, at: int|
        0 <= at && at + e.len() <= s.len() && (forall|i: int|
            0 <= i < e.len() ==> s[at + i] == #[trigger] e[i]) implies #[trigger] entity_read(s, at)
        == (c, at + e.len()) by {
        assert(s[at + 0] == e[0]);
        if e.len() > 1 {
            assert(s[at + 1] == e[1]);
            assert(s[at + 2] == e[2]);
        }
    }
}

proof fn lemma_xml_front(t: Seq<char>)
    requires
        t.len() > 0,
    ensures
        xml_text(t) == xml_char(t[0]) + xml_text(t.skip(1)),
    decreases t.len(),
{
    if t.len() == 1 {
        assert(t.drop_last() =~= Seq::empty());
        assert(t.skip(1) =~= Seq::empty());
        assert(xml_text(t.drop_last()) =~= Seq::empty());
        assert(xml_text(t) =~= xml_char(t[0]) + xml_text(t.skip(1)));
    } else {
        lemma_xml_front(t.drop_last());
        assert(t.drop_last().skip(1) =~= t.skip(1).drop_last());
        assert(xml_text(t) =~= xml_char(t[0]) + xml_text(t.skip(1)));
    }
}

proof fn lemma_entities(s: Seq<char>, pre: Seq<char>, t: Seq<char>)
    requires
        s == pre + xml_text(t),
    ensures
        entities_read(s, pre.len() as int) == t,
    decreases t.len(),
{
    let at = pre.len() as int;
    if t.len() == 0 {
        assert(t =~= Seq::empty());
    } else {
        lemma_xml_front(t);
        let e = xml_char(t[0]);
        lemma_entity(t[0]);
        assert(s =~= (pre + e) + xml_text(t.skip(1)));
        assert forall|i: int| 0 <= i < e.len() implies s[at + i] == #[trigger] e[i] by {
            assert(s[at + i] == (pre + e)[at + i]);
        }
        assert(entity_read(s, at) == (t[0], at + e.len()));
        lemma_entities(s, pre + e, t.skip(1));
        assert(t =~= seq![t[0]] + t.skip(1));
    }
}

/// An escaped text reads back, and holds no mark that would end an element or the
/// value of an attribute.
pub proof fn law_xml_reads_back(t: Seq<char>)
    ensures
        entities_read(xml_text(t), 0) == t,
        !xml_text(t).contains('<'),
        !xml_text(t).contains('>'),
        !xml_text(t).contains('"'),
    decreases t.len(),
{
    assert(xml_text(t) =~= Seq::<char>::empty() + xml_text(t));
    lemma_entities(xml_text(t), Seq::empty(), t);
    if t.len() > 0 {
        law_xml_reads_back(t.drop_last());
        lemma_entity(t.last());
        let (x, y) = (xml_text(t.drop_last()), xml_char(t.last()));
        assert forall|i: int| 0 <= i < (x + y).len() implies (x + y)[i] != '<' && (x + y)[i] != '>'
            && (x + y)[i] != '"' by {
            if i < x.len() {
                assert(x.contains((x + y)[i]));
            } else {
                assert(y[i - x.len()] == (x + y)[i]);
                assert(y.contains((x + y)[i]));
            }
        }
    }
}

// ---- numbers as they are shown -----------------------------------------------------------------

/// The number that digits stand for.
pub open spec fn digits_worth(s: Seq<char>) -> int
    decreases s.len(),
{
    if s.len() == 0 {
        0
    } else {
        digits_worth(s.drop_last()) * 10 + (s.last() as int - 48)
    }
}

proof fn lemma_digits_push(s: Seq<char>, d: int)
    requires
        0 <= d < 10,
    ensures
        digits_worth(s.push(digit_char(d))) == digits_worth(s) * 10 + d,
{
    assert(s.push(digit_char(d)).drop_last() =~= s);
}

/// Six digits stand for the number that they show.
pub proof fn law_six_digits_read_back(v: int)
    requires
        0 <= v < 1_000_000,
    ensures
        six_digits(v).len() == 6,
        digits_worth(six_digits(v)) == v,
{
    let (a, b, c) = (v / 100_000 % 10, v / 10_000 % 10, v / 1_000 % 10);
    let (d, e, f) = (v / 100 % 10, v / 10 % 10, v % 10);
    let s0 = Seq::<char>::empty();
    let s1 = s0.push(digit_char(a));
    let s2 = s1.push(digit_char(b));
    let s3 = s2.push(digit_char(c));
    let s4 = s3.push(digit_char(d));
    let s5 = s4.push(digit_char(e));
    let s6 = s5.push(digit_char(f));
    lemma_digits_push(s0, a);
    lemma_digits_push(s1, b);
    lemma_digits_push(s2, c);
    lemma_digits_push(s3, d);
    lemma_digits_push(s4, e);
    lemma_digits_push(s5, f);
    assert(six_digits(v) =~= s6);
}

/// Trimming drops zeros at the end and nothing else.
pub proof fn law_trim_drops_zeros(s: Seq<char>)
    ensures
        trimmed(s).len() <= s.len(),
        s == trimmed(s) + zeros((s.len() - trimmed(s).len()) as nat),
        trimmed(s).len() > 0 ==> trimmed(s).last() != '0',
    decreases s.len(),
{
    if s.len() > 0 && s.last() == '0' {
        law_trim_drops_zeros(s.drop_last());
        let (r, t) = (s.drop_last(), trimmed(s));
        let k = (r.len() - t.len()) as nat;
        assert(zeros(k + 1) =~= zeros(k).push('0'));
        assert(s =~= r.push('0'));
        assert(t + zeros(k).push('0') =~= (t + zeros(k)).push('0'));
    } else {
        assert(s =~= trimmed(s) + zeros(0));
    }
}

/// A number is rounded to six digits: the result is off by half a unit of its last
/// digit at most.
pub proof fn law_rounded_to_nearest(d: Seq<int>)
    requires
        d.len() >= 7,
        forall|i: int| 0 <= i < d.len() ==> 0 <= #[trigger] d[i] <= 9,
    ensures
        -5 < 10 * six_rounded(d) - leading(d, 7) <= 5,
{
    assert(leading(d, 7) == leading(d, 6) * 10 + d[6]);
}

// ---- colors ------------------------------------------------------------------------------------

/// The value of an upper-case hexadecimal digit.
pub open spec fn upper_worth(c: char) -> int {
    if c as int >= 65 {
        c as int - 55
    } else {
        c as int - 48
    }
}

/// The byte that two hexadecimal digits stand for.
pub open spec fn byte_read(s: Seq<char>, at: int) -> int {
    16 * upper_worth(s[at]) + upper_worth(s[at + 1])
}

/// A color reads back from its text: red, green, blue and opacity, two digits each.
pub proof fn law_color_reads_back(c: Color)
    ensures
        hex_color(c).len() == 9,
        hex_color(c)[0] == '#',
        byte_read(hex_color(c), 1) == c.r,
        byte_read(hex_color(c), 3) == c.g,
        byte_read(hex_color(c), 5) == c.b,
        byte_read(hex_color(c), 7) == c.a,
{
    lemma_hex_byte(c.r);
    lemma_hex_byte(c.g);
    lemma_hex_byte(c.b);
    lemma_hex_byte(c.a);
}

proof fn lemma_hex_byte(b: u8)
    ensures
        hex_byte(b).len() == 2,
        byte_read(hex_byte(b), 0) == b,
{
    let (h, l) = (b as int / 16, b as int % 16);
    assert(upper_worth(hex_digit(h)) == h);
    assert(upper_worth(hex_digit(l)) == l);
}

/// A negative number is shown as the positive one is, behind a minus sign.
pub proof fn law_sign_shown(m: Reading, n: u64)
    requires
        less(ZERO, n),
    ensures
        number_text(m, negative(n)) == "-"@ + number_text(m, n),
{
    reveal_strlit("-");
    reveal_strlit("inf");
    reveal_strlit("-inf");
    if !finite(n) {
        assert("-inf"@ =~= "-"@ + "inf"@);
    }
}

/// A number between one and a million is shown by its six digits, with a point behind
/// the whole ones, and without zeros at the end of its fraction.
pub proof fn law_plain_digits(d: Decimal)
    requires
        0 <= d.exponent < 6,
    ensures
        ({
            let s = six_digits(d.digits);
            let t = laid_out(d);
            let k = d.exponent + 1;
            ||| t == s.take(k) && s.skip(k) == zeros((6 - k) as nat)
            ||| exists|f: Seq<char>, z: nat|
                #![trigger f + zeros(z)]
                t == s.take(k) + seq!['.'] + f && s.skip(k) == f + zeros(z) && f.len() > 0
                    && f.last() != '0'
        }),
{
    let s = six_digits(d.digits);
    let k = d.exponent + 1;
    let f = trimmed(s.skip(k));
    law_trim_drops_zeros(s.skip(k));
    let z = (s.skip(k).len() - f.len()) as nat;
    if f.len() == 0 {
        assert(f + zeros(z) =~= zeros(z));
        assert(z == (6 - k) as nat);
    } else {
        assert(s.skip(k) == f + zeros(z));
    }
}

} // verus!

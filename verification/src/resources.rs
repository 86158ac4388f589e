//! What the modules that read files or fonts ask for, and what they make of the
//! reply.

use crate::blob::texts;
use crate::eval::{entries, find, Entry};
use crate::format::str_of;
use crate::modules::{number_arg_or, truth_arg};
use crate::node::{Node, Point2};
use crate::num::{at_most, is_at_most, Arithmetic, Calc, NumOp, Reading, ONE, ZERO};
use crate::program::{behind, collect_child_slots, slots_below, Spanned};
use crate::sem::{found, Env};
use crate::tessellate::THREE;
use crate::text::{chars_of, text_between, text_of};
use crate::value::{number_of, Val, Value};
use vstd::prelude::*;

verus! {

/// 4, by its bits.
pub const FOUR: u64 = 0x4010_0000_0000_0000;

/// 10, by its bits.
pub const TEN: u64 = 0x4024_0000_0000_0000;

// ---- names of files ----------------------------------------------------------------------------

/// What follows the last dot; the whole text where there is none.
pub open spec fn after_dot(s: Seq<char>) -> Seq<char>
    decreases s.len(),
{
    if s.len() == 0 || s.last() == '.' {
        Seq::empty()
    } else {
        after_dot(s.drop_last()).push(s.last())
    }
}

/// An ASCII capital as a small letter, any other character as it is.
pub open spec fn small(c: char) -> char {
    if 'A' <= c && c <= 'Z' {
        ((c as u32) + 32) as char
    } else {
        c
    }
}

/// A text with its ASCII capitals made small.
pub open spec fn lowered(s: Seq<char>) -> Seq<char> {
    s.map_values(|c: char| small(c))
}

fn make_small(c: char) -> (r: char)
    ensures
        r == small(c),
{
    if 'A' <= c && c <= 'Z' {
        let n: u32 = c as u32;
        let k: u8 = (n as u8) + 32;
        k as char
    } else {
        c
    }
}

/// A text with its ASCII capitals made small.
pub fn lower(s: &str) -> (r: String)
    ensures
        r@ == lowered(s@),
{
    let v = chars_of(s);
    let mut out: Vec<char> = Vec::new();
    for i in 0..v.len()
        invariant
            v@ == s@,
            out@ =~= lowered(s@).take(i as int),
    {
        out.push(make_small(v[i]));
    }
    assert(out@ =~= lowered(s@));
    text_of(&out)
}

proof fn lemma_after_dot(s: Seq<char>, k: int)
    requires
        0 <= k <= s.len(),
        k == 0 || s[k - 1] == '.',
        forall|i: int| k <= i < s.len() ==> #[trigger] s[i] != '.',
    ensures
        after_dot(s) == s.skip(k),
    decreases s.len(),
{
    if s.len() == k {
        assert(s.skip(k) =~= Seq::empty());
    } else {
        assert(s.last() == s[s.len() - 1]);
        let t = s.drop_last();
        assert forall|i: int| k <= i < t.len() implies #[trigger] t[i] != '.' by {
            assert(t[i] == s[i]);
        }
        if k > 0 {
            assert(t[k - 1] == s[k - 1]);
        }
        lemma_after_dot(t, k);
        assert(t.skip(k).push(s.last()) =~= s.skip(k));
    }
}

/// The format that a file's name ends in.
pub fn file_format(path: &str) -> (r: String)
    ensures
        r@ == lowered(after_dot(path@)),
{
    let v = chars_of(path);
    let mut k: usize = v.len();
    while k > 0 && v[k - 1] != '.'
        invariant
            v@ == path@,
            k <= v@.len(),
            forall|i: int| k <= i < v@.len() ==> #[trigger] v@[i] != '.',
        decreases k,
    {
        k = k - 1;
    }
    proof {
        lemma_after_dot(v@, k as int);
        assert(v@.subrange(k as int, v@.len() as int) =~= v@.skip(k as int));
    }
    let tail = text_between(&v, k, v.len());
    lower(tail.as_str())
}

/// Whether a file's name says that it holds an image.
pub open spec fn names_image(path: Seq<char>) -> bool {
    let s = lowered(path);
    s.len() >= 4 && s.skip(s.len() - 4) == seq!['.', 'p', 'n', 'g']
}

fn is_image(path: &str) -> (r: bool)
    ensures
        r == names_image(path@),
{
    let s = lower(path);
    let v = chars_of(s.as_str());
    let n: usize = v.len();
    if n < 4 {
        return false;
    }
    let ghost end = v@.skip(n - 4);
    let ghost png = seq!['.', 'p', 'n', 'g'];
    let r = v[n - 4] == '.' && v[n - 3] == 'p' && v[n - 2] == 'n' && v[n - 1] == 'g';
    proof {
        assert(end[0] == v@[n - 4] && end[1] == v@[n - 3] && end[2] == v@[n - 2] && end[3] == v@[n
            - 1]);
        if r {
            assert(end =~= png);
        }
        if end == png {
            assert(end[0] == png[0] && end[1] == png[1] && end[2] == png[2] && end[3] == png[3]);
        }
    }
    r
}

// ---- warnings ----------------------------------------------------------------------------------

/// The warning that a file of some kind cannot be read.
pub open spec fn missing(kind: Seq<char>, path: Seq<char>) -> Seq<char> {
    "Can't open "@ + kind + " file '"@ + path + "'"@
}

/// The warning that a file of some kind cannot be read.
pub fn missing_file(kind: &str, path: &str) -> (r: String)
    ensures
        r@ == missing(kind@, path@),
{
    let mut s = "Can't open ".to_owned();
    s.append(kind);
    s.append(" file '");
    s.append(path);
    s.append("'");
    s
}

/// What a warning says.
pub open spec fn warning_of(w: Option<String>) -> Option<Seq<char>> {
    match w {
        Some(s) => Some(s@),
        None => None,
    }
}

// ---- import ------------------------------------------------------------------------------------

/// The file that a name is given.
pub open spec fn file_arg(m: Env) -> Option<Seq<char>> {
    match found(m, "file"@) {
        Some(Val::Str(s)) => Some(s),
        _ => None,
    }
}

/// The file that `import` and `surface` read: nothing unless it is a text.
pub fn file_of(m: &Vec<Entry>) -> (r: Option<String>)
    ensures
        warning_of(r) == file_arg(entries(m@)),
{
    match find(m, "file") {
        Some(Value::Str(s)) => Some(s.clone()),
        _ => None,
    }
}

/// What `import` of a file draws, and what it warns of.
pub open spec fn is_import(path: Seq<char>, data: Option<Seq<u8>>, node: Node, w: Option<Seq<char>>) -> bool {
    match data {
        Some(d) => w is None && (node matches Node::Import { data: held, format } && held@ == d && format@
            == lowered(after_dot(path))),
        None => node is Empty && w == Some(missing("import"@, path)),
    }
}

/// Makes a node of a file that was to be imported.
pub fn import_node(path: &str, data: Option<Vec<u8>>) -> (r: (Node, Option<String>))
    ensures
        is_import(
            path@,
            match data {
                Some(d) => Some(d@),
                None => None,
            },
            r.0,
            warning_of(r.1),
        ),
{
    match data {
        Some(data) => (Node::Import { data, format: file_format(path) }, None),
        None => (Node::Empty, Some(missing_file("import", path))),
    }
}

// ---- surface -----------------------------------------------------------------------------------

/// What `surface` asks for.
#[derive(Debug)]
pub struct SurfaceAsk {
    pub path: String,
    pub center: bool,
    pub invert: bool,
    /// Whether the file is an image and not a table.
    pub image: bool,
}

/// The file that `surface` reads and how; nothing unless its name is a text.
pub fn surface_ask(m: &Vec<Entry>) -> (r: Option<SurfaceAsk>)
    ensures
        match r {
            Some(a) => file_arg(entries(m@)) == Some(a.path@) && a.center == truth_arg(
                entries(m@),
                "center"@,
            ) && a.invert == truth_arg(entries(m@), "invert"@) && a.image == names_image(a.path@),
            None => file_arg(entries(m@)) is None,
        },
{
    match file_of(m) {
        Some(path) => {
            let center = match find(m, "center") {
                Some(v) => v.truthy(),
                None => false,
            };
            let invert = match find(m, "invert") {
                Some(v) => v.truthy(),
                None => false,
            };
            let image = is_image(path.as_str());
            Some(SurfaceAsk { path, center, invert, image })
        },
        None => None,
    }
}

/// Whether a character is white space.
pub open spec fn white(c: char) -> bool {
    let n = c as u32;
    ||| 9 <= n <= 13
    ||| n == 32
    ||| n == 0x85
    ||| n == 0xa0
    ||| n == 0x1680
    ||| 0x2000 <= n <= 0x200a
    ||| n == 0x2028
    ||| n == 0x2029
    ||| n == 0x202f
    ||| n == 0x205f
    ||| n == 0x3000
}

/// The words of a line, of which `s` has been read, with the word being read at
/// the end.
pub open spec fn words_read(s: Seq<char>) -> (Seq<Seq<char>>, Seq<char>)
    decreases s.len(),
{
    if s.len() == 0 {
        (Seq::empty(), Seq::empty())
    } else {
        let (done, word) = words_read(s.drop_last());
        if !white(s.last()) {
            (done, word.push(s.last()))
        } else if word.len() == 0 {
            (done, word)
        } else {
            (done.push(word), Seq::empty())
        }
    }
}

/// The words of a line: its longest stretches without white space.
pub open spec fn words_of(s: Seq<char>) -> Seq<Seq<char>> {
    let (done, word) = words_read(s);
    if word.len() == 0 {
        done
    } else {
        done.push(word)
    }
}

/// Whether a line of a table counts: it has words and is no comment.
pub open spec fn counts(words: Seq<Seq<char>>) -> bool {
    words.len() > 0 && words[0][0] != '#'
}

/// The lines of a table that count, each by its words, of which `s` has been
/// read, with the line being read at the end.
pub open spec fn table_read(s: Seq<char>) -> (Seq<Seq<Seq<char>>>, Seq<char>)
    decreases s.len(),
{
    if s.len() == 0 {
        (Seq::empty(), Seq::empty())
    } else {
        let (done, line) = table_read(s.drop_last());
        if s.last() != '\n' {
            (done, line.push(s.last()))
        } else {
            (with_line(done, line), Seq::empty())
        }
    }
}

/// Adds the words of a line where they count.
pub open spec fn with_line(done: Seq<Seq<Seq<char>>>, line: Seq<char>) -> Seq<Seq<Seq<char>>> {
    if counts(words_of(line)) {
        done.push(words_of(line))
    } else {
        done
    }
}

/// The words of a table, line by line.
pub open spec fn table_of(s: Seq<char>) -> Seq<Seq<Seq<char>>> {
    let (done, line) = table_read(s);
    with_line(done, line)
}

/// What lines of words say.
pub open spec fn lines_of(v: Seq<Vec<String>>) -> Seq<Seq<Seq<char>>> {
    v.map_values(|l: Vec<String>| texts(l@))
}

fn is_white(c: char) -> (r: bool)
    ensures
        r == white(c),
{
    let n: u32 = c as u32;
    (9 <= n && n <= 13) || n == 32 || n == 0x85 || n == 0xa0 || n == 0x1680 || (0x2000 <= n && n
        <= 0x200a) || n == 0x2028 || n == 0x2029 || n == 0x202f || n == 0x205f || n == 0x3000
}

proof fn lemma_words_proper(s: Seq<char>)
    ensures
        forall|i: int| 0 <= i < words_read(s).0.len() ==> (#[trigger] words_read(s).0[i]).len() > 0,
    decreases s.len(),
{
    if s.len() > 0 {
        lemma_words_proper(s.drop_last());
        let (done, word) = words_read(s.drop_last());
        let all = words_read(s).0;
        assert forall|i: int| 0 <= i < all.len() implies (#[trigger] all[i]).len() > 0 by {
            if i < done.len() {
                assert(all[i] == done[i]);
                assert(words_read(s.drop_last()).0[i].len() > 0);
            } else {
                assert(all[i] == word);
            }
        }
    }
}

fn split_words(line: &Vec<char>) -> (r: Vec<String>)
    ensures
        texts(r@) == words_of(line@),
{
    let mut out: Vec<String> = Vec::new();
    let mut word: Vec<char> = Vec::new();
    assert(line@.take(0) =~= Seq::empty());
    assert(texts(out@) =~= Seq::empty());
    for i in 0..line.len()
        invariant
            (texts(out@), word@) == words_read(line@.take(i as int)),
    {
        let c = line[i];
        let ghost before = texts(out@);
        proof {
            assert(line@.take(i + 1).drop_last() =~= line@.take(i as int));
            assert(line@.take(i + 1).last() == c);
        }
        if !is_white(c) {
            word.push(c);
        } else if word.len() > 0 {
            let w = text_of(&word);
            let ghost said = w@;
            out.push(w);
            assert(texts(out@) =~= before.push(said));
            word = Vec::new();
            assert(word@ =~= Seq::empty());
        }
    }
    assert(line@.take(line@.len() as int) =~= line@);
    if word.len() > 0 {
        let ghost before = texts(out@);
        let w = text_of(&word);
        let ghost said = w@;
        out.push(w);
        assert(texts(out@) =~= before.push(said));
    }
    out
}

fn add_line(out: &mut Vec<Vec<String>>, line: &Vec<char>)
    ensures
        lines_of(final(out)@) == with_line(lines_of(old(out)@), line@),
{
    let words = split_words(line);
    let ghost ws = words_of(line@);
    let ghost before = lines_of(out@);
    if words.len() > 0 {
        proof {
            lemma_words_proper(line@);
            assert(texts(words@)[0] == words@[0]@);
            assert(ws[0].len() > 0);
        }
        let first = chars_of(words[0].as_str());
        if first[0] != '#' {
            out.push(words);
            assert(lines_of(out@) =~= before.push(ws));
        }
    }
}

/// The words of a table, line by line, without empty lines and comments.
pub fn surface_words(text: &str) -> (r: Vec<Vec<String>>)
    ensures
        lines_of(r@) == table_of(text@),
{
    let v = chars_of(text);
    let mut out: Vec<Vec<String>> = Vec::new();
    let mut line: Vec<char> = Vec::new();
    assert(v@.take(0) =~= Seq::empty());
    assert(lines_of(out@) =~= Seq::empty());
    for i in 0..v.len()
        invariant
            v@ == text@,
            (lines_of(out@), line@) == table_read(v@.take(i as int)),
    {
        let c = v[i];
        proof {
            assert(v@.take(i + 1).drop_last() =~= v@.take(i as int));
            assert(v@.take(i + 1).last() == c);
        }
        if c != '\n' {
            line.push(c);
        } else {
            add_line(&mut out, &line);
            line = Vec::new();
            assert(line@ =~= Seq::empty());
        }
    }
    assert(v@.take(v@.len() as int) =~= v@);
    add_line(&mut out, &line);
    out
}

/// The numbers among some words.
pub open spec fn numbers_among(v: Seq<Option<u64>>) -> Seq<u64>
    decreases v.len(),
{
    if v.len() == 0 {
        Seq::empty()
    } else {
        match v.last() {
            Some(n) => numbers_among(v.drop_last()).push(n),
            None => numbers_among(v.drop_last()),
        }
    }
}

/// The rows of numbers of a table, without those that hold none.
pub open spec fn rows_among(v: Seq<Vec<Option<u64>>>) -> Seq<Seq<u64>>
    decreases v.len(),
{
    if v.len() == 0 {
        Seq::empty()
    } else {
        let row = numbers_among(v.last()@);
        if row.len() > 0 {
            rows_among(v.drop_last()).push(row)
        } else {
            rows_among(v.drop_last())
        }
    }
}

/// What rows hold.
pub open spec fn rows_of(v: Seq<Vec<u64>>) -> Seq<Seq<u64>> {
    v.map_values(|r: Vec<u64>| r@)
}

/// The rows of a table whose words were read as numbers: what is no number is
/// left out, and so is a row without numbers.
pub fn surface_rows(read: &Vec<Vec<Option<u64>>>) -> (r: Vec<Vec<u64>>)
    ensures
        rows_of(r@) == rows_among(read@),
{
    let mut out: Vec<Vec<u64>> = Vec::new();
    assert(rows_of(out@) =~= Seq::empty());
    for i in 0..read.len()
        invariant
            rows_of(out@) == rows_among(read@.take(i as int)),
    {
        let line = &read[i];
        let mut row: Vec<u64> = Vec::new();
        for j in 0..line.len()
            invariant
                row@ == numbers_among(line@.take(j as int)),
        {
            proof {
                assert(line@.take(j + 1).drop_last() =~= line@.take(j as int));
                assert(line@.take(j + 1).last() == line@[j as int]);
            }
            match line[j] {
                Some(n) => row.push(n),
                None => {},
            }
        }
        let ghost before = rows_of(out@);
        proof {
            assert(line@.take(line@.len() as int) =~= line@);
            assert(read@.take(i + 1).drop_last() =~= read@.take(i as int));
            assert(read@.take(i + 1).last() == read@[i as int]);
        }
        if row.len() > 0 {
            let ghost said = row@;
            out.push(row);
            assert(rows_of(out@) =~= before.push(said));
        }
    }
    assert(read@.take(read@.len() as int) =~= read@);
    out
}

/// The warning of an image that cannot be used.
pub open spec fn unusable(why: Seq<char>, path: Seq<char>) -> Seq<char> {
    "surface(): "@ + why + " in '"@ + path + "'"@
}

/// The warning of an image that cannot be used.
pub fn unusable_image(why: &str, path: &str) -> (r: String)
    ensures
        r@ == unusable(why@, path@),
{
    let mut s = "surface(): ".to_owned();
    s.append(why);
    s.append(" in '");
    s.append(path);
    s.append("'");
    s
}

// ---- text --------------------------------------------------------------------------------------

/// What `text` asks for.
#[derive(Debug)]
pub struct TextAsk {
    pub text: String,
    pub size: u64,
    pub font: String,
    pub halign: String,
    pub valign: String,
    pub spacing: u64,
    pub direction: String,
    /// How many pieces a curve of an outline is drawn in.
    pub segments: u64,
}

/// What `text` asks for.
pub ghost struct TextView {
    pub text: Seq<char>,
    pub size: u64,
    pub font: Seq<char>,
    pub halign: Seq<char>,
    pub valign: Seq<char>,
    pub spacing: u64,
    pub direction: Seq<char>,
    pub segments: u64,
}

impl View for TextAsk {
    type V = TextView;

    open spec fn view(&self) -> TextView {
        TextView {
            text: self.text@,
            size: self.size,
            font: self.font@,
            halign: self.halign@,
            valign: self.valign@,
            spacing: self.spacing,
            direction: self.direction@,
            segments: self.segments,
        }
    }
}

/// What `text` asks for, from its arguments and the value of `$fn`.
pub open spec fn text_wanted(m: Reading, e: Env, functions: Seq<Seq<char>>, around: Val) -> TextView {
    TextView {
        text: text_arg(m, e, functions, "text"@, ""@),
        size: number_arg_or(e, "size"@, TEN),
        font: text_arg(m, e, functions, "font"@, ""@),
        halign: text_arg(m, e, functions, "halign"@, "left"@),
        valign: text_arg(m, e, functions, "valign"@, "baseline"@),
        spacing: number_arg_or(e, "spacing"@, ONE),
        direction: text_arg(m, e, functions, "direction"@, "ltr"@),
        segments: pieces_for(m, around),
    }
}

/// The text that a name is given, or else another.
pub open spec fn text_arg(m: Reading, e: Env, functions: Seq<Seq<char>>, name: Seq<char>, other: Seq<char>) -> Seq<
    char,
> {
    match found(e, name) {
        Some(v) => str_of(m, v, functions),
        None => other,
    }
}

/// The pieces of a curve: a quarter of `$fn`, and at least two; eight where
/// `$fn` is below three.
pub open spec fn pieces_for(m: Reading, around: Val) -> u64 {
    let n = match number_of(around) {
        Some(n) => n,
        None => ZERO,
    };
    if !at_most(THREE, n) {
        8
    } else {
        let k = m.at(NumOp::ToInt, m.at(NumOp::Ceil, m.at(NumOp::Div, n, FOUR), 0), 0);
        if k < 2 {
            2
        } else {
            k
        }
    }
}

fn text_or<A: Arithmetic>(
    calc: &mut Calc<A>,
    functions: &Vec<String>,
    m: &Vec<Entry>,
    name: &str,
    other: &str,
) -> (r: String)
    ensures
        forall|g: Reading| #[trigger]
            final(calc).agrees(g) ==> old(calc).agrees(g) && r@ == text_arg(
                g,
                entries(m@),
                texts(functions@),
                name@,
                other@,
            ),
{
    match find(m, name) {
        Some(v) => v.to_str(calc, functions),
        None => other.to_owned(),
    }
}

fn number_or(m: &Vec<Entry>, name: &str, other: u64) -> (r: u64)
    ensures
        r == number_arg_or(entries(m@), name@, other),
{
    match find(m, name) {
        Some(v) => match v.as_number() {
            Some(n) => n,
            None => other,
        },
        None => other,
    }
}

/// What `text` asks for, from its arguments and the value of `$fn`.
pub fn text_ask<A: Arithmetic>(
    calc: &mut Calc<A>,
    functions: &Vec<String>,
    m: &Vec<Entry>,
    around: &Value,
) -> (r: TextAsk)
    ensures
        forall|g: Reading| #[trigger]
            final(calc).agrees(g) ==> old(calc).agrees(g) && r@ == text_wanted(
                g,
                entries(m@),
                texts(functions@),
                around@,
            ),
{
    let text = text_or(calc, functions, m, "text", "");
    let size = number_or(m, "size", TEN);
    let font = text_or(calc, functions, m, "font", "");
    let halign = text_or(calc, functions, m, "halign", "left");
    let valign = text_or(calc, functions, m, "valign", "baseline");
    let spacing = number_or(m, "spacing", ONE);
    let direction = text_or(calc, functions, m, "direction", "ltr");
    let n: u64 = match around.as_number() {
        Some(n) => n,
        None => ZERO,
    };
    let segments: u64 = if !is_at_most(THREE, n) {
        8
    } else {
        let quarter = calc.apply(NumOp::Div, n, FOUR);
        let up = calc.apply(NumOp::Ceil, quarter, 0);
        let k: u64 = calc.apply(NumOp::ToInt, up, 0);
        if k < 2 {
            2
        } else {
            k
        }
    };
    TextAsk { text, size, font, halign, valign, spacing, direction, segments }
}

/// A text as it is shown to a programmer: in quotes, with what cannot be seen
/// escaped.
pub uninterp spec fn shown_text(s: Seq<char>) -> Seq<char>;

/// `str`'s `Debug`: the text in quotes with escapes, a function of the text
/// alone.
#[verifier::external_body]
pub(crate) fn show_text(s: &str) -> (r: String)
    ensures
        r@ == shown_text(s@),
{
    format!("{:?}", s)
}

/// The warning of a font that is not at hand, where `shown` is its name.
pub open spec fn font_missing(shown: Seq<char>) -> Seq<char> {
    "text(): font "@ + shown + " not available; using the bundled Liberation Sans"@
}

/// The warning of a font that is not at hand, where `shown` is its name.
pub fn missing_font(shown: &str) -> (r: String)
    ensures
        r@ == font_missing(shown@),
{
    let mut s = "text(): font ".to_owned();
    s.append(shown);
    s.append(" not available; using the bundled Liberation Sans");
    s
}

/// Makes a node of the outlines of a text; warns where a font was asked for and
/// is not at hand.
pub fn text_node(points: Vec<Point2>, paths: Vec<Vec<u32>>, font: &str, known: bool) -> (r: (
    Node,
    Option<String>,
))
    ensures
        r.0 == (Node::Polygon { points, paths: Some(paths) }),
        warning_of(r.1) == (if font@.len() > 0 && !known {
            Some(font_missing(shown_text(font@)))
        } else {
            None
        }),
{
    let given = chars_of(font).len() > 0;
    let warning = if given && !known {
        let shown = show_text(font);
        Some(missing_font(shown.as_str()))
    } else {
        None
    };
    (Node::Polygon { points, paths: Some(paths) }, warning)
}

// ---- calls -------------------------------------------------------------------------------------

/// How deep calls may be nested.
pub const MAX_CALL_DEPTH: usize = 6_000;

/// What a module finds bound when it starts: its parameters, the number of its
/// children, and the number of modules around it.
pub open spec fn frame_of(m: Reading, bound: Env, slots: usize, around: usize) -> Env {
    bound.push(("$children"@, Val::Number(m.at(NumOp::FromInt, slots as u64, 0)))).push(
        ("$parent_modules"@, Val::Number(m.at(NumOp::FromInt, around as u64, 0))),
    )
}

/// Adds to the parameters of a module what it finds bound besides: how many
/// children its call has, where blocks count as what stands in them, and how
/// many modules are running.
pub fn module_frame<A: Arithmetic>(
    calc: &mut Calc<A>,
    bound: Vec<Entry>,
    children: &Vec<Spanned>,
    running: usize,
) -> (r: Vec<Entry>)
    ensures
        forall|m: Reading| #[trigger]
            final(calc).agrees(m) ==> old(calc).agrees(m) && entries(r@) == frame_of(
                m,
                entries(bound@),
                slots_below(*children, children@.len() as int).len() as usize,
                running,
            ),
{
    let mut slots = Vec::new();
    collect_child_slots(children, &mut slots);
    assert(behind(slots@) =~= slots_below(*children, children@.len() as int));
    let n: u64 = calc.apply(NumOp::FromInt, slots.len() as u64, 0);
    let k: u64 = calc.apply(NumOp::FromInt, running as u64, 0);
    let mut out = bound;
    let ghost e = entries(out@);
    out.push(Entry { name: "$children".to_owned(), value: Value::Number(n) });
    assert(entries(out@) =~= e.push(("$children"@, Val::Number(n))));
    let ghost e2 = entries(out@);
    out.push(Entry { name: "$parent_modules".to_owned(), value: Value::Number(k) });
    assert(entries(out@) =~= e2.push(("$parent_modules"@, Val::Number(k))));
    out
}

} // verus!

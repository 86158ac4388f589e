//! Names that a reader sees: module names as words, numbered siblings, colors,
//! source keys.

use crate::blob::texts;
use crate::text::{
    chars_of, decimal, decimal_text, holds_text, join, joined, same_text, text_between, text_of,
};
use vstd::prelude::*;

verus! {

// ---- words ----------------------------------------------------------------------------

/// The upper-case form of a character.
pub uninterp spec fn uppercase_of(c: char) -> Seq<char>;

/// `char::to_uppercase`, collected: the upper-case form of a character, which
/// may be more than one character. What that form is for a given character is
/// left unsaid.
#[verifier::external_body]
fn uppercase(c: char) -> (r: String)
    ensures
        r@ == uppercase_of(c),
{
    c.to_uppercase().collect()
}

pub open spec fn is_separator(c: char) -> bool {
    c == '_' || c == '-'
}

/// A word, unless it is empty.
pub open spec fn kept_word(word: Seq<char>) -> Seq<Seq<char>> {
    if word.len() == 0 {
        Seq::empty()
    } else {
        seq![word]
    }
}

/// The words of `s` from position `i` on, where `word` has been read of the
/// current one.
pub open spec fn words_from(s: Seq<char>, i: int, word: Seq<char>) -> Seq<Seq<char>>
    decreases s.len() - i,
{
    if i < 0 || i >= s.len() {
        kept_word(word)
    } else if is_separator(s[i]) {
        kept_word(word) + words_from(s, i + 1, Seq::empty())
    } else {
        words_from(s, i + 1, word.push(s[i]))
    }
}

/// A word with its first letter in upper case.
pub open spec fn capitalized(word: Seq<char>) -> Seq<char> {
    if word.len() == 0 {
        Seq::empty()
    } else {
        uppercase_of(word[0]) + word.skip(1)
    }
}

/// Words with their first letters in upper case.
pub open spec fn capitalized_all(words: Seq<Seq<char>>) -> Seq<Seq<char>> {
    words.map_values(|w: Seq<char>| capitalized(w))
}

/// An identifier as words.
pub open spec fn humanized(identifier: Seq<char>) -> Seq<char> {
    joined(capitalized_all(words_from(identifier, 0, Seq::empty())), seq![' '])
}

fn push_word(out: &mut Vec<String>, v: &Vec<char>, from: usize, to: usize)
    requires
        from <= to <= v@.len(),
    ensures
        texts(final(out)@) =~= texts(old(out)@) + capitalized_all(
            kept_word(v@.subrange(from as int, to as int)),
        ),
{
    if from == to {
        assert(capitalized_all(kept_word(v@.subrange(from as int, to as int))) =~= Seq::empty());
        return;
    }
    let ghost word = v@.subrange(from as int, to as int);
    let mut name = uppercase(v[from]);
    let rest = text_between(v, from + 1, to);
    name.append(rest.as_str());
    assert(word.skip(1) =~= v@.subrange(from + 1, to as int));
    let ghost before = texts(out@);
    out.push(name);
    assert(texts(out@) =~= before.push(capitalized(word)));
    assert(capitalized_all(kept_word(word)) =~= seq![capitalized(word)]);
}

/// An identifier as words: split at underscores and hyphens, each word with its
/// first letter in upper case.
pub fn humanize_identifier(identifier: &str) -> (r: String)
    ensures
        r@ == humanized(identifier@),
{
    let v = chars_of(identifier);
    let mut out: Vec<String> = Vec::new();
    let mut start: usize = 0;
    let ghost whole = words_from(v@, 0, Seq::empty());
    let ghost done: Seq<Seq<char>> = Seq::empty();
    assert(texts(out@) =~= capitalized_all(done));
    assert(v@.subrange(0, 0) =~= Seq::empty());
    assert(done + whole =~= whole);
    for i in 0..v.len()
        invariant
            start <= i,
            whole == words_from(v@, 0, Seq::empty()),
            texts(out@) =~= capitalized_all(done),
            whole == done + words_from(v@, i as int, v@.subrange(start as int, i as int)),
    {
        let ghost word = v@.subrange(start as int, i as int);
        if v[i] == '_' || v[i] == '-' {
            push_word(&mut out, &v, start, i);
            start = i + 1;
            proof {
                let more = done + kept_word(word);
                assert(capitalized_all(more) =~= capitalized_all(done) + capitalized_all(
                    kept_word(word),
                ));
                assert(v@.subrange(start as int, i + 1) =~= Seq::empty());
                assert(whole =~= more + words_from(v@, i + 1, Seq::empty()));
                done = more;
            }
        } else {
            assert(v@.subrange(start as int, i + 1) =~= word.push(v@[i as int]));
        }
    }
    push_word(&mut out, &v, start, v.len());
    proof {
        let word = v@.subrange(start as int, v@.len() as int);
        assert(capitalized_all(done + kept_word(word)) =~= capitalized_all(done) + capitalized_all(
            kept_word(word),
        ));
        reveal_strlit(" ");
        assert(" "@ =~= seq![' ']);
    }
    join(&out, " ")
}

// ---- numbered names ----------------------------------------------------------------------

/// How often `x` occurs.
pub open spec fn tally<T>(s: Seq<T>, x: T) -> nat
    decreases s.len(),
{
    if s.len() == 0 {
        0
    } else {
        tally(s.drop_last(), x) + if s.last() == x {
            1nat
        } else {
            0nat
        }
    }
}

pub proof fn lemma_tally_bound<T>(s: Seq<T>, x: T)
    ensures
        tally(s, x) <= s.len(),
    decreases s.len(),
{
    if s.len() > 0 {
        lemma_tally_bound(s.drop_last(), x);
    }
}

/// A name followed by its number.
pub open spec fn with_number(base: Seq<char>, n: nat) -> Seq<char> {
    base + seq![' '] + decimal_text(n)
}

/// The name of the `i`-th of some siblings: the name alone where no other has
/// it, else the name and its number among those that share it.
pub open spec fn numbered_name(bases: Seq<Seq<char>>, i: int) -> Seq<char> {
    if tally(bases, bases[i]) == 1 {
        bases[i]
    } else {
        with_number(bases[i], tally(bases.take(i + 1), bases[i]))
    }
}

/// The names of some siblings.
pub open spec fn numbered_names(bases: Seq<Seq<char>>) -> Seq<Seq<char>> {
    Seq::new(bases.len(), |i: int| numbered_name(bases, i))
}

/// How often a text occurs among the first `n`.
pub fn occurrences(list: &Vec<String>, n: usize, name: &str) -> (r: usize)
    requires
        n <= list@.len(),
    ensures
        r == tally(texts(list@).take(n as int), name@),
        r <= n,
{
    let mut count: usize = 0;
    for i in 0..n
        invariant
            n <= list@.len(),
            count <= i,
            count == tally(texts(list@).take(i as int), name@),
    {
        proof {
            let t = texts(list@).take(i + 1);
            assert(t.drop_last() =~= texts(list@).take(i as int));
            assert(t.last() == list@[i as int]@);
        }
        if same_text(list[i].as_str(), name) {
            count = count + 1;
        }
    }
    count
}

/// A name followed by its number.
pub fn append_number(base: &str, n: u64) -> (r: String)
    ensures
        r@ == with_number(base@, n as nat),
{
    let mut name = String::new();
    name.append(base);
    proof {
        reveal_strlit(" ");
        assert(" "@ =~= seq![' ']);
    }
    name.append(" ");
    let number = decimal(n);
    name.append(number.as_str());
    assert(name@ =~= with_number(base@, n as nat));
    name
}

/// Numbers the names that several siblings share.
pub fn number_names(bases: &Vec<String>) -> (r: Vec<String>)
    ensures
        texts(r@) == numbered_names(texts(bases@)),
{
    let mut out: Vec<String> = Vec::new();
    let n: usize = bases.len();
    assert(texts(bases@).take(n as int) =~= texts(bases@));
    for i in 0..n
        invariant
            n == bases@.len(),
            texts(bases@).take(n as int) == texts(bases@),
            texts(out@) =~= numbered_names(texts(bases@)).take(i as int),
    {
        let base = bases[i].as_str();
        assert(texts(bases@)[i as int] == base@);
        let all: usize = occurrences(bases, n, base);
        let name = if all == 1 {
            bases[i].clone()
        } else {
            let upto: usize = occurrences(bases, i + 1, base);
            append_number(base, upto as u64)
        };
        let ghost before = texts(out@);
        out.push(name);
        assert(texts(out@) =~= before.push(numbered_name(texts(bases@), i as int)));
    }
    assert(numbered_names(texts(bases@)).take(n as int) =~= numbered_names(texts(bases@)));
    out
}

// ---- source keys ---------------------------------------------------------------------------

/// A text with slashes for backslashes.
pub open spec fn slashed(s: Seq<char>) -> Seq<char> {
    s.map_values(|c: char| if c == '\\' { '/' } else { c })
}

/// Turns every backslash into a slash.
pub fn slashes(s: &str) -> (r: String)
    ensures
        r@ == slashed(s@),
{
    let v = chars_of(s);
    let mut out: Vec<char> = Vec::new();
    for i in 0..v.len()
        invariant
            v@ == s@,
            out@ =~= slashed(s@).take(i as int),
    {
        out.push(
            if v[i] == '\\' {
                '/'
            } else {
                v[i]
            },
        );
    }
    assert(slashed(s@).take(v@.len() as int) =~= slashed(s@));
    text_of(&out)
}

/// What an optional text says.
pub open spec fn text_view(s: Option<String>) -> Option<Seq<char>> {
    match s {
        Some(s) => Some(s@),
        None => None,
    }
}

/// How a source is named to a reader, given whether its key is an absolute path
/// and what file it names.
pub open spec fn shown_key(
    key: Seq<char>,
    absolute: bool,
    file_name: Option<Seq<char>>,
) -> Seq<char> {
    if key == "<main>"@ || !absolute {
        slashed(key)
    } else {
        match file_name {
            Some(name) => name,
            None => "source.scad"@,
        }
    }
}

/// Names a source to a reader: a relative key with slashes, an absolute one by
/// its file alone, so that no directory of the author's machine shows.
pub fn show_key(key: &str, absolute: bool, file_name: Option<String>) -> (r: String)
    ensures
        r@ == shown_key(key@, absolute, text_view(file_name)),
{
    if same_text(key, "<main>") || !absolute {
        return slashes(key);
    }
    match file_name {
        Some(name) => name,
        None => {
            let mut s = String::new();
            s.append("source.scad");
            assert(s@ =~= "source.scad"@);
            s
        },
    }
}

/// A text without anything that can make a path absolute.
pub open spec fn plainly_relative(key: Seq<char>) -> bool {
    !key.contains('/') && !key.contains('\\') && !key.contains(':')
}

/// A path that one system takes as it is, so that a slash parts nothing in it.
pub open spec fn verbatim(key: Seq<char>) -> bool {
    key.len() >= 4 && key[0] == '\\' && key[1] == '\\' && key[2] == '?' && key[3] == '\\'
}

/// `part` stands in `key` and goes through no directory.
pub open spec fn is_last_part(key: Seq<char>, part: Seq<char>) -> bool {
    holds_text(key, part) && (verbatim(key) || !part.contains('/'))
}

/// `std::path::Path::is_absolute`. A path is absolute where it starts with the
/// root or, on Windows, with a prefix and the root: not without a slash, a
/// backslash or a colon. Beyond that, what is absolute depends on the system and
/// is left unsaid.
#[verifier::external_body]
fn path_is_absolute(key: &str) -> (r: bool)
    ensures
        plainly_relative(key@) ==> !r,
{
    std::path::Path::new(key).is_absolute()
}

/// `std::path::Path::file_name`, as text where it is text: the last normal
/// component of a path, which is a part of the path that holds no separator. A
/// slash is one on every system, but for verbatim paths of Windows. Which part is the last one depends on the
/// system and is left unsaid.
#[verifier::external_body]
fn path_file_name(key: &str) -> (r: Option<String>)
    ensures
        r matches Some(name) ==> is_last_part(key@, name@),
{
    std::path::Path::new(key).file_name().and_then(|name| name.to_str()).map(|name| name.to_string())
}

/// `r` names the source `key` to a reader: as it is, with slashes, where it is
/// plainly relative; else in that way too, or by a part that goes through no
/// directory, or by no name of its own.
pub open spec fn names_source(key: Seq<char>, r: Seq<char>) -> bool {
    if key == "<main>"@ || plainly_relative(key) {
        r == slashed(key)
    } else {
        r == slashed(key) || is_last_part(key, r) || r == "source.scad"@
    }
}

/// Names a source to a reader, asking the system what its key is: where that
/// says that the key is absolute, by its file alone.
pub fn safe_source_key(key: &str) -> (r: String)
    ensures
        names_source(key@, r@),
{
    let absolute: bool = path_is_absolute(key);
    let name = path_file_name(key);
    show_key(key, absolute, name)
}

/// A source that is shown by less than its key shows no directory.
pub proof fn law_no_directory_shows(key: Seq<char>, r: Seq<char>)
    requires
        names_source(key, r),
        r != slashed(key),
        !verbatim(key),
    ensures
        !r.contains('/'),
{
    reveal_strlit("source.scad");
    if r == "source.scad"@ {
        assert forall|i: int| 0 <= i < r.len() implies r[i] != '/' by {}
    }
}

/// Every key of `r` names the source of `keys` at the same place.
pub open spec fn name_sources(keys: Seq<Seq<char>>, r: Seq<Seq<char>>) -> bool {
    &&& r.len() == keys.len()
    &&& forall|i: int| 0 <= i < r.len() ==> names_source(keys[i], #[trigger] r[i])
}

/// Names every source of a list.
pub fn safe_source_keys(keys: &Vec<String>) -> (r: Vec<String>)
    ensures
        name_sources(texts(keys@), texts(r@)),
{
    let mut out: Vec<String> = Vec::new();
    let mut i: usize = 0;
    while i < keys.len()
        invariant
            i <= keys@.len(),
            texts(out@).len() == i,
            forall|k: int|
                0 <= k < i ==> names_source(texts(keys@)[k], #[trigger] texts(out@)[k]),
        decreases keys.len() - i,
    {
        let key = safe_source_key(keys[i].as_str());
        let ghost before = texts(out@);
        out.push(key);
        assert(texts(out@) =~= before.push(key@));
        i = i + 1;
    }
    out
}

} // verus!

//! JSON text: quoted strings and the framing of objects and arrays.

use crate::blob::texts;
use crate::text::{join, joined};
use vstd::prelude::*;

verus! {

/// A hexadecimal digit, lower case.
pub open spec fn hex(n: int) -> char {
    if n < 10 {
        (48 + n) as char
    } else {
        (87 + n) as char
    }
}

/// How a character stands in a JSON string.
pub open spec fn json_char(c: char) -> Seq<char> {
    if c == '"' {
        seq!['\\', '"']
    } else if c == '\\' {
        seq!['\\', '\\']
    } else if c as int == 8 {
        seq!['\\', 'b']
    } else if c as int == 9 {
        seq!['\\', 't']
    } else if c as int == 10 {
        seq!['\\', 'n']
    } else if c as int == 12 {
        seq!['\\', 'f']
    } else if c as int == 13 {
        seq!['\\', 'r']
    } else if (c as int) < 32 {
        seq!['\\', 'u', '0', '0', hex(c as int / 16), hex(c as int % 16)]
    } else {
        seq![c]
    }
}

/// The characters of a JSON string, without the quotes.
pub open spec fn json_chars(s: Seq<char>) -> Seq<char>
    decreases s.len(),
{
    if s.len() == 0 {
        Seq::empty()
    } else {
        json_chars(s.drop_last()) + json_char(s.last())
    }
}

/// A JSON string.
pub open spec fn json_quoted(s: Seq<char>) -> Seq<char> {
    seq!['"'] + json_chars(s) + seq!['"']
}

/// `serde_json::to_string` of a string: the string in quotes, with the quote,
/// the backslash and the control characters escaped.
#[verifier::external_body]
pub(crate) fn quote(s: &str) -> (r: String)
    ensures
        r@ == json_quoted(s@),
{
    serde_json::to_string(s).unwrap_or_default()
}

/// A member of an object.
pub open spec fn json_field(key: Seq<char>, value: Seq<char>) -> Seq<char> {
    json_quoted(key) + seq![':'] + value
}

/// An object with the given members.
pub open spec fn json_object(fields: Seq<Seq<char>>) -> Seq<char> {
    seq!['{'] + joined(fields, seq![',']) + seq!['}']
}

/// An array of the given values.
pub open spec fn json_array(items: Seq<Seq<char>>) -> Seq<char> {
    seq!['['] + joined(items, seq![',']) + seq![']']
}

/// A member of an object.
pub fn member(key: &str, value: &str) -> (r: String)
    ensures
        r@ == json_field(key@, value@),
{
    let mut s = quote(key);
    proof {
        reveal_strlit(":");
        assert(":"@ =~= seq![':']);
    }
    s.append(":");
    s.append(value);
    s
}

/// Adds a member to an object's members.
pub fn put(fields: &mut Vec<String>, key: &str, value: &str)
    ensures
        texts(final(fields)@) == texts(old(fields)@).push(json_field(key@, value@)),
{
    let ghost before = texts(fields@);
    fields.push(member(key, value));
    assert(texts(fields@) =~= before.push(json_field(key@, value@)));
}

/// An object with the given members.
pub fn object(fields: &Vec<String>) -> (r: String)
    ensures
        r@ == json_object(texts(fields@)),
{
    proof {
        reveal_strlit("{");
        reveal_strlit("}");
        reveal_strlit(",");
        assert("{"@ =~= seq!['{']);
        assert("}"@ =~= seq!['}']);
        assert(","@ =~= seq![',']);
    }
    let mut s = String::new();
    s.append("{");
    let inner = join(fields, ",");
    s.append(inner.as_str());
    s.append("}");
    assert(s@ =~= json_object(texts(fields@)));
    s
}

/// An array of the given values.
pub fn array(items: &Vec<String>) -> (r: String)
    ensures
        r@ == json_array(texts(items@)),
{
    proof {
        reveal_strlit("[");
        reveal_strlit("]");
        reveal_strlit(",");
        assert("["@ =~= seq!['[']);
        assert("]"@ =~= seq![']']);
        assert(","@ =~= seq![',']);
    }
    let mut s = String::new();
    s.append("[");
    let inner = join(items, ",");
    s.append(inner.as_str());
    s.append("]");
    assert(s@ =~= json_array(texts(items@)));
    s
}

} // verus!

//! Requests from the parallel lists that hosts pass.

use crate::base64::{base64_decode, decoded, visible};
use crate::blob::texts;
use crate::request::Request;
use vstd::prelude::*;
use vstd::utf8::encode_utf8;

verus! {

/// The bytes that a base64 text stands for.
pub open spec fn decoding(s: Seq<char>) -> Option<Seq<u8>> {
    decoded(visible(encode_utf8(s)))
}

/// Names beside texts, as far as both lists go.
pub open spec fn paired_texts(names: Seq<Seq<char>>, values: Seq<Seq<char>>) -> Seq<
    (Seq<char>, Seq<char>),
> {
    let n = if names.len() < values.len() {
        names.len()
    } else {
        values.len()
    };
    Seq::new(n, |i: int| (names[i], values[i]))
}

/// The files among the first `n` whose data can be decoded.
pub open spec fn decoded_files(names: Seq<Seq<char>>, data: Seq<Seq<char>>, n: int) -> Seq<
    (Seq<char>, Seq<u8>),
>
    decreases n,
{
    if n <= 0 {
        Seq::empty()
    } else {
        match decoding(data[n - 1]) {
            Some(bytes) => decoded_files(names, data, n - 1).push((names[n - 1], bytes)),
            None => decoded_files(names, data, n - 1),
        }
    }
}

/// The blobs among the first `n` that can be decoded.
pub open spec fn decoded_blobs(data: Seq<Seq<char>>, n: int) -> Seq<Seq<u8>>
    decreases n,
{
    if n <= 0 {
        Seq::empty()
    } else {
        match decoding(data[n - 1]) {
            Some(bytes) => decoded_blobs(data, n - 1).push(bytes),
            None => decoded_blobs(data, n - 1),
        }
    }
}

/// What pairs of texts say.
pub open spec fn text_pairs(v: Seq<(String, String)>) -> Seq<(Seq<char>, Seq<char>)> {
    v.map_values(|p: (String, String)| (p.0@, p.1@))
}

/// What named bytes say.
pub open spec fn byte_pairs(v: Seq<(String, Vec<u8>)>) -> Seq<(Seq<char>, Seq<u8>)> {
    v.map_values(|p: (String, Vec<u8>)| (p.0@, p.1@))
}

/// What lists of bytes say.
pub open spec fn byte_lists(v: Seq<Vec<u8>>) -> Seq<Seq<u8>> {
    v.map_values(|b: Vec<u8>| b@)
}

fn pair_texts(names: &Vec<String>, values: &Vec<String>) -> (r: Vec<(String, String)>)
    ensures
        text_pairs(r@) == paired_texts(texts(names@), texts(values@)),
{
    let ghost whole = paired_texts(texts(names@), texts(values@));
    let mut out: Vec<(String, String)> = Vec::new();
    let mut i: usize = 0;
    while i < names.len() && i < values.len()
        invariant
            i <= names@.len(),
            i <= values@.len(),
            whole == paired_texts(texts(names@), texts(values@)),
            text_pairs(out@) =~= whole.take(i as int),
        decreases names.len() - i,
    {
        let ghost held = text_pairs(out@);
        let a = names[i].clone();
        let b = values[i].clone();
        let ghost pair = (a@, b@);
        out.push((a, b));
        assert(text_pairs(out@) =~= held.push(pair));
        assert(whole[i as int] == pair);
        i = i + 1;
    }
    assert(text_pairs(out@) =~= whole);
    out
}

fn decode_files(names: &Vec<String>, data: &Vec<String>) -> (r: Vec<(String, Vec<u8>)>)
    ensures
        byte_pairs(r@) == decoded_files(
            texts(names@),
            texts(data@),
            if names@.len() < data@.len() {
                names@.len() as int
            } else {
                data@.len() as int
            },
        ),
{
    let mut out: Vec<(String, Vec<u8>)> = Vec::new();
    let mut i: usize = 0;
    assert(byte_pairs(out@) =~= Seq::empty());
    while i < names.len() && i < data.len()
        invariant
            i <= names@.len(),
            i <= data@.len(),
            byte_pairs(out@) == decoded_files(texts(names@), texts(data@), i as int),
        decreases names.len() - i,
    {
        let ghost held = byte_pairs(out@);
        assert(texts(data@)[i as int] == data@[i as int]@);
        assert(texts(names@)[i as int] == names@[i as int]@);
        match base64_decode(data[i].as_str()) {
            Some(bytes) => {
                let name = names[i].clone();
                let ghost pair = (name@, bytes@);
                out.push((name, bytes));
                assert(byte_pairs(out@) =~= held.push(pair));
            },
            None => {},
        }
        i = i + 1;
    }
    out
}

fn decode_blobs(data: &Vec<String>) -> (r: Vec<Vec<u8>>)
    ensures
        byte_lists(r@) == decoded_blobs(texts(data@), data@.len() as int),
{
    let mut out: Vec<Vec<u8>> = Vec::new();
    let mut i: usize = 0;
    assert(byte_lists(out@) =~= Seq::empty());
    while i < data.len()
        invariant
            i <= data@.len(),
            byte_lists(out@) == decoded_blobs(texts(data@), i as int),
        decreases data.len() - i,
    {
        let ghost held = byte_lists(out@);
        assert(texts(data@)[i as int] == data@[i as int]@);
        match base64_decode(data[i].as_str()) {
            Some(bytes) => {
                let ghost bv = bytes@;
                out.push(bytes);
                assert(byte_lists(out@) =~= held.push(bv));
            },
            None => {},
        }
        i = i + 1;
    }
    out
}

/// Whether lists that belong together have different lengths.
pub fn ragged(
    names: &Vec<String>,
    values: &Vec<String>,
    file_names: &Vec<String>,
    file_contents: &Vec<String>,
    bin_names: &Vec<String>,
    bin_data: &Vec<String>,
) -> (r: bool)
    ensures
        r == (names@.len() != values@.len() || file_names@.len() != file_contents@.len()
            || bin_names@.len() != bin_data@.len()),
{
    names.len() != values.len() || file_names.len() != file_contents.len() || bin_names.len()
        != bin_data.len()
}

/// A request from parallel lists. What has no counterpart in the other list is
/// dropped, and so is data that cannot be decoded.
pub fn request(
    source: String,
    names: &Vec<String>,
    values: &Vec<String>,
    file_names: &Vec<String>,
    file_contents: &Vec<String>,
    bin_names: &Vec<String>,
    bin_data: &Vec<String>,
    font_blobs: &Vec<String>,
) -> (r: Request)
    ensures
        r.source == source,
        text_pairs(r.params@) == paired_texts(texts(names@), texts(values@)),
        text_pairs(r.files@) == paired_texts(texts(file_names@), texts(file_contents@)),
        byte_pairs(r.binary_files@) == decoded_files(
            texts(bin_names@),
            texts(bin_data@),
            if bin_names@.len() < bin_data@.len() {
                bin_names@.len() as int
            } else {
                bin_data@.len() as int
            },
        ),
        byte_lists(r.font_files@) == decoded_blobs(texts(font_blobs@), font_blobs@.len() as int),
{
    Request {
        source,
        params: pair_texts(names, values),
        files: pair_texts(file_names, file_contents),
        binary_files: decode_files(bin_names, bin_data),
        font_files: decode_blobs(font_blobs),
    }
}

} // verus!

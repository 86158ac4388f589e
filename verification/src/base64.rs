//! Standard base64 (RFC 4648, padded), with ASCII whitespace ignored.

use vstd::prelude::*;
use vstd::string::StringSliceAdditionalSpecFns;

verus! {

/// Space, tab, line feed, form feed or carriage return.
pub open spec fn whitespace(c: u8) -> bool {
    c == 32 || c == 9 || c == 10 || c == 12 || c == 13
}

/// The six bits that a character of the alphabet stands for.
pub open spec fn sextet(c: u8) -> Option<u8> {
    if 65 <= c <= 90 {
        Some((c - 65) as u8)
    } else if 97 <= c <= 122 {
        Some((c - 71) as u8)
    } else if 48 <= c <= 57 {
        Some((c + 4) as u8)
    } else if c == 43 {
        Some(62)
    } else if c == 47 {
        Some(63)
    } else {
        None
    }
}

/// The input without whitespace.
pub open spec fn visible(s: Seq<u8>) -> Seq<u8> {
    s.filter(|c: u8| !whitespace(c))
}

/// The three bytes that four sextets stand for.
pub open spec fn triple(a: u8, b: u8, c: u8, d: u8) -> Seq<u8> {
    seq![
        (a * 4 + b / 16) as u8,
        (b % 16 * 16 + c / 4) as u8,
        (c % 4 * 64 + d) as u8,
    ]
}

/// What one group of four characters stands for: three bytes; two or one where
/// it ends in padding; nothing where it is no group.
pub open spec fn group(q: Seq<u8>) -> Option<Seq<u8>> {
    match (sextet(q[0]), sextet(q[1])) {
        (Some(a), Some(b)) => if q[2] == 61 && q[3] == 61 {
            Some(triple(a, b, 0, 0).take(1))
        } else {
            match sextet(q[2]) {
                None => None,
                Some(c) => if q[3] == 61 {
                    Some(triple(a, b, c, 0).take(2))
                } else {
                    match sextet(q[3]) {
                        None => None,
                        Some(d) => Some(triple(a, b, c, d)),
                    }
                },
            }
        },
        _ => None,
    }
}

/// Decodes characters without whitespace, group by group. A padded group is the
/// last one.
pub open spec fn decoded(s: Seq<u8>) -> Option<Seq<u8>>
    decreases s.len(),
{
    if s.len() == 0 {
        Some(Seq::empty())
    } else if s.len() < 4 {
        None
    } else {
        match group(s.take(4)) {
            None => None,
            Some(out) => if out.len() < 3 {
                if s.len() == 4 {
                    Some(out)
                } else {
                    None
                }
            } else {
                match decoded(s.skip(4)) {
                    None => None,
                    Some(more) => Some(out + more),
                }
            },
        }
    }
}

fn value(c: u8) -> (r: Option<u8>)
    ensures
        r == sextet(c),
        r matches Some(v) ==> v < 64,
{
    if 65 <= c && c <= 90 {
        Some(c - 65)
    } else if 97 <= c && c <= 122 {
        Some(c - 71)
    } else if 48 <= c && c <= 57 {
        Some(c + 4)
    } else if c == 43 {
        Some(62)
    } else if c == 47 {
        Some(63)
    } else {
        None
    }
}

fn strip(bytes: &[u8]) -> (r: Vec<u8>)
    ensures
        r@ == visible(bytes@),
{
    let mut out: Vec<u8> = Vec::new();
    let ghost keep = |c: u8| !whitespace(c);
    assert(bytes@.take(0).filter(keep) =~= Seq::empty()) by {
        reveal(Seq::filter);
    }
    for i in 0..bytes.len()
        invariant
            keep == (|c: u8| !whitespace(c)),
            out@ == bytes@.take(i as int).filter(keep),
    {
        let c: u8 = bytes[i];
        proof {
            reveal(Seq::filter);
            let t = bytes@.take(i + 1);
            assert(t.drop_last() =~= bytes@.take(i as int));
            assert(t.last() == c);
        }
        if !(c == 32 || c == 9 || c == 10 || c == 12 || c == 13) {
            out.push(c);
        }
    }
    assert(bytes@.take(bytes@.len() as int) =~= bytes@);
    out
}

/// Decodes standard base64, ignoring ASCII whitespace. Nothing on any invalid
/// character or malformed length.
pub fn base64_decode(s: &str) -> (r: Option<Vec<u8>>)
    ensures
        match r {
            Some(out) => decoded(visible(s.spec_bytes())) == Some(out@),
            None => decoded(visible(s.spec_bytes())) is None,
        },
{
    let v = strip(s.as_bytes());
    let mut out: Vec<u8> = Vec::new();
    let mut i: usize = 0;
    let ghost whole = decoded(v@);
    assert(v@.skip(0) =~= v@);
    proof {
        if let Some(all) = whole {
            assert(Seq::<u8>::empty() + all =~= all);
        }
    }
    while i < v.len()
        invariant
            i <= v@.len(),
            v@ == visible(s.spec_bytes()),
            whole == decoded(v@),
            whole == (match decoded(v@.skip(i as int)) {
                None => None,
                Some(more) => Some(out@ + more),
            }),
        decreases v.len() - i,
    {
        let ghost rest = v@.skip(i as int);
        if v.len() - i < 4 {
            return None;
        }
        let ghost q = rest.take(4);
        assert(q[0] == v@[i as int] && q[1] == v@[i + 1] && q[2] == v@[i + 2] && q[3] == v@[i + 3]);
        let a = match value(v[i]) {
            Some(a) => a,
            None => return None,
        };
        let b = match value(v[i + 1]) {
            Some(b) => b,
            None => return None,
        };
        let ghost before = out@;
        if v[i + 2] == 61 && v[i + 3] == 61 {
            out.push(a * 4 + b / 16);
            assert(out@ =~= before + triple(a, b, 0, 0).take(1));
            if v.len() - i > 4 {
                return None;
            }
            return Some(out);
        }
        let c = match value(v[i + 2]) {
            Some(c) => c,
            None => return None,
        };
        out.push(a * 4 + b / 16);
        out.push(b % 16 * 16 + c / 4);
        if v[i + 3] == 61 {
            assert(out@ =~= before + triple(a, b, c, 0).take(2));
            if v.len() - i > 4 {
                return None;
            }
            return Some(out);
        }
        let d = match value(v[i + 3]) {
            Some(d) => d,
            None => return None,
        };
        out.push(c % 4 * 64 + d);
        proof {
            assert(out@ =~= before + triple(a, b, c, d));
            assert(rest.skip(4) =~= v@.skip(i + 4));
            if let Some(more) = decoded(rest.skip(4)) {
                assert(before + (triple(a, b, c, d) + more) =~= out@ + more);
            }
        }
        i = i + 4;
    }
    assert(v@.skip(i as int) =~= Seq::empty());
    assert(out@ + Seq::<u8>::empty() =~= out@);
    Some(out)
}

// ---- decoding undoes encoding ----------------------------------------------------

/// The character of the alphabet for six bits.
pub open spec fn letter(v: int) -> u8 {
    if v < 26 {
        (v + 65) as u8
    } else if v < 52 {
        (v + 71) as u8
    } else if v < 62 {
        (v - 4) as u8
    } else if v == 62 {
        43
    } else {
        47
    }
}

/// The padded base64 text of some bytes.
pub open spec fn encoded(b: Seq<u8>) -> Seq<u8>
    decreases b.len(),
{
    if b.len() == 0 {
        Seq::empty()
    } else if b.len() == 1 {
        seq![letter(b[0] as int / 4), letter(b[0] as int % 4 * 16), 61u8, 61u8]
    } else if b.len() == 2 {
        seq![
            letter(b[0] as int / 4),
            letter(b[0] as int % 4 * 16 + b[1] as int / 16),
            letter(b[1] as int % 16 * 4),
            61u8,
        ]
    } else {
        seq![
            letter(b[0] as int / 4),
            letter(b[0] as int % 4 * 16 + b[1] as int / 16),
            letter(b[1] as int % 16 * 4 + b[2] as int / 64),
            letter(b[2] as int % 64),
        ] + encoded(b.skip(3))
    }
}

proof fn lemma_letter(v: int)
    requires
        0 <= v < 64,
    ensures
        sextet(letter(v)) == Some(v as u8),
        letter(v) != 61,
        !whitespace(letter(v)),
{
}

/// Decoding the padded encoding of any bytes gives the bytes back.
pub proof fn law_decode_undoes_encode(b: Seq<u8>)
    ensures
        decoded(encoded(b)) == Some(b),
    decreases b.len(),
{
    let s = encoded(b);
    if b.len() == 1 {
        lemma_letter(b[0] as int / 4);
        lemma_letter(b[0] as int % 4 * 16);
        assert(s.take(4) =~= s);
        assert(triple((b[0] / 4) as u8, (b[0] % 4 * 16) as u8, 0, 0).take(1) =~= b);
    } else if b.len() == 2 {
        lemma_letter(b[0] as int / 4);
        lemma_letter(b[0] as int % 4 * 16 + b[1] as int / 16);
        lemma_letter(b[1] as int % 16 * 4);
        assert(s.take(4) =~= s);
        assert(triple(
            (b[0] / 4) as u8,
            (b[0] % 4 * 16 + b[1] / 16) as u8,
            (b[1] % 16 * 4) as u8,
            0,
        ).take(2) =~= b);
    } else if b.len() > 2 {
        lemma_letter(b[0] as int / 4);
        lemma_letter(b[0] as int % 4 * 16 + b[1] as int / 16);
        lemma_letter(b[1] as int % 16 * 4 + b[2] as int / 64);
        lemma_letter(b[2] as int % 64);
        law_decode_undoes_encode(b.skip(3));
        assert(s.skip(4) =~= encoded(b.skip(3)));
        let out = triple(
            (b[0] / 4) as u8,
            (b[0] % 4 * 16 + b[1] / 16) as u8,
            (b[1] % 16 * 4 + b[2] / 64) as u8,
            (b[2] % 64) as u8,
        );
        assert(out =~= b.take(3));
        assert(b.take(3) + b.skip(3) =~= b);
    }
}

} // verus!

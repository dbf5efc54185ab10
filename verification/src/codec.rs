//! On-disk form of a bytecode container: a single-field, key-value tagged
//! textual document whose one field, `code`, holds the octets as a list of
//! decimal numbers, for example `{"code":[0,1,254,255]}`.
//!
//! The writer emits exactly the compact form above. The reader accepts any
//! document of the schema: the same tokens with optional whitespace between
//! them. On documents without whitespace the form is canonical: every such
//! accepted document is the encoding of the bytes it decodes to.

use vstd::prelude::*;

verus! {

/// A decimal digit in ASCII.
pub open spec fn is_digit(c: u8) -> bool {
    48 <= c && c <= 57
}

/// Insignificant whitespace between tokens: space, tab, line feed, carriage
/// return.
pub open spec fn is_ws(c: u8) -> bool {
    c == 32 || c == 9 || c == 10 || c == 13
}

/// The first position at or after `i` that does not hold whitespace.
pub open spec fn skip_ws(s: Seq<u8>, i: int) -> int
    decreases s.len() - i,
{
    if 0 <= i && i < s.len() && is_ws(s[i]) {
        skip_ws(s, i + 1)
    } else {
        i
    }
}

/// Skipping whitespace stays inside the document and stops on a
/// non-whitespace byte or its end.
pub proof fn lemma_skip_ws_bounds(s: Seq<u8>, i: int)
    requires
        0 <= i <= s.len(),
    ensures
        i <= skip_ws(s, i) <= s.len(),
        skip_ws(s, i) == s.len() || !is_ws(s[skip_ws(s, i)]),
    decreases s.len() - i,
{
    if i < s.len() && is_ws(s[i]) {
        lemma_skip_ws_bounds(s, i + 1);
    }
}

/// The ASCII decimal digits of `n`, without leading zeros.
pub open spec fn dec_digits(n: u8) -> Seq<u8> {
    if n < 10 {
        seq![(48 + n) as u8]
    } else if n < 100 {
        seq![(48 + n / 10) as u8, (48 + n % 10) as u8]
    } else {
        seq![(48 + n / 100) as u8, (48 + (n / 10) % 10) as u8, (48 + n % 10) as u8]
    }
}

/// The comma-separated decimal renderings of the given bytes.
pub open spec fn items_bytes(code: Seq<u8>) -> Seq<u8>
    decreases code.len(),
{
    if code.len() == 0 {
        Seq::empty()
    } else if code.len() == 1 {
        dec_digits(code[0])
    } else {
        dec_digits(code[0]) + seq![44u8] + items_bytes(code.drop_first())
    }
}

/// The opening of the compact document: `{"code":[`.
pub open spec fn doc_open() -> Seq<u8> {
    seq![123u8, 34u8, 99u8, 111u8, 100u8, 101u8, 34u8, 58u8, 91u8]
}

/// The closing of the compact document: `]}`.
pub open spec fn doc_close() -> Seq<u8> {
    seq![93u8, 125u8]
}

/// The key token of the document: `"code"`, quotes included.
pub open spec fn key_bytes() -> Seq<u8> {
    seq![34u8, 99u8, 111u8, 100u8, 101u8, 34u8]
}

/// The canonical serialized document holding `code`: the writer's output.
pub open spec fn encoded_bytes(code: Seq<u8>) -> Seq<u8> {
    doc_open() + items_bytes(code) + doc_close()
}

/// Reads one decimal number from `s` at position `i`: its value and the
/// position just past it. Rejects leading zeros, more than three digits,
/// and values above 255.
pub open spec fn parse_num_at(s: Seq<u8>, i: int) -> Option<(u8, int)> {
    if !(0 <= i && i < s.len()) || !is_digit(s[i]) {
        None
    } else if i + 1 < s.len() && is_digit(s[i + 1]) {
        if s[i] == 48 {
            None
        } else if i + 2 < s.len() && is_digit(s[i + 2]) {
            if i + 3 < s.len() && is_digit(s[i + 3]) {
                None
            } else {
                let v = 100 * (s[i] - 48) + 10 * (s[i + 1] - 48) + (s[i + 2] - 48);
                if v > 255 {
                    None
                } else {
                    Some((v as u8, i + 3))
                }
            }
        } else {
            Some(((10 * (s[i] - 48) + (s[i + 1] - 48)) as u8, i + 2))
        }
    } else {
        Some(((s[i] - 48) as u8, i + 1))
    }
}

/// Reads a nonempty comma-separated list of numbers starting at `i`, with
/// optional whitespace between tokens, up to a closing bracket: the values
/// read and the position of the bracket.
pub open spec fn parse_items_ws(s: Seq<u8>, i: int) -> Option<(Seq<u8>, int)>
    decreases s.len() - i,
{
    match parse_num_at(s, i) {
        None => None,
        Some(vj) => {
            if !(i < vj.1 && vj.1 <= s.len()) {
                None
            } else {
                let k = skip_ws(s, vj.1);
                if !(vj.1 <= k && k <= s.len()) {
                    None
                } else if k < s.len() && s[k] == 93 {
                    Some((seq![vj.0], k))
                } else if k < s.len() && s[k] == 44 {
                    let m = skip_ws(s, k + 1);
                    if !(k + 1 <= m && m <= s.len()) {
                        None
                    } else {
                        match parse_items_ws(s, m) {
                            None => None,
                            Some(rest) => Some((seq![vj.0] + rest.0, rest.1)),
                        }
                    }
                } else {
                    None
                }
            }
        },
    }
}

/// Whether, from position `i`, the document holds nothing but an optional
/// run of whitespace, a closing brace, and optional whitespace to its end.
pub open spec fn close_ok(s: Seq<u8>, i: int) -> bool {
    let k = skip_ws(s, i);
    &&& k < s.len()
    &&& s[k] == 125
    &&& skip_ws(s, k + 1) == s.len()
}

/// What a serialized document decodes to: the held bytes, or nothing when
/// the document does not match the schema. The schema is the compact form's
/// tokens with optional whitespace between them.
pub open spec fn spec_decode(data: Seq<u8>) -> Option<Seq<u8>> {
    let i0 = skip_ws(data, 0);
    if !(i0 < data.len() && data[i0] == 123) {
        None
    } else {
        let i1 = skip_ws(data, i0 + 1);
        if !(i1 + 6 <= data.len() && data.subrange(i1, i1 + 6) == key_bytes()) {
            None
        } else {
            let i2 = skip_ws(data, i1 + 6);
            if !(i2 < data.len() && data[i2] == 58) {
                None
            } else {
                let i3 = skip_ws(data, i2 + 1);
                if !(i3 < data.len() && data[i3] == 91) {
                    None
                } else {
                    let i4 = skip_ws(data, i3 + 1);
                    if i4 < data.len() && data[i4] == 93 {
                        if close_ok(data, i4 + 1) {
                            Some(Seq::empty())
                        } else {
                            None
                        }
                    } else {
                        match parse_items_ws(data, i4) {
                            None => None,
                            Some(ce) => if close_ok(data, ce.1 + 1) {
                                Some(ce.0)
                            } else {
                                None
                            },
                        }
                    }
                }
            }
        }
    }
}

/// Advance past whitespace: the first position at or after `start` that
/// does not hold whitespace.
pub(crate) fn skip_ws_exec(data: &[u8], start: usize) -> (r: usize)
    requires
        start <= data@.len(),
    ensures
        r == skip_ws(data@, start as int),
        start <= r <= data@.len(),
{
    let n = data.len();
    let mut i: usize = start;
    while i < n && (data[i] == 32 || data[i] == 9 || data[i] == 10 || data[i] == 13)
        invariant
            start <= i <= n,
            n == data@.len(),
            skip_ws(data@, start as int) == skip_ws(data@, i as int),
        decreases n - i,
    {
        i += 1;
    }
    proof {
        assert(skip_ws(data@, i as int) == i);
    }
    i
}

/// Append the ASCII decimal digits of `n` to `out`.
pub(crate) fn push_dec(out: &mut Vec<u8>, n: u8)
    ensures
        final(out)@ == old(out)@ + dec_digits(n),
{
    if n < 10 {
        out.push(48 + n);
        proof {
            assert(out@ =~= old(out)@ + dec_digits(n));
        }
    } else if n < 100 {
        out.push(48 + n / 10);
        out.push(48 + n % 10);
        proof {
            assert(out@ =~= old(out)@ + dec_digits(n));
        }
    } else {
        out.push(48 + n / 100);
        out.push(48 + (n / 10) % 10);
        out.push(48 + n % 10);
        proof {
            assert(out@ =~= old(out)@ + dec_digits(n));
        }
    }
}

/// Appending a byte to the list appends a comma (when the list was nonempty)
/// and the byte's digits to the rendering.
pub proof fn lemma_items_bytes_push(code: Seq<u8>, x: u8)
    ensures
        items_bytes(code.push(x)) == if code.len() == 0 {
            dec_digits(x)
        } else {
            (items_bytes(code) + seq![44u8] + dec_digits(x))
        },
    decreases code.len(),
{
    let p = code.push(x);
    if code.len() == 0 {
        assert(p.len() == 1);
        assert(p[0] == x);
        assert(items_bytes(p) == dec_digits(x));
    } else {
        assert(p.len() >= 2);
        assert(p[0] == code[0]);
        assert(p.drop_first() =~= code.drop_first().push(x));
        lemma_items_bytes_push(code.drop_first(), x);
        if code.len() == 1 {
            assert(items_bytes(p) == dec_digits(code[0]) + seq![44u8] + dec_digits(x));
            assert(items_bytes(code) == dec_digits(code[0]));
        } else {
            assert(items_bytes(p) == dec_digits(code[0]) + seq![44u8] + (items_bytes(
                code.drop_first(),
            ) + seq![44u8] + dec_digits(x)));
            assert(dec_digits(code[0]) + seq![44u8] + (items_bytes(code.drop_first()) + seq![44u8]
                + dec_digits(x)) =~= (dec_digits(code[0]) + seq![44u8] + items_bytes(
                code.drop_first(),
            )) + seq![44u8] + dec_digits(x));
        }
    }
}

/// The digits of a byte are digits, and their first is nonzero unless the
/// byte is a single digit.
proof fn lemma_dec_digits_shape(n: u8)
    ensures
        1 <= dec_digits(n).len() && dec_digits(n).len() <= 3,
        forall|k: int| 0 <= k < dec_digits(n).len() ==> is_digit(#[trigger] dec_digits(n)[k]),
        dec_digits(n).len() >= 2 ==> dec_digits(n)[0] != 48,
{
}

/// Reading a number from a position holding a byte's digits, followed by
/// the end or a non-digit, yields that byte.
proof fn lemma_parse_num_of_digits(s: Seq<u8>, i: int, n: u8)
    requires
        0 <= i,
        i + dec_digits(n).len() <= s.len(),
        s.subrange(i, i + dec_digits(n).len()) == dec_digits(n),
        i + dec_digits(n).len() == s.len() || !is_digit(s[i + dec_digits(n).len()]),
    ensures
        parse_num_at(s, i) == Some((n, i + dec_digits(n).len())),
{
    let d = dec_digits(n);
    let l = d.len() as int;
    lemma_dec_digits_shape(n);
    assert(s.subrange(i, i + l)[0] == d[0]);
    assert(s[i] == d[0]);
    if l >= 2 {
        assert(s.subrange(i, i + l)[1] == d[1]);
        assert(s[i + 1] == d[1]);
    }
    if l >= 3 {
        assert(s.subrange(i, i + l)[2] == d[2]);
        assert(s[i + 2] == d[2]);
    }
    if n < 10 {
        assert(s[i] == 48 + n);
    } else if n < 100 {
        assert(s[i] == 48 + n / 10);
        assert(s[i + 1] == 48 + n % 10);
        assert(10 * (s[i] - 48) + (s[i + 1] - 48) == n);
    } else {
        assert(s[i] == 48 + n / 100);
        assert(s[i + 1] == 48 + (n / 10) % 10);
        assert(s[i + 2] == 48 + n % 10);
        assert((n / 10) % 10 == (n % 100) / 10) by (nonlinear_arith);
        assert(100 * (n / 100) + 10 * ((n / 10) % 10) + n % 10 == n);
    }
}

/// Reading a number accepts only the canonical digits of its value.
proof fn lemma_parse_num_canonical(s: Seq<u8>, i: int)
    requires
        parse_num_at(s, i) is Some,
    ensures
        ({
            let (v, j) = parse_num_at(s, i)->Some_0;
            &&& 0 <= i < j <= s.len()
            &&& j - i == dec_digits(v).len()
            &&& s.subrange(i, j) == dec_digits(v)
        }),
{
    let (v, j) = parse_num_at(s, i)->Some_0;
    if i + 1 < s.len() && is_digit(s[i + 1]) {
        if i + 2 < s.len() && is_digit(s[i + 2]) {
            let d0 = s[i] - 48;
            let d1 = s[i + 1] - 48;
            let d2 = s[i + 2] - 48;
            assert(1 <= d0 && d0 <= 9);
            assert(v == 100 * d0 + 10 * d1 + d2);
            assert(100 <= v && v <= 255);
            assert(v / 100 == d0 && (v / 10) % 10 == d1 && v % 10 == d2) by (nonlinear_arith)
                requires
                    v == 100 * d0 + 10 * d1 + d2,
                    1 <= d0 && d0 <= 9,
                    0 <= d1 && d1 <= 9,
                    0 <= d2 && d2 <= 9,
            ;
            assert(s.subrange(i, j) =~= dec_digits(v));
        } else {
            let d0 = s[i] - 48;
            let d1 = s[i + 1] - 48;
            assert(1 <= d0 && d0 <= 9);
            assert(v == 10 * d0 + d1);
            assert(10 <= v && v <= 99);
            assert(v / 10 == d0 && v % 10 == d1);
            assert(s.subrange(i, j) =~= dec_digits(v));
        }
    } else {
        assert(v == s[i] - 48);
        assert(s.subrange(i, j) =~= dec_digits(v));
    }
}

/// Reading a list from a position where the rendering of `code` stands,
/// followed directly by a closing bracket, yields exactly `code` and the
/// bracket's position.
proof fn lemma_parse_items_of_encoding(s: Seq<u8>, i: int, code: Seq<u8>)
    requires
        code.len() >= 1,
        0 <= i,
        i + items_bytes(code).len() < s.len(),
        s.subrange(i, i + items_bytes(code).len()) == items_bytes(code),
        s[i + items_bytes(code).len()] == 93,
    ensures
        parse_items_ws(s, i) == Some((code, i + items_bytes(code).len())),
    decreases code.len(),
{
    let items = items_bytes(code);
    let e = i + items.len();
    let d = dec_digits(code[0]);
    let l = d.len() as int;
    lemma_dec_digits_shape(code[0]);
    let body = s.subrange(i, e);
    assert forall|k: int| 0 <= k < items.len() implies s[i + k] == items[k] by {
        assert(body[k] == items[k]);
    }
    if code.len() == 1 {
        assert(items == d);
        assert(s.subrange(i, i + l) =~= d) by {
            assert(forall|k: int| 0 <= k < l ==> #[trigger] body[k] == d[k]);
        }
        assert(!is_digit(93));
        lemma_parse_num_of_digits(s, i, code[0]);
        assert(parse_num_at(s, i) == Some((code[0], e)));
        assert(!is_ws(s[e]));
        assert(skip_ws(s, e) == e);
        assert(parse_items_ws(s, i) == Some((seq![code[0]], e)));
        assert(seq![code[0]] =~= code);
    } else {
        let rest = code.drop_first();
        let tail = items_bytes(rest);
        assert(items == d + seq![44u8] + tail);
        assert(items.len() == l + 1 + tail.len());
        assert(s.subrange(i, i + l) =~= d) by {
            assert(forall|k: int| 0 <= k < l ==> #[trigger] body[k] == (d + seq![44u8] + tail)[k]);
        }
        assert(body[l] == (d + seq![44u8] + tail)[l]);
        assert((d + seq![44u8] + tail)[l] == 44);
        assert(s[i + l] == 44);
        assert(!is_digit(44));
        lemma_parse_num_of_digits(s, i, code[0]);
        assert(parse_num_at(s, i) == Some((code[0], i + l)));
        assert(!is_ws(44));
        assert(skip_ws(s, i + l) == i + l);
        assert forall|k: int| 0 <= k < tail.len() implies s.subrange(i + l + 1, e)[k] == tail[k] by {
            assert(s.subrange(i + l + 1, e)[k] == s[i + l + 1 + k]);
            assert(body[l + 1 + k] == s[i + (l + 1 + k)]);
            assert(i + (l + 1 + k) == i + l + 1 + k);
            assert(body[l + 1 + k] == (d + seq![44u8] + tail)[l + 1 + k]);
            assert((d + seq![44u8] + tail)[l + 1 + k] == tail[k]);
        }
        assert(s.subrange(i + l + 1, e) =~= tail);
        lemma_dec_digits_shape(rest[0]);
        assert(tail.len() >= 1);
        assert(s[i + l + 1] == tail[0]) by {
            assert(s.subrange(i + l + 1, e)[0] == s[i + l + 1 + 0]);
        }
        assert(items_bytes(rest)[0] == dec_digits(rest[0])[0]) by {
            if rest.len() == 1 {
            } else {
                assert(tail == dec_digits(rest[0]) + seq![44u8] + items_bytes(rest.drop_first()));
                assert(tail[0] == dec_digits(rest[0])[0]);
            }
        }
        assert(is_digit(s[i + l + 1]));
        assert(!is_ws(s[i + l + 1]));
        assert(skip_ws(s, i + l + 1) == i + l + 1);
        lemma_parse_items_of_encoding(s, i + l + 1, rest);
        assert(parse_items_ws(s, i) == Some((seq![code[0]] + rest, e)));
        assert(seq![code[0]] + rest =~= code);
    }
}

/// On a document without whitespace, reading a list accepts only the
/// canonical rendering of its value, closed by the bracket it reports.
proof fn lemma_parse_items_canonical(s: Seq<u8>, i: int)
    requires
        0 <= i <= s.len(),
        forall|k: int| 0 <= k < s.len() ==> !is_ws(#[trigger] s[k]),
        parse_items_ws(s, i) is Some,
    ensures
        ({
            let (code, e) = parse_items_ws(s, i)->Some_0;
            &&& code.len() >= 1
            &&& i < e < s.len()
            &&& s[e] == 93
            &&& s.subrange(i, e) == items_bytes(code)
        }),
    decreases s.len() - i,
{
    let (code, e) = parse_items_ws(s, i)->Some_0;
    let (v, j) = parse_num_at(s, i)->Some_0;
    lemma_parse_num_canonical(s, i);
    lemma_skip_ws_bounds(s, j);
    let k = skip_ws(s, j);
    assert(k == j) by {
        if j < s.len() {
            assert(!is_ws(s[j]));
        }
    }
    if k < s.len() && s[k] == 93 {
        assert(code == seq![v]);
        assert(e == j);
        assert(items_bytes(code) == dec_digits(v));
        assert(s.subrange(i, e) == dec_digits(v));
    } else {
        let m = skip_ws(s, k + 1);
        lemma_skip_ws_bounds(s, k + 1);
        assert(m == k + 1) by {
            if k + 1 < s.len() {
                assert(!is_ws(s[k + 1]));
            }
        }
        let rest = parse_items_ws(s, m)->Some_0;
        lemma_parse_items_canonical(s, m);
        assert(code == seq![v] + rest.0);
        assert(e == rest.1);
        assert(code.len() >= 2);
        assert(code[0] == v);
        assert(code.drop_first() =~= rest.0);
        assert(items_bytes(code) == dec_digits(v) + seq![44u8] + items_bytes(rest.0));
        assert(s.subrange(i, e) =~= s.subrange(i, j) + seq![s[j]] + s.subrange(j + 1, e));
        assert(s.subrange(i, e) =~= dec_digits(v) + seq![44u8] + items_bytes(rest.0));
    }
}

/// Law: decoding the serialized form of any byte sequence yields exactly
/// that sequence.
pub proof fn lemma_round_trip(code: Seq<u8>)
    ensures
        spec_decode(encoded_bytes(code)) == Some(code),
{
    let data = encoded_bytes(code);
    let items = items_bytes(code);
    let e = 9 + items.len() as int;
    assert(data.len() == 11 + items.len());
    assert(data.subrange(0, 9) =~= doc_open());
    assert forall|k: int| 0 <= k < 9 implies data[k] == doc_open()[k] by {
        assert(data.subrange(0, 9)[k] == data[k]);
    }
    assert(data.subrange(9, e) =~= items);
    assert forall|k: int| 0 <= k < items.len() implies data[9 + k] == items[k] by {
        assert(data.subrange(9, e)[k] == data[9 + k]);
    }
    assert(data.subrange(e, data.len() as int) =~= doc_close());
    assert(data[e] == 93 && data[e + 1] == 125) by {
        assert(data.subrange(e, data.len() as int)[0] == data[e]);
        assert(data.subrange(e, data.len() as int)[1] == data[e + 1]);
    }
    assert(skip_ws(data, 0) == 0);
    assert(data[0] == 123);
    assert(skip_ws(data, 1) == 1);
    assert(data.subrange(1, 7) =~= key_bytes()) by {
        assert(forall|k: int| 0 <= k < 9 ==> #[trigger] data[k] == doc_open()[k]);
        assert(forall|k: int|
            0 <= k < 6 ==> #[trigger] data.subrange(1, 7)[k] == data[1 + k]);
    }
    assert(skip_ws(data, 7) == 7);
    assert(data[7] == 58);
    assert(skip_ws(data, 8) == 8);
    assert(data[8] == 91);
    if code.len() == 0 {
        assert(items.len() == 0);
        assert(data[9] == 93);
        assert(skip_ws(data, 9) == 9);
        assert(data[10] == 125);
        assert(skip_ws(data, 10) == 10);
        assert(skip_ws(data, 11) == 11);
        assert(close_ok(data, 10));
        assert(spec_decode(data) == Some(Seq::<u8>::empty()));
        assert(code =~= Seq::<u8>::empty());
    } else {
        lemma_dec_digits_shape(code[0]);
        assert(items[0] == dec_digits(code[0])[0]) by {
            if code.len() == 1 {
            } else {
                assert(items == dec_digits(code[0]) + seq![44u8] + items_bytes(code.drop_first()));
                assert(items[0] == dec_digits(code[0])[0]);
            }
        }
        assert(is_digit(data[9]));
        assert(!is_ws(data[9]));
        assert(skip_ws(data, 9) == 9);
        lemma_parse_items_of_encoding(data, 9, code);
        assert(parse_items_ws(data, 9) == Some((code, e)));
        assert(data[e + 1] == 125);
        assert(!is_ws(data[e + 1]));
        assert(skip_ws(data, e + 1) == e + 1);
        assert(skip_ws(data, e + 2) == e + 2);
        assert(close_ok(data, e + 1));
    }
}

/// Law: the compact form is canonical. A document without whitespace that
/// decodes at all is exactly the serialized form of what it decodes to;
/// with whitespace allowed, the writer's output is the unique
/// whitespace-free document for its bytes.
pub proof fn lemma_decode_canonical(data: Seq<u8>, code: Seq<u8>)
    requires
        spec_decode(data) == Some(code),
        forall|k: int| 0 <= k < data.len() ==> !is_ws(#[trigger] data[k]),
    ensures
        data == encoded_bytes(code),
{
    assert forall|j: int| 0 <= j <= data.len() implies skip_ws(data, j) == j by {
        if j < data.len() {
            assert(!is_ws(data[j]));
        }
    }
    assert(data[0] == 123);
    assert(data.subrange(1, 7) == key_bytes());
    assert forall|k: int| 0 <= k < 6 implies data[1 + k] == key_bytes()[k] by {
        assert(data.subrange(1, 7)[k] == data[1 + k]);
    }
    assert(data[7] == 58);
    assert(data[8] == 91);
    if 9 < data.len() && data[9] == 93 {
        assert(close_ok(data, 10));
        assert(data[10] == 125);
        assert(data.len() == 11);
        assert(code =~= Seq::<u8>::empty());
        assert(items_bytes(code) == Seq::<u8>::empty());
        assert(data =~= encoded_bytes(code));
    } else {
        let ce = parse_items_ws(data, 9)->Some_0;
        lemma_parse_items_canonical(data, 9);
        let e = ce.1;
        assert(code == ce.0);
        assert(data[e] == 93);
        assert(close_ok(data, e + 1));
        assert(data[e + 1] == 125);
        assert(data.len() == e + 2);
        assert(data.subrange(9, e) == items_bytes(code));
        assert(data =~= encoded_bytes(code));
    }
}

} // verus!

//! The deployment-code container: an immutable byte sequence of verifier
//! bytecode, with a canonical serialized form (see `codec`).

use crate::codec;
use vstd::prelude::*;

verus! {

/// Textual representation of verifier contract source; carried as plain text,
/// never interpreted here.
pub type YulCode = String;

/// Container for deployable verifier bytecode: a dumb carrier of octets.
#[derive(Clone, Debug)]
pub struct DeploymentCode {
    pub(crate) code: Vec<u8>,
}

impl View for DeploymentCode {
    type V = Seq<u8>;

    closed spec fn view(&self) -> Seq<u8> {
        self.code@
    }
}

/// The container's view is the view of its byte vector.
pub(crate) proof fn lemma_view_is_code(c: &DeploymentCode)
    ensures
        c@ == c.code@,
{
}

/// Law: the container reports length zero exactly when its emptiness check
/// holds; `len` and `is_empty` both answer from the same byte sequence.
pub proof fn lemma_len_zero_iff_empty(c: &DeploymentCode, len: usize, empty: bool)
    requires
        len == c@.len(),
        empty == (c@.len() == 0),
    ensures
        empty <==> (len == 0),
{
}

impl DeploymentCode {
    /// Build a container that takes ownership of the given bytes.
    pub fn new(code: Vec<u8>) -> (r: Self)
        ensures
            r@ == code@,
    {
        DeploymentCode { code }
    }

    /// Number of octets held.
    pub fn len(&self) -> (r: usize)
        ensures
            r == self@.len(),
    {
        self.code.len()
    }

    /// Whether no octets are held.
    pub fn is_empty(&self) -> (r: bool)
        ensures
            r == (self@.len() == 0),
    {
        self.code.len() == 0
    }

    /// Read-only view of the held octets; the container keeps ownership.
    pub fn code(&self) -> (r: &Vec<u8>)
        ensures
            r@ == self@,
    {
        &self.code
    }

    /// Serialize the container to its canonical textual document.
    pub fn to_json(&self) -> (r: Vec<u8>)
        ensures
            r@ == codec::encoded_bytes(self@),
    {
        let mut out: Vec<u8> = Vec::new();
        out.push(123);
        out.push(34);
        out.push(99);
        out.push(111);
        out.push(100);
        out.push(101);
        out.push(34);
        out.push(58);
        out.push(91);
        proof {
            assert(out@ =~= codec::doc_open());
        }
        let n = self.code.len();
        let mut i: usize = 0;
        while i < n
            invariant
                i <= n,
                n == self.code@.len(),
                out@ == codec::doc_open() + codec::items_bytes(self.code@.take(i as int)),
            decreases n - i,
        {
            if i > 0 {
                out.push(44);
            }
            codec::push_dec(&mut out, self.code[i]);
            proof {
                codec::lemma_items_bytes_push(self.code@.take(i as int), self.code@[i as int]);
                assert(self.code@.take(i as int).push(self.code@[i as int]) =~= self.code@.take(
                    i as int + 1,
                ));
                assert(out@ =~= codec::doc_open() + codec::items_bytes(
                    self.code@.take(i as int + 1),
                ));
            }
            i += 1;
        }
        out.push(93);
        out.push(125);
        proof {
            assert(self.code@.take(n as int) =~= self.code@);
            assert(out@ =~= codec::encoded_bytes(self@));
        }
        out
    }

    /// Decode a serialized document into a container; `None` when the content
    /// does not match the expected serialization shape. Whitespace between
    /// the document's tokens is insignificant.
    pub fn from_json(data: &[u8]) -> (r: Option<DeploymentCode>)
        ensures
            match r {
                Some(c) => codec::spec_decode(data@) == Some(c@),
                None => codec::spec_decode(data@) is None,
            },
    {
        let n = data.len();
        let i0: usize = codec::skip_ws_exec(data, 0);
        if i0 == n || data[i0] != 123 {
            return None;
        }
        let i1: usize = codec::skip_ws_exec(data, i0 + 1);
        if n - i1 < 6 {
            return None;
        }
        if data[i1] != 34 || data[i1 + 1] != 99 || data[i1 + 2] != 111 || data[i1 + 3] != 100
            || data[i1 + 4] != 101 || data[i1 + 5] != 34 {
            proof {
                if codec::spec_decode(data@) is Some {
                    assert(data@.subrange(i1 as int, i1 as int + 6) == codec::key_bytes());
                    assert(data@.subrange(i1 as int, i1 as int + 6)[0] == data@[i1 as int]);
                    assert(data@.subrange(i1 as int, i1 as int + 6)[1] == data@[i1 as int + 1]);
                    assert(data@.subrange(i1 as int, i1 as int + 6)[2] == data@[i1 as int + 2]);
                    assert(data@.subrange(i1 as int, i1 as int + 6)[3] == data@[i1 as int + 3]);
                    assert(data@.subrange(i1 as int, i1 as int + 6)[4] == data@[i1 as int + 4]);
                    assert(data@.subrange(i1 as int, i1 as int + 6)[5] == data@[i1 as int + 5]);
                    assert(false);
                }
            }
            return None;
        }
        proof {
            assert(data@.subrange(i1 as int, i1 as int + 6) =~= codec::key_bytes());
        }
        let i2: usize = codec::skip_ws_exec(data, i1 + 6);
        if i2 == n || data[i2] != 58 {
            return None;
        }
        let i3: usize = codec::skip_ws_exec(data, i2 + 1);
        if i3 == n || data[i3] != 91 {
            return None;
        }
        let mut i: usize = codec::skip_ws_exec(data, i3 + 1);
        let ghost i4 = i as int;
        let mut out: Vec<u8> = Vec::new();
        if i == n {
            proof {
                assert(codec::parse_num_at(data@, i4) is None);
                assert(codec::parse_items_ws(data@, i4) is None);
            }
            return None;
        }
        if data[i] == 93 {
            i = i + 1;
            proof {
                assert(out@ =~= Seq::<u8>::empty());
                assert(codec::spec_decode(data@) == (if codec::close_ok(data@, i as int) {
                    Some(out@)
                } else {
                    None::<Seq<u8>>
                }));
            }
        } else {
            proof {
                if codec::parse_items_ws(data@, i4) is Some {
                    let ce = codec::parse_items_ws(data@, i4)->Some_0;
                    assert(out@ + ce.0 =~= ce.0);
                }
            }
            loop
                invariant_except_break
                    0 <= i4 <= i as int,
                    i < n,
                    n == data@.len(),
                    codec::spec_decode(data@) == (match codec::parse_items_ws(data@, i4) {
                        None => None::<Seq<u8>>,
                        Some(ce) => if codec::close_ok(data@, ce.1 + 1) {
                            Some(ce.0)
                        } else {
                            None::<Seq<u8>>
                        },
                    }),
                    match codec::parse_items_ws(data@, i as int) {
                        Some(ce) => codec::parse_items_ws(data@, i4) == Some((out@ + ce.0, ce.1)),
                        None => codec::parse_items_ws(data@, i4) is None,
                    },
                ensures
                    i as int <= n,
                    codec::spec_decode(data@) == (if codec::close_ok(data@, i as int) {
                        Some(out@)
                    } else {
                        None::<Seq<u8>>
                    }),
                decreases n - i,
            {
                let ghost pos = i as int;
                let b0 = data[i];
                if b0 < 48 || b0 > 57 {
                    proof {
                        assert(codec::parse_num_at(data@, pos) is None);
                        assert(codec::parse_items_ws(data@, pos) is None);
                    }
                    return None;
                }
                let mut v: u16 = (b0 - 48) as u16;
                let mut j: usize = i + 1;
                if j < n && 48 <= data[j] && data[j] <= 57 {
                    if b0 == 48 {
                        proof {
                            assert(codec::parse_num_at(data@, pos) is None);
                            assert(codec::parse_items_ws(data@, pos) is None);
                        }
                        return None;
                    }
                    v = v * 10 + (data[j] - 48) as u16;
                    j = j + 1;
                    if j < n && 48 <= data[j] && data[j] <= 57 {
                        v = v * 10 + (data[j] - 48) as u16;
                        j = j + 1;
                        if j < n && 48 <= data[j] && data[j] <= 57 {
                            proof {
                                assert(codec::parse_num_at(data@, pos) is None);
                                assert(codec::parse_items_ws(data@, pos) is None);
                            }
                            return None;
                        }
                    }
                }
                if v > 255 {
                    proof {
                        assert(codec::parse_num_at(data@, pos) is None);
                        assert(codec::parse_items_ws(data@, pos) is None);
                    }
                    return None;
                }
                let val = v as u8;
                proof {
                    assert(codec::parse_num_at(data@, pos) == Some((val, j as int)));
                }
                let ghost prev = out@;
                out.push(val);
                let k: usize = codec::skip_ws_exec(data, j);
                if k == n {
                    proof {
                        assert(codec::parse_items_ws(data@, pos) is None);
                    }
                    return None;
                }
                if data[k] == 93 {
                    proof {
                        assert(codec::parse_items_ws(data@, pos) == Some((seq![val], k as int)));
                        assert(out@ =~= prev + seq![val]);
                        assert(codec::parse_items_ws(data@, i4) == Some((out@, k as int)));
                    }
                    i = k + 1;
                    break;
                }
                if data[k] != 44 {
                    proof {
                        assert(codec::parse_items_ws(data@, pos) is None);
                    }
                    return None;
                }
                i = codec::skip_ws_exec(data, k + 1);
                if i == n {
                    proof {
                        assert(codec::parse_num_at(data@, i as int) is None);
                        assert(codec::parse_items_ws(data@, i as int) is None);
                        assert(codec::parse_items_ws(data@, pos) is None);
                    }
                    return None;
                }
                proof {
                    if codec::parse_items_ws(data@, i as int) is Some {
                        let rest = codec::parse_items_ws(data@, i as int)->Some_0;
                        assert(codec::parse_items_ws(data@, pos) == Some((
                            seq![val] + rest.0,
                            rest.1,
                        )));
                        assert(out@ + rest.0 =~= prev + (seq![val] + rest.0));
                    } else {
                        assert(codec::parse_items_ws(data@, pos) is None);
                    }
                }
            }
        }
        let c1: usize = codec::skip_ws_exec(data, i);
        if c1 == n || data[c1] != 125 {
            return None;
        }
        let c2: usize = codec::skip_ws_exec(data, c1 + 1);
        if c2 != n {
            return None;
        }
        Some(DeploymentCode { code: out })
    }
}

} // verus!

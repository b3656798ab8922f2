//! The header TLV decoder.
//!
//! A headers segment is a run of triples: a 1-byte name length, the UTF-8
//! name, a 1-byte value type, then type-dependent value bytes. Decoding stops
//! silently at a short read (the triples seen so far are kept), and fails hard
//! on an unknown value type or an invalid UTF-8 name. Duplicate names are
//! last-wins.

use vstd::prelude::*;
use crate::bytesx::{be16_at, be32_at, be64_at, read_be16, read_be32, read_be64, vec_range};
use crate::error::ParseError;
use crate::strenc::{hex_of, utf8_decode, utf8_lossy, hex_encode, utf8_to_string, utf8_lossy_string};

verus! {

/// A decoded header value: boolean, signed 64-bit integer, or string
/// (UTF-8 text, or the hex rendering of a byte-string or UUID).
pub enum HeaderValue {
    Bool(bool),
    Int(i64),
    Str(String),
}

/// Mathematical view of a header value.
pub ghost enum HVal {
    Bool(bool),
    Int(int),
    Str(Seq<char>),
}

pub open spec fn hv_view(v: HeaderValue) -> HVal {
    match v {
        HeaderValue::Bool(b) => HVal::Bool(b),
        HeaderValue::Int(i) => HVal::Int(i as int),
        HeaderValue::Str(s) => HVal::Str(s@),
    }
}

/// View of a header mapping: each (name, value) pair abstracted.
pub open spec fn headers_view(h: Seq<(String, HeaderValue)>) -> Seq<(Seq<char>, HVal)> {
    h.map_values(|p: (String, HeaderValue)| (p.0@, hv_view(p.1)))
}

/// Two's-complement reading of an unsigned byte.
pub open spec fn sgn8(u: u8) -> int {
    if u < 0x80 {
        u as int
    } else {
        u as int - 0x100
    }
}

pub open spec fn sgn16(u: u16) -> int {
    if u < 0x8000 {
        u as int
    } else {
        u as int - 0x1_0000
    }
}

pub open spec fn sgn32(u: u32) -> int {
    if u < 0x8000_0000 {
        u as int
    } else {
        u as int - 0x1_0000_0000
    }
}

pub open spec fn sgn64(u: u64) -> int {
    if u < 0x8000_0000_0000_0000 {
        u as int
    } else {
        u as int - 0x1_0000_0000_0000_0000
    }
}

/// Outcome of decoding one value field from the bytes after the type tag:
/// unknown tag, short read, or a value plus the bytes it consumed.
pub ghost enum ValStep {
    Bad,
    Short,
    Val(HVal, nat),
}

/// Decodes one TLV value of type `t` from `rest` (the bytes following the
/// type tag).
pub open spec fn decode_value(t: u8, rest: Seq<u8>) -> ValStep {
    if t == 0 {
        ValStep::Val(HVal::Bool(true), 0)
    } else if t == 1 {
        ValStep::Val(HVal::Bool(false), 0)
    } else if t == 2 {
        if rest.len() < 1 {
            ValStep::Short
        } else {
            ValStep::Val(HVal::Int(sgn8(rest[0])), 1)
        }
    } else if t == 3 {
        if rest.len() < 2 {
            ValStep::Short
        } else {
            ValStep::Val(HVal::Int(sgn16(be16_at(rest, 0))), 2)
        }
    } else if t == 4 {
        if rest.len() < 4 {
            ValStep::Short
        } else {
            ValStep::Val(HVal::Int(sgn32(be32_at(rest, 0))), 4)
        }
    } else if t == 5 || t == 8 {
        if rest.len() < 8 {
            ValStep::Short
        } else {
            ValStep::Val(HVal::Int(sgn64(be64_at(rest, 0))), 8)
        }
    } else if t == 6 {
        if rest.len() < 2 {
            ValStep::Short
        } else {
            let vl = be16_at(rest, 0) as int;
            if 2 + vl > rest.len() {
                ValStep::Short
            } else {
                ValStep::Val(HVal::Str(hex_of(rest.subrange(2, 2 + vl))), (2 + vl) as nat)
            }
        }
    } else if t == 7 {
        if rest.len() < 2 {
            ValStep::Short
        } else {
            let vl = be16_at(rest, 0) as int;
            if 2 + vl > rest.len() {
                ValStep::Short
            } else {
                ValStep::Val(HVal::Str(utf8_lossy(rest.subrange(2, 2 + vl))), (2 + vl) as nat)
            }
        }
    } else if t == 9 {
        if rest.len() < 16 {
            ValStep::Short
        } else {
            ValStep::Val(HVal::Str(hex_of(rest.subrange(0, 16))), 16)
        }
    } else {
        ValStep::Bad
    }
}

/// Outcome of decoding a whole headers segment: the triples in order, or the
/// first hard error met.
pub ghost enum TriplesResult {
    Triples(Seq<(Seq<char>, HVal)>),
    BadType(u8),
    BadName,
}

/// Decodes the triples of a headers segment, in order. A short read (not
/// enough bytes for the declared field) ends the run; an unknown type tag or
/// an invalid UTF-8 name is a hard error.
pub open spec fn decode_triples(d: Seq<u8>) -> TriplesResult
    decreases d.len(),
{
    if d.len() == 0 {
        TriplesResult::Triples(Seq::empty())
    } else {
        let nl = d[0] as int;
        if 1 + nl > d.len() {
            TriplesResult::Triples(Seq::empty())
        } else {
            match utf8_decode(d.subrange(1, 1 + nl)) {
                Option::None => TriplesResult::BadName,
                Option::Some(name) => {
                    if 1 + nl == d.len() {
                        TriplesResult::Triples(Seq::empty())
                    } else {
                        let t = d[1 + nl];
                        match decode_value(t, d.skip(2 + nl)) {
                            ValStep::Bad => TriplesResult::BadType(t),
                            ValStep::Short => TriplesResult::Triples(Seq::empty()),
                            ValStep::Val(v, c) => {
                                if 2 + nl + c > d.len() {
                                    TriplesResult::Triples(Seq::empty())
                                } else {
                                    match decode_triples(d.skip(2 + nl + c)) {
                                        TriplesResult::Triples(ts) => TriplesResult::Triples(
                                            seq![(name, v)] + ts,
                                        ),
                                        e => e,
                                    }
                                }
                            },
                        }
                    }
                }
            }
        }
    }
}

/// Index of the first pair in `m` whose name is `k`, or -1.
pub open spec fn key_index(m: Seq<(Seq<char>, HVal)>, k: Seq<char>) -> int
    decreases m.len(),
{
    if m.len() == 0 {
        -1
    } else if m[0].0 == k {
        0
    } else {
        let r = key_index(m.skip(1), k);
        if r < 0 {
            -1
        } else {
            1 + r
        }
    }
}

/// Last-wins insertion: replace the value of an existing name in place, else
/// append the pair.
pub open spec fn upsert(m: Seq<(Seq<char>, HVal)>, k: Seq<char>, v: HVal) -> Seq<
    (Seq<char>, HVal),
> {
    let i = key_index(m, k);
    if i < 0 {
        m.push((k, v))
    } else {
        m.update(i, (k, v))
    }
}

/// The mapping that a run of triples builds, applying last-wins in order.
pub open spec fn assoc_of(ts: Seq<(Seq<char>, HVal)>) -> Seq<(Seq<char>, HVal)>
    decreases ts.len(),
{
    if ts.len() == 0 {
        Seq::empty()
    } else {
        upsert(assoc_of(ts.drop_last()), ts.last().0, ts.last().1)
    }
}

/// The value bound to name `k` in a mapping, if any.
pub open spec fn lookup(m: Seq<(Seq<char>, HVal)>, k: Seq<char>) -> Option<HVal> {
    let i = key_index(m, k);
    if i < 0 {
        Option::None
    } else {
        Option::Some(m[i].1)
    }
}

/// What `key_index` finds: the first pair with name `k`, if one exists.
pub proof fn lemma_key_index(m: Seq<(Seq<char>, HVal)>, k: Seq<char>)
    ensures
        key_index(m, k) < 0 ==> forall|j: int| 0 <= j < m.len() ==> m[j].0 != k,
        key_index(m, k) >= 0 ==> key_index(m, k) < m.len() && m[key_index(m, k)].0 == k && (forall|
            j: int,
        | 0 <= j < key_index(m, k) ==> m[j].0 != k),
    decreases m.len(),
{
    if m.len() > 0 && m[0].0 != k {
        lemma_key_index(m.skip(1), k);
        assert forall|j: int| 1 <= j < m.len() implies m[j] == m.skip(1)[j - 1] by {}
    }
}

fn i64_from_u8_signed(b: u8) -> (r: i64)
    ensures
        r as int == sgn8(b),
{
    if b >= 0x80 {
        (b as i64) - 0x100
    } else {
        b as i64
    }
}

fn i64_from_u16_signed(u: u16) -> (r: i64)
    ensures
        r as int == sgn16(u),
{
    if u >= 0x8000 {
        (u as i64) - 0x1_0000
    } else {
        u as i64
    }
}

fn i64_from_u32_signed(u: u32) -> (r: i64)
    ensures
        r as int == sgn32(u),
{
    if u >= 0x8000_0000 {
        (u as i64) - 0x1_0000_0000
    } else {
        u as i64
    }
}

fn i64_from_u64_signed(u: u64) -> (r: i64)
    ensures
        r as int == sgn64(u),
{
    if u >= 0x8000_0000_0000_0000 {
        let mag: u64 = u - 0x8000_0000_0000_0000;
        i64::MIN + (mag as i64)
    } else {
        u as i64
    }
}

/// Inserts `(name, val)` into the mapping, replacing the value of an equal
/// name in place (last-wins).
fn upsert_headers(h: &mut Vec<(String, HeaderValue)>, name: String, val: HeaderValue)
    ensures
        headers_view(final(h)@) == upsert(headers_view(old(h)@), name@, hv_view(val)),
{
    proof {
        lemma_key_index(headers_view(h@), name@);
    }
    let mut j: usize = 0;
    let len: usize = h.len();
    while j < len
        invariant
            j <= len,
            len == h@.len(),
            h@ == old(h)@,
            forall|k: int| 0 <= k < j ==> headers_view(h@)[k].0 != name@,
        decreases len - j,
    {
        if h[j].0 == name {
            assert(headers_view(h@)[j as int].0 == name@);
            assert(key_index(headers_view(h@), name@) == j) by {
                lemma_key_index(headers_view(h@), name@);
            }
            h.set(j, (name, val));
            assert(headers_view(h@) =~= upsert(headers_view(old(h)@), name@, hv_view(val)));
            return ;
        }
        assert(headers_view(h@)[j as int].0 != name@);
        j = j + 1;
    }
    assert(key_index(headers_view(h@), name@) < 0) by {
        lemma_key_index(headers_view(h@), name@);
        if key_index(headers_view(h@), name@) >= 0 {
            assert(headers_view(h@)[key_index(headers_view(h@), name@)].0 == name@);
        }
    }
    h.push((name, val));
    assert(headers_view(h@) =~= upsert(headers_view(old(h)@), name@, hv_view(val)));
}

/// Decodes one TLV value of type `t` starting at `vstart`, following
/// `decode_value` on the byte tail: `Ok(Some(..))` is a value and its size,
/// `Ok(None)` a short read, `Err` an unknown type tag.
fn read_value(data: &Vec<u8>, vstart: usize, t: u8) -> (r: Result<
    Option<(HeaderValue, usize)>,
    ParseError,
>)
    requires
        vstart <= data@.len(),
    ensures
        (match r {
            Ok(decoded) => (match decoded {
                Option::Some(p) => decode_value(t, data@.skip(vstart as int)) == ValStep::Val(
                    hv_view(p.0),
                    p.1 as nat,
                ) && vstart + p.1 <= data@.len(),
                Option::None => decode_value(t, data@.skip(vstart as int)) is Short,
            }),
            Err(e) => e == ParseError::InvalidHeaderType(t) && decode_value(
                t,
                data@.skip(vstart as int),
            ) is Bad,
        }),
{
    let len: usize = data.len();
    let avail: usize = len - vstart;
    let ghost rest = data@.skip(vstart as int);
    if t == 0 {
        Ok(Some((HeaderValue::Bool(true), 0)))
    } else if t == 1 {
        Ok(Some((HeaderValue::Bool(false), 0)))
    } else if t == 2 {
        if avail < 1 {
            Ok(None)
        } else {
            proof {
                assert(rest[0] == data@[vstart as int]);
            }
            Ok(Some((HeaderValue::Int(i64_from_u8_signed(data[vstart])), 1)))
        }
    } else if t == 3 {
        if avail < 2 {
            Ok(None)
        } else {
            proof {
                assert(rest[0] == data@[vstart as int] && rest[1] == data@[vstart as int + 1]);
            }
            Ok(Some((HeaderValue::Int(i64_from_u16_signed(read_be16(data, vstart))), 2)))
        }
    } else if t == 4 {
        if avail < 4 {
            Ok(None)
        } else {
            proof {
                assert(forall|j: int| 0 <= j < 4 ==> rest[j] == data@[vstart as int + j]);
            }
            Ok(Some((HeaderValue::Int(i64_from_u32_signed(read_be32(data, vstart))), 4)))
        }
    } else if t == 5 || t == 8 {
        if avail < 8 {
            Ok(None)
        } else {
            proof {
                assert(forall|j: int| 0 <= j < 8 ==> rest[j] == data@[vstart as int + j]);
            }
            Ok(Some((HeaderValue::Int(i64_from_u64_signed(read_be64(data, vstart))), 8)))
        }
    } else if t == 6 || t == 7 {
        if avail < 2 {
            Ok(None)
        } else {
            proof {
                assert(rest[0] == data@[vstart as int] && rest[1] == data@[vstart as int + 1]);
            }
            let vl: usize = read_be16(data, vstart) as usize;
            if 2 + vl > avail {
                Ok(None)
            } else {
                let raw = vec_range(data, vstart + 2, vstart + 2 + vl);
                proof {
                    assert(raw@ =~= rest.subrange(2, 2 + vl as int));
                }
                if t == 7 {
                    Ok(Some((HeaderValue::Str(utf8_lossy_string(&raw)), 2 + vl)))
                } else {
                    Ok(Some((HeaderValue::Str(hex_encode(&raw)), 2 + vl)))
                }
            }
        }
    } else if t == 9 {
        if avail < 16 {
            Ok(None)
        } else {
            let raw = vec_range(data, vstart, vstart + 16);
            proof {
                assert(raw@ =~= rest.subrange(0, 16));
            }
            Ok(Some((HeaderValue::Str(hex_encode(&raw)), 16)))
        }
    } else {
        Err(ParseError::InvalidHeaderType(t))
    }
}

/// Decodes a headers segment into its mapping.
///
/// Succeeds with the last-wins mapping of the decoded triples when the walk
/// ends cleanly or at a short read; fails on an unknown value type or an
/// invalid UTF-8 name, exactly as `decode_triples` says.
#[verifier::rlimit(100)]
pub fn parse_headers(data: &Vec<u8>) -> (r: Result<Vec<(String, HeaderValue)>, ParseError>)
    ensures
        (match r {
            Ok(h) => decode_triples(data@) matches TriplesResult::Triples(ts) && headers_view(h@)
                == assoc_of(ts),
            Err(e) => (match e {
                ParseError::InvalidHeaderType(t) => decode_triples(data@)
                    == TriplesResult::BadType(t),
                ParseError::Utf8Error => decode_triples(data@) == TriplesResult::BadName,
                _ => false,
            }),
        }),
{
    let mut headers: Vec<(String, HeaderValue)> = Vec::new();
    let mut offset: usize = 0;
    let len: usize = data.len();
    let ghost d = data@;
    let ghost mut acc: Seq<(Seq<char>, HVal)> = Seq::empty();
    let mut done = false;
    proof {
        assert(d.skip(0) =~= d);
        match decode_triples(d) {
            TriplesResult::Triples(ts) => {
                assert(acc + ts =~= ts);
            },
            _ => {},
        }
    }
    while !done
        invariant
            offset <= len,
            len == d.len(),
            data@ == d,
            headers_view(headers@) == assoc_of(acc),
            (match decode_triples(d.skip(offset as int)) {
                TriplesResult::Triples(ts) => decode_triples(d) == TriplesResult::Triples(acc + ts),
                e => decode_triples(d) == e,
            }),
            done ==> decode_triples(d.skip(offset as int)) == TriplesResult::Triples(
                Seq::<(Seq<char>, HVal)>::empty(),
            ),
        decreases (if done {
            0int
        } else {
            1int
        }) + len - offset,
    {
        let ghost tail = d.skip(offset as int);
        if offset >= len {
            proof {
                assert(tail.len() == 0);
            }
            done = true;
        } else {
            let nl: usize = data[offset] as usize;
            proof {
                assert(tail[0] == d[offset as int]);
            }
            if nl > len - offset - 1 {
                proof {
                    assert(1 + nl > tail.len());
                }
                done = true;
            } else {
                let name_bytes = vec_range(data, offset + 1, offset + 1 + nl);
                proof {
                    assert(name_bytes@ =~= tail.subrange(1, 1 + nl as int));
                }
                match utf8_to_string(name_bytes) {
                    Option::None => {
                        return Err(ParseError::Utf8Error);
                    },
                    Option::Some(name) => {
                        if nl == len - offset - 1 {
                            done = true;
                        } else {
                            let t: u8 = data[offset + 1 + nl];
                            let vstart: usize = offset + 2 + nl;
                            let ghost rest = d.skip(vstart as int);
                            proof {
                                assert(tail[1 + nl as int] == d[offset + 1 + nl as int]);
                                assert(rest =~= tail.skip(2 + nl as int));
                            }
                            let step = read_value(data, vstart, t);
                            let decoded: Option<(HeaderValue, usize)> = match step {
                                Ok(decoded) => decoded,
                                Err(e) => {
                                    return Err(e);
                                },
                            };
                            match decoded {
                                Option::None => {
                                    proof {
                                        assert(decode_value(t, rest) is Short);
                                    }
                                    done = true;
                                },
                                Option::Some((val, consumed)) => {
                                    proof {
                                        assert(decode_value(t, rest) == ValStep::Val(
                                            hv_view(val),
                                            consumed as nat,
                                        ));
                                        assert(tail.skip(2 + nl as int + consumed as int) =~= d.skip(
                                            offset as int + 2 + nl as int + consumed as int,
                                        ));
                                    }
                                    let ghost name_v = utf8_decode(
                                        tail.subrange(1, 1 + nl as int),
                                    )->0;
                                    let ghost trip = (name_v, hv_view(val));
                                    upsert_headers(&mut headers, name, val);
                                    proof {
                                        assert(assoc_of(acc.push(trip)) == upsert(
                                            assoc_of(acc.push(trip).drop_last()),
                                            trip.0,
                                            trip.1,
                                        ));
                                        assert(acc.push(trip).drop_last() =~= acc);
                                        acc = acc.push(trip);
                                        assert(headers_view(headers@) == assoc_of(acc));
                                    }
                                    offset = vstart + consumed;
                                    proof {
                                        let ts2 = decode_triples(d.skip(offset as int));
                                        match ts2 {
                                            TriplesResult::Triples(ts) => {
                                                assert(decode_triples(tail)
                                                    == TriplesResult::Triples(
                                                    seq![trip] + ts,
                                                ));
                                                assert(acc =~= acc.drop_last().push(trip));
                                                assert(acc.drop_last() + (seq![trip] + ts) =~= acc
                                                    + ts);
                                            },
                                            _ => {
                                                assert(decode_triples(tail) == ts2);
                                            },
                                        }
                                    }
                                },
                            }
                        }
                    },
                }
            }
        }
    }
    proof {
        assert(decode_triples(d) == TriplesResult::Triples(acc + Seq::empty()));
        assert(acc + Seq::<(Seq<char>, HVal)>::empty() =~= acc);
    }
    Ok(headers)
}

} // verus!

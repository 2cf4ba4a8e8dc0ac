//! The compact binary form of a break list, as stored beside each record.
//!
//! The list is a protobuf message with one repeated field (number 1) holding
//! one message per break; a break carries `start_ts` as field 1 and `end_ts`
//! as field 2, both `int64`, and a field equal to zero is left out. Encoding
//! is canonical, and decoding accepts exactly the canonical encodings: any
//! other input decodes to the empty list. This is stricter than a general
//! protobuf reader on purpose: a varint with redundant high bytes, a field
//! written out with the value zero, or an unknown field is taken as a
//! damaged blob rather than read, so that every list has one stored form.
use vstd::prelude::*;

use crate::state::Break;

verus! {

/// The base-128 varint form of `v`: seven bits per byte, low bits first, the
/// high bit set on every byte but the last.
pub open spec fn varint(v: nat) -> Seq<u8>
    decreases v,
{
    if v < 128 {
        seq![v as u8]
    } else {
        seq![(v % 128 + 128) as u8] + varint(v / 128)
    }
}

/// An `i64` as the `u64` that holds the same bits.
pub open spec fn bits_of(x: i64) -> nat {
    if x >= 0 {
        x as nat
    } else {
        (x + 0x1_0000_0000_0000_0000) as nat
    }
}

/// A field with key byte `key` holding `x`; absent where `x` is zero.
pub open spec fn field(key: u8, x: i64) -> Seq<u8> {
    if x == 0 {
        Seq::empty()
    } else {
        seq![key] + varint(bits_of(x))
    }
}

pub open spec fn break_body(b: Break) -> Seq<u8> {
    field(0x08, b.start_ts) + field(0x10, b.end_ts)
}

/// One break as an element of the repeated field: key, length, body.
pub open spec fn break_record(b: Break) -> Seq<u8> {
    seq![0x0Au8] + varint(break_body(b).len()) + break_body(b)
}

/// The encoding of a whole break list.
pub open spec fn encoding(bs: Seq<Break>) -> Seq<u8>
    decreases bs.len(),
{
    if bs.len() == 0 {
        Seq::empty()
    } else {
        encoding(bs.drop_last()) + break_record(bs.last())
    }
}

/// `p` stands in `s` from position `pos` on.
pub open spec fn occurs_at(s: Seq<u8>, pos: int, p: Seq<u8>) -> bool {
    0 <= pos && pos + p.len() <= s.len() && s.subrange(pos, pos + p.len()) == p
}

/// Relies on prost::encoding::encode_varint: it appends the base-128 varint
/// form of `v` to the buffer.
#[verifier::external_body]
fn put_varint(v: u64, buf: &mut Vec<u8>)
    ensures
        final(buf)@ == old(buf)@ + varint(v as nat),
{
    prost::encoding::encode_varint(v, buf)
}

proof fn lemma_varint_nonempty(v: nat)
    ensures
        varint(v).len() >= 1,
        v < 128 <==> varint(v).len() == 1,
        varint(v)[0] == (if v < 128 { v } else { v % 128 + 128 }),
    decreases v,
{
    if v >= 128 {
        lemma_varint_nonempty(v / 128);
    }
}

pub open spec fn pow128(k: nat) -> nat
    decreases k,
{
    if k == 0 {
        1
    } else {
        128 * pow128((k - 1) as nat)
    }
}

proof fn lemma_varint_len(v: nat, k: nat)
    requires
        v < pow128(k),
        k >= 1,
    ensures
        varint(v).len() <= k,
    decreases k,
{
    if v >= 128 {
        assert(varint(v).len() == 1 + varint(v / 128).len());
        if k == 1 {
            assert(pow128(0) == 1);
            assert(pow128(1) == 128);
        }
        assert(v / 128 < pow128((k - 1) as nat)) by (nonlinear_arith)
            requires
                v < 128 * pow128((k - 1) as nat),
        ;
        lemma_varint_len(v / 128, (k - 1) as nat);
    }
}

/// A `u64` takes at most ten bytes.
proof fn lemma_varint_u64(v: u64)
    ensures
        varint(v as nat).len() <= 10,
{
    reveal_with_fuel(pow128, 11);
    assert(pow128(10) == 0x40_0000_0000_0000_0000nat);
    lemma_varint_len(v as nat, 10);
}

proof fn lemma_tail_occurs(s: Seq<u8>, pos: int, v: nat)
    requires
        occurs_at(s, pos, varint(v)),
        v >= 128,
    ensures
        occurs_at(s, pos + 1, varint(v / 128)),
{
    let t = varint(v / 128);
    assert(varint(v) == seq![(v % 128 + 128) as u8] + t);
    assert forall|i: int| 0 <= i < t.len() implies s.subrange(pos + 1, pos + 1 + t.len())[i]
        == t[i] by {
        assert(s.subrange(pos, pos + varint(v).len())[i + 1] == varint(v)[i + 1]);
    }
    assert(s.subrange(pos + 1, pos + 1 + t.len()) =~= t);
}

/// Reads the varint at `pos`, taking at most `depth` bytes. Gives the value
/// and the position after it.
fn read_varint(data: &[u8], pos: usize, depth: usize) -> (r: Option<(u64, usize)>)
    ensures
        match r {
            Some((v, next)) => pos < next <= data@.len() && data@.subrange(pos as int, next as int)
                == varint(v as nat),
            None => true,
        },
        forall|v: u64|
            #[trigger] occurs_at(data@, pos as int, varint(v as nat)) && varint(v as nat).len()
                <= depth ==> r == Some((v, (pos + varint(v as nat).len()) as usize)),
    decreases depth,
{
    if pos >= data.len() || depth == 0 {
        proof {
            assert forall|v: u64| #[trigger]
                occurs_at(data@, pos as int, varint(v as nat)) && varint(v as nat).len()
                    <= depth implies false by {
                lemma_varint_nonempty(v as nat);
            }
        }
        return None;
    }
    let b = data[pos];
    if b < 128 {
        proof {
            assert(data@.subrange(pos as int, pos + 1) =~= seq![b]);
            assert forall|v: u64| #[trigger]
                occurs_at(data@, pos as int, varint(v as nat)) && varint(v as nat).len()
                    <= depth implies v == b && varint(v as nat).len() == 1 by {
                lemma_varint_nonempty(v as nat);
                assert(data@[pos as int] == varint(v as nat)[0]);
            }
        }
        return Some((b as u64, pos + 1));
    }
    let low: u64 = (b - 128) as u64;
    match read_varint(data, pos + 1, depth - 1) {
        None => {
            proof {
                assert forall|v: u64| #[trigger]
                    occurs_at(data@, pos as int, varint(v as nat)) && varint(v as nat).len()
                        <= depth implies false by {
                    lemma_varint_nonempty(v as nat);
                    assert(data@[pos as int] == varint(v as nat)[0]);
                    let w = (v / 128) as u64;
                    assert(varint(v as nat) == seq![(v % 128 + 128) as u8] + varint(w as nat));
                    lemma_tail_occurs(data@, pos as int, v as nat);
                    assert(occurs_at(data@, pos + 1, varint(w as nat)));
                }
            }
            None
        },
        Some((w, next)) => {
            if w == 0 || w > (u64::MAX - low) / 128 {
                proof {
                    assert forall|v: u64| #[trigger]
                        occurs_at(data@, pos as int, varint(v as nat)) && varint(v as nat).len()
                            <= depth implies false by {
                        lemma_varint_nonempty(v as nat);
                        assert(data@[pos as int] == varint(v as nat)[0]);
                        let w2 = (v / 128) as u64;
                        assert(varint(v as nat) == seq![(v % 128 + 128) as u8] + varint(
                            w2 as nat,
                        ));
                        lemma_tail_occurs(data@, pos as int, v as nat);
                        assert(occurs_at(data@, pos + 1, varint(w2 as nat)));
                        assert(w == w2);
                        assert(v % 128 == low);
                        assert(v == w2 * 128 + low) by (nonlinear_arith)
                            requires
                                w2 == v / 128,
                                low == v % 128,
                        ;
                        assert(w2 <= (u64::MAX - low) / 128) by (nonlinear_arith)
                            requires
                                w2 * 128 + low <= u64::MAX,
                                low < 128,
                        ;
                    }
                }
                return None;
            }
            let v: u64 = w * 128 + low;
            proof {
                assert(w * 128 + low <= u64::MAX) by (nonlinear_arith)
                    requires
                        w <= (u64::MAX - low) / 128,
                        low < 128,
                ;
                assert(v / 128 == w && v % 128 == low) by (nonlinear_arith)
                    requires
                        v == w * 128 + low,
                        low < 128,
                ;
                assert(data@.subrange(pos as int, next as int) =~= seq![b] + data@.subrange(
                    pos + 1,
                    next as int,
                ));
                assert forall|u: u64| #[trigger]
                    occurs_at(data@, pos as int, varint(u as nat)) && varint(u as nat).len()
                        <= depth implies u == v && pos + varint(u as nat).len() == next by {
                    lemma_varint_nonempty(u as nat);
                    assert(data@[pos as int] == varint(u as nat)[0]);
                    let w2 = (u / 128) as u64;
                    assert(varint(u as nat) == seq![(u % 128 + 128) as u8] + varint(w2 as nat));
                    lemma_tail_occurs(data@, pos as int, u as nat);
                    assert(occurs_at(data@, pos + 1, varint(w2 as nat)));
                    assert(u == w2 * 128 + u % 128) by (nonlinear_arith)
                        requires
                            w2 == u / 128,
                    ;
                }
            }
            Some((v, next))
        },
    }
}

fn bits(x: i64) -> (r: u64)
    ensures
        r as nat == bits_of(x),
{
    if x >= 0 {
        x as u64
    } else {
        (x as i128 + 0x1_0000_0000_0000_0000i128) as u64
    }
}

fn from_bits(v: u64) -> (r: i64)
    ensures
        bits_of(r) == v as nat,
{
    if v <= i64::MAX as u64 {
        v as i64
    } else {
        (v as i128 - 0x1_0000_0000_0000_0000i128) as i64
    }
}

fn put_field(key: u8, x: i64, buf: &mut Vec<u8>)
    ensures
        final(buf)@ == old(buf)@ + field(key, x),
{
    if x != 0 {
        buf.push(key);
        put_varint(bits(x), buf);
        assert(final(buf)@ =~= old(buf)@ + field(key, x));
    } else {
        assert(buf@ =~= old(buf)@ + field(key, x));
    }
}

proof fn lemma_field_len(key: u8, x: i64)
    ensures
        field(key, x).len() <= 11,
{
    if x != 0 {
        lemma_varint_u64(bits_of(x) as u64);
    }
}

/// The canonical encoding of a break list.
pub fn encode_breaks(breaks: &[Break]) -> (r: Vec<u8>)
    ensures
        r@ == encoding(breaks@),
{
    let mut out: Vec<u8> = Vec::new();
    let mut i: usize = 0;
    while i < breaks.len()
        invariant
            0 <= i <= breaks@.len(),
            out@ == encoding(breaks@.take(i as int)),
        decreases breaks@.len() - i,
    {
        let b = breaks[i];
        let mut body: Vec<u8> = Vec::new();
        put_field(0x08, b.start_ts, &mut body);
        put_field(0x10, b.end_ts, &mut body);
        proof {
            lemma_field_len(0x08, b.start_ts);
            lemma_field_len(0x10, b.end_ts);
            assert(body@ =~= break_body(b));
        }
        let ghost before = out@;
        out.push(0x0A);
        put_varint(body.len() as u64, &mut out);
        out.append(&mut body);
        proof {
            assert(breaks@.take(i + 1).drop_last() =~= breaks@.take(i as int));
            assert(out@ =~= before + break_record(b));
        }
        i = i + 1;
    }
    assert(breaks@.take(breaks@.len() as int) =~= breaks@);
    out
}

proof fn lemma_bits_injective(x: i64, y: i64)
    requires
        bits_of(x) == bits_of(y),
    ensures
        x == y,
{
}

/// Reads the field with key byte `key` at `pos`, inside a body ending at
/// `end`; an absent field reads as zero.
fn read_field(data: &[u8], pos: usize, end: usize, key: u8) -> (r: Option<(i64, usize)>)
    requires
        pos <= end <= data@.len(),
    ensures
        match r {
            Some((x, next)) => pos <= next <= end && data@.subrange(pos as int, next as int)
                == field(key, x),
            None => true,
        },
        forall|x: i64|
            #[trigger] occurs_at(data@, pos as int, field(key, x)) && pos + field(key, x).len()
                <= end && (x != 0 || pos == end || data@[pos as int] != key) ==> r == Some(
                (x, (pos + field(key, x).len()) as usize),
            ),
{
    if pos < end && data[pos] == key {
        match read_varint(data, pos + 1, 10) {
            None => {
                proof {
                    assert forall|x: i64| #[trigger]
                        occurs_at(data@, pos as int, field(key, x)) && pos + field(key, x).len()
                            <= end && (x != 0 || pos == end || data@[pos as int] != key) implies false by {
                        lemma_varint_u64(bits_of(x) as u64);
                        lemma_key_then_varint(data@, pos as int, key, x);
                    }
                }
                None
            },
            Some((v, next)) => {
                if v == 0 || next > end {
                    proof {
                        assert forall|x: i64| #[trigger]
                            occurs_at(data@, pos as int, field(key, x)) && pos + field(key, x).len()
                                <= end && (x != 0 || pos == end || data@[pos as int] != key) implies false by {
                            lemma_varint_u64(bits_of(x) as u64);
                            lemma_key_then_varint(data@, pos as int, key, x);
                        }
                    }
                    return None;
                }
                let x = from_bits(v);
                proof {
                    assert(data@.subrange(pos as int, next as int) =~= seq![key] + data@.subrange(
                        pos + 1,
                        next as int,
                    ));
                    assert forall|y: i64| #[trigger]
                        occurs_at(data@, pos as int, field(key, y)) && pos + field(key, y).len()
                            <= end && (y != 0 || pos == end || data@[pos as int] != key) implies y
                        == x && pos + field(key, y).len() == next by {
                        lemma_varint_u64(bits_of(y) as u64);
                        lemma_key_then_varint(data@, pos as int, key, y);
                        lemma_bits_injective(x, y);
                    }
                }
                Some((x, next))
            },
        }
    } else {
        proof {
            assert(data@.subrange(pos as int, pos as int) =~= field(key, 0));
            assert forall|y: i64| #[trigger]
                occurs_at(data@, pos as int, field(key, y)) && pos + field(key, y).len() <= end && (y
                    != 0 || pos == end || data@[pos as int] != key) implies y == 0 by {
                if y != 0 {
                    assert(data@[pos as int] == data@.subrange(pos as int, pos + field(key, y).len())[0]);
                }
            }
        }
        Some((0, pos))
    }
}

proof fn lemma_key_then_varint(s: Seq<u8>, pos: int, key: u8, x: i64)
    requires
        occurs_at(s, pos, field(key, x)),
        x != 0,
    ensures
        occurs_at(s, pos + 1, varint(bits_of(x))),
        s[pos] == key,
{
    let f = field(key, x);
    let t = varint(bits_of(x));
    assert(s[pos] == s.subrange(pos, pos + f.len())[0]);
    assert forall|i: int| 0 <= i < t.len() implies s.subrange(pos + 1, pos + 1 + t.len())[i]
        == t[i] by {
        assert(s.subrange(pos, pos + f.len())[i + 1] == f[i + 1]);
    }
    assert(s.subrange(pos + 1, pos + 1 + t.len()) =~= t);
}

proof fn lemma_occurs_split(s: Seq<u8>, pos: int, a: Seq<u8>, b: Seq<u8>)
    requires
        occurs_at(s, pos, a + b),
    ensures
        occurs_at(s, pos, a),
        occurs_at(s, pos + a.len(), b),
{
    let ab = a + b;
    assert forall|i: int| 0 <= i < a.len() implies s.subrange(pos, pos + a.len())[i] == a[i] by {
        assert(s.subrange(pos, pos + ab.len())[i] == ab[i]);
    }
    assert(s.subrange(pos, pos + a.len()) =~= a);
    assert forall|i: int| 0 <= i < b.len() implies s.subrange(
        pos + a.len(),
        pos + a.len() + b.len(),
    )[i] == b[i] by {
        assert(s.subrange(pos, pos + ab.len())[a.len() + i] == ab[a.len() + i]);
    }
    assert(s.subrange(pos + a.len(), pos + a.len() + b.len()) =~= b);
}

proof fn lemma_body_len(b: Break)
    ensures
        break_body(b).len() <= 22,
{
    lemma_field_len(0x08, b.start_ts);
    lemma_field_len(0x10, b.end_ts);
}

/// Reads one break record at `pos`. Gives the break and the position after it.
#[verifier::rlimit(40)]
fn parse_break(data: &[u8], pos: usize) -> (r: Option<(Break, usize)>)
    ensures
        match r {
            Some((b, next)) => pos < next <= data@.len() && data@.subrange(pos as int, next as int)
                == break_record(b),
            None => true,
        },
        forall|b: Break| #[trigger]
            occurs_at(data@, pos as int, break_record(b)) ==> r == Some(
                (b, (pos + break_record(b).len()) as usize),
            ),
{
    if pos >= data.len() || data[pos] != 0x0A {
        proof {
            assert forall|b: Break| #[trigger] occurs_at(data@, pos as int, break_record(b)) implies false by {
                assert(data@[pos as int] == data@.subrange(pos as int, pos + break_record(b).len())[0]);
            }
        }
        return None;
    }
    let read = read_varint(data, pos + 1, 10);
    proof {
        assert forall|b: Break| #[trigger] occurs_at(data@, pos as int, break_record(b)) implies {
            let l = break_body(b).len();
            &&& read == Some((l as u64, (pos + 1 + varint(l).len()) as usize))
            &&& occurs_at(data@, pos + 1 + varint(l).len(), break_body(b))
        } by {
            let l = break_body(b).len();
            lemma_body_len(b);
            lemma_varint_u64(l as u64);
            assert(break_record(b) == seq![0x0Au8] + varint(l) + break_body(b));
            lemma_occurs_split(data@, pos as int, seq![0x0Au8] + varint(l), break_body(b));
            lemma_occurs_split(data@, pos as int, seq![0x0Au8], varint(l));
        }
    }
    let (len, p1) = match read {
        None => { return None; },
        Some(x) => x,
    };
    if len > (data.len() - p1) as u64 {
        return None;
    }
    let end: usize = p1 + len as usize;
    let f1 = read_field(data, p1, end, 0x08);
    proof {
        assert forall|c: Break| #[trigger] occurs_at(data@, pos as int, break_record(c)) implies
            f1 == Some((c.start_ts, (p1 + field(0x08, c.start_ts).len()) as usize)) && occurs_at(
            data@,
            p1 + field(0x08, c.start_ts).len(),
            field(0x10, c.end_ts),
        ) by {
            let d = data@;
            let bd = break_body(c);
            assert(occurs_at(d, p1 as int, bd));
            lemma_occurs_split(d, p1 as int, field(0x08, c.start_ts), field(0x10, c.end_ts));
            if c.start_ts == 0 && p1 < end {
                assert(d[p1 as int] == d.subrange(p1 as int, p1 + field(0x10, c.end_ts).len())[0]);
            }
        }
    }
    let (start_ts, q1) = match f1 {
        None => { return None; },
        Some(x) => x,
    };
    let f2 = read_field(data, q1, end, 0x10);
    proof {
        assert forall|c: Break| #[trigger] occurs_at(data@, pos as int, break_record(c)) implies f2
            == Some((c.end_ts, end)) by {
            assert(q1 + field(0x10, c.end_ts).len() == end);
        }
    }
    let (end_ts, q2) = match f2 {
        None => { return None; },
        Some(x) => x,
    };
    if q2 != end {
        return None;
    }
    let b = Break { start_ts, end_ts };
    proof {
        let d = data@;
        assert(d.subrange(p1 as int, end as int) =~= d.subrange(p1 as int, q1 as int) + d.subrange(q1 as int, q2 as int));
        assert(d.subrange(p1 as int, end as int) == break_body(b));
        assert(d.subrange(pos as int, end as int) =~= seq![0x0Au8] + d.subrange(pos + 1, p1 as int) + d.subrange(p1 as int, end as int));
        assert forall|c: Break| #[trigger] occurs_at(data@, pos as int, break_record(c)) implies c == b && pos + break_record(c).len() == end by {
            let l = break_body(c).len();
            let bd = break_body(c);
            assert(len == l && p1 == pos + 1 + varint(l).len());
            assert(occurs_at(d, p1 as int, bd));
            assert(bd == field(0x08, c.start_ts) + field(0x10, c.end_ts));
            lemma_occurs_split(d, p1 as int, field(0x08, c.start_ts), field(0x10, c.end_ts));
            if c.start_ts == 0 && p1 < end {
                if c.end_ts == 0 {
                    assert(false);
                }
                assert(d[p1 as int] == d.subrange(p1 as int, p1 + field(0x10, c.end_ts).len())[0]);
            }
            assert(start_ts == c.start_ts);
            if c.end_ts == 0 {
                assert(q1 == end);
            }
            assert(end_ts == c.end_ts);
        }
    }
    Some((b, end))
}

proof fn lemma_encoding_append(a: Seq<Break>, b: Seq<Break>)
    ensures
        encoding(a + b) == encoding(a) + encoding(b),
    decreases b.len(),
{
    if b.len() == 0 {
        assert(a + b =~= a);
        assert(encoding(a) + encoding(b) =~= encoding(a));
    } else {
        lemma_encoding_append(a, b.drop_last());
        assert((a + b).drop_last() =~= a + b.drop_last());
        assert((a + b).last() == b.last());
        assert(encoding(a + b) =~= encoding(a) + encoding(b));
    }
}

/// Splits an encoding around its `k`-th record.
proof fn lemma_encoding_at(bs: Seq<Break>, k: int)
    requires
        0 <= k < bs.len(),
    ensures
        occurs_at(encoding(bs), encoding(bs.take(k)).len() as int, break_record(bs[k])),
        encoding(bs.take(k + 1)) == encoding(bs.take(k)) + break_record(bs[k]),
        encoding(bs.take(k)).len() < encoding(bs).len(),
{
    let e = encoding(bs);
    let pre = encoding(bs.take(k));
    let rec = break_record(bs[k]);
    assert(bs.take(k + 1).drop_last() =~= bs.take(k));
    assert(bs =~= bs.take(k + 1) + bs.skip(k + 1));
    lemma_encoding_append(bs.take(k + 1), bs.skip(k + 1));
    assert(e == pre + rec + encoding(bs.skip(k + 1)));
    assert(e.subrange(pre.len() as int, pre.len() + rec.len() as int) =~= rec);
}

/// What decoding `data` gives: the list that `data` encodes, where there is
/// one, and the empty list where there is none.
pub open spec fn decodes_to(data: Seq<u8>, r: Seq<Break>) -> bool {
    &&& encoding(r) == data || r.len() == 0
    &&& forall|bs: Seq<Break>| #[trigger] encoding(bs) == data ==> r == bs
}

/// Decodes a break list. A canonical encoding gives back the list it
/// encodes; any other input gives the empty list.
pub fn decode_breaks(data: &[u8]) -> (r: Vec<Break>)
    ensures
        decodes_to(data@, r@),
{
    let mut r: Vec<Break> = Vec::new();
    let mut pos: usize = 0;
    while pos < data.len()
        invariant
            pos <= data@.len(),
            data@.subrange(0, pos as int) == encoding(r@),
            forall|bs: Seq<Break>| #[trigger]
                encoding(bs) == data@ ==> r@.len() <= bs.len() && r@ == bs.take(r@.len() as int),
        decreases data@.len() - pos,
    {
        let parsed = parse_break(data, pos);
        proof {
            assert forall|bs: Seq<Break>| #[trigger] encoding(bs) == data@ implies r@.len()
                < bs.len() && parsed == Some((bs[r@.len() as int], (pos + break_record(bs[r@.len() as int]).len()) as usize)) by {
                let k = r@.len() as int;
                if k == bs.len() {
                    assert(bs.take(k) =~= bs);
                }
                lemma_encoding_at(bs, k);
            }
        }
        match parsed {
            None => {
                return Vec::new();
            },
            Some((b, next)) => {
                let ghost r0 = r@;
                r.push(b);
                proof {
                    assert(r0.push(b).drop_last() =~= r0);
                    assert(data@.subrange(0, next as int) =~= data@.subrange(0, pos as int)
                        + data@.subrange(pos as int, next as int));
                    assert forall|bs: Seq<Break>| #[trigger] encoding(bs) == data@ implies r@.len()
                        <= bs.len() && r@ == bs.take(r@.len() as int) by {
                        assert(bs.take(r0.len() as int) == r0);
                        assert(bs.take(r@.len() as int) =~= r0.push(bs[r0.len() as int]));
                    }
                }
                pos = next;
            },
        }
    }
    proof {
        assert(data@.subrange(0, data@.len() as int) =~= data@);
        assert forall|bs: Seq<Break>| #[trigger] encoding(bs) == data@ implies r@ == bs by {
            let k = r@.len() as int;
            if k < bs.len() {
                lemma_encoding_at(bs, k);
            }
            assert(bs.take(bs.len() as int) =~= bs);
        }
    }
    r
}

proof fn lemma_varint_prefix(v: nat, w: nat, s1: Seq<u8>, s2: Seq<u8>)
    requires
        varint(v) + s1 == varint(w) + s2,
    ensures
        v == w,
        s1 == s2,
    decreases v,
{
    lemma_varint_nonempty(v);
    lemma_varint_nonempty(w);
    assert((varint(v) + s1)[0] == varint(v)[0]);
    assert((varint(w) + s2)[0] == varint(w)[0]);
    if v < 128 {
        assert(varint(v) + s1 =~= seq![v as u8] + s1);
        if w >= 128 {
            assert(false);
        }
        assert(varint(w) + s2 =~= seq![w as u8] + s2);
        assert(s1 =~= (varint(v) + s1).skip(1));
        assert(s2 =~= (varint(w) + s2).skip(1));
    } else {
        if w < 128 {
            assert(false);
        }
        assert(varint(v) + s1 =~= seq![(v % 128 + 128) as u8] + (varint(v / 128) + s1));
        assert(varint(w) + s2 =~= seq![(w % 128 + 128) as u8] + (varint(w / 128) + s2));
        assert(varint(v / 128) + s1 =~= (varint(v) + s1).skip(1));
        assert(varint(w / 128) + s2 =~= (varint(w) + s2).skip(1));
        lemma_varint_prefix(v / 128, w / 128, s1, s2);
        assert(v % 128 == w % 128);
        assert(v == (v / 128) * 128 + v % 128) by (nonlinear_arith);
        assert(w == (w / 128) * 128 + w % 128) by (nonlinear_arith);
    }
}

proof fn lemma_body_determines(a: Break, b: Break)
    requires
        break_body(a) == break_body(b),
    ensures
        a == b,
{
    let fa = field(0x08, a.start_ts);
    let fb = field(0x08, b.start_ts);
    let ga = field(0x10, a.end_ts);
    let gb = field(0x10, b.end_ts);
    if a.start_ts != 0 && b.start_ts != 0 {
        assert(fa + ga =~= seq![0x08u8] + (varint(bits_of(a.start_ts)) + ga));
        assert(fb + gb =~= seq![0x08u8] + (varint(bits_of(b.start_ts)) + gb));
        assert(varint(bits_of(a.start_ts)) + ga =~= (fa + ga).skip(1));
        assert(varint(bits_of(b.start_ts)) + gb =~= (fb + gb).skip(1));
        lemma_varint_prefix(bits_of(a.start_ts), bits_of(b.start_ts), ga, gb);
        lemma_bits_injective(a.start_ts, b.start_ts);
    } else if a.start_ts != 0 || b.start_ts != 0 {
        // One body begins with key 0x08, the other with 0x10 or nothing.
        if a.start_ts != 0 {
            assert((fa + ga)[0] == 0x08u8);
            if b.end_ts != 0 {
                assert((fb + gb)[0] == gb[0]);
            } else {
                assert(fb + gb =~= Seq::<u8>::empty());
            }
        } else {
            assert((fb + gb)[0] == 0x08u8);
            if a.end_ts != 0 {
                assert((fa + ga)[0] == ga[0]);
            } else {
                assert(fa + ga =~= Seq::<u8>::empty());
            }
        }
    } else {
        assert(fa + ga =~= ga);
        assert(fb + gb =~= gb);
    }
    assert(a.start_ts == b.start_ts);
    assert(fa == fb);
    assert(ga =~= (fa + ga).skip(fa.len() as int));
    assert(gb =~= (fb + gb).skip(fb.len() as int));
    if a.end_ts != 0 && b.end_ts != 0 {
        assert(ga =~= seq![0x10u8] + varint(bits_of(a.end_ts)));
        assert(gb =~= seq![0x10u8] + varint(bits_of(b.end_ts)));
        assert(varint(bits_of(a.end_ts)) + Seq::<u8>::empty() =~= ga.skip(1));
        assert(varint(bits_of(b.end_ts)) + Seq::<u8>::empty() =~= gb.skip(1));
        lemma_varint_prefix(bits_of(a.end_ts), bits_of(b.end_ts), Seq::empty(), Seq::empty());
        lemma_bits_injective(a.end_ts, b.end_ts);
    } else if a.end_ts != 0 {
        lemma_varint_nonempty(bits_of(a.end_ts));
    } else if b.end_ts != 0 {
        lemma_varint_nonempty(bits_of(b.end_ts));
    }
}

proof fn lemma_record_prefix(a: Break, b: Break, s1: Seq<u8>, s2: Seq<u8>)
    requires
        break_record(a) + s1 == break_record(b) + s2,
    ensures
        a == b,
        s1 == s2,
{
    let ba = break_body(a);
    let bb = break_body(b);
    let va = varint(ba.len());
    let vb = varint(bb.len());
    assert(break_record(a) + s1 =~= seq![0x0Au8] + (va + (ba + s1)));
    assert(break_record(b) + s2 =~= seq![0x0Au8] + (vb + (bb + s2)));
    assert(va + (ba + s1) =~= (break_record(a) + s1).skip(1));
    assert(vb + (bb + s2) =~= (break_record(b) + s2).skip(1));
    lemma_varint_prefix(ba.len(), bb.len(), ba + s1, bb + s2);
    assert(ba =~= (ba + s1).take(ba.len() as int));
    assert(bb =~= (bb + s2).take(bb.len() as int));
    assert(s1 =~= (ba + s1).skip(ba.len() as int));
    assert(s2 =~= (bb + s2).skip(bb.len() as int));
    lemma_body_determines(a, b);
}

proof fn lemma_encoding_front(bs: Seq<Break>)
    requires
        bs.len() > 0,
    ensures
        encoding(bs) == break_record(bs[0]) + encoding(bs.skip(1)),
{
    assert(bs =~= seq![bs[0]] + bs.skip(1));
    lemma_encoding_append(seq![bs[0]], bs.skip(1));
    let one = seq![bs[0]];
    assert(one.drop_last() =~= Seq::<Break>::empty());
    assert(one.last() == bs[0]);
    assert(encoding(one.drop_last()) == Seq::<u8>::empty());
    assert(encoding(one) == encoding(one.drop_last()) + break_record(bs[0]));
    assert(encoding(one) =~= break_record(bs[0]));
}

proof fn lemma_encoding_injective(a: Seq<Break>, b: Seq<Break>)
    requires
        encoding(a) == encoding(b),
    ensures
        a == b,
    decreases a.len(),
{
    if a.len() == 0 {
        if b.len() > 0 {
            lemma_encoding_front(b);
        }
        assert(a =~= b);
    } else {
        lemma_encoding_front(a);
        if b.len() == 0 {
            assert(false);
        }
        lemma_encoding_front(b);
        lemma_record_prefix(a[0], b[0], encoding(a.skip(1)), encoding(b.skip(1)));
        lemma_encoding_injective(a.skip(1), b.skip(1));
        assert(a =~= seq![a[0]] + a.skip(1));
        assert(b =~= seq![b[0]] + b.skip(1));
    }
}

/// Decoding an encoded break list gives back the same list, for any length,
/// including the empty list and a list that ends in an open break: the list
/// itself is what its encoding decodes to, and nothing else is.
pub proof fn lemma_round_trip(bs: Seq<Break>)
    ensures
        decodes_to(encoding(bs), bs),
        forall|back: Seq<Break>| #[trigger] decodes_to(encoding(bs), back) ==> back == bs,
{
    assert forall|d: Seq<Break>| #[trigger] encoding(d) == encoding(bs) implies bs == d by {
        lemma_encoding_injective(d, bs);
    }
}

} // verus!

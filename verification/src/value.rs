//! The tagged parameter value model: every argument shape an instruction
//! can carry, its mathematical view, and its self-describing encoding.

use vstd::prelude::*;
use vstd::utf8::encode_utf8;
use crate::text::{dec_chars, write_dec};
use crate::codec::{
    ParseError, ErrKind, matches_err, spec_read_u8, spec_read_u64_le, spec_read_leb_u32,
    spec_read_leb_i64, spec_leb_u32_bytes, spec_leb_i64_bytes, spec_read_string,
    spec_u64_le_bytes, write_u64_le, lemma_subrange_split, lemma_leb_u32_roundtrip_at,
    lemma_leb_i64_roundtrip_at, lemma_u64_le_roundtrip, read_u8, read_u64_le, read_leb128_u32,
    read_leb128_i64, read_string, read_byte_run, write_leb128_u32, write_leb128_i64, write_bytes,
    write_str_bytes,
};

verus! {

/// A parameter value.  Floats travel as their IEEE-754 bit patterns: the
/// codec stores and compares bits and never does float arithmetic.
/// Handles are 32-byte content references, opaque at this layer.
#[derive(Debug, PartialEq)]
pub enum Param {
    Null,
    Bool(bool),
    Int(i64),
    Float(u64),
    Text(String),
    Bytes(Vec<u8>),
    Array(Vec<Param>),
    Object(Vec<(String, Param)>),
    Handle(Vec<u8>),
    ChainPrevious,
    ChainFrom(usize),
}

/// The mathematical value of a `Param`.
pub enum PVal {
    Null,
    Bool(bool),
    Int(i64),
    Float(u64),
    Text(Seq<char>),
    Bytes(Seq<u8>),
    Array(Seq<PVal>),
    Object(Seq<(Seq<char>, PVal)>),
    Handle(Seq<u8>),
    ChainPrevious,
    ChainFrom(int),
}

pub open spec fn param_view(p: Param) -> PVal
    decreases p,
{
    match p {
        Param::Null => PVal::Null,
        Param::Bool(b) => PVal::Bool(b),
        Param::Int(i) => PVal::Int(i),
        Param::Float(bits) => PVal::Float(bits),
        Param::Text(s) => PVal::Text(s@),
        Param::Bytes(b) => PVal::Bytes(b@),
        Param::Array(items) => PVal::Array(params_view(items@)),
        Param::Object(pairs) => PVal::Object(pairs_view(pairs@)),
        Param::Handle(h) => PVal::Handle(h@),
        Param::ChainPrevious => PVal::ChainPrevious,
        Param::ChainFrom(idx) => PVal::ChainFrom(idx as int),
    }
}

pub open spec fn params_view(items: Seq<Param>) -> Seq<PVal>
    decreases items,
{
    if items.len() == 0 {
        Seq::empty()
    } else {
        params_view(items.drop_last()).push(param_view(items.last()))
    }
}

pub open spec fn pairs_view(pairs: Seq<(String, Param)>) -> Seq<(Seq<char>, PVal)>
    decreases pairs,
{
    if pairs.len() == 0 {
        Seq::empty()
    } else {
        pairs_view(pairs.drop_last()).push((pairs.last().0@, param_view(pairs.last().1)))
    }
}

/// The element-wise reading of `params_view`.
pub broadcast proof fn lemma_params_view_len(items: Seq<Param>)
    ensures
        (#[trigger] params_view(items)).len() == items.len(),
        forall|i: int|
            0 <= i < items.len() ==> params_view(items)[i] == param_view(items[i]),
    decreases items,
{
    if items.len() > 0 {
        lemma_params_view_len(items.drop_last());
    }
}

/// The element-wise reading of `pairs_view`.
pub broadcast proof fn lemma_pairs_view_len(pairs: Seq<(String, Param)>)
    ensures
        (#[trigger] pairs_view(pairs)).len() == pairs.len(),
        forall|i: int|
            0 <= i < pairs.len() ==> pairs_view(pairs)[i] == (
                pairs[i].0@,
                param_view(pairs[i].1),
            ),
    decreases pairs,
{
    if pairs.len() > 0 {
        lemma_pairs_view_len(pairs.drop_last());
    }
}

impl View for Param {
    type V = PVal;

    open spec fn view(&self) -> PVal {
        param_view(*self)
    }
}

/// A value the wire format can carry faithfully: every length fits the
/// 32-bit prefix it is written with, handles are exactly 32 bytes, and
/// object keys are distinct.
pub open spec fn wf_pval(v: PVal) -> bool
    decreases v,
{
    match v {
        PVal::Text(s) => encode_utf8(s).len() < 0x100000000,
        PVal::Bytes(b) => b.len() < 0x100000000,
        PVal::Array(items) => items.len() < 0x100000000 && wf_pvals(items),
        PVal::Object(pairs) => pairs.len() < 0x100000000 && wf_pairs(pairs) && distinct_keys(
            pairs,
        ),
        PVal::Handle(h) => h.len() == 32,
        PVal::ChainFrom(i) => 0 <= i < 0x100000000,
        _ => true,
    }
}

pub open spec fn wf_pvals(items: Seq<PVal>) -> bool
    decreases items,
{
    if items.len() == 0 {
        true
    } else {
        wf_pvals(items.drop_last()) && wf_pval(items.last())
    }
}

pub open spec fn wf_pairs(pairs: Seq<(Seq<char>, PVal)>) -> bool
    decreases pairs,
{
    if pairs.len() == 0 {
        true
    } else {
        wf_pairs(pairs.drop_last()) && encode_utf8(pairs.last().0).len() < 0x100000000 && wf_pval(
            pairs.last().1,
        )
    }
}

pub open spec fn distinct_keys(pairs: Seq<(Seq<char>, PVal)>) -> bool {
    forall|i: int, j: int|
        0 <= i < j < pairs.len() ==> (#[trigger] pairs[i]).0 != (#[trigger] pairs[j]).0
}

/// The self-describing encoding of a value: a one-byte type tag, then
/// the tag-specific payload.
pub open spec fn pval_bytes(v: PVal) -> Seq<u8>
    decreases v, 0int,
{
    match v {
        PVal::Null => seq![0u8],
        PVal::Bool(b) => seq![
            1u8,
            if b {
                1u8
            } else {
                0u8
            },
        ],
        PVal::Int(i) => seq![2u8] + spec_leb_i64_bytes(i as int),
        PVal::Float(bits) => seq![3u8] + spec_u64_le_bytes(bits),
        PVal::Text(s) => seq![4u8] + spec_leb_u32_bytes(encode_utf8(s).len() as u32) + encode_utf8(
            s,
        ),
        PVal::Bytes(b) => seq![5u8] + spec_leb_u32_bytes(b.len() as u32) + b,
        PVal::Array(items) => seq![6u8] + spec_leb_u32_bytes(items.len() as u32) + pvals_bytes(
            items,
        ),
        PVal::Object(pairs) => seq![7u8] + spec_leb_u32_bytes(pairs.len() as u32) + pair_list_bytes(
            pairs,
        ),
        PVal::Handle(h) => seq![8u8] + h,
        PVal::ChainPrevious => seq![9u8],
        PVal::ChainFrom(i) => seq![10u8] + spec_leb_u32_bytes(i as u32),
    }
}

pub open spec fn pvals_bytes(items: Seq<PVal>) -> Seq<u8>
    decreases items, 0int,
{
    if items.len() == 0 {
        Seq::empty()
    } else {
        pvals_bytes(items.drop_last()) + pval_bytes(items.last())
    }
}

/// One `name, value` pair: a length-prefixed UTF-8 name, then the value.
pub open spec fn pair_bytes(key: Seq<char>, v: PVal) -> Seq<u8>
    decreases v, 1int,
{
    spec_leb_u32_bytes(encode_utf8(key).len() as u32) + encode_utf8(key) + pval_bytes(v)
}

pub open spec fn pair_list_bytes(pairs: Seq<(Seq<char>, PVal)>) -> Seq<u8>
    decreases pairs, 0int,
{
    if pairs.len() == 0 {
        Seq::empty()
    } else {
        pair_list_bytes(pairs.drop_last()) + pair_bytes(pairs.last().0, pairs.last().1)
    }
}

/// The first position holding `key`, or -1.
pub open spec fn pairs_find(pairs: Seq<(Seq<char>, PVal)>, key: Seq<char>) -> int
    decreases pairs.len(),
{
    if pairs.len() == 0 {
        -1
    } else if pairs[0].0 == key {
        0
    } else {
        let r = pairs_find(pairs.drop_first(), key);
        if r == -1 {
            -1
        } else {
            r + 1
        }
    }
}

/// Map-style insertion: a repeated name replaces the value in place, a
/// new name is appended.
pub open spec fn pairs_insert(
    pairs: Seq<(Seq<char>, PVal)>,
    key: Seq<char>,
    v: PVal,
) -> Seq<(Seq<char>, PVal)> {
    let i = pairs_find(pairs, key);
    if i == -1 {
        pairs.push((key, v))
    } else {
        pairs.update(i, (key, v))
    }
}

/// Decode one value at the cursor.
pub open spec fn spec_read_pval(d: Seq<u8>, pos: int) -> Result<(PVal, int), ErrKind>
    decreases d.len() - pos, 0int, 2int,
{
    match spec_read_u8(d, pos) {
        Err(k) => Err(k),
        Ok((tag, p1)) => {
            if tag == 0 {
                Ok((PVal::Null, p1))
            } else if tag == 1 {
                match spec_read_u8(d, p1) {
                    Err(k) => Err(k),
                    Ok((b, p2)) => Ok((PVal::Bool(b != 0), p2)),
                }
            } else if tag == 2 {
                match spec_read_leb_i64(d, p1) {
                    Err(k) => Err(k),
                    Ok((i, p2)) => Ok((PVal::Int(i), p2)),
                }
            } else if tag == 3 {
                match spec_read_u64_le(d, p1) {
                    Err(k) => Err(k),
                    Ok((bits, p2)) => Ok((PVal::Float(bits), p2)),
                }
            } else if tag == 4 {
                match spec_read_leb_u32(d, p1) {
                    Err(k) => Err(k),
                    Ok((len, p2)) => match spec_read_string(d, p2, len as int) {
                        Err(k) => Err(k),
                        Ok((s, p3)) => Ok((PVal::Text(s), p3)),
                    },
                }
            } else if tag == 5 {
                match spec_read_leb_u32(d, p1) {
                    Err(k) => Err(k),
                    Ok((len, p2)) => {
                        if p2 + len <= d.len() {
                            Ok((PVal::Bytes(d.subrange(p2, p2 + len)), p2 + len))
                        } else {
                            Err(ErrKind::Eof)
                        }
                    },
                }
            } else if tag == 6 {
                match spec_read_leb_u32(d, p1) {
                    Err(k) => Err(k),
                    Ok((len, p2)) => {
                        if p2 <= pos || p2 > d.len() {
                            Err(ErrKind::Malformed(Seq::empty()))
                        } else {
                            match spec_read_pvals(d, p2, len, Seq::empty()) {
                                Err(k) => Err(k),
                                Ok((items, p3)) => Ok((PVal::Array(items), p3)),
                            }
                        }
                    },
                }
            } else if tag == 7 {
                match spec_read_leb_u32(d, p1) {
                    Err(k) => Err(k),
                    Ok((len, p2)) => {
                        if p2 <= pos || p2 > d.len() {
                            Err(ErrKind::Malformed(Seq::empty()))
                        } else {
                            match spec_read_pairs(d, p2, len, Seq::empty()) {
                                Err(k) => Err(k),
                                Ok((pairs, p3)) => Ok((PVal::Object(pairs), p3)),
                            }
                        }
                    },
                }
            } else if tag == 8 {
                if p1 + 32 <= d.len() {
                    Ok((PVal::Handle(d.subrange(p1, p1 + 32)), p1 + 32))
                } else {
                    Err(ErrKind::Eof)
                }
            } else if tag == 9 {
                Ok((PVal::ChainPrevious, p1))
            } else if tag == 10 {
                match spec_read_leb_u32(d, p1) {
                    Err(k) => Err(k),
                    Ok((i, p2)) => Ok((PVal::ChainFrom(i as int), p2)),
                }
            } else {
                Err(ErrKind::Malformed(unknown_tag_chars(tag)))
            }
        },
    }
}

/// The message reported for an unrecognized type tag, the tag named.
pub open spec fn unknown_tag_chars(tag: u8) -> Seq<char> {
    "Unknown type tag: "@ + dec_chars(tag as nat)
}

/// Decode `count` values, in order.
pub open spec fn spec_read_pvals(d: Seq<u8>, pos: int, count: u32, acc: Seq<PVal>) -> Result<
    (Seq<PVal>, int),
    ErrKind,
>
    decreases d.len() - pos, count, 0int,
{
    if count == 0 {
        Ok((acc, pos))
    } else {
        match spec_read_pval(d, pos) {
            Err(k) => Err(k),
            Ok((v, p2)) => {
                if p2 <= pos || p2 > d.len() {
                    Err(ErrKind::Malformed(Seq::empty()))
                } else {
                    spec_read_pvals(d, p2, (count - 1) as u32, acc.push(v))
                }
            },
        }
    }
}

/// Decode `count` name-value pairs, inserting each map-style.
pub open spec fn spec_read_pairs(
    d: Seq<u8>,
    pos: int,
    count: u32,
    acc: Seq<(Seq<char>, PVal)>,
) -> Result<(Seq<(Seq<char>, PVal)>, int), ErrKind>
    decreases d.len() - pos, count, 1int,
{
    if count == 0 {
        Ok((acc, pos))
    } else {
        match spec_read_leb_u32(d, pos) {
            Err(k) => Err(k),
            Ok((klen, p1)) => match spec_read_string(d, p1, klen as int) {
                Err(k) => Err(k),
                Ok((key, p2)) => {
                    if p2 <= pos {
                        Err(ErrKind::Malformed(Seq::empty()))
                    } else {
                        match spec_read_pval(d, p2) {
                            Err(k) => Err(k),
                            Ok((v, p3)) => {
                                if p3 <= pos || p3 > d.len() {
                                    Err(ErrKind::Malformed(Seq::empty()))
                                } else {
                                    spec_read_pairs(d, p3, (count - 1) as u32, pairs_insert(
                                        acc, key, v,
                                    ))
                                }
                            },
                        }
                    }
                },
            },
        }
    }
}

/// Views commute with appending an element.
pub proof fn lemma_params_view_push(items: Seq<Param>, v: Param)
    ensures
        params_view(items.push(v)) == params_view(items).push(param_view(v)),
{
    assert(items.push(v).drop_last() =~= items);
    assert(items.push(v).last() == v);
}

pub proof fn lemma_pairs_view_push(pairs: Seq<(String, Param)>, kv: (String, Param))
    ensures
        pairs_view(pairs.push(kv)) == pairs_view(pairs).push((kv.0@, param_view(kv.1))),
{
    assert(pairs.push(kv).drop_last() =~= pairs);
    assert(pairs.push(kv).last() == kv);
}

/// Views commute with replacing an element.
pub proof fn lemma_pairs_view_update(pairs: Seq<(String, Param)>, j: int, kv: (String, Param))
    requires
        0 <= j < pairs.len(),
    ensures
        pairs_view(pairs.update(j, kv)) == pairs_view(pairs).update(j, (kv.0@, param_view(kv.1))),
{
    lemma_pairs_view_len(pairs.update(j, kv));
    lemma_pairs_view_len(pairs);
    assert(pairs_view(pairs.update(j, kv)) =~= pairs_view(pairs).update(
        j,
        (kv.0@, param_view(kv.1)),
    ));
}

/// What `pairs_find` returns: the first position of the key, or -1 when
/// the key is absent.
pub proof fn lemma_pairs_find(pairs: Seq<(Seq<char>, PVal)>, key: Seq<char>)
    ensures
        -1 <= pairs_find(pairs, key) < pairs.len(),
        pairs_find(pairs, key) >= 0 ==> pairs[pairs_find(pairs, key)].0 == key && (forall|k: int|
            0 <= k < pairs_find(pairs, key) ==> (#[trigger] pairs[k]).0 != key),
        pairs_find(pairs, key) == -1 ==> (forall|k: int|
            0 <= k < pairs.len() ==> (#[trigger] pairs[k]).0 != key),
    decreases pairs.len(),
{
    if pairs.len() > 0 && pairs[0].0 != key {
        let rest = pairs.drop_first();
        lemma_pairs_find(rest, key);
        assert(forall|k: int| 0 <= k < rest.len() ==> #[trigger] rest[k] == pairs[k + 1]);
        let r = pairs_find(rest, key);
        if r == -1 {
            assert forall|k: int| 0 <= k < pairs.len() implies (#[trigger] pairs[k]).0 != key by {
                if k > 0 {
                    assert(rest[k - 1] == pairs[k]);
                }
            }
        } else {
            assert(pairs[r + 1].0 == key);
            assert forall|k: int| 0 <= k < r + 1 implies (#[trigger] pairs[k]).0 != key by {
                if k > 0 {
                    assert(rest[k - 1] == pairs[k]);
                }
            }
        }
    }
}

/// Well-formedness of a list reaches every element.
pub proof fn lemma_wf_pvals_index(items: Seq<PVal>)
    requires
        wf_pvals(items),
    ensures
        forall|i: int| 0 <= i < items.len() ==> wf_pval(#[trigger] items[i]),
    decreases items.len(),
{
    if items.len() > 0 {
        lemma_wf_pvals_index(items.drop_last());
        assert forall|i: int| 0 <= i < items.len() implies wf_pval(#[trigger] items[i]) by {
            if i < items.len() - 1 {
                assert(items.drop_last()[i] == items[i]);
            } else {
                assert(items.last() == items[i]);
            }
        }
    }
}

pub proof fn lemma_wf_pairs_index(pairs: Seq<(Seq<char>, PVal)>)
    requires
        wf_pairs(pairs),
    ensures
        forall|i: int|
            0 <= i < pairs.len() ==> encode_utf8((#[trigger] pairs[i]).0).len() < 0x100000000
                && wf_pval(pairs[i].1),
    decreases pairs.len(),
{
    if pairs.len() > 0 {
        lemma_wf_pairs_index(pairs.drop_last());
        assert forall|i: int|
            0 <= i < pairs.len() implies encode_utf8((#[trigger] pairs[i]).0).len() < 0x100000000
            && wf_pval(pairs[i].1) by {
            if i < pairs.len() - 1 {
                assert(pairs.drop_last()[i] == pairs[i]);
            } else {
                assert(pairs.last() == pairs[i]);
            }
        }
    }
}

/// Encoded prefixes grow one element at a time.
pub proof fn lemma_pvals_bytes_take(items: Seq<PVal>, i: int)
    requires
        0 <= i < items.len(),
    ensures
        pvals_bytes(items.take(i + 1)) == pvals_bytes(items.take(i)) + pval_bytes(items[i]),
{
    assert(items.take(i + 1).drop_last() =~= items.take(i));
    assert(items.take(i + 1).last() == items[i]);
}

pub proof fn lemma_pair_list_bytes_take(pairs: Seq<(Seq<char>, PVal)>, i: int)
    requires
        0 <= i < pairs.len(),
    ensures
        pair_list_bytes(pairs.take(i + 1)) == pair_list_bytes(pairs.take(i)) + pair_bytes(
            pairs[i].0,
            pairs[i].1,
        ),
{
    assert(pairs.take(i + 1).drop_last() =~= pairs.take(i));
    assert(pairs.take(i + 1).last() == pairs[i]);
}

/// Insert a named value map-style: a repeated name replaces the value in
/// place, a new name is appended.
#[verifier::loop_isolation(false)]
pub fn insert_pair(pairs: &mut Vec<(String, Param)>, key: String, v: Param)
    ensures
        pairs_view(final(pairs)@) == pairs_insert(pairs_view(old(pairs)@), key@, param_view(v)),
{
    proof {
        lemma_pairs_view_len(pairs@);
        lemma_pairs_find(pairs_view(pairs@), key@);
    }
    let ghost gview = pairs_view(pairs@);
    let mut j: usize = 0;
    while j < pairs.len()
        invariant
            j <= pairs@.len(),
            pairs@ == old(pairs)@,
            gview == pairs_view(pairs@),
            gview.len() == pairs@.len(),
            forall|k: int| 0 <= k < j ==> (#[trigger] gview[k]).0 != key@,
            forall|k: int|
                0 <= k < pairs@.len() ==> #[trigger] gview[k] == (
                    pairs@[k].0@,
                    param_view(pairs@[k].1),
                ),
        decreases pairs@.len() - j,
    {
        if pairs[j].0 == key {
            proof {
                lemma_pairs_view_update(pairs@, j as int, (key, v));
                lemma_pairs_find(gview, key@);
                assert(gview[j as int].0 == key@);
                assert(pairs_find(gview, key@) == j as int);
            }
            pairs[j] = (key, v);
            assert(pairs@ == old(pairs)@.update(j as int, (key, v)));
            assert(pairs_view(pairs@) == gview.update(j as int, (key@, param_view(v))));
            return ;
        }
        j = j + 1;
    }
    proof {
        lemma_pairs_view_push(pairs@, (key, v));
        lemma_pairs_find(gview, key@);
    }
    pairs.push((key, v));
}

/// Append the wire encoding of a parameter value.
#[verifier::loop_isolation(false)]
#[verifier::rlimit(60)]
pub fn write_param(data: &mut Vec<u8>, p: &Param)
    requires
        wf_pval(param_view(*p)),
    ensures
        final(data)@ == old(data)@ + pval_bytes(param_view(*p)),
    decreases *p,
{
    match p {
        Param::Null => {
            data.push(0);
            assert(data@ =~= old(data)@ + pval_bytes(param_view(*p)));
        },
        Param::Bool(b) => {
            data.push(1);
            data.push(if *b {
                1
            } else {
                0
            });
            assert(data@ =~= old(data)@ + pval_bytes(param_view(*p)));
        },
        Param::Int(i) => {
            data.push(2);
            write_leb128_i64(data, *i);
            assert(data@ =~= old(data)@ + pval_bytes(param_view(*p)));
        },
        Param::Float(bits) => {
            data.push(3);
            write_u64_le(data, *bits);
            assert(data@ =~= old(data)@ + pval_bytes(param_view(*p)));
        },
        Param::Text(s) => {
            data.push(4);
            write_leb128_u32(data, s.as_str().len() as u32);
            write_str_bytes(data, s.as_str());
            assert(data@ =~= old(data)@ + pval_bytes(param_view(*p)));
        },
        Param::Bytes(b) => {
            data.push(5);
            write_leb128_u32(data, b.len() as u32);
            write_bytes(data, b.as_slice());
            assert(data@ =~= old(data)@ + pval_bytes(param_view(*p)));
        },
        Param::Array(items) => {
            let ghost pv = params_view(items@);
            proof {
                lemma_params_view_len(items@);
                lemma_wf_pvals_index(pv);
            }
            data.push(6);
            write_leb128_u32(data, items.len() as u32);
            let ghost prefix0 = data@;
            let mut i: usize = 0;
            while i < items.len()
                invariant
                    i <= items@.len(),
                    pv == params_view(items@),
                    pv.len() == items@.len(),
                    forall|k: int| 0 <= k < pv.len() ==> #[trigger] pv[k] == param_view(items@[k]),
                    forall|k: int| 0 <= k < pv.len() ==> wf_pval(#[trigger] pv[k]),
                    data@ == prefix0 + pvals_bytes(pv.take(i as int)),
                decreases items@.len() - i,
            {
                proof {
                    assert(pv[i as int] == param_view(items@[i as int]));
                    assert(wf_pval(pv[i as int]));
                    assert(*p is Array);
                    assert(decreases_to!(*p => (*p)->Array_0));
                    assert((*p)->Array_0 == *items);
                    assert(decreases_to!(*items => items@));
                    assert(decreases_to!(items@ => items@[i as int]));
                    assert(decreases_to!(*p => items@[i as int]));
                }
                write_param(data, &items[i]);
                proof {
                    lemma_pvals_bytes_take(pv, i as int);
                }
                i = i + 1;
            }
            proof {
                assert(pv.take(pv.len() as int) =~= pv);
            }
            assert(data@ =~= old(data)@ + pval_bytes(param_view(*p)));
        },
        Param::Object(pairs) => {
            let ghost pw = pairs_view(pairs@);
            proof {
                lemma_pairs_view_len(pairs@);
                lemma_wf_pairs_index(pw);
            }
            data.push(7);
            write_leb128_u32(data, pairs.len() as u32);
            let ghost prefix0 = data@;
            let mut i: usize = 0;
            while i < pairs.len()
                invariant
                    i <= pairs@.len(),
                    pw == pairs_view(pairs@),
                    pw.len() == pairs@.len(),
                    forall|k: int|
                        0 <= k < pw.len() ==> #[trigger] pw[k] == (
                            pairs@[k].0@,
                            param_view(pairs@[k].1),
                        ),
                    forall|k: int|
                        0 <= k < pw.len() ==> encode_utf8((#[trigger] pw[k]).0).len() < 0x100000000
                            && wf_pval(pw[k].1),
                    data@ == prefix0 + pair_list_bytes(pw.take(i as int)),
                decreases pairs@.len() - i,
            {
                proof {
                    assert(pw[i as int] == (pairs@[i as int].0@, param_view(pairs@[i as int].1)));
                    assert(encode_utf8(pw[i as int].0).len() < 0x100000000);
                    assert(wf_pval(pw[i as int].1));
                    assert(*p is Object);
                    assert(decreases_to!(*p => (*p)->Object_0));
                    assert((*p)->Object_0 == *pairs);
                    assert(decreases_to!(*pairs => pairs@));
                    assert(decreases_to!(pairs@ => pairs@[i as int]));
                    assert(decreases_to!(pairs@[i as int] => pairs@[i as int].1));
                    assert(decreases_to!(*p => pairs@[i as int].1));
                }
                write_leb128_u32(data, pairs[i].0.as_str().len() as u32);
                write_str_bytes(data, pairs[i].0.as_str());
                write_param(data, &pairs[i].1);
                proof {
                    lemma_pair_list_bytes_take(pw, i as int);
                    assert(data@ =~= prefix0 + pair_list_bytes(pw.take(i + 1)));
                }
                i = i + 1;
            }
            proof {
                assert(pw.take(pw.len() as int) =~= pw);
            }
            assert(data@ =~= old(data)@ + pval_bytes(param_view(*p)));
        },
        Param::Handle(h) => {
            data.push(8);
            write_bytes(data, h.as_slice());
            assert(data@ =~= old(data)@ + pval_bytes(param_view(*p)));
        },
        Param::ChainPrevious => {
            data.push(9);
            assert(data@ =~= old(data)@ + pval_bytes(param_view(*p)));
        },
        Param::ChainFrom(idx) => {
            data.push(10);
            write_leb128_u32(data, *idx as u32);
            assert(data@ =~= old(data)@ + pval_bytes(param_view(*p)));
        },
    }
}

/// Decode one parameter value at the cursor.
#[verifier::loop_isolation(false)]
#[verifier::rlimit(100)]
pub fn parse_param(data: &[u8], pos: usize) -> (r: Result<(Param, usize), ParseError>)
    ensures
        (match r {
            Ok((v, p)) => spec_read_pval(data@, pos as int) == Ok::<(PVal, int), ErrKind>(
                (param_view(v), p as int),
            ),
            Err(e) => spec_read_pval(data@, pos as int) matches Err(k) && matches_err(e, k),
        }),
        r matches Ok(t) ==> pos < t.1 <= data@.len(),
    decreases data@.len() - pos,
{
    let (tag, p1) = match read_u8(data, pos) {
        Ok(t) => t,
        Err(e) => {
            return Err(e);
        },
    };
    if tag == 0 {
        Ok((Param::Null, p1))
    } else if tag == 1 {
        match read_u8(data, p1) {
            Ok((b, p2)) => Ok((Param::Bool(b != 0), p2)),
            Err(e) => Err(e),
        }
    } else if tag == 2 {
        match read_leb128_i64(data, p1) {
            Ok((i, p2)) => Ok((Param::Int(i), p2)),
            Err(e) => Err(e),
        }
    } else if tag == 3 {
        match read_u64_le(data, p1) {
            Ok((bits, p2)) => Ok((Param::Float(bits), p2)),
            Err(e) => Err(e),
        }
    } else if tag == 4 {
        let (len, p2) = match read_leb128_u32(data, p1) {
            Ok(t) => t,
            Err(e) => {
                return Err(e);
            },
        };
        match read_string(data, p2, len as usize) {
            Ok((s, p3)) => Ok((Param::Text(s), p3)),
            Err(e) => Err(e),
        }
    } else if tag == 5 {
        let (len, p2) = match read_leb128_u32(data, p1) {
            Ok(t) => t,
            Err(e) => {
                return Err(e);
            },
        };
        match read_byte_run(data, p2, len as usize) {
            Ok((buf, p3)) => Ok((Param::Bytes(buf), p3)),
            Err(e) => Err(e),
        }
    } else if tag == 6 {
        let (len, p2) = match read_leb128_u32(data, p1) {
            Ok(t) => t,
            Err(e) => {
                return Err(e);
            },
        };
        let mut items: Vec<Param> = Vec::new();
        let mut cur: usize = p2;
        let mut i: u32 = 0;
        while i < len
            invariant
                i <= len,
                pos < cur <= data@.len(),
                spec_read_pvals(data@, p2 as int, len, Seq::empty()) == spec_read_pvals(
                    data@,
                    cur as int,
                    (len - i) as u32,
                    params_view(items@),
                ),
            decreases len - i,
        {
            match parse_param(data, cur) {
                Ok((v, next)) => {
                    proof {
                        lemma_params_view_push(items@, v);
                    }
                    items.push(v);
                    cur = next;
                    i = i + 1;
                },
                Err(e) => {
                    return Err(e);
                },
            }
        }
        Ok((Param::Array(items), cur))
    } else if tag == 7 {
        let (len, p2) = match read_leb128_u32(data, p1) {
            Ok(t) => t,
            Err(e) => {
                return Err(e);
            },
        };
        let mut pairs: Vec<(String, Param)> = Vec::new();
        let mut cur: usize = p2;
        let mut i: u32 = 0;
        while i < len
            invariant
                i <= len,
                pos < cur <= data@.len(),
                spec_read_pairs(data@, p2 as int, len, Seq::empty()) == spec_read_pairs(
                    data@,
                    cur as int,
                    (len - i) as u32,
                    pairs_view(pairs@),
                ),
            decreases len - i,
        {
            let (klen, q1) = match read_leb128_u32(data, cur) {
                Ok(t) => t,
                Err(e) => {
                    return Err(e);
                },
            };
            let (key, q2) = match read_string(data, q1, klen as usize) {
                Ok(t) => t,
                Err(e) => {
                    return Err(e);
                },
            };
            let (v, q3) = match parse_param(data, q2) {
                Ok(t) => t,
                Err(e) => {
                    return Err(e);
                },
            };
            insert_pair(&mut pairs, key, v);
            cur = q3;
            i = i + 1;
        }
        Ok((Param::Object(pairs), cur))
    } else if tag == 8 {
        match read_byte_run(data, p1, 32) {
            Ok((h, p2)) => Ok((Param::Handle(h), p2)),
            Err(e) => Err(e),
        }
    } else if tag == 9 {
        Ok((Param::ChainPrevious, p1))
    } else if tag == 10 {
        match read_leb128_u32(data, p1) {
            Ok((idx, p2)) => Ok((Param::ChainFrom(idx as usize), p2)),
            Err(e) => Err(e),
        }
    } else {
        let mut msg = "Unknown type tag: ".to_owned();
        write_dec(&mut msg, tag as u64);
        Err(ParseError::MalformedInstruction(msg))
    }
}


/// Encodings are never empty: every value writes at least its tag.
pub(crate) proof fn lemma_pval_bytes_nonempty(v: PVal)
    ensures
        pval_bytes(v).len() >= 1,
{
    match v {
        PVal::Null => {},
        PVal::Bool(_) => {},
        PVal::Int(_) => {},
        PVal::Float(_) => {},
        PVal::Text(_) => {},
        PVal::Bytes(_) => {},
        PVal::Array(_) => {},
        PVal::Object(_) => {},
        PVal::Handle(_) => {},
        PVal::ChainPrevious => {},
        PVal::ChainFrom(_) => {},
    }
}

/// A value list's encoding starts with its first element's encoding.
proof fn lemma_pvals_bytes_cons(items: Seq<PVal>)
    requires
        items.len() > 0,
    ensures
        pvals_bytes(items) == pval_bytes(items[0]) + pvals_bytes(items.drop_first()),
    decreases items.len(),
{
    if items.len() == 1 {
        assert(items.drop_last() =~= Seq::<PVal>::empty());
        assert(items.drop_first() =~= Seq::<PVal>::empty());
        assert(pvals_bytes(items) =~= pval_bytes(items[0]) + pvals_bytes(items.drop_first()));
    } else {
        let dl = items.drop_last();
        lemma_pvals_bytes_cons(dl);
        assert(dl[0] == items[0]);
        assert(items.drop_first().drop_last() =~= dl.drop_first());
        assert(items.drop_first().last() == items.last());
        assert(pvals_bytes(items) =~= pval_bytes(items[0]) + pvals_bytes(items.drop_first()));
    }
}

/// A pair list's encoding starts with its first pair's encoding.
pub(crate) proof fn lemma_pair_list_bytes_cons(pairs: Seq<(Seq<char>, PVal)>)
    requires
        pairs.len() > 0,
    ensures
        pair_list_bytes(pairs) == pair_bytes(pairs[0].0, pairs[0].1) + pair_list_bytes(
            pairs.drop_first(),
        ),
    decreases pairs.len(),
{
    if pairs.len() == 1 {
        assert(pairs.drop_last() =~= Seq::<(Seq<char>, PVal)>::empty());
        assert(pairs.drop_first() =~= Seq::<(Seq<char>, PVal)>::empty());
        assert(pair_list_bytes(pairs) =~= pair_bytes(pairs[0].0, pairs[0].1) + pair_list_bytes(
            pairs.drop_first(),
        ));
    } else {
        let dl = pairs.drop_last();
        lemma_pair_list_bytes_cons(dl);
        assert(dl[0] == pairs[0]);
        assert(pairs.drop_first().drop_last() =~= dl.drop_first());
        assert(pairs.drop_first().last() == pairs.last());
        assert(pair_list_bytes(pairs) =~= pair_bytes(pairs[0].0, pairs[0].1) + pair_list_bytes(
            pairs.drop_first(),
        ));
    }
}

/// Well-formedness of a list passes to its head and tail.
proof fn lemma_wf_pvals_cons(items: Seq<PVal>)
    requires
        items.len() > 0,
        wf_pvals(items),
    ensures
        wf_pval(items[0]),
        wf_pvals(items.drop_first()),
    decreases items.len(),
{
    if items.len() == 1 {
        assert(items.last() == items[0]);
        assert(items.drop_first() =~= Seq::<PVal>::empty());
    } else {
        let dl = items.drop_last();
        lemma_wf_pvals_cons(dl);
        assert(dl[0] == items[0]);
        assert(items.drop_first().drop_last() =~= dl.drop_first());
        assert(items.drop_first().last() == items.last());
    }
}

pub(crate) proof fn lemma_wf_pairs_cons(pairs: Seq<(Seq<char>, PVal)>)
    requires
        pairs.len() > 0,
        wf_pairs(pairs),
    ensures
        encode_utf8(pairs[0].0).len() < 0x100000000,
        wf_pval(pairs[0].1),
        wf_pairs(pairs.drop_first()),
    decreases pairs.len(),
{
    if pairs.len() == 1 {
        assert(pairs.last() == pairs[0]);
        assert(pairs.drop_first() =~= Seq::<(Seq<char>, PVal)>::empty());
    } else {
        let dl = pairs.drop_last();
        lemma_wf_pairs_cons(dl);
        assert(dl[0] == pairs[0]);
        assert(pairs.drop_first().drop_last() =~= dl.drop_first());
        assert(pairs.drop_first().last() == pairs.last());
    }
}

/// Decoding an embedded encoding of a well-formed value yields exactly
/// that value and consumes exactly its bytes.
#[verifier::rlimit(100)]
pub proof fn lemma_pval_roundtrip_at(d: Seq<u8>, pos: int, v: PVal)
    requires
        wf_pval(v),
        0 <= pos,
        pos + pval_bytes(v).len() <= d.len(),
        d.subrange(pos, pos + pval_bytes(v).len() as int) == pval_bytes(v),
    ensures
        spec_read_pval(d, pos) == Ok::<(PVal, int), ErrKind>((v, pos + pval_bytes(v).len())),
    decreases v, 0int,
{
    broadcast use vstd::utf8::encode_utf8_valid_utf8, vstd::utf8::encode_utf8_decode_utf8;

    let bytes = pval_bytes(v);
    assert(d.subrange(pos, pos + bytes.len() as int)[0] == bytes[0]);
    assert(d[pos] == bytes[0]);
    match v {
        PVal::Null => {},
        PVal::Bool(b) => {
            assert(d.subrange(pos, pos + bytes.len() as int)[1] == bytes[1]);
        },
        PVal::Int(i) => {
            lemma_subrange_split(d, pos, seq![2u8], spec_leb_i64_bytes(i as int));
            lemma_leb_i64_roundtrip_at(d, pos + 1, i);
        },
        PVal::Float(bits) => {
            lemma_subrange_split(d, pos, seq![3u8], spec_u64_le_bytes(bits));
            lemma_u64_le_roundtrip(bits, d, pos + 1);
        },
        PVal::Text(str_chars) => {
            let utf8 = encode_utf8(str_chars);
            let klen = utf8.len() as u32;
            let leb = spec_leb_u32_bytes(klen);
            assert(bytes =~= seq![4u8] + (leb + utf8));
            lemma_subrange_split(d, pos, seq![4u8], leb + utf8);
            lemma_subrange_split(d, pos + 1, leb, utf8);
            lemma_leb_u32_roundtrip_at(d, pos + 1, klen);
            let p2 = pos + 1 + leb.len();
            assert(d.subrange(p2, p2 + klen as int) == utf8);
            assert(spec_read_string(d, p2, klen as int) == Ok::<(Seq<char>, int), ErrKind>(
                (str_chars, p2 + klen),
            ));
        },
        PVal::Bytes(b) => {
            let leb = spec_leb_u32_bytes(b.len() as u32);
            assert(bytes =~= seq![5u8] + (leb + b));
            lemma_subrange_split(d, pos, seq![5u8], leb + b);
            lemma_subrange_split(d, pos + 1, leb, b);
            lemma_leb_u32_roundtrip_at(d, pos + 1, b.len() as u32);
        },
        PVal::Array(items) => {
            let leb = spec_leb_u32_bytes(items.len() as u32);
            let body = pvals_bytes(items);
            assert(bytes =~= seq![6u8] + (leb + body));
            lemma_subrange_split(d, pos, seq![6u8], leb + body);
            lemma_subrange_split(d, pos + 1, leb, body);
            lemma_leb_u32_roundtrip_at(d, pos + 1, items.len() as u32);
            let p2 = pos + 1 + leb.len();
            lemma_pvals_roundtrip_at(d, p2, items, Seq::empty());
            assert(Seq::empty() + items =~= items);
        },
        PVal::Object(pairs) => {
            let leb = spec_leb_u32_bytes(pairs.len() as u32);
            let body = pair_list_bytes(pairs);
            assert(bytes =~= seq![7u8] + (leb + body));
            lemma_subrange_split(d, pos, seq![7u8], leb + body);
            lemma_subrange_split(d, pos + 1, leb, body);
            lemma_leb_u32_roundtrip_at(d, pos + 1, pairs.len() as u32);
            let p2 = pos + 1 + leb.len();
            assert(Seq::empty() + pairs =~= pairs);
            lemma_pairs_roundtrip_at(d, p2, pairs, Seq::empty());
        },
        PVal::Handle(h) => {
            lemma_subrange_split(d, pos, seq![8u8], h);
        },
        PVal::ChainPrevious => {},
        PVal::ChainFrom(i) => {
            lemma_subrange_split(d, pos, seq![10u8], spec_leb_u32_bytes(i as u32));
            lemma_leb_u32_roundtrip_at(d, pos + 1, i as u32);
        },
    }
}

/// Decoding an embedded encoding of a well-formed value list appends
/// exactly those values to the accumulator.
pub proof fn lemma_pvals_roundtrip_at(d: Seq<u8>, pos: int, items: Seq<PVal>, acc: Seq<PVal>)
    requires
        wf_pvals(items),
        items.len() < 0x100000000,
        0 <= pos,
        pos + pvals_bytes(items).len() <= d.len(),
        d.subrange(pos, pos + pvals_bytes(items).len() as int) == pvals_bytes(items),
    ensures
        spec_read_pvals(d, pos, items.len() as u32, acc) == Ok::<(Seq<PVal>, int), ErrKind>(
            (acc + items, pos + pvals_bytes(items).len()),
        ),
    decreases items, 1int,
{
    if items.len() == 0 {
        assert(acc + items =~= acc);
    } else {
        let first = items[0];
        let rest = items.drop_first();
        lemma_pvals_bytes_cons(items);
        lemma_wf_pvals_cons(items);
        lemma_pval_bytes_nonempty(first);
        lemma_subrange_split(d, pos, pval_bytes(first), pvals_bytes(rest));
        lemma_pval_roundtrip_at(d, pos, first);
        let p2 = pos + pval_bytes(first).len();
        lemma_pvals_roundtrip_at(d, p2, rest, acc.push(first));
        assert(acc.push(first) + rest =~= acc + items);
        assert((items.len() as u32 - 1) as u32 == rest.len() as u32);
    }
}

/// Decoding an embedded encoding of a well-formed pair list, none of
/// whose names repeat ones already accumulated, appends exactly those
/// pairs to the accumulator.
#[verifier::rlimit(100)]
pub proof fn lemma_pairs_roundtrip_at(
    d: Seq<u8>,
    pos: int,
    pairs: Seq<(Seq<char>, PVal)>,
    acc: Seq<(Seq<char>, PVal)>,
)
    requires
        wf_pairs(pairs),
        pairs.len() < 0x100000000,
        distinct_keys(acc + pairs),
        0 <= pos,
        pos + pair_list_bytes(pairs).len() <= d.len(),
        d.subrange(pos, pos + pair_list_bytes(pairs).len() as int) == pair_list_bytes(pairs),
    ensures
        spec_read_pairs(d, pos, pairs.len() as u32, acc) == Ok::<
            (Seq<(Seq<char>, PVal)>, int),
            ErrKind,
        >((acc + pairs, pos + pair_list_bytes(pairs).len())),
    decreases pairs, 1int,
{
    broadcast use vstd::utf8::encode_utf8_valid_utf8, vstd::utf8::encode_utf8_decode_utf8;

    if pairs.len() == 0 {
        assert(acc + pairs =~= acc);
    } else {
        let key = pairs[0].0;
        let val = pairs[0].1;
        let rest = pairs.drop_first();
        lemma_pair_list_bytes_cons(pairs);
        lemma_wf_pairs_cons(pairs);
        lemma_pval_bytes_nonempty(val);
        let utf8 = encode_utf8(key);
        let klen = utf8.len() as u32;
        let leb = spec_leb_u32_bytes(klen);
        lemma_subrange_split(d, pos, pair_bytes(key, val), pair_list_bytes(rest));
        assert(pair_list_bytes(pairs) =~= leb + (utf8 + pval_bytes(val) + pair_list_bytes(rest)));
        lemma_subrange_split(d, pos, leb, utf8 + pval_bytes(val) + pair_list_bytes(rest));
        let p1 = pos + leb.len();
        assert(utf8 + pval_bytes(val) + pair_list_bytes(rest) =~= utf8 + (pval_bytes(val)
            + pair_list_bytes(rest)));
        lemma_subrange_split(d, p1, utf8, pval_bytes(val) + pair_list_bytes(rest));
        let p2 = p1 + klen as int;
        lemma_subrange_split(d, p2, pval_bytes(val), pair_list_bytes(rest));
        lemma_leb_u32_roundtrip_at(d, pos, klen);
        assert(spec_read_string(d, p1, klen as int) == Ok::<(Seq<char>, int), ErrKind>(
            (key, p2),
        ));
        lemma_pval_roundtrip_at(d, p2, val);
        let p3 = p2 + pval_bytes(val).len();
        assert(pairs_insert(acc, key, val) == acc.push((key, val))) by {
            lemma_pairs_find(acc, key);
            let f = pairs_find(acc, key);
            if f >= 0 {
                assert((acc + pairs)[f] == acc[f]);
                assert((acc + pairs)[acc.len() as int] == pairs[0]);
                assert(false);
            }
        }
        assert(acc.push((key, val)) + rest =~= acc + pairs);
        lemma_pairs_roundtrip_at(d, p3, rest, acc.push((key, val)));
        assert((pairs.len() as u32 - 1) as u32 == rest.len() as u32);
    }
}

/// Law: a well-formed value decodes from its own encoding, whatever
/// follows it, covering every variant and arbitrary nesting.
pub proof fn lemma_param_roundtrip(v: PVal, rest: Seq<u8>)
    requires
        wf_pval(v),
    ensures
        spec_read_pval(pval_bytes(v) + rest, 0) == Ok::<(PVal, int), ErrKind>(
            (v, pval_bytes(v).len() as int),
        ),
{
    let d = pval_bytes(v) + rest;
    assert(d.subrange(0, pval_bytes(v).len() as int) =~= pval_bytes(v));
    lemma_pval_roundtrip_at(d, 0, v);
}

} // verus!

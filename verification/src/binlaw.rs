use vstd::prelude::*;
use crate::binel::{AttrV, ElemV, attrs_from, regroup, flatten, lemma_first_index_is};
use vstd::utf8::{
    encode_utf8, encode_utf8_valid_utf8, encode_utf8_decode_utf8, is_ascii_chars, is_ascii_chars_encode_utf8,
};
use crate::binfmt::{
    Parsed, leb_bytes, leb_value, varint_end, p_varint, p_str, e_string, u16_of, le16, le32, u32_of,
    p_lookup, lemma_index_in, lead_run, rle_encode, rle_decode, runs_fit, byte_chars, p_attr, e_value,
    value_reads_back, text_reads_back, rle_chosen, e_int, e_float, e_bool, e_text, p_rle, p_attrs,
    e_attrs, lemma_attrs_next, keys_distinct, p_element, p_children, e_elem, e_elems, e_groups,
    lemma_children_next, elem_writable, groups_writable, elems_writable, p_element_rest,
    p_element_children, p_strs, e_strings, lemma_strs_next, map_header, p_file, e_file, file_writable,
    index_in, missing_attrs, missing_elem, missing_groups, missing_elems, attrs_count, word_count,
    groups_count, elems_count,
};

verus! {

proof fn lemma_attrs_found(lk: Seq<Seq<char>>, attrs: Seq<(Seq<char>, AttrV)>)
    requires
        forall|s: Seq<char>| #[trigger] attrs_count(attrs, s) > 0 ==> index_in(lk, s) < lk.len(),
    ensures
        missing_attrs(lk, attrs) is None,
    decreases attrs.len(),
{
    if attrs.len() > 0 {
        assert forall|s: Seq<char>| #[trigger] attrs_count(attrs.drop_last(), s) > 0 implies index_in(lk, s) < lk.len() by {
            assert(attrs_count(attrs, s) > 0);
        }
        lemma_attrs_found(lk, attrs.drop_last());
        assert(attrs_count(attrs, attrs.last().0) > 0);
    }
}

/// Every name and key of an element whose words are all in the lookup is
/// found there.
pub proof fn lemma_elem_found(lk: Seq<Seq<char>>, e: ElemV)
    requires
        forall|s: Seq<char>| #[trigger] word_count(e, s) > 0 ==> index_in(lk, s) < lk.len(),
    ensures
        missing_elem(lk, e) is None,
    decreases e, 2int,
{
    assert(word_count(e, e.name) > 0);
    assert forall|s: Seq<char>| #[trigger] attrs_count(e.attrs, s) > 0 implies index_in(lk, s) < lk.len() by {
        assert(word_count(e, s) > 0);
    }
    lemma_attrs_found(lk, e.attrs);
    assert forall|s: Seq<char>| #[trigger] groups_count(e.groups, s) > 0 implies index_in(lk, s) < lk.len() by {
        assert(word_count(e, s) > 0);
    }
    lemma_groups_found(lk, e.groups);
}

proof fn lemma_groups_found(lk: Seq<Seq<char>>, gs: Seq<(Seq<char>, Seq<ElemV>)>)
    requires
        forall|s: Seq<char>| #[trigger] groups_count(gs, s) > 0 ==> index_in(lk, s) < lk.len(),
    ensures
        missing_groups(lk, gs) is None,
    decreases gs, 1int,
{
    if gs.len() > 0 {
        assert forall|s: Seq<char>| #[trigger] groups_count(gs.drop_last(), s) > 0 implies index_in(lk, s) < lk.len() by {
            assert(groups_count(gs, s) > 0);
        }
        lemma_groups_found(lk, gs.drop_last());
        assert forall|s: Seq<char>| #[trigger] elems_count(gs.last().1, s) > 0 implies index_in(lk, s) < lk.len() by {
            assert(groups_count(gs, s) > 0);
        }
        lemma_elems_found(lk, gs.last().1);
    }
}

proof fn lemma_elems_found(lk: Seq<Seq<char>>, es: Seq<ElemV>)
    requires
        forall|s: Seq<char>| #[trigger] elems_count(es, s) > 0 ==> index_in(lk, s) < lk.len(),
    ensures
        missing_elems(lk, es) is None,
    decreases es, 0int,
{
    if es.len() > 0 {
        assert forall|s: Seq<char>| #[trigger] elems_count(es.drop_last(), s) > 0 implies index_in(lk, s) < lk.len() by {
            assert(elems_count(es, s) > 0);
        }
        lemma_elems_found(lk, es.drop_last());
        assert forall|s: Seq<char>| #[trigger] word_count(es.last(), s) > 0 implies index_in(lk, s) < lk.len() by {
            assert(elems_count(es, s) > 0);
        }
        lemma_elem_found(lk, es.last());
    }
}

pub open spec fn pow128(m: nat) -> nat
    decreases m,
{
    if m == 0 { 1 } else { 128 * pow128((m - 1) as nat) }
}

proof fn lemma_leb_len(n: nat, m: nat)
    requires
        1 <= m,
        n < pow128(m),
    ensures
        leb_bytes(n).len() <= m,
    decreases n,
{
    if n >= 128 {
        if m == 1 {
            assert(pow128(1) == 128 * pow128(0));
        }
        assert(m >= 2);
        let m1 = (m - 1) as nat;
        assert(pow128(m) == 128 * pow128(m1));
        assert(n / 128 < pow128(m1)) by (nonlinear_arith)
            requires n < 128 * pow128(m1);
        lemma_leb_len(n / 128, m1);
    }
}

proof fn lemma_leb_value(n: nat)
    ensures
        leb_value(leb_bytes(n)) == n,
    decreases n,
{
    let b = leb_bytes(n);
    if n >= 128 {
        lemma_leb_value(n / 128);
        assert(b[0] == (n % 128 + 128) as u8);
        assert(b.drop_first() == leb_bytes(n / 128));
        assert(((n % 128 + 128) as u8) % 128 == n % 128);
        assert(n == n % 128 + 128 * (n / 128));
        assert(leb_value(b) == (b[0] % 128) as nat + 128 * leb_value(b.drop_first()));
    } else {
        assert(b.drop_first().len() == 0);
        assert(leb_value(b.drop_first()) == 0);
        assert(leb_value(b) == (b[0] % 128) as nat + 128 * leb_value(b.drop_first()));
    }
}

proof fn lemma_leb_end(n: nat, rest: Seq<u8>)
    ensures
        varint_end(leb_bytes(n) + rest) == Some(leb_bytes(n).len()),
        (leb_bytes(n) + rest).take(leb_bytes(n).len() as int) == leb_bytes(n),
        leb_bytes(n).len() >= 1,
    decreases n,
{
    let b = leb_bytes(n);
    if n >= 128 {
        lemma_leb_end(n / 128, rest);
        assert((b + rest).drop_first() == leb_bytes(n / 128) + rest);
        assert((b + rest)[0] == (n % 128 + 128) as u8);
    } else {
        assert((b + rest)[0] == n as u8);
    }
    assert((b + rest).take(b.len() as int) =~= b);
}

/// A length written as LEB128 reads back as itself.
pub proof fn law_varint_roundtrip(n: nat, rest: Seq<u8>)
    requires
        n <= usize::MAX,
    ensures
        p_varint(leb_bytes(n) + rest) == Parsed::Done(n, leb_bytes(n).len()),
{
    lemma_leb_end(n, rest);
    lemma_leb_value(n);
    let k = leb_bytes(n).len();
    if usize::BITS == 64 {
        reveal_with_fuel(pow128, 11);
        assert(pow128(10) == 1180591620717411303424);
        assert(usize::MAX == 18446744073709551615);
        lemma_leb_len(n, 10);
    } else {
        assert(usize::BITS == 32);
        reveal_with_fuel(pow128, 6);
        assert(pow128(5) == 34359738368);
        assert(usize::MAX == 4294967295);
        lemma_leb_len(n, 5);
    }
    assert((k - 1) * 7 < usize::BITS);
    vstd::arithmetic::div_mod::lemma_small_mod(n, (usize::MAX + 1) as nat);
}

/// A string written with its length reads back as itself.
pub proof fn law_string_roundtrip(s: Seq<char>, rest: Seq<u8>)
    requires
        encode_utf8(s).len() <= usize::MAX,
    ensures
        p_str(e_string(s) + rest) == Parsed::Done(s, e_string(s).len()),
{
    let enc = encode_utf8(s);
    let n = enc.len();
    let lb = leb_bytes(n);
    let b = e_string(s) + rest;
    assert(b == lb + (enc + rest));
    law_varint_roundtrip(n, enc + rest);
    assert(b.subrange(lb.len() as int, (lb.len() + n) as int) =~= enc);
    encode_utf8_valid_utf8(s);
    encode_utf8_decode_utf8(s);
}

proof fn lemma_u16_of_le16(v: int)
    ensures
        u16_of(le16(v)[0], le16(v)[1]) == v % 65536,
{
    let lo = v % 256;
    let hi = (v / 256) % 256;
    assert(le16(v)[0] == lo as u8);
    assert(le16(v)[1] == hi as u8);
    assert(v % 65536 == lo + 256 * hi) by (nonlinear_arith)
        requires lo == v % 256, hi == (v / 256) % 256;
}

proof fn lemma_u32_of_le32(v: int, rest: Seq<u8>)
    ensures
        u32_of(le32(v) + rest) == v % 4294967296,
{
    let b = le32(v) + rest;
    let b0 = v % 256;
    let b1 = (v / 256) % 256;
    let b2 = (v / 65536) % 256;
    let b3 = (v / 16777216) % 256;
    assert(b[0] == b0 as u8);
    assert(b[1] == b1 as u8);
    assert(b[2] == b2 as u8);
    assert(b[3] == b3 as u8);
    assert(v % 4294967296 == b0 + 256 * (b1 + 256 * (b2 + 256 * b3))) by (nonlinear_arith)
        requires b0 == v % 256, b1 == (v / 256) % 256, b2 == (v / 65536) % 256, b3 == (v / 16777216) % 256;
}

/// A lookup index written for a string in the table reads back as the string.
pub proof fn lemma_lookup_roundtrip(lk: Seq<Seq<char>>, s: Seq<char>, rest: Seq<u8>)
    requires
        index_in(lk, s) < lk.len() <= 65536,
    ensures
        p_lookup(le16(index_in(lk, s)) + rest, lk) == Parsed::Done(s, 2),
{
    let i = index_in(lk, s);
    lemma_index_in(lk, s);
    lemma_u16_of_le16(i);
    let b = le16(i) + rest;
    assert(b[0] == le16(i)[0] && b[1] == le16(i)[1]);
}

proof fn lemma_lead_run_bounds(b: Seq<u8>)
    requires
        b.len() >= 1,
    ensures
        1 <= lead_run(b) <= b.len(),
        forall|i: int| 0 <= i < lead_run(b) ==> #[trigger] b[i] == b[0],
    decreases b.len(),
{
    if b.len() > 1 && b[1] == b[0] {
        let d = b.drop_first();
        lemma_lead_run_bounds(d);
        assert forall|i: int| 0 <= i < lead_run(b) implies #[trigger] b[i] == b[0] by {
            if i > 0 { assert(b[i] == d[i - 1]); assert(d[i - 1] == d[0]); }
        }
    }
}

/// Bytes whose runs all fit a byte decode from their run-length encoding as
/// the characters with their codes.
proof fn lemma_rle_bytes_roundtrip(b: Seq<u8>)
    requires
        runs_fit(b),
    ensures
        rle_decode(rle_encode(b)) == byte_chars(b),
        rle_encode(b).len() % 2 == 0,
    decreases b.len(),
{
    if b.len() > 0 {
        lemma_lead_run_bounds(b);
        let r = lead_run(b);
        let tail = b.skip(r as int);
        lemma_rle_bytes_roundtrip(tail);
        let e = rle_encode(b);
        let head = seq![(r % 256) as u8, b[0]];
        assert(e == head + rle_encode(tail));
        assert((r % 256) as u8 == r);
        assert(e.skip(2) == rle_encode(tail));
        assert(rle_decode(e) == Seq::new(r, |i: int| b[0] as char) + rle_decode(rle_encode(tail)));
        assert(byte_chars(b) =~= Seq::new(r, |i: int| b[0] as char) + byte_chars(tail));
    } else {
        assert(byte_chars(b) =~= Seq::<char>::empty());
    }
}

proof fn lemma_ascii_byte_chars(s: Seq<char>)
    requires
        is_ascii_chars(s),
    ensures
        byte_chars(encode_utf8(s)) == s,
{
    is_ascii_chars_encode_utf8(s);
    let enc = encode_utf8(s);
    assert forall|i: int| 0 <= i < s.len() implies #[trigger] byte_chars(enc)[i] == s[i] by {
        assert(enc[i] == s[i] as u8);
        assert('\0' <= s[i] <= '\u{7f}');
    }
    assert(byte_chars(enc) =~= s);
}

proof fn lemma_int_roundtrip(lk: Seq<Seq<char>>, v: i32, rest: Seq<u8>)
    ensures
        p_attr(e_int(v) + rest, lk) == Parsed::Done(AttrV::Int(v), e_int(v).len()),
{
    let b = e_int(v) + rest;
    let r = b.drop_first();
    if 0 <= v <= 255 {
        assert(b[0] == 1u8);
        assert(r[0] == v as u8);
    } else if -32768 <= v <= 32767 {
        assert(b[0] == 2u8);
        assert(r == le16(v as int) + rest);
        lemma_u16_of_le16(v as int);
        assert(r[0] == le16(v as int)[0] && r[1] == le16(v as int)[1]);
    } else {
        assert(b[0] == 3u8);
        assert(r == le32(v as int) + rest);
        lemma_u32_of_le32(v as int, rest);
    }
}

proof fn lemma_float_roundtrip(lk: Seq<Seq<char>>, v: u32, rest: Seq<u8>)
    ensures
        p_attr(e_float(v) + rest, lk) == Parsed::Done(AttrV::Float(v), e_float(v).len()),
{
    let b = e_float(v) + rest;
    assert(b[0] == 4u8);
    assert(b.drop_first() == le32(v as int) + rest);
    lemma_u32_of_le32(v as int, rest);
}

proof fn lemma_bool_roundtrip(lk: Seq<Seq<char>>, v: bool, rest: Seq<u8>)
    ensures
        p_attr(e_bool(v) + rest, lk) == Parsed::Done(AttrV::Bool(v), e_bool(v).len()),
{
    let b = e_bool(v) + rest;
    assert(b[0] == 0u8);
    assert(b.drop_first()[0] == (if v { 1u8 } else { 0u8 }));
}

proof fn lemma_text_lookup_roundtrip(lk: Seq<Seq<char>>, s: Seq<char>, rest: Seq<u8>)
    requires
        index_in(lk, s) < lk.len() <= 65536,
    ensures
        p_attr(e_text(lk, s) + rest, lk) == Parsed::Done(AttrV::Text(s), e_text(lk, s).len()),
{
    let b = e_text(lk, s) + rest;
    let i = index_in(lk, s);
    assert(b[0] == 5u8);
    assert(b.drop_first() == le16(i) + rest);
    lemma_lookup_roundtrip(lk, s, rest);
}

proof fn lemma_text_rle_roundtrip(lk: Seq<Seq<char>>, s: Seq<char>, rest: Seq<u8>)
    requires
        index_in(lk, s) >= lk.len(),
        rle_chosen(s),
        is_ascii_chars(s),
        runs_fit(encode_utf8(s)),
    ensures
        p_attr(e_text(lk, s) + rest, lk) == Parsed::Done(AttrV::Text(s), e_text(lk, s).len()),
{
    let b = e_text(lk, s) + rest;
    let r = b.drop_first();
    let enc = encode_utf8(s);
    let rl = rle_encode(enc);
    assert(b[0] == 7u8);
    assert(r == le16(rl.len() as int) + (rl + rest));
    lemma_u16_of_le16(rl.len() as int);
    assert(r[0] == le16(rl.len() as int)[0] && r[1] == le16(rl.len() as int)[1]);
    lemma_rle_bytes_roundtrip(enc);
    lemma_ascii_byte_chars(s);
    let n = rl.len();
    assert((n / 2) * 2 == n);
    assert(r.subrange(2, 2 + n as int) =~= rl);
    assert(p_rle(r) == Parsed::Done(s, (2 + n) as nat));
}

/// An ASCII string whose runs are at most 255 long, run-length encoded with
/// its length, reads back as itself.
pub proof fn law_rle_roundtrip(s: Seq<char>, rest: Seq<u8>)
    requires
        is_ascii_chars(s),
        runs_fit(encode_utf8(s)),
        rle_encode(encode_utf8(s)).len() <= 32767,
    ensures
        p_rle(le16(rle_encode(encode_utf8(s)).len() as int) + rle_encode(encode_utf8(s)) + rest)
            == Parsed::Done(s, (2 + rle_encode(encode_utf8(s)).len()) as nat),
{
    let enc = encode_utf8(s);
    let rl = rle_encode(enc);
    let r = le16(rl.len() as int) + rl + rest;
    assert(r == le16(rl.len() as int) + (rl + rest));
    lemma_u16_of_le16(rl.len() as int);
    assert(r[0] == le16(rl.len() as int)[0] && r[1] == le16(rl.len() as int)[1]);
    lemma_rle_bytes_roundtrip(enc);
    lemma_ascii_byte_chars(s);
    let n = rl.len();
    assert((n / 2) * 2 == n);
    assert(r.subrange(2, 2 + n as int) =~= rl);
}

proof fn lemma_text_plain_roundtrip(lk: Seq<Seq<char>>, s: Seq<char>, rest: Seq<u8>)
    requires
        index_in(lk, s) >= lk.len(),
        !rle_chosen(s),
        encode_utf8(s).len() <= usize::MAX,
    ensures
        p_attr(e_text(lk, s) + rest, lk) == Parsed::Done(AttrV::Text(s), e_text(lk, s).len()),
{
    let b = e_text(lk, s) + rest;
    assert(b[0] == 6u8);
    assert(b.drop_first() == e_string(s) + rest);
    law_string_roundtrip(s, rest);
}

/// An attribute value written with its tag reads back as itself.
pub proof fn law_value_roundtrip(lk: Seq<Seq<char>>, a: AttrV, rest: Seq<u8>)
    requires
        lk.len() <= 65536,
        value_reads_back(lk, a),
    ensures
        p_attr(e_value(lk, a) + rest, lk) == Parsed::Done(a, e_value(lk, a).len()),
{
    match a {
        AttrV::Bool(v) => lemma_bool_roundtrip(lk, v, rest),
        AttrV::Int(v) => lemma_int_roundtrip(lk, v, rest),
        AttrV::Float(v) => lemma_float_roundtrip(lk, v, rest),
        AttrV::Text(s) => {
            if index_in(lk, s) < lk.len() {
                lemma_text_lookup_roundtrip(lk, s, rest);
            } else if rle_chosen(s) {
                lemma_text_rle_roundtrip(lk, s, rest);
            } else {
                lemma_text_plain_roundtrip(lk, s, rest);
            }
        },
    }
}

/// Attributes written in order read back in order.
#[verifier::spinoff_prover]
#[verifier::rlimit(60)]
proof fn lemma_attrs_roundtrip(lk: Seq<Seq<char>>, attrs: Seq<(Seq<char>, AttrV)>, rest: Seq<u8>)
    requires
        lk.len() <= 65536,
        forall|i: int| 0 <= i < attrs.len() ==> value_reads_back(lk, #[trigger] attrs[i].1),
        missing_attrs(lk, attrs) is None,
    ensures
        p_attrs(e_attrs(lk, attrs) + rest, lk, attrs.len()) == Parsed::Done(attrs, e_attrs(lk, attrs).len()),
    decreases attrs.len(),
{
    if attrs.len() > 0 {
        let dl = attrs.drop_last();
        let (key, v) = attrs.last();
        let tail = le16(index_in(lk, key)) + e_value(lk, v);
        let b = e_attrs(lk, attrs) + rest;
        assert(b == e_attrs(lk, dl) + (tail + rest));
        assert forall|i: int| 0 <= i < dl.len() implies value_reads_back(lk, #[trigger] dl[i].1) by {
            assert(dl[i] == attrs[i]);
        }
        lemma_attrs_roundtrip(lk, dl, tail + rest);
        let k = e_attrs(lk, dl).len();
        lemma_attrs_next(b, lk, dl.len(), dl, k);
        assert(b.skip(k as int) == le16(index_in(lk, key)) + (e_value(lk, v) + rest));
        lemma_lookup_roundtrip(lk, key, e_value(lk, v) + rest);
        assert(b.skip((k + 2) as int) == e_value(lk, v) + rest);
        assert(value_reads_back(lk, attrs[attrs.len() - 1].1));
        law_value_roundtrip(lk, v, rest);
        assert(k + 2 <= b.len());
        assert(p_attrs(b, lk, dl.len() + 1) == Parsed::Done(dl.push((key, v)), k + 2 + e_value(lk, v).len()));
        assert(dl.push((key, v)) == attrs);
        assert(dl.len() + 1 == attrs.len());
        assert(e_attrs(lk, attrs).len() == k + 2 + e_value(lk, v).len());
    } else {
        assert(e_attrs(lk, attrs) + rest == rest);
        assert(attrs =~= Seq::<(Seq<char>, AttrV)>::empty());
    }
}

/// Attributes with distinct keys are set one by one to themselves.
proof fn lemma_attrs_from_distinct(attrs: Seq<(Seq<char>, AttrV)>)
    requires
        keys_distinct(attrs),
    ensures
        attrs_from(attrs) == attrs,
    decreases attrs.len(),
{
    if attrs.len() > 0 {
        let dl = attrs.drop_last();
        assert(keys_distinct(dl)) by {
            assert forall|i: int, j: int| 0 <= i < j < dl.len() implies dl[i].0 != dl[j].0 by {
                assert(dl[i] == attrs[i] && dl[j] == attrs[j]);
            }
        }
        lemma_attrs_from_distinct(dl);
        let key = attrs.last().0;
        assert forall|j: int| 0 <= j < dl.len() implies dl[j].0 != key by {
            assert(dl[j] == attrs[j]);
        }
        lemma_first_index_is(dl, key, dl.len() as int);
        assert(dl.push(attrs.last()) == attrs);
    }
}

/// An element written with lookup `lk`, followed by `r`, reads back as itself.
#[verifier::opaque]
pub open spec fn elem_reads_back(lk: Seq<Seq<char>>, e: ElemV, r: Seq<u8>) -> bool {
    p_element(e_elem(lk, e) + r, lk) == Parsed::Done(e, e_elem(lk, e).len())
}

/// Elements that each read back read back as a list.
#[verifier::spinoff_prover]
#[verifier::rlimit(60)]
proof fn lemma_children_roundtrip(lk: Seq<Seq<char>>, cs: Seq<ElemV>, rest: Seq<u8>)
    requires
        forall|i: int, r: Seq<u8>| 0 <= i < cs.len() ==> #[trigger] elem_reads_back(lk, cs[i], r),
    ensures
        p_children(e_elems(lk, cs) + rest, lk, cs.len()) == Parsed::Done(cs, e_elems(lk, cs).len()),
    decreases cs.len(),
{
    if cs.len() > 0 {
        let dl = cs.drop_last();
        let x = cs.last();
        let b = e_elems(lk, cs) + rest;
        assert(b == e_elems(lk, dl) + (e_elem(lk, x) + rest));
        assert forall|i: int, r: Seq<u8>| 0 <= i < dl.len() implies #[trigger] elem_reads_back(lk, dl[i], r) by {
            assert(dl[i] == cs[i]);
            assert(elem_reads_back(lk, cs[i], r));
        }
        lemma_children_roundtrip(lk, dl, e_elem(lk, x) + rest);
        let k = e_elems(lk, dl).len();
        lemma_children_next(b, lk, dl.len(), dl, k);
        assert(b.skip(k as int) == e_elem(lk, x) + rest);
        assert(elem_reads_back(lk, cs[cs.len() - 1], rest));
        assert(p_element(e_elem(lk, x) + rest, lk) == Parsed::Done(x, e_elem(lk, x).len())) by {
            reveal(elem_reads_back);
        }
        assert(dl.push(x) == cs);
        assert(dl.len() + 1 == cs.len());
    } else {
        assert(e_elems(lk, cs) + rest == rest);
        assert(cs =~= Seq::<ElemV>::empty());
    }
}

proof fn lemma_e_elems_concat(lk: Seq<Seq<char>>, a: Seq<ElemV>, b: Seq<ElemV>)
    ensures
        e_elems(lk, a + b) == e_elems(lk, a) + e_elems(lk, b),
    decreases b.len(),
{
    if b.len() > 0 {
        lemma_e_elems_concat(lk, a, b.drop_last());
        assert((a + b).drop_last() == a + b.drop_last());
        assert((a + b).last() == b.last());
    } else {
        assert(a + b == a);
    }
}

/// The groups are written as their children in order.
proof fn lemma_e_groups_flat(lk: Seq<Seq<char>>, gs: Seq<(Seq<char>, Seq<ElemV>)>)
    ensures
        e_groups(lk, gs) == e_elems(lk, flatten(gs)),
    decreases gs.len(),
{
    if gs.len() > 0 {
        lemma_e_groups_flat(lk, gs.drop_last());
        lemma_e_elems_concat(lk, flatten(gs.drop_last()), gs.last().1);
    }
}

/// Adding children all named `key`, a name not among the groups so far,
/// makes one new group of them.
proof fn lemma_regroup_extend(f: Seq<ElemV>, g: Seq<(Seq<char>, Seq<ElemV>)>, key: Seq<char>, es: Seq<ElemV>)
    requires
        regroup(f) == g,
        forall|i: int| 0 <= i < g.len() ==> g[i].0 != key,
        es.len() >= 1,
        forall|j: int| 0 <= j < es.len() ==> (#[trigger] es[j]).name == key,
    ensures
        regroup(f + es) == g.push((key, es)),
    decreases es.len(),
{
    let x = es.last();
    assert((f + es).drop_last() == f + es.drop_last());
    assert((f + es).last() == x);
    assert(x.name == key);
    if es.len() == 1 {
        assert(f + es.drop_last() == f);
        lemma_first_index_is(g, key, g.len() as int);
        assert(es == seq![x]);
    } else {
        let es1 = es.drop_last();
        assert forall|j: int| 0 <= j < es1.len() implies (#[trigger] es1[j]).name == key by {
            assert(es1[j] == es[j]);
        }
        lemma_regroup_extend(f, g, key, es1);
        let g1 = g.push((key, es1));
        assert forall|j: int| 0 <= j < g.len() implies g1[j].0 != key by {
            assert(g1[j] == g[j]);
        }
        lemma_first_index_is(g1, key, g.len() as int);
        assert(es1.push(x) == es);
        assert(g1.update(g.len() as int, (key, es1.push(x))) =~= g.push((key, es)));
    }
}

/// Groups with distinct keys, none empty, each child named by its group's
/// key, are rebuilt from their children.
proof fn lemma_regroup_flat(gs: Seq<(Seq<char>, Seq<ElemV>)>)
    requires
        keys_distinct(gs),
        forall|g: int| 0 <= g < gs.len() ==> (#[trigger] gs[g]).1.len() > 0,
        forall|g: int, j: int| 0 <= g < gs.len() && 0 <= j < gs[g].1.len() ==> (#[trigger] gs[g].1[j]).name == gs[g].0,
    ensures
        regroup(flatten(gs)) == gs,
    decreases gs.len(),
{
    if gs.len() > 0 {
        let dl = gs.drop_last();
        assert(keys_distinct(dl)) by {
            assert forall|i: int, j: int| 0 <= i < j < dl.len() implies dl[i].0 != dl[j].0 by {
                assert(dl[i] == gs[i] && dl[j] == gs[j]);
            }
        }
        assert forall|g: int| 0 <= g < dl.len() implies (#[trigger] dl[g]).1.len() > 0 by {
            assert(dl[g] == gs[g]);
        }
        assert forall|g: int, j: int| 0 <= g < dl.len() && 0 <= j < dl[g].1.len() implies (#[trigger] dl[g].1[j]).name == dl[g].0 by {
            assert(dl[g] == gs[g]);
        }
        lemma_regroup_flat(dl);
        let (key, es) = gs.last();
        assert(gs[gs.len() - 1] == gs.last());
        assert forall|i: int| 0 <= i < dl.len() implies dl[i].0 != key by {
            assert(dl[i] == gs[i]);
        }
        assert forall|j: int| 0 <= j < es.len() implies (#[trigger] es[j]).name == key by {
            assert(gs[gs.len() - 1].1[j] == es[j]);
        }
        lemma_regroup_extend(flatten(dl), dl, key, es);
        assert(dl.push((key, es)) == gs);
    } else {
        assert(flatten(gs) == Seq::<ElemV>::empty());
    }
}

proof fn lemma_groups_shaped(lk: Seq<Seq<char>>, gs: Seq<(Seq<char>, Seq<ElemV>)>)
    requires
        groups_writable(lk, gs),
    ensures
        forall|g: int| 0 <= g < gs.len() ==> (#[trigger] gs[g]).1.len() > 0,
        forall|g: int, j: int| 0 <= g < gs.len() && 0 <= j < gs[g].1.len() ==> (#[trigger] gs[g].1[j]).name == gs[g].0,
    decreases gs.len(),
{
    if gs.len() > 0 {
        let dl = gs.drop_last();
        lemma_groups_shaped(lk, dl);
        assert forall|g: int| 0 <= g < gs.len() implies (#[trigger] gs[g]).1.len() > 0 by {
            if g < dl.len() { assert(gs[g] == dl[g]); }
        }
        assert forall|g: int, j: int| 0 <= g < gs.len() && 0 <= j < gs[g].1.len() implies (#[trigger] gs[g].1[j]).name == gs[g].0 by {
            if g < dl.len() {
                assert(gs[g] == dl[g]);
                assert(dl[g].1[j].name == dl[g].0);
            } else {
                assert(gs[g] == gs.last());
                assert(gs.last().1[j].name == gs.last().0);
            }
        }
    }
}

/// The children of groups that can be written each read back.
proof fn lemma_groups_each(lk: Seq<Seq<char>>, gs: Seq<(Seq<char>, Seq<ElemV>)>)
    requires
        lk.len() <= 65536,
        missing_groups(lk, gs) is None,
        groups_writable(lk, gs),
    ensures
        forall|i: int, r: Seq<u8>| 0 <= i < flatten(gs).len() ==> #[trigger] elem_reads_back(lk, flatten(gs)[i], r),
    decreases gs, 1int,
{
    if gs.len() > 0 {
        let dl = gs.drop_last();
        let es = gs.last().1;
        lemma_groups_each(lk, dl);
        lemma_elems_each(lk, es);
        assert forall|i: int, r: Seq<u8>| 0 <= i < flatten(gs).len() implies #[trigger] elem_reads_back(lk, flatten(gs)[i], r) by {
            if i < flatten(dl).len() {
                assert(flatten(gs)[i] == flatten(dl)[i]);
                assert(elem_reads_back(lk, flatten(dl)[i], r));
            } else {
                assert(flatten(gs)[i] == es[i - flatten(dl).len()]);
                assert(elem_reads_back(lk, es[i - flatten(dl).len()], r));
            }
        }
    }
}

/// Elements that can be written each read back.
proof fn lemma_elems_each(lk: Seq<Seq<char>>, es: Seq<ElemV>)
    requires
        lk.len() <= 65536,
        missing_elems(lk, es) is None,
        elems_writable(lk, es),
    ensures
        forall|i: int, r: Seq<u8>| 0 <= i < es.len() ==> #[trigger] elem_reads_back(lk, es[i], r),
    decreases es, 0int,
{
    if es.len() > 0 {
        let dl = es.drop_last();
        lemma_elems_each(lk, dl);
        assert forall|r: Seq<u8>| #[trigger] elem_reads_back(lk, es.last(), r) by {
            law_element_roundtrip(lk, es.last(), r);
        }
        assert forall|i: int, r: Seq<u8>| 0 <= i < es.len() implies #[trigger] elem_reads_back(lk, es[i], r) by {
            if i < dl.len() {
                assert(es[i] == dl[i]);
                assert(elem_reads_back(lk, dl[i], r));
            } else {
                assert(es[i] == es.last());
                assert(elem_reads_back(lk, es.last(), r));
            }
        }
    }
}

/// An element that can be written with lookup `lk` reads back as itself,
/// whatever follows it.
#[verifier::spinoff_prover]
#[verifier::rlimit(60)]
pub proof fn law_element_roundtrip(lk: Seq<Seq<char>>, e: ElemV, rest: Seq<u8>)
    requires
        lk.len() <= 65536,
        missing_elem(lk, e) is None,
        elem_writable(lk, e),
    ensures
        elem_reads_back(lk, e, rest),
    decreases e, 2int,
{
    reveal(elem_reads_back);
    let gs = e.groups;
    let ni = index_in(lk, e.name);
    let na = e.attrs.len();
    let ea = e_attrs(lk, e.attrs);
    let fl = flatten(gs);
    let nc = fl.len();
    let eg = e_groups(lk, gs);
    let b = e_elem(lk, e) + rest;
    let after_name = seq![(na % 256) as u8] + ea + le16(nc as int) + eg + rest;
    assert(b == le16(ni) + after_name);
    lemma_lookup_roundtrip(lk, e.name, after_name);
    assert(b[2] == after_name[0]);
    assert(b[2] == na as u8);
    let after_attrs = le16(nc as int) + eg + rest;
    assert(b.skip(3) == ea + after_attrs);
    lemma_attrs_roundtrip(lk, e.attrs, after_attrs);
    let ka = ea.len();
    assert(p_element(b, lk) == p_element_rest(b, lk, e.name));
    assert(p_element_rest(b, lk, e.name) == p_element_children(b, lk, e.name, e.attrs, ka));
    lemma_u16_of_le16(nc as int);
    assert(b[3 + ka as int] == le16(nc as int)[0] && b[4 + ka as int] == le16(nc as int)[1]);
    assert(b.skip(5 + ka as int) == eg + rest);
    lemma_e_groups_flat(lk, gs);
    lemma_groups_each(lk, gs);
    lemma_children_roundtrip(lk, fl, rest);
    lemma_attrs_from_distinct(e.attrs);
    lemma_groups_shaped(lk, gs);
    lemma_regroup_flat(gs);
    assert(e == ElemV { name: e.name, attrs: attrs_from(e.attrs), groups: regroup(fl) });
}

/// Strings written one after the other read back in order.
#[verifier::spinoff_prover]
proof fn lemma_strs_roundtrip(ss: Seq<Seq<char>>, rest: Seq<u8>)
    requires
        forall|i: int| 0 <= i < ss.len() ==> encode_utf8(#[trigger] ss[i]).len() <= usize::MAX,
    ensures
        p_strs(e_strings(ss) + rest, ss.len()) == Parsed::Done(ss, e_strings(ss).len()),
    decreases ss.len(),
{
    if ss.len() > 0 {
        let dl = ss.drop_last();
        let x = ss.last();
        let b = e_strings(ss) + rest;
        assert(b == e_strings(dl) + (e_string(x) + rest));
        assert forall|i: int| 0 <= i < dl.len() implies encode_utf8(#[trigger] dl[i]).len() <= usize::MAX by {
            assert(dl[i] == ss[i]);
        }
        lemma_strs_roundtrip(dl, e_string(x) + rest);
        let k = e_strings(dl).len();
        lemma_strs_next(b, dl.len(), dl, k);
        assert(b.skip(k as int) == e_string(x) + rest);
        assert(ss[ss.len() - 1] == x);
        law_string_roundtrip(x, rest);
        assert(dl.push(x) == ss);
        assert(dl.len() + 1 == ss.len());
    } else {
        assert(e_strings(ss) + rest == rest);
        assert(ss =~= Seq::<Seq<char>>::empty());
    }
}

proof fn lemma_header()
    ensures
        e_string("CELESTE MAP"@) == map_header(),
{
    reveal_strlit("CELESTE MAP");
    let s = "CELESTE MAP"@;
    assert(is_ascii_chars(s));
    is_ascii_chars_encode_utf8(s);
    let enc = encode_utf8(s);
    assert(enc.len() == 11);
    assert(leb_bytes(11) == seq![11u8]);
    assert(enc =~= map_header().skip(1)) by {
        assert(enc[0] == s[0] as u8);
        assert(enc[1] == s[1] as u8);
        assert(enc[2] == s[2] as u8);
        assert(enc[3] == s[3] as u8);
        assert(enc[4] == s[4] as u8);
        assert(enc[5] == s[5] as u8);
        assert(enc[6] == s[6] as u8);
        assert(enc[7] == s[7] as u8);
        assert(enc[8] == s[8] as u8);
        assert(enc[9] == s[9] as u8);
        assert(enc[10] == s[10] as u8);
    }
    assert(e_string(s) =~= map_header());
}

#[verifier::spinoff_prover]
#[verifier::rlimit(40)]
proof fn lemma_file_from_parts(b: Seq<u8>, pkg: Seq<char>, lk: Seq<Seq<char>>, root: ElemV, s_pkg: Seq<u8>, s_lk: Seq<u8>, s_el: Seq<u8>)
    requires
        b == map_header() + s_pkg + le16(lk.len() as int) + s_lk + s_el,
        lk.len() <= 65535,
        p_str(s_pkg + (le16(lk.len() as int) + s_lk + s_el)) == Parsed::Done(pkg, s_pkg.len()),
        p_strs(s_lk + s_el, lk.len()) == Parsed::Done(lk, s_lk.len()),
        p_element(s_el, lk) == Parsed::Done(root, s_el.len()),
    ensures
        p_file(b) == Parsed::Done((pkg, root), b.len()),
{
    let after_pkg = le16(lk.len() as int) + s_lk + s_el;
    let k1 = s_pkg.len();
    assert(b.take(12) =~= map_header());
    assert(b.skip(12) =~= s_pkg + after_pkg);
    assert(b.skip(12 + k1 as int) =~= after_pkg);
    lemma_u16_of_le16(lk.len() as int);
    assert(b[12 + k1 as int] == after_pkg[0] && b[13 + k1 as int] == after_pkg[1]);
    assert(b.skip(14 + k1 as int) =~= s_lk + s_el);
    assert(b.skip(14 + k1 + s_lk.len() as int) =~= s_el);
}

/// A map file that can be written with lookup `lk` reads back as its package
/// name and root element, taking all the bytes written.
pub proof fn law_file_roundtrip(pkg: Seq<char>, lk: Seq<Seq<char>>, root: ElemV)
    requires
        file_writable(pkg, lk, root),
    ensures
        p_file(e_file(pkg, lk, root)) == Parsed::Done((pkg, root), e_file(pkg, lk, root).len()),
{
    let s_pkg = e_string(pkg);
    let s_lk = e_strings(lk);
    let s_el = e_elem(lk, root);
    let b = e_file(pkg, lk, root);
    lemma_header();
    assert(b == map_header() + s_pkg + le16(lk.len() as int) + s_lk + s_el);
    law_string_roundtrip(pkg, le16(lk.len() as int) + s_lk + s_el);
    lemma_strs_roundtrip(lk, s_el);
    assert(p_element(s_el, lk) == Parsed::Done(root, s_el.len())) by {
        law_element_roundtrip(lk, root, Seq::<u8>::empty());
        reveal(elem_reads_back);
        assert(s_el + Seq::<u8>::empty() == s_el);
    }
    lemma_file_from_parts(b, pkg, lk, root, s_pkg, s_lk, s_el);
}

} // verus!

use vstd::prelude::*;
use crate::binlaw::{lemma_elem_found, law_file_roundtrip};
use crate::binel::{
    AttrV, BinEl, BinFile, BinElAttr, ElemV, attr_view, el_view, groups_view, elems_view, lemma_flatten_len,
    lemma_elems_view_take, lemma_groups_view_take, lemma_elems_view_len, lemma_groups_view_len,
};
use crate::binfmt::{
    leb_bytes, le16, le32, e_string, e_bool, e_int, e_float, lead_run, rle_encode, index_in,
    rle_chosen, e_text, e_value, e_attrs, e_elem, e_groups, e_elems, missing_attrs, missing_elem,
    missing_groups, missing_elems, lemma_missing_attrs_prefix, lemma_missing_groups_prefix,
    lemma_missing_elems_prefix, attrs_count, word_count, groups_count, elems_count,
    lemma_attrs_count_prefix, lemma_groups_count_prefix, lemma_elems_count_prefix, lookup_for,
    e_strings, e_file, lemma_index_in, file_writable, p_file, Parsed,
};
use vstd::utf8::encode_utf8;
use vstd::string::StringSliceAdditionalSpecFns;

verus! {

/// The LEB128 encoding of `n`, as `unsigned_varint::encode::usize` writes it.
#[verifier::external_body]
fn varint_bytes(n: usize) -> (r: Vec<u8>)
    ensures
        r@ == leb_bytes(n as nat),
{
    let mut buf = unsigned_varint::encode::usize_buffer();
    unsigned_varint::encode::usize(n, &mut buf).to_vec()
}

/// Appends `bytes` to `buf`.
fn push_bytes(buf: &mut Vec<u8>, bytes: &[u8])
    ensures
        final(buf)@ == old(buf)@ + bytes@,
{
    let mut i: usize = 0;
    while i < bytes.len()
        invariant
            i <= bytes@.len(),
            buf@ == old(buf)@ + bytes@.take(i as int),
        decreases bytes@.len() - i,
    {
        buf.push(bytes[i]);
        i = i + 1;
        proof { assert(bytes@.take(i as int) == bytes@.take(i - 1).push(bytes@[i - 1])); }
    }
    proof { assert(bytes@.take(i as int) == bytes@); }
}

/// Writes a string: the LEB128 length of its UTF-8 bytes, then the bytes.
pub fn put_string(buf: &mut Vec<u8>, s: &str)
    ensures
        final(buf)@ == old(buf)@ + e_string(s@),
{
    let bytes = s.as_bytes();
    let len = varint_bytes(bytes.len());
    push_bytes(buf, len.as_slice());
    push_bytes(buf, bytes);
    proof { assert(old(buf)@ + len@ + bytes@ == old(buf)@ + (len@ + bytes@)); }
}

/// Writes a bool, tagged with 0x00.
pub fn put_tagged_bool(buf: &mut Vec<u8>, val: bool)
    ensures
        final(buf)@ == old(buf)@ + e_bool(val),
{
    buf.push(0u8);
    buf.push(if val { 1u8 } else { 0u8 });
    proof { assert(buf@ =~= old(buf)@ + e_bool(val)); }
}

/// Appends the two little-endian bytes of `v` modulo 2^16.
fn push_le16(buf: &mut Vec<u8>, v: usize)
    ensures
        final(buf)@ == old(buf)@ + le16(v as int),
{
    buf.push((v % 256) as u8);
    buf.push(((v / 256) % 256) as u8);
    proof { assert(buf@ =~= old(buf)@ + le16(v as int)); }
}

/// Appends the four little-endian bytes of `v`.
fn push_le32(buf: &mut Vec<u8>, v: u32)
    ensures
        final(buf)@ == old(buf)@ + le32(v as int),
{
    buf.push((v % 256) as u8);
    buf.push(((v / 256) % 256) as u8);
    buf.push(((v / 65536) % 256) as u8);
    buf.push(((v / 16777216) % 256) as u8);
    proof { assert(buf@ =~= old(buf)@ + le32(v as int)); }
}

proof fn lemma_le16_wrap(v: int)
    ensures le16(v) == le16(v + 65536),
{
    assert((v + 65536) % 256 == v % 256);
    assert((v + 65536) / 256 == v / 256 + 256);
    assert(((v + 65536) / 256) % 256 == (v / 256) % 256);
}

proof fn lemma_le32_wrap(v: int)
    ensures le32(v) == le32(v + 4294967296),
{
    assert((v + 4294967296) % 256 == v % 256);
    assert((v + 4294967296) / 256 == v / 256 + 16777216);
    assert((v + 4294967296) / 65536 == v / 65536 + 65536);
    assert((v + 4294967296) / 16777216 == v / 16777216 + 256);
    assert(((v + 4294967296) / 256) % 256 == (v / 256) % 256);
    assert(((v + 4294967296) / 65536) % 256 == (v / 65536) % 256);
    assert(((v + 4294967296) / 16777216) % 256 == (v / 16777216) % 256);
}

/// Writes an integer as a u8 (tagged 0x01), an i16 (tagged 0x02) or an i32
/// (tagged 0x03), whichever is the first to hold it.
pub fn put_tagged_int(buf: &mut Vec<u8>, val: i32)
    ensures
        final(buf)@ == old(buf)@ + e_int(val),
{
    let ghost start = buf@;
    if 0 <= val && val <= 255 {
        buf.push(1u8);
        buf.push(val as u8);
        proof { assert(buf@ =~= start + e_int(val)); }
    } else if -32768 <= val && val <= 32767 {
        buf.push(2u8);
        let u: usize = if val < 0 { (val + 65536) as usize } else { val as usize };
        proof { if val < 0 { lemma_le16_wrap(val as int); } }
        push_le16(buf, u);
        proof { assert(buf@ =~= start + e_int(val)); }
    } else {
        buf.push(3u8);
        let u: u32 = if val < 0 { ((val as i64) + 4294967296i64) as u32 } else { val as u32 };
        proof { if val < 0 { lemma_le32_wrap(val as int); } }
        push_le32(buf, u);
        proof { assert(buf@ =~= start + e_int(val)); }
    }
}

/// Writes a float, given by its bits, tagged with 0x04.
pub fn put_tagged_f32(buf: &mut Vec<u8>, bits: u32)
    ensures
        final(buf)@ == old(buf)@ + e_float(bits),
{
    let ghost start = buf@;
    buf.push(4u8);
    push_le32(buf, bits);
    proof { assert(buf@ =~= start + e_float(bits)); }
}

proof fn lemma_lead_run(s: Seq<u8>, k: int)
    requires
        1 <= k <= s.len(),
        forall|t: int| 0 <= t < k ==> #[trigger] s[t] == s[0],
        k == s.len() || s[k] != s[0],
    ensures
        lead_run(s) == k,
    decreases k,
{
    if k > 1 {
        let d = s.drop_first();
        assert forall|t: int| 0 <= t < k - 1 implies #[trigger] d[t] == d[0] by {
            assert(d[t] == s[t + 1]);
            assert(d[0] == s[1]);
        }
        assert(k - 1 == d.len() || d[k - 1] != d[0]) by {
            if k - 1 < d.len() { assert(d[k - 1] == s[k]); assert(d[0] == s[1]); }
        }
        lemma_lead_run(d, k - 1);
    }
}

/// Encodes a string's UTF-8 bytes in Celeste's run-length format: for each
/// run of equal bytes, its length modulo 256, then the byte.
pub fn encode_rle_string(string: &str) -> (r: Vec<u8>)
    ensures
        r@ == rle_encode(encode_utf8(string@)),
{
    let b = string.as_bytes();
    let mut out: Vec<u8> = Vec::new();
    let mut i: usize = 0;
    proof { assert(b@.skip(0) == b@); assert(out@ + b@ == b@); }
    while i < b.len()
        invariant
            i <= b@.len(),
            rle_encode(b@) == out@ + rle_encode(b@.skip(i as int)),
        decreases b@.len() - i,
    {
        let c = b[i];
        let mut j: usize = i + 1;
        while j < b.len() && b[j] == c
            invariant
                i < j <= b@.len(),
                c == b@[i as int],
                forall|t: int| i <= t < j ==> b@[t] == c,
            decreases b@.len() - j,
        {
            j = j + 1;
        }
        proof {
            let s = b@.skip(i as int);
            assert forall|t: int| 0 <= t < j - i implies #[trigger] s[t] == s[0] by {
                assert(s[t] == b@[i + t]);
            }
            lemma_lead_run(s, (j - i) as int);
            assert(s.skip((j - i) as int) == b@.skip(j as int));
        }
        out.push(((j - i) % 256) as u8);
        out.push(c);
        i = j;
    }
    proof {
        assert(b@.skip(i as int).len() == 0);
        assert(out@ + Seq::<u8>::empty() == out@);
    }
    out
}

/// The view of a lookup table.
pub open spec fn lookup_view(lookup: Seq<String>) -> Seq<Seq<char>> {
    Seq::new(lookup.len(), |i: int| lookup[i]@)
}

proof fn lemma_index_in_is(lk: Seq<Seq<char>>, s: Seq<char>, i: int)
    requires
        0 <= i <= lk.len(),
        forall|j: int| 0 <= j < i ==> lk[j] != s,
        i < lk.len() ==> lk[i] == s,
    ensures
        index_in(lk, s) == i,
    decreases lk.len(),
{
    if lk.len() > 0 && i > 0 {
        assert forall|j: int| 0 <= j < i - 1 implies lk.drop_first()[j] != s by {
            assert(lk.drop_first()[j] == lk[j + 1]);
        }
        lemma_index_in_is(lk.drop_first(), s, i - 1);
    }
}

/// The position of `s` in the lookup table, or the table's length.
fn lookup_position(lookup: &[String], s: &String) -> (r: usize)
    ensures
        r as int == index_in(lookup_view(lookup@), s@),
{
    let ghost lk = lookup_view(lookup@);
    let mut i: usize = 0;
    while i < lookup.len()
        invariant
            lk == lookup_view(lookup@),
            i <= lookup@.len(),
            forall|j: int| 0 <= j < i ==> lk[j] != s@,
        decreases lookup@.len() - i,
    {
        if lookup[i] == *s {
            proof { lemma_index_in_is(lk, s@, i as int); }
            return i;
        }
        i = i + 1;
    }
    proof { lemma_index_in_is(lk, s@, i as int); }
    i
}

/// Writes a string by its lookup index (tagged 0x05), run-length encoded
/// (tagged 0x07) when that is shorter and its length fits an i16, or plain
/// (tagged 0x06).
pub fn put_tagged_str(buf: &mut Vec<u8>, lookup: &[String], val: &str)
    ensures
        final(buf)@ == old(buf)@ + e_text(lookup_view(lookup@), val@),
{
    let ghost start = buf@;
    let v = val.to_owned();
    let i = lookup_position(lookup, &v);
    if i < lookup.len() {
        buf.push(5u8);
        push_le16(buf, i);
        proof { assert(buf@ =~= start + e_text(lookup_view(lookup@), val@)); }
    } else {
        let rle = encode_rle_string(val);
        let n = val.as_bytes().len();
        if rle.len() < n && rle.len() <= 32767 {
            proof { assert(rle_chosen(val@)); }
            buf.push(7u8);
            push_le16(buf, rle.len());
            push_bytes(buf, rle.as_slice());
            proof { assert(buf@ =~= start + e_text(lookup_view(lookup@), val@)); }
        } else {
            proof { assert(!rle_chosen(val@)); }
            buf.push(6u8);
            put_string(buf, val);
            proof { assert(buf@ =~= start + e_text(lookup_view(lookup@), val@)); }
        }
    }
}

/// A name that a write needed and did not find in the lookup.
#[derive(Debug, PartialEq, Eq)]
pub enum BinWriteError {
    MissingElementName(String),
    MissingAttributeName(String),
}

/// The missing name an error reports, tagged `true` for an element name.
pub open spec fn write_error_view(e: BinWriteError) -> (bool, Seq<char>) {
    match e {
        BinWriteError::MissingElementName(n) => (true, n@),
        BinWriteError::MissingAttributeName(n) => (false, n@),
    }
}

/// Writes an attribute value with its tag.
fn put_value(buf: &mut Vec<u8>, lookup: &[String], value: &BinElAttr)
    ensures
        final(buf)@ == old(buf)@ + e_value(lookup_view(lookup@), attr_view(*value)),
{
    match value {
        BinElAttr::Bool(v) => put_tagged_bool(buf, *v),
        BinElAttr::Int(v) => put_tagged_int(buf, *v),
        BinElAttr::Float(v) => put_tagged_f32(buf, *v),
        BinElAttr::Text(v) => put_tagged_str(buf, lookup, v.as_str()),
    }
}

/// Writes an element with the lookup table: the index of its name, its
/// attributes and its children. Fails at the first name or attribute key that
/// is not in the table, having written what came before it.
pub fn put_element(buf: &mut Vec<u8>, lookup: &[String], elem: &BinEl) -> (r: Result<(), BinWriteError>)
    ensures
        match r {
            Ok(()) => missing_elem(lookup_view(lookup@), el_view(*elem)) is None
                && final(buf)@ == old(buf)@ + e_elem(lookup_view(lookup@), el_view(*elem)),
            Err(e) => missing_elem(lookup_view(lookup@), el_view(*elem)) == Some(write_error_view(e)),
        },
        old(buf)@.len() <= final(buf)@.len(),
        final(buf)@.subrange(0, old(buf)@.len() as int) == old(buf)@,
    decreases elem,
{
    let ghost lk = lookup_view(lookup@);
    let ghost start = buf@;
    let ghost ev = el_view(*elem);
    let name_index = lookup_position(lookup, &elem.name);
    if name_index >= lookup.len() {
        return Err(BinWriteError::MissingElementName(elem.name.clone()));
    }
    push_le16(buf, name_index);
    buf.push((elem.attributes.len() % 256) as u8);
    let ghost head = buf@;
    proof { assert(head.subrange(0, start.len() as int) =~= start); }
    let ghost av = ev.attrs;
    let mut a: usize = 0;
    proof { assert(av.take(0) =~= Seq::<(Seq<char>, AttrV)>::empty()); assert(head + Seq::<u8>::empty() == head); }
    while a < elem.attributes.len()
        invariant
            lk == lookup_view(lookup@),
            ev == el_view(*elem),
            av == ev.attrs,
            av.len() == elem.attributes@.len(),
            a <= av.len(),
            index_in(lk, ev.name) < lk.len(),
            missing_attrs(lk, av.take(a as int)) is None,
            buf@ == head + e_attrs(lk, av.take(a as int)),
            start.len() <= head.len(),
            head.subrange(0, start.len() as int) == start,
            start == old(buf)@,
        decreases av.len() - a,
    {
        let key = &elem.attributes[a].0;
        let ai = lookup_position(lookup, key);
        proof {
            assert(av.take(a + 1).drop_last() == av.take(a as int));
            assert(av.take(a + 1).last() == av[a as int]);
            assert(av[a as int].0 == key@);
        }
        if ai >= lookup.len() {
            proof {
                assert(missing_attrs(lk, av.take(a + 1)) == Some(key@));
                lemma_missing_attrs_prefix(lk, av, a + 1);
                assert(index_in(lk, ev.name) < lk.len());
                assert(missing_elem(lk, ev) == Some((false, key@)));
                assert(buf@.subrange(0, start.len() as int) =~= head.subrange(0, start.len() as int));
            }
            return Err(BinWriteError::MissingAttributeName(key.clone()));
        }
        let ghost before = buf@;
        push_le16(buf, ai);
        put_value(buf, lookup, &elem.attributes[a].1);
        proof {
            assert(av[a as int].1 == attr_view(elem.attributes@[a as int].1));
            assert(buf@ =~= before + le16(ai as int) + e_value(lk, av[a as int].1));
        }
        a = a + 1;
    }
    proof { assert(av.take(a as int) == av); }
    let kids = elem.children();
    proof { lemma_flatten_len(elem.children@); }
    push_le16(buf, kids.len());
    let ghost mid = buf@;
    let ghost gs = elem.children@;
    proof {
        assert(buf@ =~= head + e_attrs(lk, av) + le16(kids@.len() as int));
        assert(mid.subrange(0, start.len() as int) =~= head.subrange(0, start.len() as int));
    }
    let mut g: usize = 0;
    proof { assert(gs.take(0) =~= Seq::<(String, Vec<BinEl>)>::empty()); assert(mid + Seq::<u8>::empty() == mid); }
    while g < elem.children.len()
        invariant
            lk == lookup_view(lookup@),
            gs == elem.children@,
            g <= gs.len(),
            ev == el_view(*elem),
            index_in(lk, ev.name) < lk.len(),
            missing_attrs(lk, ev.attrs) is None,
            missing_groups(lk, groups_view(gs.take(g as int))) is None,
            buf@ == mid + e_groups(lk, groups_view(gs.take(g as int))),
            start.len() <= mid.len(),
            mid.subrange(0, start.len() as int) == start,
            start == old(buf)@,
        decreases gs.len() - g,
    {
        let group = &elem.children[g].1;
        let ghost es = group@;
        let ghost gbase = buf@;
        proof { assert(gbase.subrange(0, start.len() as int) =~= mid.subrange(0, start.len() as int)); }
        let mut j: usize = 0;
        proof { assert(es.take(0) =~= Seq::<BinEl>::empty()); assert(gbase + Seq::<u8>::empty() == gbase); }
        while j < group.len()
            invariant
                lk == lookup_view(lookup@),
                gs == elem.children@,
                g < gs.len(),
                ev == el_view(*elem),
                index_in(lk, ev.name) < lk.len(),
                missing_attrs(lk, ev.attrs) is None,
                missing_groups(lk, groups_view(gs.take(g as int))) is None,
                *group == gs[g as int].1,
                es == group@,
                j <= es.len(),
                missing_elems(lk, elems_view(es.take(j as int))) is None,
                buf@ == gbase + e_elems(lk, elems_view(es.take(j as int))),
                start.len() <= gbase.len(),
                gbase.subrange(0, start.len() as int) == start,
                start == old(buf)@,
            decreases es.len() - j,
        {
            let ghost before = buf@;
            let res = put_element(buf, lookup, &group[j]);
            proof {
                assert(es.take(j + 1).drop_last() == es.take(j as int));
                assert(es.take(j + 1).last() == es[j as int]);
            }
            let ghost ev1 = elems_view(es.take(j + 1));
            proof {
                assert(ev1 == elems_view(es.take(j as int)).push(el_view(es[j as int])));
                assert(ev1.drop_last() == elems_view(es.take(j as int)));
                assert(ev1.last() == el_view(es[j as int]));
            }
            match res {
                Ok(()) => {},
                Err(e) => {
                    proof {
                        assert(missing_elems(lk, ev1) == Some(write_error_view(e)));
                        lemma_elems_view_take(es, j + 1);
                        lemma_elems_view_len(es);
                        lemma_groups_view_len(gs);
                        lemma_missing_elems_prefix(lk, elems_view(es), j + 1);
                        assert(es.take(es.len() as int) == es);
                        let gv1 = groups_view(gs.take(g + 1));
                        assert(gs.take(g + 1).drop_last() == gs.take(g as int));
                        assert(gs.take(g + 1).last() == gs[g as int]);
                        assert(gv1 == groups_view(gs.take(g as int)).push((gs[g as int].0@, elems_view(es))));
                        assert(gv1.drop_last() == groups_view(gs.take(g as int)));
                        assert(gv1.last().1 == elems_view(es));
                        assert(missing_groups(lk, gv1) == Some(write_error_view(e)));
                        lemma_groups_view_take(gs, g + 1);
                        lemma_missing_groups_prefix(lk, groups_view(gs), g + 1);
                        assert(gs.take(gs.len() as int) == gs);
                        assert(before.subrange(0, start.len() as int) =~= gbase.subrange(0, start.len() as int));
                        assert(buf@.subrange(0, start.len() as int) =~= before.subrange(0, start.len() as int));
                    }
                    return Err(e);
                },
            }
            j = j + 1;
            proof {
                assert(buf@ =~= before + e_elem(lk, el_view(es[j - 1])));
            }
        }
        proof {
            assert(es.take(j as int) == es);
            let gv1 = groups_view(gs.take(g + 1));
            assert(gs.take(g + 1).drop_last() == gs.take(g as int));
            assert(gs.take(g + 1).last() == gs[g as int]);
            assert(gv1 == groups_view(gs.take(g as int)).push((gs[g as int].0@, elems_view(es))));
            assert(gv1.drop_last() == groups_view(gs.take(g as int)));
            assert(gv1.last().1 == elems_view(es));
        }
        g = g + 1;
    }
    proof {
        assert(gs.take(g as int) == gs);
        assert(buf@ =~= start + e_elem(lk, ev));
    }
    Ok(())
}

/// `seen` holds each word once, with the positive count that `f` gives it, and
/// every word to which `f` gives a positive count.
pub open spec fn tally(seen: Seq<(String, usize)>, f: spec_fn(Seq<char>) -> nat) -> bool {
    &&& forall|i: int, j: int| 0 <= i < j < seen.len() ==> seen[i].0@ != seen[j].0@
    &&& forall|i: int| 0 <= i < seen.len() ==> seen[i].1 as nat == f(seen[i].0@) && seen[i].1 >= 1
    &&& forall|s: Seq<char>| #[trigger] f(s) > 0 ==> exists|i: int| 0 <= i < seen.len() && seen[i].0@ == s
}

proof fn lemma_tally_ext(seen: Seq<(String, usize)>, f: spec_fn(Seq<char>) -> nat, g: spec_fn(Seq<char>) -> nat)
    requires
        tally(seen, f),
        forall|s: Seq<char>| #[trigger] g(s) == f(s),
    ensures
        tally(seen, g),
{
    assert forall|s: Seq<char>| #[trigger] g(s) > 0 implies exists|i: int| 0 <= i < seen.len() && seen[i].0@ == s by {
        assert(f(s) > 0);
    }
}

/// The counts `f` with one more for `key`.
pub open spec fn plus_one(f: spec_fn(Seq<char>) -> nat, key: Seq<char>) -> spec_fn(Seq<char>) -> nat {
    |s: Seq<char>| f(s) + if s == key { 1nat } else { 0nat }
}

/// Counts one more occurrence of `key`.
fn bump(seen: &mut Vec<(String, usize)>, key: &String, Ghost(f): Ghost<spec_fn(Seq<char>) -> nat>)
    requires
        tally(old(seen)@, f),
        f(key@) + 1 <= usize::MAX,
    ensures
        tally(final(seen)@, plus_one(f, key@)),
{
    let ghost g = plus_one(f, key@);
    let mut i: usize = 0;
    while i < seen.len()
        invariant
            i <= seen@.len(),
            seen@ == old(seen)@,
            tally(old(seen)@, f),
            f(key@) + 1 <= usize::MAX,
            g == plus_one(f, key@),
            forall|j: int| 0 <= j < i ==> seen@[j].0@ != key@,
        decreases seen@.len() - i,
    {
        if seen[i].0 == *key {
            let c = seen[i].1;
            let k = seen[i].0.clone();
            seen.set(i, (k, c + 1));
            proof {
                let old_seen = old(seen)@;
                assert forall|s: Seq<char>| #[trigger] g(s) > 0 implies exists|t: int| 0 <= t < seen@.len() && seen@[t].0@ == s by {
                    assert(g(s) == f(s) + if s == key@ { 1nat } else { 0nat });
                    if s == key@ {
                        assert(seen@[i as int].0@ == s);
                    } else {
                        assert(f(s) > 0);
                        let t = choose|t: int| 0 <= t < old_seen.len() && old_seen[t].0@ == s;
                        assert(seen@[t].0@ == s);
                    }
                }
            }
            return;
        }
        i = i + 1;
    }
    proof {
        if f(key@) > 0 {
            let t = choose|t: int| 0 <= t < seen@.len() && seen@[t].0@ == key@;
            assert(seen@[t].0@ == key@);
        }
    }
    seen.push((key.clone(), 1));
    proof {
        let old_seen = old(seen)@;
        assert forall|s: Seq<char>| #[trigger] g(s) > 0 implies exists|t: int| 0 <= t < seen@.len() && seen@[t].0@ == s by {
            assert(g(s) == f(s) + if s == key@ { 1nat } else { 0nat });
            if s == key@ {
                assert(seen@[old_seen.len() as int].0@ == s);
            } else {
                assert(f(s) > 0);
                let t = choose|t: int| 0 <= t < old_seen.len() && old_seen[t].0@ == s;
                assert(seen@[t].0@ == s);
            }
        }
    }
}

pub open spec fn plus_attrs(f: spec_fn(Seq<char>) -> nat, av: Seq<(Seq<char>, AttrV)>) -> spec_fn(Seq<char>) -> nat {
    |s: Seq<char>| f(s) + attrs_count(av, s)
}

pub open spec fn plus_groups(f: spec_fn(Seq<char>) -> nat, gs: Seq<(Seq<char>, Seq<ElemV>)>) -> spec_fn(Seq<char>) -> nat {
    |s: Seq<char>| f(s) + groups_count(gs, s)
}

pub open spec fn plus_elems(f: spec_fn(Seq<char>) -> nat, es: Seq<ElemV>) -> spec_fn(Seq<char>) -> nat {
    |s: Seq<char>| f(s) + elems_count(es, s)
}

pub open spec fn plus_count(f: spec_fn(Seq<char>) -> nat, e: ElemV) -> spec_fn(Seq<char>) -> nat {
    |s: Seq<char>| f(s) + word_count(e, s)
}

/// Adds to `seen` the names, keys and texts (but inner text) of `binel` and of
/// its descendants, counting each occurrence.
fn gen_lookup_keys(binel: &BinEl, seen: &mut Vec<(String, usize)>, inner: &String, Ghost(f): Ghost<spec_fn(Seq<char>) -> nat>)
    requires
        inner@ == "innerText"@,
        tally(old(seen)@, f),
        forall|s: Seq<char>| #[trigger] f(s) + word_count(el_view(*binel), s) <= usize::MAX,
    ensures
        tally(final(seen)@, plus_count(f, el_view(*binel))),
    decreases binel,
{
    let ghost ev = el_view(*binel);
    let ghost av = ev.attrs;
    proof { assert(f(ev.name) + word_count(ev, ev.name) <= usize::MAX); }
    bump(seen, &binel.name, Ghost(f));
    let ghost f1 = plus_one(f, ev.name);
    proof {
        assert(av.take(0) =~= Seq::<(Seq<char>, AttrV)>::empty());
        lemma_tally_ext(seen@, f1, plus_attrs(f1, av.take(0)));
    }
    let mut a: usize = 0;
    while a < binel.attributes.len()
        invariant
            inner@ == "innerText"@,
            ev == el_view(*binel),
            av == ev.attrs,
            av.len() == binel.attributes@.len(),
            a <= av.len(),
            f1 == plus_one(f, ev.name),
            forall|s: Seq<char>| #[trigger] f(s) + word_count(ev, s) <= usize::MAX,
            tally(seen@, plus_attrs(f1, av.take(a as int))),
        decreases av.len() - a,
    {
        let ghost fa = plus_attrs(f1, av.take(a as int));
        let key = &binel.attributes[a].0;
        proof {
            assert(av.take(a + 1).drop_last() == av.take(a as int));
            assert(av.take(a + 1).last() == av[a as int]);
            assert(av[a as int].0 == key@);
            lemma_attrs_count_prefix(av, a + 1, key@);
            assert(f(key@) + word_count(ev, key@) <= usize::MAX);
        }
        bump(seen, key, Ghost(fa));
        let ghost fb = plus_one(fa, key@);
        let ghost fnext = plus_attrs(f1, av.take(a + 1));
        if *key != *inner {
            match &binel.attributes[a].1 {
                BinElAttr::Text(t) => {
                    proof {
                        assert(av[a as int].1 == AttrV::Text(t@));
                        lemma_attrs_count_prefix(av, a + 1, t@);
                        assert(f(t@) + word_count(ev, t@) <= usize::MAX);
                    }
                    bump(seen, t, Ghost(fb));
                    proof {
                        assert forall|s: Seq<char>| #[trigger] fnext(s) == plus_one(fb, t@)(s) by {}
                        lemma_tally_ext(seen@, plus_one(fb, t@), fnext);
                    }
                },
                _ => {
                    proof {
                        assert forall|s: Seq<char>| #[trigger] fnext(s) == fb(s) by {}
                        lemma_tally_ext(seen@, fb, fnext);
                    }
                },
            }
        } else {
            proof {
                assert forall|s: Seq<char>| #[trigger] fnext(s) == fb(s) by {}
                lemma_tally_ext(seen@, fb, fnext);
            }
        }
        a = a + 1;
    }
    proof { assert(av.take(a as int) == av); }
    let ghost f3 = plus_attrs(f1, av);
    let ghost gs = binel.children@;
    proof {
        assert(gs.take(0) =~= Seq::<(String, Vec<BinEl>)>::empty());
        lemma_tally_ext(seen@, f3, plus_groups(f3, groups_view(gs.take(0))));
    }
    let mut g: usize = 0;
    while g < binel.children.len()
        invariant
            inner@ == "innerText"@,
            ev == el_view(*binel),
            gs == binel.children@,
            g <= gs.len(),
            f3 == plus_attrs(plus_one(f, ev.name), ev.attrs),
            forall|s: Seq<char>| #[trigger] f(s) + word_count(ev, s) <= usize::MAX,
            tally(seen@, plus_groups(f3, groups_view(gs.take(g as int)))),
        decreases gs.len() - g,
    {
        let group = &binel.children[g].1;
        let ghost es = group@;
        let ghost fg = plus_groups(f3, groups_view(gs.take(g as int)));
        let ghost gv1 = groups_view(gs.take(g + 1));
        proof {
            assert(gs.take(g + 1).drop_last() == gs.take(g as int));
            assert(gs.take(g + 1).last() == gs[g as int]);
            assert(gv1 == groups_view(gs.take(g as int)).push((gs[g as int].0@, elems_view(es))));
            assert(gv1.drop_last() == groups_view(gs.take(g as int)));
            assert(gv1.last().1 == elems_view(es));
            assert(es.take(0) =~= Seq::<BinEl>::empty());
            lemma_tally_ext(seen@, fg, plus_elems(fg, elems_view(es.take(0))));
        }
        let mut j: usize = 0;
        while j < group.len()
            invariant
                inner@ == "innerText"@,
                ev == el_view(*binel),
                gs == binel.children@,
                g < gs.len(),
                *group == gs[g as int].1,
                es == group@,
                j <= es.len(),
                f3 == plus_attrs(plus_one(f, ev.name), ev.attrs),
                fg == plus_groups(f3, groups_view(gs.take(g as int))),
                gv1 == groups_view(gs.take(g + 1)),
                gv1.drop_last() == groups_view(gs.take(g as int)),
                gv1.last().1 == elems_view(es),
                forall|s: Seq<char>| #[trigger] f(s) + word_count(ev, s) <= usize::MAX,
                tally(seen@, plus_elems(fg, elems_view(es.take(j as int)))),
            decreases es.len() - j,
        {
            let ghost fj = plus_elems(fg, elems_view(es.take(j as int)));
            let ghost ev1 = elems_view(es.take(j + 1));
            proof {
                assert(es.take(j + 1).drop_last() == es.take(j as int));
                assert(es.take(j + 1).last() == es[j as int]);
                assert(ev1 == elems_view(es.take(j as int)).push(el_view(es[j as int])));
                assert(ev1.drop_last() == elems_view(es.take(j as int)));
                assert(ev1.last() == el_view(es[j as int]));
                assert forall|s: Seq<char>| #[trigger] fj(s) + word_count(el_view(group@[j as int]), s) <= usize::MAX by {
                    lemma_elems_view_take(es, j + 1);
                    lemma_elems_view_len(es);
                    lemma_elems_count_prefix(elems_view(es), j + 1, s);
                    lemma_groups_view_take(gs, g + 1);
                    lemma_groups_view_len(gs);
                    lemma_groups_count_prefix(groups_view(gs), g + 1, s);
                    assert(f(s) + word_count(ev, s) <= usize::MAX);
                }
            }
            gen_lookup_keys(&group[j], seen, inner, Ghost(fj));
            proof {
                let fnext = plus_elems(fg, ev1);
                assert forall|s: Seq<char>| #[trigger] fnext(s) == plus_count(fj, el_view(es[j as int]))(s) by {}
                lemma_tally_ext(seen@, plus_count(fj, el_view(es[j as int])), fnext);
            }
            j = j + 1;
        }
        proof {
            assert(es.take(j as int) == es);
            let fnext = plus_groups(f3, gv1);
            assert forall|s: Seq<char>| #[trigger] fnext(s) == plus_elems(fg, elems_view(es))(s) by {}
            lemma_tally_ext(seen@, plus_elems(fg, elems_view(es)), fnext);
        }
        g = g + 1;
    }
    proof {
        assert(gs.take(g as int) == gs);
        let fin = plus_count(f, ev);
        assert forall|s: Seq<char>| #[trigger] fin(s) == plus_groups(f3, groups_view(gs))(s) by {}
        lemma_tally_ext(seen@, plus_groups(f3, groups_view(gs)), fin);
    }
}

/// Whether `s` is one of the first `i` words of `out`.
pub open spec fn listed(out: Seq<String>, i: int, s: Seq<char>) -> bool {
    exists|t: int| 0 <= t < i && #[trigger] out[t]@ == s
}

/// Whether `s` is one of the first `i` words of `seen`.
pub open spec fn tallied(seen: Seq<(String, usize)>, i: int, s: Seq<char>) -> bool {
    exists|u: int| 0 <= u < i && #[trigger] seen[u].0@ == s
}

/// `out` holds the first `i` words of `seen`, each once, with their counts
/// under `w` in `counts`, the higher counts first.
pub open spec fn ranked(seen: Seq<(String, usize)>, w: spec_fn(Seq<char>) -> nat, out: Seq<String>, counts: Seq<usize>, i: int) -> bool {
    &&& 0 <= i <= seen.len()
    &&& out.len() == i
    &&& counts.len() == i
    &&& forall|t: int| 0 <= t < i ==> counts[t] as nat == w(#[trigger] out[t]@)
    &&& forall|t1: int, t2: int| 0 <= t1 < t2 < i ==> out[t1]@ != out[t2]@
    &&& forall|t1: int, t2: int| 0 <= t1 < t2 < i ==> counts[t1] >= counts[t2]
    &&& forall|t: int| 0 <= t < i ==> tallied(seen, i, #[trigger] out[t]@)
    &&& forall|u: int| 0 <= u < i ==> listed(out, i, #[trigger] seen[u].0@)
}

proof fn lemma_insert_counts(w: spec_fn(Seq<char>) -> nat, out: Seq<String>, counts: Seq<usize>, i: int, p: int, x: String, c: usize)
    requires
        out.len() == i, counts.len() == i, 0 <= p <= i,
        forall|t: int| 0 <= t < i ==> counts[t] as nat == w(#[trigger] out[t]@),
        c as nat == w(x@),
    ensures
        forall|t: int| 0 <= t < i + 1 ==> counts.insert(p, c)[t] as nat == w(#[trigger] out.insert(p, x)[t]@),
{
    let out2 = out.insert(p, x);
    let counts2 = counts.insert(p, c);
    assert forall|t: int| 0 <= t < i + 1 implies counts2[t] as nat == w(#[trigger] out2[t]@) by {
        if t < p { assert(out2[t] == out[t]); assert(counts2[t] == counts[t]); }
        else if t > p { assert(out2[t] == out[t - 1]); assert(counts2[t] == counts[t - 1]); }
    }
}

proof fn lemma_insert_sorted(counts: Seq<usize>, p: int, c: usize)
    requires
        0 <= p <= counts.len(),
        forall|t1: int, t2: int| 0 <= t1 < t2 < counts.len() ==> counts[t1] >= counts[t2],
        forall|t: int| 0 <= t < p ==> counts[t] >= c,
        p < counts.len() ==> counts[p] < c,
    ensures
        forall|t1: int, t2: int| 0 <= t1 < t2 < counts.len() + 1 ==> counts.insert(p, c)[t1] >= counts.insert(p, c)[t2],
{
    let counts2 = counts.insert(p, c);
    assert forall|t1: int, t2: int| 0 <= t1 < t2 < counts.len() + 1 implies counts2[t1] >= counts2[t2] by {
        if t1 < p && t2 > p { assert(counts2[t2] == counts[t2 - 1]); assert(counts2[t1] == counts[t1]); }
        if t1 < p && t2 <= p { assert(counts2[t1] == counts[t1]); }
        if t1 == p && t2 > p { assert(counts2[t2] == counts[t2 - 1]); assert(counts[p] >= counts[t2 - 1]); }
        if t1 > p { assert(counts2[t2] == counts[t2 - 1]); assert(counts2[t1] == counts[t1 - 1]); }
    }
}

proof fn lemma_insert_cover(seen: Seq<(String, usize)>, out: Seq<String>, i: int, p: int)
    requires
        out.len() == i, 0 <= p <= i, i < seen.len(),
        forall|t: int| 0 <= t < i ==> tallied(seen, i, #[trigger] out[t]@),
        forall|u: int| 0 <= u < i ==> listed(out, i, #[trigger] seen[u].0@),
    ensures
        forall|t: int| 0 <= t < i + 1 ==> tallied(seen, i + 1, #[trigger] out.insert(p, seen[i].0)[t]@),
        forall|u: int| 0 <= u < i + 1 ==> listed(out.insert(p, seen[i].0), i + 1, #[trigger] seen[u].0@),
{
    let out2 = out.insert(p, seen[i].0);
    assert forall|t: int| 0 <= t < i + 1 implies tallied(seen, i + 1, #[trigger] out2[t]@) by {
        if t < p {
            assert(out2[t] == out[t]);
            assert(tallied(seen, i, out[t]@));
            let u = choose|u: int| 0 <= u < i && #[trigger] seen[u].0@ == out[t]@;
            assert(seen[u].0@ == out2[t]@);
        } else if t > p {
            assert(out2[t] == out[t - 1]);
            assert(tallied(seen, i, out[t - 1]@));
            let u = choose|u: int| 0 <= u < i && #[trigger] seen[u].0@ == out[t - 1]@;
            assert(seen[u].0@ == out2[t]@);
        } else {
            assert(seen[i].0@ == out2[t]@);
        }
    }
    assert forall|u: int| 0 <= u < i + 1 implies listed(out2, i + 1, #[trigger] seen[u].0@) by {
        if u < i {
            assert(listed(out, i, seen[u].0@));
            let t = choose|t: int| 0 <= t < i && #[trigger] out[t]@ == seen[u].0@;
            if t < p { assert(out2[t] == out[t]); } else { assert(out2[t + 1] == out[t]); }
        } else {
            assert(out2[p]@ == seen[u].0@);
        }
    }
}

proof fn lemma_insert_distinct(seen: Seq<(String, usize)>, out: Seq<String>, i: int, p: int)
    requires
        out.len() == i, 0 <= p <= i, i < seen.len(),
        forall|a: int, b: int| 0 <= a < b < seen.len() ==> seen[a].0@ != seen[b].0@,
        forall|t1: int, t2: int| 0 <= t1 < t2 < i ==> out[t1]@ != out[t2]@,
        forall|t: int| 0 <= t < i ==> tallied(seen, i, #[trigger] out[t]@),
    ensures
        forall|t1: int, t2: int| 0 <= t1 < t2 < i + 1 ==> out.insert(p, seen[i].0)[t1]@ != out.insert(p, seen[i].0)[t2]@,
{
    let key = seen[i].0@;
    let out2 = out.insert(p, seen[i].0);
    assert forall|t1: int, t2: int| 0 <= t1 < t2 < i + 1 implies out2[t1]@ != out2[t2]@ by {
        if t1 < p && t2 < p { assert(out2[t1] == out[t1]); assert(out2[t2] == out[t2]); }
        else if t1 > p && t2 > p { assert(out2[t1] == out[t1 - 1]); assert(out2[t2] == out[t2 - 1]); }
        else if t1 < p && t2 > p { assert(out2[t1] == out[t1]); assert(out2[t2] == out[t2 - 1]); }
        else if t1 == p {
            assert(out2[t2] == out[t2 - 1]);
            assert(tallied(seen, i, out[t2 - 1]@));
            let u = choose|u: int| 0 <= u < i && #[trigger] seen[u].0@ == out[t2 - 1]@;
            assert(seen[u].0@ != key);
        } else {
            assert(out2[t1] == out[t1]);
            assert(tallied(seen, i, out[t1]@));
            let u = choose|u: int| 0 <= u < i && #[trigger] seen[u].0@ == out[t1]@;
            assert(seen[u].0@ != key);
        }
    }
}

proof fn lemma_ranked_insert(
    seen: Seq<(String, usize)>,
    w: spec_fn(Seq<char>) -> nat,
    out: Seq<String>,
    counts: Seq<usize>,
    i: int,
    p: int,
)
    requires
        tally(seen, w),
        ranked(seen, w, out, counts, i),
        i < seen.len(),
        0 <= p <= counts.len(),
        forall|t: int| 0 <= t < p ==> counts[t] >= seen[i].1,
        p < counts.len() ==> counts[p] < seen[i].1,
    ensures
        ranked(seen, w, out.insert(p, seen[i].0), counts.insert(p, seen[i].1), i + 1),
{
    lemma_insert_counts(w, out, counts, i, p, seen[i].0, seen[i].1);
    lemma_insert_sorted(counts, p, seen[i].1);
    lemma_insert_cover(seen, out, i, p);
    lemma_insert_distinct(seen, out, i, p);
}

/// The lookup table for an element: every name, attribute key and text value
/// (but inner text) of it and its descendants, once each, the most used first.
pub fn gen_lookup(binel: &BinEl) -> (r: Vec<String>)
    requires
        forall|s: Seq<char>| #[trigger] word_count(el_view(*binel), s) <= usize::MAX,
    ensures
        forall|i: int, j: int| 0 <= i < j < r@.len() ==> r@[i]@ != r@[j]@,
        forall|i: int| 0 <= i < r@.len() ==> word_count(el_view(*binel), #[trigger] r@[i]@) > 0,
        forall|s: Seq<char>| word_count(el_view(*binel), s) > 0 ==> exists|i: int| 0 <= i < r@.len() && #[trigger] r@[i]@ == s,
        forall|i: int, j: int| 0 <= i < j < r@.len() ==> word_count(el_view(*binel), r@[i]@) >= word_count(el_view(*binel), r@[j]@),
        lookup_for(lookup_view(r@), el_view(*binel)),
{
    let ghost ev = el_view(*binel);
    let ghost zero = |s: Seq<char>| 0nat;
    let mut seen: Vec<(String, usize)> = Vec::new();
    let inner = String::from_str("innerText");
    proof {
        reveal_strlit("innerText");
        assert forall|s: Seq<char>| #[trigger] zero(s) + word_count(ev, s) <= usize::MAX by {
            assert(word_count(ev, s) <= usize::MAX);
        }
    }
    gen_lookup_keys(binel, &mut seen, &inner, Ghost(zero));
    let ghost w = |s: Seq<char>| word_count(ev, s);
    proof {
        assert forall|s: Seq<char>| #[trigger] w(s) == plus_count(zero, ev)(s) by {}
        lemma_tally_ext(seen@, plus_count(zero, ev), w);
    }
    // Insertion by count, the higher first; among equal counts, first seen first.
    let mut out: Vec<String> = Vec::new();
    let mut counts: Vec<usize> = Vec::new();
    let mut i: usize = 0;
    while i < seen.len()
        invariant
            tally(seen@, w),
            ranked(seen@, w, out@, counts@, i as int),
        decreases seen@.len() - i,
    {
        let c = seen[i].1;
        let mut p: usize = 0;
        while p < counts.len() && counts[p] >= c
            invariant
                p <= counts@.len(),
                forall|t: int| 0 <= t < p ==> counts@[t] >= c,
            decreases counts@.len() - p,
        {
            p = p + 1;
        }
        proof { lemma_ranked_insert(seen@, w, out@, counts@, i as int, p as int); }
        let name = seen[i].0.clone();
        out.insert(p, name);
        counts.insert(p, c);
        i = i + 1;
    }
    proof {
        assert forall|t: int| 0 <= t < out@.len() implies word_count(ev, #[trigger] out@[t]@) > 0 by {
            assert(tallied(seen@, i as int, out@[t]@));
            let u = choose|u: int| 0 <= u < i && #[trigger] seen@[u].0@ == out@[t]@;
            assert(seen@[u].1 >= 1);
            assert(w(seen@[u].0@) == word_count(ev, out@[t]@));
        }
        assert forall|s: Seq<char>| word_count(ev, s) > 0 implies exists|t: int| 0 <= t < out@.len() && #[trigger] out@[t]@ == s by {
            assert(w(s) > 0);
            let u = choose|u: int| 0 <= u < seen@.len() && seen@[u].0@ == s;
            assert(listed(out@, i as int, seen@[u].0@));
            let t = choose|t: int| 0 <= t < i && #[trigger] out@[t]@ == seen@[u].0@;
            assert(out@[t]@ == s);
        }
        assert forall|t1: int, t2: int| 0 <= t1 < t2 < out@.len() implies word_count(ev, out@[t1]@) >= word_count(ev, out@[t2]@) by {
            assert(counts@[t1] as nat == w(out@[t1]@));
            assert(counts@[t2] as nat == w(out@[t2]@));
        }
        let lk = lookup_view(out@);
        assert forall|s: Seq<char>| word_count(ev, s) > 0 implies exists|t: int| 0 <= t < lk.len() && #[trigger] lk[t] == s by {
            let t = choose|t: int| 0 <= t < out@.len() && #[trigger] out@[t]@ == s;
            assert(lk[t] == s);
        }
        assert forall|t: int| 0 <= t < lk.len() implies word_count(ev, #[trigger] lk[t]) > 0 by {
            assert(lk[t] == out@[t]@);
        }
    }
    out
}

/// Writes a map file: the header, the package name, the lookup table of the
/// root's names, keys and texts, and the root element.
pub fn put_file(buf: &mut Vec<u8>, bin: &BinFile) -> (r: Result<(), BinWriteError>)
    requires
        forall|s: Seq<char>| #[trigger] word_count(el_view(bin.root), s) <= usize::MAX,
    ensures
        r is Ok,
        exists|lk: Seq<Seq<char>>| lookup_for(lk, el_view(bin.root))
            && final(buf)@ == old(buf)@ + e_file(bin.package@, lk, el_view(bin.root))
            && (file_writable(bin.package@, lk, el_view(bin.root)) ==> p_file(e_file(bin.package@, lk, el_view(bin.root)))
                == Parsed::Done((bin.package@, el_view(bin.root)), e_file(bin.package@, lk, el_view(bin.root)).len())),
{
    let ghost start = buf@;
    let ghost ev = el_view(bin.root);
    put_string(buf, "CELESTE MAP");
    put_string(buf, bin.package.as_str());
    let lookup = gen_lookup(&bin.root);
    let ghost lk = lookup_view(lookup@);
    push_le16(buf, lookup.len());
    let ghost mid = buf@;
    let mut i: usize = 0;
    proof { assert(lk.take(0) =~= Seq::<Seq<char>>::empty()); assert(mid + Seq::<u8>::empty() == mid); }
    while i < lookup.len()
        invariant
            lk == lookup_view(lookup@),
            i <= lookup@.len(),
            buf@ == mid + e_strings(lk.take(i as int)),
        decreases lookup@.len() - i,
    {
        let ghost before = buf@;
        put_string(buf, lookup[i].as_str());
        proof {
            assert(lk.take(i + 1).drop_last() == lk.take(i as int));
            assert(lk.take(i + 1).last() == lookup@[i as int]@);
            assert(buf@ =~= mid + e_strings(lk.take(i + 1)));
        }
        i = i + 1;
    }
    proof {
        assert(lk.take(i as int) == lk);
        assert forall|s: Seq<char>| #[trigger] word_count(ev, s) > 0 implies index_in(lk, s) < lk.len() by {
            let t = choose|t: int| 0 <= t < lk.len() && #[trigger] lk[t] == s;
            lemma_index_in(lk, s);
        }
        lemma_elem_found(lk, ev);
    }
    let ghost before = buf@;
    let r = put_element(buf, lookup.as_slice(), &bin.root);
    proof {
        assert(buf@ =~= start + e_file(bin.package@, lk, ev));
        if file_writable(bin.package@, lk, ev) {
            law_file_roundtrip(bin.package@, lk, ev);
        }
    }
    r
}

} // verus!

use vstd::prelude::*;
use crate::binel::{AttrV, ElemV, attrs_from, regroup, flatten};
use vstd::utf8::{valid_utf8, decode_utf8, encode_utf8, is_ascii_chars};

verus! {

/// The outcome of reading a value from the front of a byte string: the value and
/// the number of bytes it took, a failure, or a crash (the reader panics).
pub enum Parsed<T> {
    Done(T, nat),
    Failed,
    Crashed,
}

// ---------------------------------------------------------------------------
// Variable-length integers (LEB128: 7 bits per byte, low bits first, the high
// bit set on every byte but the last).

/// The LEB128 encoding of `n`, with no superfluous bytes.
pub open spec fn leb_bytes(n: nat) -> Seq<u8>
    decreases n,
{
    if n < 128 { seq![n as u8] } else { seq![(n % 128 + 128) as u8] + leb_bytes(n / 128) }
}

/// The number LEB128 bytes stand for, taken whole.
pub open spec fn leb_value(b: Seq<u8>) -> nat
    decreases b.len(),
{
    if b.len() == 0 { 0 } else { (b[0] % 128) as nat + 128 * leb_value(b.drop_first()) }
}

/// The length of the first LEB128 number in `b`: up to and including the first
/// byte below 128, if there is one.
pub open spec fn varint_end(b: Seq<u8>) -> Option<nat>
    decreases b.len(),
{
    if b.len() == 0 {
        None
    } else if b[0] < 128 {
        Some(1)
    } else {
        match varint_end(b.drop_first()) {
            Some(k) => Some(k + 1),
            None => None,
        }
    }
}

/// Reads a `usize` LEB128 number: it must end within the bytes whose 7-bit
/// groups start below the width of `usize`; its value is taken modulo that width.
pub open spec fn p_varint(b: Seq<u8>) -> Parsed<nat> {
    match varint_end(b) {
        Some(k) => if (k - 1) * 7 < usize::BITS {
            Parsed::Done(leb_value(b.take(k as int)) % (usize::MAX as nat + 1), k)
        } else {
            Parsed::Failed
        },
        None => Parsed::Failed,
    }
}

// ---------------------------------------------------------------------------
// Fixed-width little-endian integers.

pub open spec fn p_u8(b: Seq<u8>) -> Parsed<u8> {
    if b.len() >= 1 { Parsed::Done(b[0], 1) } else { Parsed::Failed }
}

pub open spec fn u16_of(b0: u8, b1: u8) -> nat {
    b0 as nat + 256 * (b1 as nat)
}

pub open spec fn p_u16(b: Seq<u8>) -> Parsed<nat> {
    if b.len() >= 2 { Parsed::Done(u16_of(b[0], b[1]), 2) } else { Parsed::Failed }
}

pub open spec fn p_i16(b: Seq<u8>) -> Parsed<int> {
    if b.len() >= 2 {
        let v = u16_of(b[0], b[1]);
        Parsed::Done(if v >= 32768 { v - 65536 } else { v as int }, 2)
    } else {
        Parsed::Failed
    }
}

pub open spec fn u32_of(b: Seq<u8>) -> nat {
    b[0] as nat + 256 * (b[1] as nat + 256 * (b[2] as nat + 256 * (b[3] as nat)))
}

pub open spec fn p_u32(b: Seq<u8>) -> Parsed<nat> {
    if b.len() >= 4 { Parsed::Done(u32_of(b), 4) } else { Parsed::Failed }
}

pub open spec fn p_i32(b: Seq<u8>) -> Parsed<int> {
    if b.len() >= 4 {
        let v = u32_of(b);
        Parsed::Done(if v >= 0x8000_0000 { v - 0x1_0000_0000 } else { v as int }, 4)
    } else {
        Parsed::Failed
    }
}

// ---------------------------------------------------------------------------
// Strings.

/// Reads a string: a LEB128 byte length, then that many bytes of UTF-8.
pub open spec fn p_str(b: Seq<u8>) -> Parsed<Seq<char>> {
    match p_varint(b) {
        Parsed::Done(n, k) => {
            if b.len() - k < n {
                Parsed::Failed
            } else {
                let bytes = b.subrange(k as int, (k + n) as int);
                if valid_utf8(bytes) { Parsed::Done(decode_utf8(bytes), k + n) } else { Parsed::Failed }
            }
        },
        _ => Parsed::Failed,
    }
}

/// Reads a string from the lookup table by a 2-byte index; an index past the
/// table crashes the reader.
pub open spec fn p_lookup(b: Seq<u8>, lookup: Seq<Seq<char>>) -> Parsed<Seq<char>> {
    match p_u16(b) {
        Parsed::Done(i, k) => if i < lookup.len() { Parsed::Done(lookup[i as int], k) } else { Parsed::Crashed },
        _ => Parsed::Failed,
    }
}

/// The characters of run-length pairs `(times, byte)`: each byte, read as the
/// character with that code, repeated `times` times; a lone last byte is ignored.
pub open spec fn rle_decode(pairs: Seq<u8>) -> Seq<char>
    decreases pairs.len(),
{
    if pairs.len() < 2 {
        Seq::empty()
    } else {
        Seq::new(pairs[0] as nat, |i: int| pairs[1] as char) + rle_decode(pairs.skip(2))
    }
}

/// Reads a run-length encoded string: a 2-byte signed length in bytes, then
/// that many bytes (rounded down to whole pairs); a negative length fails.
pub open spec fn p_rle(b: Seq<u8>) -> Parsed<Seq<char>> {
    match p_i16(b) {
        Parsed::Done(len, k) => {
            if len < 0 {
                Parsed::Failed
            } else {
                let n = (len / 2) * 2;
                if b.len() - 2 < n { Parsed::Failed } else { Parsed::Done(rle_decode(b.subrange(2, 2 + n)), (2 + n) as nat) }
            }
        },
        _ => Parsed::Failed,
    }
}

// ---------------------------------------------------------------------------
// Attributes and elements.

/// Reads a tagged attribute value. Tags 0 to 7 are bool, u8, i16, i32, f32,
/// looked-up text, plain text and run-length text; any other tag crashes.
pub open spec fn p_attr(b: Seq<u8>, lookup: Seq<Seq<char>>) -> Parsed<AttrV> {
    if b.len() == 0 {
        Parsed::Failed
    } else {
        let rest = b.drop_first();
        let tag = b[0];
        let r: Parsed<AttrV> = if tag == 0 {
            match p_u8(rest) { Parsed::Done(v, k) => Parsed::Done(AttrV::Bool(v != 0), k), _ => Parsed::Failed }
        } else if tag == 1 {
            match p_u8(rest) { Parsed::Done(v, k) => Parsed::Done(AttrV::Int(v as i32), k), _ => Parsed::Failed }
        } else if tag == 2 {
            match p_i16(rest) { Parsed::Done(v, k) => Parsed::Done(AttrV::Int(v as i32), k), _ => Parsed::Failed }
        } else if tag == 3 {
            match p_i32(rest) { Parsed::Done(v, k) => Parsed::Done(AttrV::Int(v as i32), k), _ => Parsed::Failed }
        } else if tag == 4 {
            match p_u32(rest) { Parsed::Done(v, k) => Parsed::Done(AttrV::Float(v as u32), k), _ => Parsed::Failed }
        } else if tag == 5 {
            match p_lookup(rest, lookup) {
                Parsed::Done(s, k) => Parsed::Done(AttrV::Text(s), k),
                Parsed::Failed => Parsed::Failed,
                Parsed::Crashed => Parsed::Crashed,
            }
        } else if tag == 6 {
            match p_str(rest) { Parsed::Done(s, k) => Parsed::Done(AttrV::Text(s), k), _ => Parsed::Failed }
        } else if tag == 7 {
            match p_rle(rest) { Parsed::Done(s, k) => Parsed::Done(AttrV::Text(s), k), _ => Parsed::Failed }
        } else {
            Parsed::Crashed
        };
        match r {
            Parsed::Done(v, k) => Parsed::Done(v, k + 1),
            Parsed::Failed => Parsed::Failed,
            Parsed::Crashed => Parsed::Crashed,
        }
    }
}

/// Reads `n` attributes, each a looked-up key and a tagged value, in order.
pub open spec fn p_attrs(b: Seq<u8>, lookup: Seq<Seq<char>>, n: nat) -> Parsed<Seq<(Seq<char>, AttrV)>>
    decreases n,
{
    if n == 0 {
        Parsed::Done(Seq::empty(), 0)
    } else {
        match p_attrs(b, lookup, (n - 1) as nat) {
            Parsed::Done(ps, k) => if k > b.len() { Parsed::Failed } else {
                match p_lookup(b.skip(k as int), lookup) {
                    Parsed::Done(key, k2) => if k + k2 > b.len() { Parsed::Failed } else {
                        match p_attr(b.skip((k + k2) as int), lookup) {
                            Parsed::Done(v, k3) => Parsed::Done(ps.push((key, v)), k + k2 + k3),
                            Parsed::Failed => Parsed::Failed,
                            Parsed::Crashed => Parsed::Crashed,
                        }
                    },
                    Parsed::Failed => Parsed::Failed,
                    Parsed::Crashed => Parsed::Crashed,
                }
            },
            Parsed::Failed => Parsed::Failed,
            Parsed::Crashed => Parsed::Crashed,
        }
    }
}

/// Reads an element: a looked-up name, a 1-byte attribute count, the attributes,
/// a 2-byte child count and the children. Later attributes with a key already
/// read replace the earlier value; children are grouped by name.
pub open spec fn p_element(b: Seq<u8>, lookup: Seq<Seq<char>>) -> Parsed<ElemV>
    decreases b.len(), 2nat,
{
    match p_lookup(b, lookup) {
        Parsed::Done(name, _) => if b.len() < 3 { Parsed::Failed } else { p_element_rest(b, lookup, name) },
        Parsed::Failed => Parsed::Failed,
        Parsed::Crashed => Parsed::Crashed,
    }
}

/// What follows an element's name: the attribute count and attributes, then
/// the children.
pub open spec fn p_element_rest(b: Seq<u8>, lookup: Seq<Seq<char>>, name: Seq<char>) -> Parsed<ElemV>
    decreases b.len(), 1nat,
{
    if b.len() < 3 {
        Parsed::Failed
    } else {
        match p_attrs(b.skip(3), lookup, b[2] as nat) {
            Parsed::Done(ps, ka) => p_element_children(b, lookup, name, ps, ka),
            Parsed::Failed => Parsed::Failed,
            Parsed::Crashed => Parsed::Crashed,
        }
    }
}

/// The children of an element whose attributes `ps` took `ka` bytes after
/// the first three.
pub open spec fn p_element_children(b: Seq<u8>, lookup: Seq<Seq<char>>, name: Seq<char>, ps: Seq<(Seq<char>, AttrV)>, ka: nat) -> Parsed<ElemV>
    decreases b.len(), 0nat,
{
    if 5 + ka > b.len() {
        Parsed::Failed
    } else {
        let nc = u16_of(b[3 + ka as int], b[4 + ka as int]);
        match p_children(b.skip(5 + ka as int), lookup, nc) {
            Parsed::Done(cs, kc) => Parsed::Done(
                ElemV { name, attrs: attrs_from(ps), groups: regroup(cs) },
                (5 + ka + kc) as nat),
            Parsed::Failed => Parsed::Failed,
            Parsed::Crashed => Parsed::Crashed,
        }
    }
}

/// Reads `n` elements in order.
pub open spec fn p_children(b: Seq<u8>, lookup: Seq<Seq<char>>, n: nat) -> Parsed<Seq<ElemV>>
    decreases b.len(), n + 3,
{
    if n == 0 {
        Parsed::Done(Seq::empty(), 0)
    } else {
        match p_children(b, lookup, (n - 1) as nat) {
            Parsed::Done(cs, k) => if k > b.len() { Parsed::Failed } else {
                match p_element(b.skip(k as int), lookup) {
                    Parsed::Done(c, k2) => Parsed::Done(cs.push(c), k + k2),
                    Parsed::Failed => Parsed::Failed,
                    Parsed::Crashed => Parsed::Crashed,
                }
            },
            Parsed::Failed => Parsed::Failed,
            Parsed::Crashed => Parsed::Crashed,
        }
    }
}

/// Reads `n` strings in order.
pub open spec fn p_strs(b: Seq<u8>, n: nat) -> Parsed<Seq<Seq<char>>>
    decreases n,
{
    if n == 0 {
        Parsed::Done(Seq::empty(), 0)
    } else {
        match p_strs(b, (n - 1) as nat) {
            Parsed::Done(ss, k) => if k > b.len() { Parsed::Failed } else {
                match p_str(b.skip(k as int)) {
                    Parsed::Done(s, k2) => Parsed::Done(ss.push(s), k + k2),
                    _ => Parsed::Failed,
                }
            },
            _ => Parsed::Failed,
        }
    }
}

/// The bytes every map file starts with: the string `CELESTE MAP` with its length.
pub open spec fn map_header() -> Seq<u8> {
    seq![11u8, 67u8, 69u8, 76u8, 69u8, 83u8, 84u8, 69u8, 32u8, 77u8, 65u8, 80u8]
}

/// Reads a map file: the header, the package name, a 2-byte count of lookup
/// strings, the strings, and the root element.
pub open spec fn p_file(b: Seq<u8>) -> Parsed<(Seq<char>, ElemV)> {
    if b.len() < 12 || b.take(12) != map_header() {
        Parsed::Failed
    } else {
        match p_str(b.skip(12)) {
            Parsed::Done(pkg, k1) => {
                let o1: int = 12 + k1 as int;
                if b.len() < o1 + 2 {
                    Parsed::Failed
                } else {
                    let n = u16_of(b[o1], b[o1 + 1]);
                    match p_strs(b.skip(o1 + 2), n) {
                        Parsed::Done(lk, k2) => {
                            let o2: int = o1 + 2 + k2 as int;
                            if o2 > b.len() {
                                Parsed::Failed
                            } else {
                                match p_element(b.skip(o2), lk) {
                                    Parsed::Done(e, k3) => Parsed::Done((pkg, e), (o2 + k3) as nat),
                                    Parsed::Failed => Parsed::Failed,
                                    Parsed::Crashed => Parsed::Crashed,
                                }
                            }
                        },
                        _ => Parsed::Failed,
                    }
                }
            },
            _ => Parsed::Failed,
        }
    }
}

// ---------------------------------------------------------------------------
// Writing.

/// Two little-endian bytes of `v`, modulo 2^16.
pub open spec fn le16(v: int) -> Seq<u8> {
    seq![(v % 256) as u8, ((v / 256) % 256) as u8]
}

/// Four little-endian bytes of `v`, modulo 2^32.
pub open spec fn le32(v: int) -> Seq<u8> {
    seq![(v % 256) as u8, ((v / 256) % 256) as u8, ((v / 65536) % 256) as u8, ((v / 16777216) % 256) as u8]
}

/// A string as written: the LEB128 length of its UTF-8 bytes, then the bytes.
pub open spec fn e_string(s: Seq<char>) -> Seq<u8> {
    leb_bytes(encode_utf8(s).len()) + encode_utf8(s)
}

pub open spec fn e_bool(v: bool) -> Seq<u8> {
    seq![0u8, if v { 1u8 } else { 0u8 }]
}

/// An integer in the smallest of the three widths that holds it.
pub open spec fn e_int(v: i32) -> Seq<u8> {
    if 0 <= v <= 255 {
        seq![1u8, v as u8]
    } else if -32768 <= v <= 32767 {
        seq![2u8] + le16(v as int)
    } else {
        seq![3u8] + le32(v as int)
    }
}

/// A float, given by its bits.
pub open spec fn e_float(bits: u32) -> Seq<u8> {
    seq![4u8] + le32(bits as int)
}

/// The length of the run of equal bytes at the front of `b`.
pub open spec fn lead_run(b: Seq<u8>) -> nat
    decreases b.len(),
{
    if b.len() <= 1 {
        b.len()
    } else if b[1] == b[0] {
        1 + lead_run(b.drop_first())
    } else {
        1
    }
}

/// Run-length encoding of bytes: for each maximal run, its length (modulo 256)
/// and the byte.
pub open spec fn rle_encode(b: Seq<u8>) -> Seq<u8>
    decreases b.len(),
{
    if b.len() == 0 {
        Seq::empty()
    } else {
        let r = lead_run(b);
        if 1 <= r <= b.len() {
            seq![(r % 256) as u8, b[0]] + rle_encode(b.skip(r as int))
        } else {
            Seq::empty()
        }
    }
}

/// The index of the first occurrence of `s` in `lk`, or its length if there is none.
pub open spec fn index_in(lk: Seq<Seq<char>>, s: Seq<char>) -> int
    decreases lk.len(),
{
    if lk.len() == 0 {
        0
    } else if lk[0] == s {
        0
    } else {
        1 + index_in(lk.drop_first(), s)
    }
}

/// Whether a text not in the lookup is written run-length encoded: when that is
/// shorter than its UTF-8 bytes and its length fits an `i16`.
pub open spec fn rle_chosen(s: Seq<char>) -> bool {
    let r = rle_encode(encode_utf8(s));
    r.len() < encode_utf8(s).len() && r.len() <= 32767
}

/// A text value: by lookup index if it is in the lookup, else run-length
/// encoded or plain.
pub open spec fn e_text(lk: Seq<Seq<char>>, s: Seq<char>) -> Seq<u8> {
    let i = index_in(lk, s);
    if i < lk.len() {
        seq![5u8] + le16(i)
    } else if rle_chosen(s) {
        let r = rle_encode(encode_utf8(s));
        seq![7u8] + le16(r.len() as int) + r
    } else {
        seq![6u8] + e_string(s)
    }
}

pub open spec fn e_value(lk: Seq<Seq<char>>, a: AttrV) -> Seq<u8> {
    match a {
        AttrV::Bool(v) => e_bool(v),
        AttrV::Int(v) => e_int(v),
        AttrV::Float(v) => e_float(v),
        AttrV::Text(s) => e_text(lk, s),
    }
}

/// Attributes as written: for each, the lookup index of its key and its value.
pub open spec fn e_attrs(lk: Seq<Seq<char>>, attrs: Seq<(Seq<char>, AttrV)>) -> Seq<u8>
    decreases attrs.len(),
{
    if attrs.len() == 0 {
        Seq::empty()
    } else {
        e_attrs(lk, attrs.drop_last()) + le16(index_in(lk, attrs.last().0)) + e_value(lk, attrs.last().1)
    }
}

/// An element as written: the lookup index of its name, its attribute count
/// (modulo 256), its attributes, its child count (modulo 2^16) and its children,
/// group by group.
pub open spec fn e_elem(lk: Seq<Seq<char>>, e: ElemV) -> Seq<u8>
    decreases e, 2int,
{
    le16(index_in(lk, e.name)) + seq![(e.attrs.len() % 256) as u8] + e_attrs(lk, e.attrs)
        + le16(flatten(e.groups).len() as int) + e_groups(lk, e.groups)
}

pub open spec fn e_groups(lk: Seq<Seq<char>>, gs: Seq<(Seq<char>, Seq<ElemV>)>) -> Seq<u8>
    decreases gs, 1int,
{
    if gs.len() == 0 {
        Seq::empty()
    } else {
        e_groups(lk, gs.drop_last()) + e_elems(lk, gs.last().1)
    }
}

pub open spec fn e_elems(lk: Seq<Seq<char>>, es: Seq<ElemV>) -> Seq<u8>
    decreases es, 0int,
{
    if es.len() == 0 {
        Seq::empty()
    } else {
        e_elems(lk, es.drop_last()) + e_elem(lk, es.last())
    }
}

/// Strings as written, one after the other.
pub open spec fn e_strings(ss: Seq<Seq<char>>) -> Seq<u8>
    decreases ss.len(),
{
    if ss.len() == 0 { Seq::empty() } else { e_strings(ss.drop_last()) + e_string(ss.last()) }
}

/// A map file as written with lookup `lk`.
pub open spec fn e_file(pkg: Seq<char>, lk: Seq<Seq<char>>, root: ElemV) -> Seq<u8> {
    e_string("CELESTE MAP"@) + e_string(pkg) + le16(lk.len() as int) + e_strings(lk) + e_elem(lk, root)
}

/// The first attribute key, in order, that is not in the lookup.
pub open spec fn missing_attrs(lk: Seq<Seq<char>>, attrs: Seq<(Seq<char>, AttrV)>) -> Option<Seq<char>>
    decreases attrs.len(),
{
    if attrs.len() == 0 {
        None
    } else {
        match missing_attrs(lk, attrs.drop_last()) {
            Some(k) => Some(k),
            None => if index_in(lk, attrs.last().0) < lk.len() { None } else { Some(attrs.last().0) },
        }
    }
}

/// The first name, in the order an element is written, that is not in the
/// lookup: an element name (tagged `true`) or an attribute key (tagged `false`).
pub open spec fn missing_elem(lk: Seq<Seq<char>>, e: ElemV) -> Option<(bool, Seq<char>)>
    decreases e, 2int,
{
    if index_in(lk, e.name) >= lk.len() {
        Some((true, e.name))
    } else {
        match missing_attrs(lk, e.attrs) {
            Some(k) => Some((false, k)),
            None => missing_groups(lk, e.groups),
        }
    }
}

pub open spec fn missing_groups(lk: Seq<Seq<char>>, gs: Seq<(Seq<char>, Seq<ElemV>)>) -> Option<(bool, Seq<char>)>
    decreases gs, 1int,
{
    if gs.len() == 0 {
        None
    } else {
        match missing_groups(lk, gs.drop_last()) {
            Some(x) => Some(x),
            None => missing_elems(lk, gs.last().1),
        }
    }
}

pub open spec fn missing_elems(lk: Seq<Seq<char>>, es: Seq<ElemV>) -> Option<(bool, Seq<char>)>
    decreases es, 0int,
{
    if es.len() == 0 {
        None
    } else {
        match missing_elems(lk, es.drop_last()) {
            Some(x) => Some(x),
            None => missing_elem(lk, es.last()),
        }
    }
}

pub proof fn lemma_missing_attrs_prefix(lk: Seq<Seq<char>>, s: Seq<(Seq<char>, AttrV)>, a: int)
    requires
        0 <= a <= s.len(),
        missing_attrs(lk, s.take(a)) is Some,
    ensures
        missing_attrs(lk, s) == missing_attrs(lk, s.take(a)),
    decreases s.len() - a,
{
    if a < s.len() {
        assert(s.take(a + 1).drop_last() == s.take(a));
        lemma_missing_attrs_prefix(lk, s, a + 1);
    } else {
        assert(s.take(a) == s);
    }
}

pub proof fn lemma_missing_groups_prefix(lk: Seq<Seq<char>>, s: Seq<(Seq<char>, Seq<ElemV>)>, a: int)
    requires
        0 <= a <= s.len(),
        missing_groups(lk, s.take(a)) is Some,
    ensures
        missing_groups(lk, s) == missing_groups(lk, s.take(a)),
    decreases s.len() - a,
{
    if a < s.len() {
        assert(s.take(a + 1).drop_last() == s.take(a));
        lemma_missing_groups_prefix(lk, s, a + 1);
    } else {
        assert(s.take(a) == s);
    }
}

pub proof fn lemma_missing_elems_prefix(lk: Seq<Seq<char>>, s: Seq<ElemV>, a: int)
    requires
        0 <= a <= s.len(),
        missing_elems(lk, s.take(a)) is Some,
    ensures
        missing_elems(lk, s) == missing_elems(lk, s.take(a)),
    decreases s.len() - a,
{
    if a < s.len() {
        assert(s.take(a + 1).drop_last() == s.take(a));
        lemma_missing_elems_prefix(lk, s, a + 1);
    } else {
        assert(s.take(a) == s);
    }
}

/// How many times a lookup entry for `s` is asked for by the attributes: once
/// per key equal to `s`, and once per text value equal to `s` under a key other
/// than `innerText`.
pub open spec fn attrs_count(attrs: Seq<(Seq<char>, AttrV)>, s: Seq<char>) -> nat
    decreases attrs.len(),
{
    if attrs.len() == 0 {
        0
    } else {
        let (k, v) = attrs.last();
        attrs_count(attrs.drop_last(), s) + (if k == s { 1nat } else { 0nat })
            + (if k != "innerText"@ && v == AttrV::Text(s) { 1nat } else { 0nat })
    }
}

/// How many times a lookup entry for `s` is asked for by an element and its
/// descendants: names, attribute keys, and text values other than inner text.
pub open spec fn word_count(e: ElemV, s: Seq<char>) -> nat
    decreases e, 2int,
{
    (if e.name == s { 1nat } else { 0nat }) + attrs_count(e.attrs, s) + groups_count(e.groups, s)
}

pub open spec fn groups_count(gs: Seq<(Seq<char>, Seq<ElemV>)>, s: Seq<char>) -> nat
    decreases gs, 1int,
{
    if gs.len() == 0 { 0 } else { groups_count(gs.drop_last(), s) + elems_count(gs.last().1, s) }
}

pub open spec fn elems_count(es: Seq<ElemV>, s: Seq<char>) -> nat
    decreases es, 0int,
{
    if es.len() == 0 { 0 } else { elems_count(es.drop_last(), s) + word_count(es.last(), s) }
}

pub proof fn lemma_attrs_count_prefix(av: Seq<(Seq<char>, AttrV)>, a: int, s: Seq<char>)
    requires 0 <= a <= av.len(),
    ensures attrs_count(av.take(a), s) <= attrs_count(av, s),
    decreases av.len() - a,
{
    if a < av.len() {
        assert(av.take(a + 1).drop_last() == av.take(a));
        lemma_attrs_count_prefix(av, a + 1, s);
    } else {
        assert(av.take(a) == av);
    }
}

pub proof fn lemma_groups_count_prefix(gs: Seq<(Seq<char>, Seq<ElemV>)>, g: int, s: Seq<char>)
    requires 0 <= g <= gs.len(),
    ensures groups_count(gs.take(g), s) <= groups_count(gs, s),
    decreases gs.len() - g,
{
    if g < gs.len() {
        assert(gs.take(g + 1).drop_last() == gs.take(g));
        lemma_groups_count_prefix(gs, g + 1, s);
    } else {
        assert(gs.take(g) == gs);
    }
}

pub proof fn lemma_elems_count_prefix(es: Seq<ElemV>, j: int, s: Seq<char>)
    requires 0 <= j <= es.len(),
    ensures elems_count(es.take(j), s) <= elems_count(es, s),
    decreases es.len() - j,
{
    if j < es.len() {
        assert(es.take(j + 1).drop_last() == es.take(j));
        lemma_elems_count_prefix(es, j + 1, s);
    } else {
        assert(es.take(j) == es);
    }
}

/// A lookup table for `e`: each of its words once, nothing else, the more
/// used first.
pub open spec fn lookup_for(lk: Seq<Seq<char>>, e: ElemV) -> bool {
    &&& forall|i: int, j: int| 0 <= i < j < lk.len() ==> lk[i] != lk[j]
    &&& forall|i: int| 0 <= i < lk.len() ==> word_count(e, #[trigger] lk[i]) > 0
    &&& forall|s: Seq<char>| word_count(e, s) > 0 ==> exists|i: int| 0 <= i < lk.len() && #[trigger] lk[i] == s
    &&& forall|i: int, j: int| 0 <= i < j < lk.len() ==> word_count(e, lk[i]) >= word_count(e, lk[j])
}

pub proof fn lemma_index_in(lk: Seq<Seq<char>>, s: Seq<char>)
    ensures
        0 <= index_in(lk, s) <= lk.len(),
        index_in(lk, s) < lk.len() ==> lk[index_in(lk, s)] == s,
        forall|j: int| 0 <= j < index_in(lk, s) ==> lk[j] != s,
    decreases lk.len(),
{
    if lk.len() > 0 && lk[0] != s {
        lemma_index_in(lk.drop_first(), s);
        assert forall|j: int| 0 <= j < index_in(lk, s) implies lk[j] != s by {
            if j > 0 { assert(lk[j] == lk.drop_first()[j - 1]); }
        }
    }
}

pub proof fn lemma_varint_end(b: Seq<u8>)
    ensures
        varint_end(b) matches Some(k) ==> 1 <= k <= b.len(),
    decreases b.len(),
{
    if b.len() > 0 && b[0] >= 128 {
        lemma_varint_end(b.drop_first());
    }
}

/// Once reading the attributes goes wrong, reading more of them goes the same way.
pub proof fn lemma_attrs_stop(b: Seq<u8>, lk: Seq<Seq<char>>, m: nat, n: nat)
    requires
        m <= n,
        !(p_attrs(b, lk, m) is Done),
    ensures
        p_attrs(b, lk, n) == p_attrs(b, lk, m),
    decreases n,
{
    if n > m {
        lemma_attrs_stop(b, lk, m, (n - 1) as nat);
    }
}

pub proof fn lemma_children_stop(b: Seq<u8>, lk: Seq<Seq<char>>, m: nat, n: nat)
    requires
        m <= n,
        !(p_children(b, lk, m) is Done),
    ensures
        p_children(b, lk, n) == p_children(b, lk, m),
    decreases n,
{
    if n > m {
        lemma_children_stop(b, lk, m, (n - 1) as nat);
    }
}

pub proof fn lemma_strs_stop(b: Seq<u8>, m: nat, n: nat)
    requires
        m <= n,
        !(p_strs(b, m) is Done),
    ensures
        p_strs(b, n) == p_strs(b, m),
    decreases n,
{
    if n > m {
        lemma_strs_stop(b, m, (n - 1) as nat);
    }
}

/// One more attribute: its key and value read after those before.
pub proof fn lemma_attrs_next(b: Seq<u8>, lk: Seq<Seq<char>>, n: nat, ps: Seq<(Seq<char>, AttrV)>, k: nat)
    requires
        p_attrs(b, lk, n) == Parsed::Done(ps, k),
        k <= b.len(),
    ensures
        p_attrs(b, lk, n + 1) == (match p_lookup(b.skip(k as int), lk) {
            Parsed::Done(key, k2) => if k + k2 > b.len() { Parsed::Failed } else {
                match p_attr(b.skip((k + k2) as int), lk) {
                    Parsed::Done(v, k3) => Parsed::Done(ps.push((key, v)), k + k2 + k3),
                    Parsed::Failed => Parsed::Failed,
                    Parsed::Crashed => Parsed::Crashed,
                }
            },
            Parsed::Failed => Parsed::Failed,
            Parsed::Crashed => Parsed::Crashed,
        }),
{
    assert(((n + 1) - 1) as nat == n);
}

/// One more child, read after those before.
pub proof fn lemma_children_next(b: Seq<u8>, lk: Seq<Seq<char>>, n: nat, cs: Seq<ElemV>, k: nat)
    requires
        p_children(b, lk, n) == Parsed::Done(cs, k),
        k <= b.len(),
    ensures
        p_children(b, lk, n + 1) == (match p_element(b.skip(k as int), lk) {
            Parsed::Done(c, k2) => Parsed::Done(cs.push(c), k + k2),
            Parsed::Failed => Parsed::Failed,
            Parsed::Crashed => Parsed::Crashed,
        }),
{
    assert(((n + 1) - 1) as nat == n);
}

/// One more string, read after those before.
pub proof fn lemma_strs_next(b: Seq<u8>, n: nat, ss: Seq<Seq<char>>, k: nat)
    requires
        p_strs(b, n) == Parsed::Done(ss, k),
        k <= b.len(),
    ensures
        p_strs(b, n + 1) == (match p_str(b.skip(k as int)) {
            Parsed::Done(s, k2) => Parsed::Done(ss.push(s), k + k2),
            _ => Parsed::Failed,
        }),
{
    assert(((n + 1) - 1) as nat == n);
}

/// Whether each run of equal bytes is at most 255 long, so that its length
/// fits the byte that run-length encoding gives it.
pub open spec fn runs_fit(b: Seq<u8>) -> bool
    decreases b.len(),
{
    if b.len() == 0 {
        true
    } else {
        let r = lead_run(b);
        1 <= r <= b.len() && r <= 255 && runs_fit(b.skip(r as int))
    }
}

/// Each byte read as the character with that code.
pub open spec fn byte_chars(b: Seq<u8>) -> Seq<char> {
    Seq::new(b.len(), |i: int| b[i] as char)
}

/// Whether a text value, written with lookup `lk`, reads back as itself: by
/// lookup always; run-length encoded when it is ASCII and no run is longer
/// than 255; plain when its UTF-8 length fits a `usize`.
pub open spec fn text_reads_back(lk: Seq<Seq<char>>, s: Seq<char>) -> bool {
    if index_in(lk, s) < lk.len() {
        true
    } else if rle_chosen(s) {
        is_ascii_chars(s) && runs_fit(encode_utf8(s))
    } else {
        encode_utf8(s).len() <= usize::MAX
    }
}

pub open spec fn value_reads_back(lk: Seq<Seq<char>>, a: AttrV) -> bool {
    match a {
        AttrV::Text(s) => text_reads_back(lk, s),
        _ => true,
    }
}

/// No two entries have the same key.
pub open spec fn keys_distinct<V>(s: Seq<(Seq<char>, V)>) -> bool {
    forall|i: int, j: int| 0 <= i < j < s.len() ==> s[i].0 != s[j].0
}

/// Whether an element and its descendants, written with lookup `lk`, read
/// back as themselves: attribute keys distinct and at most 255 of them, each
/// value reading back; at most 65535 children, in groups with distinct keys,
/// none empty, each child named by its group's key.
pub open spec fn elem_writable(lk: Seq<Seq<char>>, e: ElemV) -> bool
    decreases e, 2int,
{
    &&& keys_distinct(e.attrs)
    &&& e.attrs.len() <= 255
    &&& forall|i: int| 0 <= i < e.attrs.len() ==> value_reads_back(lk, #[trigger] e.attrs[i].1)
    &&& flatten(e.groups).len() <= 65535
    &&& keys_distinct(e.groups)
    &&& groups_writable(lk, e.groups)
}

pub open spec fn groups_writable(lk: Seq<Seq<char>>, gs: Seq<(Seq<char>, Seq<ElemV>)>) -> bool
    decreases gs, 1int,
{
    gs.len() == 0 || {
        &&& groups_writable(lk, gs.drop_last())
        &&& gs.last().1.len() > 0
        &&& forall|j: int| 0 <= j < gs.last().1.len() ==> (#[trigger] gs.last().1[j]).name == gs.last().0
        &&& elems_writable(lk, gs.last().1)
    }
}

pub open spec fn elems_writable(lk: Seq<Seq<char>>, es: Seq<ElemV>) -> bool
    decreases es, 0int,
{
    es.len() == 0 || (elems_writable(lk, es.drop_last()) && elem_writable(lk, es.last()))
}

/// Whether a map file, written with lookup `lk`, reads back as itself: every
/// name and key is in the lookup, which has at most 65535 entries, each of
/// which, like the package name, has a UTF-8 length that fits a `usize`, and
/// the root element reads back.
pub open spec fn file_writable(pkg: Seq<char>, lk: Seq<Seq<char>>, root: ElemV) -> bool {
    &&& missing_elem(lk, root) is None
    &&& lk.len() <= 65535
    &&& forall|i: int| 0 <= i < lk.len() ==> encode_utf8(#[trigger] lk[i]).len() <= usize::MAX
    &&& encode_utf8(pkg).len() <= usize::MAX
    &&& elem_writable(lk, root)
}

} // verus!

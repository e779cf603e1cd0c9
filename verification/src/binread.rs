use vstd::prelude::*;
use vstd::slice::slice_subrange;
use vstd::string::StringSliceAdditionalSpecFns;
use vstd::utf8::{valid_utf8, decode_utf8, encode_utf8_decode_utf8};
use crate::binfmt::{
    Parsed, p_varint, p_str, u16_of, p_i16, rle_decode, p_rle, lemma_varint_end, p_lookup, u32_of, p_attr,
    p_attrs, p_element, p_children, p_element_rest, p_element_children, lemma_attrs_stop, lemma_children_stop, lemma_attrs_next,
    lemma_children_next, map_header, p_file, p_strs, lemma_strs_next, lemma_strs_stop,
};
use crate::binel::{attrs_from, regroup};
use crate::binel::{AttrV, BinEl, BinElAttr, BinFile, ElemV, attr_view, el_view};
use crate::binwrite::lookup_view;

verus! {

/// How reading a value at a position went: the value and the position after
/// it; a rejection, where the input holds no such value; or a crash, where the
/// format's reader panics.
pub enum Outcome<T> {
    Done(T, usize),
    Rejected,
    Crashed,
}

/// The input could not be read as what was asked for.
#[derive(Debug, PartialEq, Eq)]
pub struct BinParseError;

/// `nom_varint::take_varint`: a LEB128 `usize` at the front of `input`, with
/// what follows it. The claim, as its source shows: it succeeds when a byte
/// below 128 ends the number before the bits of a `usize` run out; the value
/// is the number modulo 2^usize::BITS.
#[verifier::external_body]
fn varint_prefix(input: &[u8]) -> (r: Option<(&[u8], usize)>)
    ensures
        match p_varint(input@) {
            Parsed::Done(v, k) => r matches Some((rest, x)) && x as nat == v && rest@ == input@.skip(k as int),
            _ => r is None,
        },
{
    match nom_varint::take_varint::<()>(input) {
        Ok((rest, v)) => Some((rest, v)),
        Err(_) => None,
    }
}

/// `std::str::from_utf8`: the bytes as text, when they are valid UTF-8. The
/// claim: it succeeds exactly on valid UTF-8, and the text has those bytes.
#[verifier::external_body]
pub(crate) fn utf8_text(v: &[u8]) -> (r: Option<&str>)
    ensures
        match r {
            Some(s) => valid_utf8(v@) && s.spec_bytes() == v@,
            None => !valid_utf8(v@),
        },
{
    match std::str::from_utf8(v) {
        Ok(s) => Some(s),
        Err(_) => None,
    }
}

/// `String::push`: appends a character.
#[verifier::external_body]
pub(crate) fn push_char(s: &mut String, c: char)
    ensures
        final(s)@ == old(s)@.push(c),
{
    s.push(c);
}

/// Reads a string at `pos`: a LEB128 byte length, then that many bytes of UTF-8.
fn read_str<'a>(b: &'a [u8], pos: usize) -> (r: Outcome<&'a str>)
    requires
        pos <= b@.len(),
    ensures
        match p_str(b@.skip(pos as int)) {
            Parsed::Done(v, k) => r matches Outcome::Done(s, np) && s@ == v && np == pos + k,
            Parsed::Failed => r is Rejected,
            Parsed::Crashed => r is Crashed,
        },
        r matches Outcome::Done(_, np) ==> np <= b@.len(),
{
    let ghost bs = b@.skip(pos as int);
    let tail = slice_subrange(b, pos, b.len());
    proof { assert(tail@ == bs); lemma_varint_end(bs); }
    match varint_prefix(tail) {
        None => Outcome::Rejected,
        Some((rest, n)) => {
            let start = pos + (tail.len() - rest.len());
            proof { assert(rest@.len() == bs.len() - (start - pos)); }
            if b.len() - start < n {
                Outcome::Rejected
            } else {
                let bytes = slice_subrange(b, start, start + n);
                proof {
                    assert(bytes@ == bs.subrange(start - pos, start - pos + n));
                }
                match utf8_text(bytes) {
                    None => Outcome::Rejected,
                    Some(s) => {
                        proof { encode_utf8_decode_utf8(s@); }
                        Outcome::Done(s, start + n)
                    },
                }
            }
        },
    }
}

/// Reads a 2-byte lookup index at `pos` and gives the string it stands for.
fn read_lookup<'b>(b: &[u8], pos: usize, lookup: &'b [String]) -> (r: Outcome<&'b str>)
    requires
        pos <= b@.len(),
    ensures
        match p_lookup(b@.skip(pos as int), lookup_view(lookup@)) {
            Parsed::Done(v, k) => r matches Outcome::Done(s, np) && s@ == v && np == pos + k,
            Parsed::Failed => r is Rejected,
            Parsed::Crashed => r is Crashed,
        },
        r matches Outcome::Done(_, np) ==> np <= b@.len(),
{
    let ghost bs = b@.skip(pos as int);
    if b.len() - pos < 2 {
        return Outcome::Rejected;
    }
    proof { assert(bs[0] == b@[pos as int]); assert(bs[1] == b@[pos + 1]); }
    let i = b[pos] as usize + 256 * (b[pos + 1] as usize);
    if i < lookup.len() {
        Outcome::Done(lookup[i].as_str(), pos + 2)
    } else {
        Outcome::Crashed
    }
}

/// Reads a run-length encoded string at `pos`: a 2-byte signed length in
/// bytes, then that many bytes of `(times, byte)` pairs.
fn read_rle_string(b: &[u8], pos: usize) -> (r: Outcome<String>)
    requires
        pos <= b@.len(),
    ensures
        match p_rle(b@.skip(pos as int)) {
            Parsed::Done(v, k) => r matches Outcome::Done(s, np) && s@ == v && np == pos + k,
            Parsed::Failed => r is Rejected,
            Parsed::Crashed => r is Crashed,
        },
        r matches Outcome::Done(_, np) ==> np <= b@.len(),
{
    let ghost bs = b@.skip(pos as int);
    if b.len() - pos < 2 {
        return Outcome::Rejected;
    }
    proof { assert(bs[0] == b@[pos as int]); assert(bs[1] == b@[pos + 1]); }
    let v = b[pos] as usize + 256 * (b[pos + 1] as usize);
    if v >= 32768 {
        return Outcome::Rejected;
    }
    let n = v / 2;
    if b.len() - (pos + 2) < 2 * n {
        return Outcome::Rejected;
    }
    let ghost pairs = b@.subrange(pos + 2, pos + 2 + 2 * n);
    proof { assert(pairs == bs.subrange(2, 2 + 2 * n)); }
    let mut out = String::new();
    let mut t: usize = 0;
    proof { assert(pairs.skip(0) == pairs); assert(out@ + rle_decode(pairs) == rle_decode(pairs)); }
    while t < n
        invariant
            t <= n,
            pos + 2 + 2 * n <= b@.len() <= usize::MAX,
            pairs == b@.subrange(pos + 2, pos + 2 + 2 * n),
            rle_decode(pairs) == out@ + rle_decode(pairs.skip(2 * t)),
        decreases n - t,
    {
        let q: usize = pos + 2 + 2 * t;
        let times = b[q];
        let byte = b[q + 1];
        let ghost base = out@;
        let c = byte as char;
        let mut k: u8 = 0;
        while k < times
            invariant
                k <= times,
                out@ == base + Seq::new(k as nat, |i: int| c),
            decreases times - k,
        {
            push_char(&mut out, c);
            k = k + 1;
            proof { assert(out@ =~= base + Seq::new(k as nat, |i: int| c)); }
        }
        proof {
            let rest = pairs.skip(2 * t);
            assert(rest[0] == times);
            assert(rest[1] == byte);
            assert(rest.skip(2) == pairs.skip(2 * (t + 1)));
            assert(Seq::new(times as nat, |i: int| c) == Seq::new(rest[0] as nat, |i: int| rest[1] as char));
        }
        t = t + 1;
    }
    proof { assert(pairs.skip(2 * t).len() == 0); assert(out@ + Seq::<char>::empty() == out@); }
    Outcome::Done(out, pos + 2 + 2 * n)
}

/// The little-endian `u32` of four bytes at `q`.
pub(crate) fn u32_at(b: &[u8], q: usize) -> (r: u32)
    requires
        q + 4 <= b@.len(),
    ensures
        r as nat == u32_of(b@.skip(q as int)),
{
    let ghost bs = b@.skip(q as int);
    proof { assert(bs[0] == b@[q as int]); assert(bs[1] == b@[q + 1]); assert(bs[2] == b@[q + 2]); assert(bs[3] == b@[q + 3]); }
    let v: u64 = b[q] as u64 + 256 * (b[q + 1] as u64 + 256 * (b[q + 2] as u64 + 256 * (b[q + 3] as u64)));
    v as u32
}

/// Reads a tagged attribute value at `pos`.
fn read_attr(b: &[u8], pos: usize, lookup: &[String]) -> (r: Outcome<BinElAttr>)
    requires
        pos <= b@.len(),
    ensures
        match p_attr(b@.skip(pos as int), lookup_view(lookup@)) {
            Parsed::Done(v, k) => r matches Outcome::Done(a, np) && attr_view(a) == v && np == pos + k,
            Parsed::Failed => r is Rejected,
            Parsed::Crashed => r is Crashed,
        },
        r matches Outcome::Done(_, np) ==> np <= b@.len(),
{
    let ghost bs = b@.skip(pos as int);
    if pos >= b.len() {
        return Outcome::Rejected;
    }
    let tag = b[pos];
    let q = pos + 1;
    let ghost rest = bs.drop_first();
    proof { assert(bs[0] == tag); assert(rest == b@.skip(q as int)); }
    if tag == 0 {
        if b.len() - q < 1 { return Outcome::Rejected; }
        proof { assert(rest[0] == b@[q as int]); }
        Outcome::Done(BinElAttr::Bool(b[q] != 0), q + 1)
    } else if tag == 1 {
        if b.len() - q < 1 { return Outcome::Rejected; }
        proof { assert(rest[0] == b@[q as int]); }
        Outcome::Done(BinElAttr::Int(b[q] as i32), q + 1)
    } else if tag == 2 {
        if b.len() - q < 2 { return Outcome::Rejected; }
        proof { assert(rest[0] == b@[q as int]); assert(rest[1] == b@[q + 1]); }
        let v: i32 = b[q] as i32 + 256 * (b[q + 1] as i32);
        let x: i32 = if v >= 32768 { v - 65536 } else { v };
        Outcome::Done(BinElAttr::Int(x), q + 2)
    } else if tag == 3 {
        if b.len() - q < 4 { return Outcome::Rejected; }
        let v = u32_at(b, q);
        let x: i32 = if v >= 0x8000_0000 { ((v as i64) - 0x1_0000_0000i64) as i32 } else { v as i32 };
        Outcome::Done(BinElAttr::Int(x), q + 4)
    } else if tag == 4 {
        if b.len() - q < 4 { return Outcome::Rejected; }
        let v = u32_at(b, q);
        Outcome::Done(BinElAttr::Float(v), q + 4)
    } else if tag == 5 {
        match read_lookup(b, q, lookup) {
            Outcome::Done(s, np) => Outcome::Done(BinElAttr::Text(s.to_owned()), np),
            Outcome::Rejected => Outcome::Rejected,
            Outcome::Crashed => Outcome::Crashed,
        }
    } else if tag == 6 {
        match read_str(b, q) {
            Outcome::Done(s, np) => Outcome::Done(BinElAttr::Text(s.to_owned()), np),
            Outcome::Rejected => Outcome::Rejected,
            Outcome::Crashed => Outcome::Crashed,
        }
    } else if tag == 7 {
        match read_rle_string(b, q) {
            Outcome::Done(s, np) => Outcome::Done(BinElAttr::Text(s), np),
            Outcome::Rejected => Outcome::Rejected,
            Outcome::Crashed => Outcome::Crashed,
        }
    } else {
        Outcome::Crashed
    }
}

/// Reads an element at `pos`: a looked-up name, a 1-byte attribute count, the
/// attributes, a 2-byte child count and the children. A later attribute with
/// a key already read replaces the earlier; children are grouped by name.
fn read_element(b: &[u8], pos: usize, lookup: &[String]) -> (r: Outcome<BinEl>)
    requires
        pos <= b@.len(),
    ensures
        match p_element(b@.skip(pos as int), lookup_view(lookup@)) {
            Parsed::Done(v, k) => r matches Outcome::Done(e, np) && el_view(e) == v && np == pos + k,
            Parsed::Failed => r is Rejected,
            Parsed::Crashed => r is Crashed,
        },
        r matches Outcome::Done(_, np) ==> np <= b@.len(),
    decreases b@.len() - pos, 2nat,
{
    let ghost bs = b@.skip(pos as int);
    let ghost lk = lookup_view(lookup@);
    let name = match read_lookup(b, pos, lookup) {
        Outcome::Done(s, _) => s,
        Outcome::Rejected => { return Outcome::Rejected; },
        Outcome::Crashed => { return Outcome::Crashed; },
    };
    if b.len() - pos < 3 {
        return Outcome::Rejected;
    }
    proof { assert(p_element(bs, lk) == p_element_rest(bs, lk, name@)); }
    read_element_rest(b, pos, lookup, name)
}

/// Reads what follows an element's name at `pos`.
fn read_element_rest(b: &[u8], pos: usize, lookup: &[String], name: &str) -> (r: Outcome<BinEl>)
    requires
        pos + 3 <= b@.len(),
    ensures
        match p_element_rest(b@.skip(pos as int), lookup_view(lookup@), name@) {
            Parsed::Done(v, k) => r matches Outcome::Done(e, np) && el_view(e) == v && np == pos + k,
            Parsed::Failed => r is Rejected,
            Parsed::Crashed => r is Crashed,
        },
        r matches Outcome::Done(_, np) ==> np <= b@.len(),
    decreases b@.len() - pos, 1nat,
{
    let ghost bs = b@.skip(pos as int);
    let ghost lk = lookup_view(lookup@);
    proof { assert(b.len() == b@.len()); }
    let na = b[pos + 2];
    proof { assert(bs[2] == na); }
    let mut el = BinEl::new(name);
    let ghost ba = bs.skip(3);
    let mut p: usize = pos + 3;
    let mut a: u8 = 0;
    let ghost mut ps: Seq<(Seq<char>, AttrV)> = Seq::empty();
    proof { assert(attrs_from(ps) =~= Seq::<(Seq<char>, AttrV)>::empty()); }
    while a < na
        invariant
            pos + 3 <= p <= b@.len() <= usize::MAX,
            bs == b@.skip(pos as int),
            ba == bs.skip(3),
            lk == lookup_view(lookup@),
            a <= na,
            na == bs[2],
            p_attrs(ba, lk, a as nat) == Parsed::Done(ps, (p - pos - 3) as nat),
            el_view(el) == (ElemV { name: name@, attrs: attrs_from(ps), groups: Seq::empty() }),
        decreases na - a,
    {
        let ghost k0 = (p - pos - 3) as int;
        proof {
            assert(ba.skip(k0) =~= b@.skip(p as int));
            lemma_attrs_next(ba, lk, a as nat, ps, k0 as nat);
        }
        let (key, p1) = match read_lookup(b, p, lookup) {
            Outcome::Done(k, np) => (k, np),
            Outcome::Rejected => {
                proof { lemma_attrs_stop(ba, lk, (a + 1) as nat, na as nat); }
                return Outcome::Rejected;
            },
            Outcome::Crashed => {
                proof { lemma_attrs_stop(ba, lk, (a + 1) as nat, na as nat); }
                return Outcome::Crashed;
            },
        };
        proof { assert(ba.skip(k0 + 2) =~= b@.skip(p1 as int)); }
        let (val, p2) = match read_attr(b, p1, lookup) {
            Outcome::Done(v, np) => (v, np),
            Outcome::Rejected => {
                proof { lemma_attrs_stop(ba, lk, (a + 1) as nat, na as nat); }
                return Outcome::Rejected;
            },
            Outcome::Crashed => {
                proof { lemma_attrs_stop(ba, lk, (a + 1) as nat, na as nat); }
                return Outcome::Crashed;
            },
        };
        let ghost entry = (key@, attr_view(val));
        el.set_attr(key.to_owned(), val);
        proof {
            assert(ps.push(entry).drop_last() == ps);
            ps = ps.push(entry);
        }
        p = p2;
        a = a + 1;
    }
    let ghost ka = (p - pos - 3) as nat;
    proof { assert(p_element_rest(bs, lk, name@) == p_element_children(bs, lk, name@, ps, ka)); }
    read_element_children(b, pos, lookup, el, p, Ghost(ps))
}

/// Reads the children of the element `el` at `p`, its attributes `ps` having
/// been read from `pos + 3` on.
fn read_element_children(b: &[u8], pos: usize, lookup: &[String], start: BinEl, at: usize, Ghost(ps): Ghost<Seq<(Seq<char>, AttrV)>>) -> (r: Outcome<BinEl>)
    requires
        pos + 3 <= at <= b@.len(),
        el_view(start) == (ElemV { name: start.name@, attrs: attrs_from(ps), groups: Seq::empty() }),
    ensures
        match p_element_children(b@.skip(pos as int), lookup_view(lookup@), start.name@, ps, (at - pos - 3) as nat) {
            Parsed::Done(v, k) => r matches Outcome::Done(e, np) && el_view(e) == v && np == pos + k,
            Parsed::Failed => r is Rejected,
            Parsed::Crashed => r is Crashed,
        },
        r matches Outcome::Done(_, np) ==> np <= b@.len(),
    decreases b@.len() - pos, 0nat,
{
    let ghost bs = b@.skip(pos as int);
    let ghost lk = lookup_view(lookup@);
    let ghost ka = (at - pos - 3) as int;
    let ghost name = start.name@;
    let mut el = start;
    let mut p = at;
    if b.len() - p < 2 {
        return Outcome::Rejected;
    }
    proof { assert(bs[3 + ka] == b@[p as int]); assert(bs[4 + ka] == b@[p + 1]); }
    let nc: usize = b[p] as usize + 256 * (b[p + 1] as usize);
    p = p + 2;
    let ghost bc = bs.skip(5 + ka);
    let ghost pc = p;
    let mut c: usize = 0;
    let ghost mut cs: Seq<ElemV> = Seq::empty();
    while c < nc
        invariant
            pos + 5 <= pc <= p <= b@.len() <= usize::MAX,
            pc == pos + 5 + ka,
            bs == b@.skip(pos as int),
            bc == bs.skip(5 + ka),
            lk == lookup_view(lookup@),
            c <= nc,
            nc == u16_of(bs[3 + ka], bs[4 + ka]),
            name == start.name@,
            ka == at - pos - 3,
            5 + ka <= bs.len(),
            p_children(bc, lk, c as nat) == Parsed::Done(cs, (p - pc) as nat),
            el_view(el) == (ElemV { name, attrs: attrs_from(ps), groups: regroup(cs) }),
        decreases nc - c,
    {
        proof {
            assert(bc.skip(p - pc) =~= b@.skip(p as int));
            lemma_children_next(bc, lk, c as nat, cs, (p - pc) as nat);
        }
        let (child, np) = match read_element(b, p, lookup) {
            Outcome::Done(e, np) => (e, np),
            Outcome::Rejected => {
                proof {
                    lemma_children_stop(bc, lk, (c + 1) as nat, nc as nat);
                    assert(p_children(bc, lk, nc as nat) is Failed);
                    assert(p_element_children(bs, lk, name, ps, ka as nat) is Failed);
                }
                return Outcome::Rejected;
            },
            Outcome::Crashed => {
                proof { lemma_children_stop(bc, lk, (c + 1) as nat, nc as nat); }
                return Outcome::Crashed;
            },
        };
        let ghost cv = el_view(child);
        el.insert(child);
        proof {
            assert(cs.push(cv).drop_last() == cs);
            cs = cs.push(cv);
        }
        p = np;
        c = c + 1;
    }
    Outcome::Done(el, p)
}

/// Whether `b` starts with the map header.
fn has_header(b: &[u8]) -> (r: bool)
    ensures
        r == (b@.len() >= 12 && b@.take(12) == map_header()),
{
    if b.len() < 12 {
        return false;
    }
    let ok = b[0] == 11 && b[1] == 67 && b[2] == 69 && b[3] == 76 && b[4] == 69 && b[5] == 83
        && b[6] == 84 && b[7] == 69 && b[8] == 32 && b[9] == 77 && b[10] == 65 && b[11] == 80;
    proof {
        if ok { assert(b@.take(12) =~= map_header()); }
        else {
            if b@.take(12) == map_header() {
                assert(b@.take(12)[0] == b@[0]);
                assert(b@.take(12)[11] == b@[11]);
                assert(false) by {
                    assert(b@[0] == map_header()[0]); assert(b@[1] == b@.take(12)[1]); assert(b@[2] == b@.take(12)[2]);
                    assert(b@[3] == b@.take(12)[3]); assert(b@[4] == b@.take(12)[4]); assert(b@[5] == b@.take(12)[5]);
                    assert(b@[6] == b@.take(12)[6]); assert(b@[7] == b@.take(12)[7]); assert(b@[8] == b@.take(12)[8]);
                    assert(b@[9] == b@.take(12)[9]); assert(b@[10] == b@.take(12)[10]);
                }
            }
        }
    }
    ok
}

/// Reads the next of the lookup strings that start at `pl`, `t` of them having
/// been read up to `p`.
fn read_next_string<'a>(b: &'a [u8], p: usize, Ghost(pl): Ghost<int>, Ghost(t): Ghost<nat>, Ghost(ss): Ghost<Seq<Seq<char>>>) -> (r: Option<(&'a str, usize)>)
    requires
        0 <= pl <= p <= b@.len(),
        p_strs(b@.skip(pl), t) == Parsed::Done(ss, (p - pl) as nat),
    ensures
        match p_strs(b@.skip(pl), t + 1) {
            Parsed::Done(ss2, k2) => r matches Some((s, np)) && ss2 == ss.push(s@) && np == pl + k2 && np <= b@.len(),
            _ => r is None,
        },
{
    let ghost bl = b@.skip(pl);
    proof {
        assert(bl.skip(p - pl) =~= b@.skip(p as int));
        lemma_strs_next(bl, t, ss, (p - pl) as nat);
    }
    match read_str(b, p) {
        Outcome::Done(s, np) => Some((s, np)),
        _ => None,
    }
}

/// Reads a map file: the header, the package name, the lookup strings and
/// the root element.
fn read_file(b: &[u8]) -> (r: Outcome<BinFile>)
    ensures
        match p_file(b@) {
            Parsed::Done(v, k) => r matches Outcome::Done(f, np) && (f.package@, el_view(f.root)) == v && np == k,
            Parsed::Failed => r is Rejected,
            Parsed::Crashed => r is Crashed,
        },
        r matches Outcome::Done(_, np) ==> np <= b@.len(),
{
    if !has_header(b) {
        return Outcome::Rejected;
    }
    proof { assert(b@.skip(12) == b@.skip(12)); }
    let (package, p1) = match read_str(b, 12) {
        Outcome::Done(s, np) => (s, np),
        _ => { return Outcome::Rejected; },
    };
    if b.len() - p1 < 2 {
        return Outcome::Rejected;
    }
    let n: usize = b[p1] as usize + 256 * (b[p1 + 1] as usize);
    let mut p: usize = p1 + 2;
    let ghost bl = b@.skip(p as int);
    let ghost pl = p;
    let mut lookup: Vec<String> = Vec::new();
    let mut t: usize = 0;
    proof { assert(lookup_view(lookup@) =~= Seq::<Seq<char>>::empty()); }
    while t < n
        invariant
            pl <= p <= b@.len() <= usize::MAX,
            bl == b@.skip(pl as int),
            t <= n,
            b@.len() >= 12 && b@.take(12) == map_header(),
            p_str(b@.skip(12)) == Parsed::Done(package@, (p1 - 12) as nat),
            12 <= p1, pl == p1 + 2,
            n == u16_of(b@[p1 as int], b@[p1 + 1]),
            lookup@.len() == t,
            p_strs(bl, t as nat) == Parsed::Done(lookup_view(lookup@), (p - pl) as nat),
        decreases n - t,
    {
        let (s, np) = match read_next_string(b, p, Ghost(pl as int), Ghost(t as nat), Ghost(lookup_view(lookup@))) {
            Some((s, np)) => (s, np),
            None => {
                proof { lemma_strs_stop(bl, (t + 1) as nat, n as nat); }
                return Outcome::Rejected;
            },
        };
        let ghost old_lookup = lookup@;
        lookup.push(s.to_owned());
        proof { assert(lookup_view(lookup@) =~= lookup_view(old_lookup).push(s@)); }
        p = np;
        t = t + 1;
    }
    proof { assert(b@.skip(p as int) == b@.skip(p as int)); }
    match read_element(b, p, lookup.as_slice()) {
        Outcome::Done(root, np) => Outcome::Done(BinFile { package: package.to_owned(), root }, np),
        Outcome::Rejected => Outcome::Rejected,
        Outcome::Crashed => Outcome::Crashed,
    }
}

/// Takes a string with the length being a varint, returning what follows it.
pub fn take_str(input: &[u8]) -> (r: Result<(&[u8], &str), BinParseError>)
    ensures
        match p_str(input@) {
            Parsed::Done(v, k) => r matches Ok((rest, s)) && s@ == v && rest@ == input@.skip(k as int),
            _ => r is Err,
        },
{
    proof { assert(input@.skip(0) == input@); }
    match read_str(input, 0) {
        Outcome::Done(s, np) => Ok((slice_subrange(input, np, input.len()), s)),
        _ => Err(BinParseError),
    }
}

/// Looks up a 2-byte index in a string lookup table. An index past the table
/// is outside what this reader accepts.
pub fn take_lookup<'a, 'b>(buf: &'a [u8], lookup: &'b [String]) -> (r: Result<(&'a [u8], &'b str), BinParseError>)
    requires
        !(p_lookup(buf@, lookup_view(lookup@)) is Crashed),
    ensures
        match p_lookup(buf@, lookup_view(lookup@)) {
            Parsed::Done(v, k) => r matches Ok((rest, s)) && s@ == v && rest@ == buf@.skip(k as int),
            _ => r is Err,
        },
{
    proof { assert(buf@.skip(0) == buf@); }
    match read_lookup(buf, 0, lookup) {
        Outcome::Done(s, np) => Ok((slice_subrange(buf, np, buf.len()), s)),
        _ => Err(BinParseError),
    }
}

/// Takes a run-length encoded string: a 2-byte signed length in bytes, then
/// `(times, byte)` pairs.
pub fn take_rle_string(buf: &[u8]) -> (r: Result<(&[u8], String), BinParseError>)
    ensures
        match p_rle(buf@) {
            Parsed::Done(v, k) => r matches Ok((rest, s)) && s@ == v && rest@ == buf@.skip(k as int),
            _ => r is Err,
        },
{
    proof { assert(buf@.skip(0) == buf@); }
    match read_rle_string(buf, 0) {
        Outcome::Done(s, np) => Ok((slice_subrange(buf, np, buf.len()), s)),
        _ => Err(BinParseError),
    }
}

/// Takes one run of a run-length encoded string: a count and a byte, giving
/// the byte, read as a character, that many times.
pub fn take_rle_char(buf: &[u8]) -> (r: Result<(&[u8], String), BinParseError>)
    ensures
        buf@.len() >= 2 ==> (r matches Ok((rest, s)) && rest@ == buf@.skip(2)
            && s@ == Seq::new(buf@[0] as nat, |i: int| buf@[1] as char)),
        buf@.len() < 2 ==> r is Err,
{
    if buf.len() < 2 {
        return Err(BinParseError);
    }
    let times = buf[0];
    let c = buf[1] as char;
    let mut out = String::new();
    let mut k: u8 = 0;
    while k < times
        invariant
            k <= times,
            out@ == Seq::new(k as nat, |i: int| c),
        decreases times - k,
    {
        push_char(&mut out, c);
        k = k + 1;
        proof { assert(out@ =~= Seq::new(k as nat, |i: int| c)); }
    }
    Ok((slice_subrange(buf, 2, buf.len()), out))
}

/// Takes a tagged attribute value. An unknown tag, or a lookup index past
/// the table, is outside what this reader accepts.
pub fn take_elemattr<'a>(buf: &'a [u8], lookup: &[String]) -> (r: Result<(&'a [u8], BinElAttr), BinParseError>)
    requires
        !(p_attr(buf@, lookup_view(lookup@)) is Crashed),
    ensures
        match p_attr(buf@, lookup_view(lookup@)) {
            Parsed::Done(v, k) => r matches Ok((rest, a)) && attr_view(a) == v && rest@ == buf@.skip(k as int),
            _ => r is Err,
        },
{
    proof { assert(buf@.skip(0) == buf@); }
    match read_attr(buf, 0, lookup) {
        Outcome::Done(a, np) => Ok((slice_subrange(buf, np, buf.len()), a)),
        _ => Err(BinParseError),
    }
}

/// Takes an element. An unknown attribute tag, or a lookup index past the
/// table, is outside what this reader accepts.
pub fn take_element<'a>(buf: &'a [u8], lookup: &[String]) -> (r: Result<(&'a [u8], BinEl), BinParseError>)
    requires
        !(p_element(buf@, lookup_view(lookup@)) is Crashed),
    ensures
        match p_element(buf@, lookup_view(lookup@)) {
            Parsed::Done(v, k) => r matches Ok((rest, e)) && el_view(e) == v && rest@ == buf@.skip(k as int),
            _ => r is Err,
        },
{
    proof { assert(buf@.skip(0) == buf@); }
    match read_element(buf, 0, lookup) {
        Outcome::Done(e, np) => Ok((slice_subrange(buf, np, buf.len()), e)),
        _ => Err(BinParseError),
    }
}

/// Takes a map file. An unknown attribute tag, or a lookup index past the
/// table, is outside what this reader accepts.
pub fn take_file(input: &[u8]) -> (r: Result<(&[u8], BinFile), BinParseError>)
    requires
        !(p_file(input@) is Crashed),
    ensures
        match p_file(input@) {
            Parsed::Done(v, k) => r matches Ok((rest, f)) && (f.package@, el_view(f.root)) == v && rest@ == input@.skip(k as int),
            _ => r is Err,
        },
{
    match try_take_file(input) {
        Some(r) => r,
        None => Err(BinParseError),
    }
}

/// Takes a map file, or gives `None` where the format's reader would panic:
/// on an unknown attribute tag or a lookup index past the table.
pub fn try_take_file(input: &[u8]) -> (r: Option<Result<(&[u8], BinFile), BinParseError>>)
    ensures
        match p_file(input@) {
            Parsed::Done(v, k) => r matches Some(Ok((rest, f))) && (f.package@, el_view(f.root)) == v && rest@ == input@.skip(k as int),
            Parsed::Failed => r matches Some(Err(_)),
            Parsed::Crashed => r is None,
        },
{
    match read_file(input) {
        Outcome::Done(f, np) => Some(Ok((slice_subrange(input, np, input.len()), f))),
        Outcome::Rejected => Some(Err(BinParseError)),
        Outcome::Crashed => None,
    }
}

} // verus!

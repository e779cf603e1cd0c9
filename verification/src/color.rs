use vstd::prelude::*;
use vstd::utf8::encode_utf8;

verus! {

/// The value of an ASCII hexadecimal digit.
pub open spec fn hex_val(b: u8) -> Option<u8> {
    if 48 <= b <= 57 {
        Some((b - 48) as u8)
    } else if 97 <= b <= 102 {
        Some((b - 87) as u8)
    } else if 65 <= b <= 70 {
        Some((b - 55) as u8)
    } else {
        None
    }
}

/// A byte written as two characters in base 16, the way `u8::from_str_radix`
/// reads them: two hexadecimal digits, or `+` and one.
pub open spec fn hex_pair(b0: u8, b1: u8) -> Option<u8> {
    if b0 == 43 {
        hex_val(b1)
    } else {
        match (hex_val(b0), hex_val(b1)) {
            (Some(h), Some(l)) => Some((16 * h + l) as u8),
            _ => None,
        }
    }
}

/// The number of `#` bytes at the front of `b`.
pub open spec fn leading_hashes(b: Seq<u8>) -> nat
    decreases b.len(),
{
    if b.len() > 0 && b[0] == 35 { 1 + leading_hashes(b.drop_first()) } else { 0 }
}

/// What follows the leading `#` characters of a color.
pub open spec fn color_digits(color: Seq<char>) -> Seq<u8> {
    let b = encode_utf8(color);
    b.skip(leading_hashes(b) as int)
}

/// A color `#rrggbb` (any number of leading `#`, or none) as its three
/// components.
pub open spec fn color_spec(color: Seq<char>) -> Option<(u8, u8, u8)> {
    let t = color_digits(color);
    if t.len() != 6 {
        None
    } else {
        match (hex_pair(t[0], t[1]), hex_pair(t[2], t[3]), hex_pair(t[4], t[5])) {
            (Some(r), Some(g), Some(b)) => Some((r, g, b)),
            _ => None,
        }
    }
}

/// The ASCII character that writes the hexadecimal digit `d` (below 16):
/// `0`-`9`, then `a`-`f`, or `A`-`F` when `upper`.
pub open spec fn hex_char(d: int, upper: bool) -> u8 {
    if d < 10 { (48 + d) as u8 } else if upper { (55 + d) as u8 } else { (87 + d) as u8 }
}

/// Every byte written as two hexadecimal digits, in either case, reads back
/// as itself.
pub proof fn law_hex_pair_roundtrip(n: u8, upper_hi: bool, upper_lo: bool)
    ensures
        hex_pair(hex_char(n as int / 16, upper_hi), hex_char(n as int % 16, upper_lo)) == Some(n),
        n < 16 ==> hex_pair(43, hex_char(n as int, upper_lo)) == Some(n),
{
    let hi = n as int / 16;
    let lo = n as int % 16;
    assert(16 * hi + lo == n as int);
}

/// A pair reads as a byte only when its second character is a hexadecimal
/// digit (`0`-`9`, `a`-`f` or `A`-`F`) and its first is one too, or `+`.
pub proof fn law_hex_pair_only_digits(b0: u8, b1: u8)
    ensures
        hex_pair(b0, b1) is Some ==> {
            &&& (48 <= b1 <= 57 || 97 <= b1 <= 102 || 65 <= b1 <= 70)
            &&& (b0 == 43 || 48 <= b0 <= 57 || 97 <= b0 <= 102 || 65 <= b0 <= 70)
        },
{
}

/// A color whose digits are its three components, each written as two
/// hexadecimal digits in either case, reads back as those components.
pub proof fn law_color_roundtrip(color: Seq<char>, r: u8, g: u8, b: u8, upper: bool)
    requires
        color_digits(color) == seq![
            hex_char(r as int / 16, upper), hex_char(r as int % 16, upper),
            hex_char(g as int / 16, upper), hex_char(g as int % 16, upper),
            hex_char(b as int / 16, upper), hex_char(b as int % 16, upper),
        ],
    ensures
        color_spec(color) == Some((r, g, b)),
{
    law_hex_pair_roundtrip(r, upper, upper);
    law_hex_pair_roundtrip(g, upper, upper);
    law_hex_pair_roundtrip(b, upper, upper);
}

/// The `#` characters in front of a color are all skipped, and nothing
/// after them: its digits are what follows the first other byte on.
pub proof fn law_hashes_skipped(color: Seq<char>, k: nat, t: Seq<u8>)
    requires
        encode_utf8(color) == Seq::new(k, |i: int| 35u8) + t,
        t.len() == 0 || t[0] != 35,
    ensures
        color_digits(color) == t,
{
    lemma_leading_hashes(k, t);
    assert((Seq::new(k, |i: int| 35u8) + t).skip(k as int) =~= t);
}

proof fn lemma_leading_hashes(k: nat, t: Seq<u8>)
    requires
        t.len() == 0 || t[0] != 35,
    ensures
        leading_hashes(Seq::new(k, |i: int| 35u8) + t) == k,
    decreases k,
{
    let b = Seq::new(k, |i: int| 35u8) + t;
    if k > 0 {
        assert(b.drop_first() =~= Seq::new((k - 1) as nat, |i: int| 35u8) + t);
        lemma_leading_hashes((k - 1) as nat, t);
    } else {
        assert(b =~= t);
    }
}

fn hex_digit(b: u8) -> (r: Option<u8>)
    ensures
        r == hex_val(b),
{
    if 48 <= b && b <= 57 {
        Some(b - 48)
    } else if 97 <= b && b <= 102 {
        Some(b - 87)
    } else if 65 <= b && b <= 70 {
        Some(b - 55)
    } else {
        None
    }
}

fn read_pair(b0: u8, b1: u8) -> (r: Option<u8>)
    ensures
        r == hex_pair(b0, b1),
{
    if b0 == 43 {
        return hex_digit(b1);
    }
    match (hex_digit(b0), hex_digit(b1)) {
        (Some(h), Some(l)) => Some(16 * h + l),
        _ => None,
    }
}

/// Reads a color written `#rrggbb`, with any number of leading `#`.
pub fn parse_color(color: &str) -> (r: Option<(u8, u8, u8)>)
    requires
        color_digits(color@).len() == 6 ==> !(128 <= color_digits(color@)[2] <= 191)
            && !(128 <= color_digits(color@)[4] <= 191),
    ensures
        r == color_spec(color@),
{
    match try_parse_color(color) {
        Some(r) => r,
        None => {
            proof { assert(false); }
            None
        },
    }
}

/// Whether reading a color cuts a character in two: its six digits would be
/// read as three pairs, and the third or fifth is inside a UTF-8 character.
pub open spec fn color_splits_char(color: Seq<char>) -> bool {
    let t = color_digits(color);
    t.len() == 6 && ((128 <= t[2] <= 191) || (128 <= t[4] <= 191))
}

/// Reads a color as `parse_color` does; `None` where the reading would cut
/// a character in two, on which `parse_color` panics.
pub fn try_parse_color(color: &str) -> (r: Option<Option<(u8, u8, u8)>>)
    ensures
        color_splits_char(color@) ==> r is None,
        !color_splits_char(color@) ==> r == Some(color_spec(color@)),
{
    let b = color.as_bytes();
    let ghost bs = b@;
    let mut k: usize = 0;
    proof { assert(bs.skip(0) == bs); }
    while k < b.len() && b[k] == 35
        invariant
            k <= bs.len(),
            bs == b@,
            forall|i: int| 0 <= i < k ==> bs[i] == 35,
            leading_hashes(bs) == k + leading_hashes(bs.skip(k as int)),
        decreases bs.len() - k,
    {
        proof {
            assert(bs.skip(k as int).drop_first() == bs.skip(k + 1));
        }
        k = k + 1;
    }
    proof {
        assert(leading_hashes(bs.skip(k as int)) == 0);
    }
    if b.len() - k != 6 {
        return Some(None);
    }
    proof {
        let t = bs.skip(k as int);
        assert(t[0] == b@[k as int] && t[1] == b@[k + 1] && t[2] == b@[k + 2]);
        assert(t[3] == b@[k + 3] && t[4] == b@[k + 4] && t[5] == b@[k + 5]);
    }
    if (128 <= b[k + 2] && b[k + 2] <= 191) || (128 <= b[k + 4] && b[k + 4] <= 191) {
        return None;
    }
    let r = read_pair(b[k], b[k + 1]);
    let g = read_pair(b[k + 2], b[k + 3]);
    let bl = read_pair(b[k + 4], b[k + 5]);
    match (r, g, bl) {
        (Some(r), Some(g), Some(bl)) => Some(Some((r, g, bl))),
        _ => Some(None),
    }
}

} // verus!

use vstd::prelude::*;
use vstd::string::StrSliceExecFns;

verus! {

/// The side of a chapter.
#[derive(Copy, Clone, Debug, PartialEq, Eq, Structural)]
pub enum Side {
    A,
    B,
    C,
}

impl Default for Side {
    fn default() -> (r: Self)
        ensures
            r == Side::A,
    {
        Side::A
    }
}

/// The side a side letter names: `A` or nothing, `B` or `H`, `C` or `X`.
pub open spec fn side_of(s: Seq<char>) -> Option<Side> {
    if s =~= seq!['A'] || s.len() == 0 {
        Some(Side::A)
    } else if s =~= seq!['B'] || s =~= seq!['H'] {
        Some(Side::B)
    } else if s =~= seq!['C'] || s =~= seq!['X'] {
        Some(Side::C)
    } else {
        None
    }
}

/// The letter a side is written as reads back as that side, and distinct
/// sides are written differently.
pub proof fn law_side_letter_roundtrip(s: Side, t: Side)
    ensures
        side_of(seq![match s { Side::A => 'A', Side::B => 'B', Side::C => 'C' }]) == Some(s),
        s != t ==> match s { Side::A => 'A', Side::B => 'B', Side::C => 'C' }
            != match t { Side::A => 'A', Side::B => 'B', Side::C => 'C' },
{
    let c = match s { Side::A => 'A', Side::B => 'B', Side::C => 'C' };
    let w = seq![c];
    assert(w[0] == c);
    assert(seq!['A'][0] == 'A' && seq!['B'][0] == 'B' && seq!['H'][0] == 'H');
    assert(seq!['C'][0] == 'C' && seq!['X'][0] == 'X');
    assert(w =~= seq!['A'] ==> c == 'A');
    assert(w =~= seq!['B'] ==> c == 'B');
    assert(w =~= seq!['H'] ==> c == 'H');
    assert(w =~= seq!['C'] ==> c == 'C');
    assert(w =~= seq!['X'] ==> c == 'X');
}

impl Side {
    /// The side a side letter names.
    pub fn parse(mode_str: &str) -> (r: Option<Side>)
        ensures
            r == side_of(mode_str@),
    {
        let n = mode_str.unicode_len();
        if n == 0 {
            return Some(Side::A);
        }
        if n > 1 {
            proof {
                assert(!(mode_str@ =~= seq!['A']) && !(mode_str@ =~= seq!['B']) && !(mode_str@ =~= seq!['H']));
                assert(!(mode_str@ =~= seq!['C']) && !(mode_str@ =~= seq!['X']));
            }
            return None;
        }
        let c = mode_str.get_char(0);
        proof {
            assert(mode_str@ =~= seq![c]);
        }
        if c == 'A' {
            Some(Side::A)
        } else if c == 'B' || c == 'H' {
            Some(Side::B)
        } else if c == 'C' || c == 'X' {
            Some(Side::C)
        } else {
            None
        }
    }

    /// The index of the side: 0, 1 or 2.
    pub fn idx(&self) -> (r: usize)
        ensures
            r == (match *self {
                Side::A => 0usize,
                Side::B => 1usize,
                Side::C => 2usize,
            }),
    {
        match self {
            Side::A => 0,
            Side::B => 1,
            Side::C => 2,
        }
    }

    /// The letter of the side.
    pub fn to_string(&self) -> (r: String)
        ensures
            r@ == (match *self {
                Side::A => "A"@,
                Side::B => "B"@,
                Side::C => "C"@,
            }),
    {
        match self {
            Side::A => "A".to_owned(),
            Side::B => "B".to_owned(),
            Side::C => "C".to_owned(),
        }
    }
}

pub open spec fn is_sep(ch: char) -> bool {
    ch == '/' || ch == '\\'
}

pub open spec fn is_side_char(ch: char) -> bool {
    ch == 'A' || ch == 'B' || ch == 'C' || ch == 'H' || ch == 'X'
}

pub open spec fn is_digit(ch: char) -> bool {
    '0' <= ch <= '9'
}

/// The position of the first separator (`/` or `\`) at or after `i`, or the length.
pub open spec fn next_sep(c: Seq<char>, i: int) -> int
    decreases c.len() - i,
{
    if i >= c.len() {
        c.len() as int
    } else if is_sep(c[i]) {
        i
    } else {
        next_sep(c, i + 1)
    }
}

/// The end of the run of decimal digits that starts at `i`.
pub open spec fn digits_end(c: Seq<char>, i: int) -> int
    decreases c.len() - i,
{
    if i >= c.len() {
        c.len() as int
    } else if is_digit(c[i]) {
        digits_end(c, i + 1)
    } else {
        i
    }
}

/// The number that decimal digits stand for.
pub open spec fn decimal(d: Seq<char>) -> nat
    decreases d.len(),
{
    if d.len() == 0 {
        0
    } else {
        decimal(d.drop_last()) * 10 + (d.last() as nat - '0' as nat) as nat
    }
}

/// Whether a newline occurs at or after `from`.
pub open spec fn has_newline(c: Seq<char>, from: int) -> bool {
    exists|k: int| from <= k < c.len() && c[k] == '\n'
}

/// Where the name that starts at `p` ends: before a final `-` and side
/// letter, or before a final `-`, as long as the name keeps a character.
pub open spec fn name_end(c: Seq<char>, p: int) -> int {
    let len = c.len() as int;
    if len - p >= 3 && c[len - 2] == '-' && is_side_char(c[len - 1]) {
        len - 2
    } else if len - p >= 2 && c[len - 1] == '-' {
        len - 1
    } else {
        len
    }
}

/// The parts of a SID.
pub struct SidV {
    pub campaign: Seq<char>,
    pub order: nat,
    pub side: Seq<char>,
    pub name: Seq<char>,
}

/// A SID is `<username>/<campaign>/<order><side>-<name>`, either separator
/// being `/` or `\`: the two first segments are the campaign; the order is one
/// or more digits; the side is an optional letter among `ABCHX`; the name is
/// at least one character, without a newline after the campaign, and leaves
/// out a final `-` or `-` with a side letter.
pub open spec fn sid_spec(c: Seq<char>) -> Option<SidV> {
    let i1 = next_sep(c, 0);
    let i2 = next_sep(c, i1 + 1);
    if !(1 <= i1 && i1 + 1 < i2 && i2 < c.len()) || has_newline(c, i2 + 1) {
        None
    } else {
        let o = i2 + 1;
        let d = digits_end(c, o);
        if d == o || d >= c.len() {
            None
        } else {
            let side_len: int = if is_side_char(c[d]) && d + 1 < c.len() && c[d + 1] == '-' {
                1
            } else if c[d] == '-' {
                0
            } else {
                -1
            };
            let p = d + side_len + 1;
            if side_len < 0 || p >= c.len() {
                None
            } else {
                Some(SidV {
                    campaign: c.take(i2),
                    order: decimal(c.subrange(o, d)),
                    side: c.subrange(d, d + side_len),
                    name: c.subrange(p, name_end(c, p)),
                })
            }
        }
    }
}

/// The message of a failed SID parse.
pub open spec fn sid_error() -> Seq<char> {
    "Failed to parse SID. Must be in the format <username>/<campaign>/<order><side>-<name>, e.g. rhelmot/mymap/1B-Creekside"@
}

/// The fields of a SID: the order, the side, the name and the campaign.
pub struct SIDFields<'a> {
    pub order: usize,
    pub mode: Side,
    pub name: &'a str,
    pub campaign: &'a str,
}

fn find_sep(s: &str, n: usize, i: usize) -> (r: usize)
    requires
        n == s@.len(),
        i <= n,
    ensures
        r == next_sep(s@, i as int),
{
    let mut j = i;
    while j < n
        invariant
            n == s@.len(),
            i <= j <= n,
            next_sep(s@, i as int) == next_sep(s@, j as int),
        decreases n - j,
    {
        let ch = s.get_char(j);
        if ch == '/' || ch == '\\' {
            return j;
        }
        j = j + 1;
    }
    j
}

fn find_digits_end(s: &str, n: usize, i: usize) -> (r: usize)
    requires
        n == s@.len(),
        i <= n,
    ensures
        r == digits_end(s@, i as int),
        i <= r <= n,
        forall|k: int| i <= k < r ==> is_digit(#[trigger] s@[k]),
{
    let mut j = i;
    while j < n
        invariant
            n == s@.len(),
            i <= j <= n,
            digits_end(s@, i as int) == digits_end(s@, j as int),
            forall|k: int| i <= k < j ==> is_digit(#[trigger] s@[k]),
        decreases n - j,
    {
        let ch = s.get_char(j);
        if !('0' <= ch && ch <= '9') {
            return j;
        }
        j = j + 1;
    }
    j
}

pub proof fn lemma_decimal_prefix(d: Seq<char>, k: int)
    requires
        0 <= k <= d.len(),
    ensures
        decimal(d.take(k)) <= decimal(d),
    decreases d.len() - k,
{
    if k < d.len() {
        lemma_decimal_prefix(d, k + 1);
        assert(d.take(k + 1).drop_last() == d.take(k));
    } else {
        assert(d.take(k) == d);
    }
}

impl<'a> SIDFields<'a> {
    /// Parses a SID of the form `<username>/<campaign>/<order><side>-<name>`.
    pub fn parse(sid: &'a str) -> (r: Result<SIDFields<'a>, String>)
        requires
            sid_spec(sid@) matches Some(v) ==> v.order <= usize::MAX,
        ensures
            match sid_spec(sid@) {
                Some(v) => r matches Ok(f) && f.campaign@ == v.campaign && f.order == v.order
                    && f.name@ == v.name && side_of(v.side) == Some(f.mode),
                None => r matches Err(m) && m@ == sid_error(),
            },
    {
        match Self::try_parse(sid) {
            Some(r) => r,
            None => {
                proof { assert(false); }
                Err(String::new())
            },
        }
    }

    /// Parses a SID as `parse` does, where its order fits in a `usize`;
    /// `None` where the SID is well formed but its order is too large, on
    /// which `parse` panics.
    pub fn try_parse(sid: &'a str) -> (r: Option<Result<SIDFields<'a>, String>>)
        ensures
            match sid_spec(sid@) {
                Some(v) => if v.order > usize::MAX {
                    r is None
                } else {
                    r matches Some(Ok(f)) && f.campaign@ == v.campaign && f.order == v.order
                        && f.name@ == v.name && side_of(v.side) == Some(f.mode)
                },
                None => r matches Some(Err(m)) && m@ == sid_error(),
            },
    {
        let ghost c = sid@;
        let n = sid.unicode_len();
        let err = String::from_str("Failed to parse SID. Must be in the format <username>/<campaign>/<order><side>-<name>, e.g. rhelmot/mymap/1B-Creekside");
        proof { reveal_strlit("Failed to parse SID. Must be in the format <username>/<campaign>/<order><side>-<name>, e.g. rhelmot/mymap/1B-Creekside"); }
        let i1 = find_sep(sid, n, 0);
        if i1 < 1 || i1 >= n {
            return Some(Err(err));
        }
        let i2 = find_sep(sid, n, i1 + 1);
        if !(i1 + 1 < i2 && i2 < n) {
            return Some(Err(err));
        }
        let o = i2 + 1;
        let mut k = o;
        while k < n
            invariant
                n == c.len(),
                c == sid@,
                o <= k <= n,
                i1 == next_sep(c, 0),
                i2 == next_sep(c, i1 + 1),
                1 <= i1 && i1 + 1 < i2 && i2 < n,
                o == i2 + 1,
                err@ == sid_error(),
                forall|t: int| o <= t < k ==> c[t] != '\n',
            decreases n - k,
        {
            if sid.get_char(k) == '\n' {
                proof { assert(has_newline(c, o as int)); }
                return Some(Err(err));
            }
            k = k + 1;
        }
        proof { assert(!has_newline(c, o as int)); }
        let d = find_digits_end(sid, n, o);
        if d == o || d >= n {
            return Some(Err(err));
        }
        let cd = sid.get_char(d);
        let side_len: usize;
        if (cd == 'A' || cd == 'B' || cd == 'C' || cd == 'H' || cd == 'X') && d + 1 < n && sid.get_char(d + 1) == '-' {
            side_len = 1;
        } else if cd == '-' {
            side_len = 0;
        } else {
            return Some(Err(err));
        }
        let p = d + side_len + 1;
        if p >= n {
            return Some(Err(err));
        }
        let mut e = n;
        if n - p >= 3 {
            let a = sid.get_char(n - 2);
            let b = sid.get_char(n - 1);
            if a == '-' && (b == 'A' || b == 'B' || b == 'C' || b == 'H' || b == 'X') {
                e = n - 2;
            }
        }
        if e == n && n - p >= 2 && sid.get_char(n - 1) == '-' {
            e = n - 1;
        }
        proof { assert(e == name_end(c, p as int)); }
        let ghost v = sid_spec(c)->Some_0;
        let ghost digits = c.subrange(o as int, d as int);
        let mut order: usize = 0;
        let mut t = o;
        proof { assert(digits.take(0) =~= Seq::<char>::empty()); }
        while t < d
            invariant
                n == c.len(),
                c == sid@,
                o <= t <= d < n,
                digits == c.subrange(o as int, d as int),
                forall|q: int| o <= q < d ==> is_digit(#[trigger] c[q]),
                order == decimal(digits.take(t - o)),
                sid_spec(c) == Some(v),
                v.order == decimal(digits),
            decreases d - t,
        {
            let ch = sid.get_char(t);
            proof {
                assert(is_digit(c[t as int]));
                assert(digits.take(t + 1 - o).drop_last() == digits.take(t - o));
                assert(digits.take(t + 1 - o).last() == ch);
                lemma_decimal_prefix(digits, t + 1 - o);
            }
            let digit = ((ch as u32) - ('0' as u32)) as usize;
            match order.checked_mul(10) {
                None => {
                    proof { assert(decimal(digits) > usize::MAX); }
                    return None;
                },
                Some(m) => match m.checked_add(digit) {
                    None => {
                        proof { assert(decimal(digits) > usize::MAX); }
                        return None;
                    },
                    Some(next) => {
                        order = next;
                    },
                },
            }
            t = t + 1;
        }
        proof { assert(digits.take(d - o) == digits); }
        let side = sid.substring_char(d, d + side_len);
        let mode = Side::parse(side);
        proof { assert(mode is Some); }
        let name = sid.substring_char(p, e);
        let campaign = sid.substring_char(0, i2);
        proof { assert(c.take(i2 as int) == c.subrange(0, i2 as int)); }
        match mode {
            Some(m) => Some(Ok(SIDFields { order, mode: m, name, campaign })),
            None => Some(Err(err)),
        }
    }
}

} // verus!

use vstd::prelude::*;
use vstd::string::StrSliceExecFns;
use crate::sid::{decimal, lemma_decimal_prefix};
use crate::binread::push_char;

verus! {

/// A mod version: numbers separated by dots, such as `1.4.0.0`.
#[derive(Clone, Debug, PartialEq, Eq)]
pub struct EverestModuleVersion(pub Vec<i32>);

/// A dependency of a mod on another, at a version.
#[derive(Clone, Debug)]
pub struct EverestYamlDependency {
    pub name: String,
    pub version: EverestModuleVersion,
}

/// The metadata of a mod, as its `everest.yaml` gives it.
#[derive(Clone, Debug)]
pub struct EverestYaml {
    pub name: String,
    pub version: EverestModuleVersion,
    pub dll: Option<String>,
    pub dependencies: Vec<EverestYamlDependency>,
}

#[verifier::external_type_specification]
#[verifier::external_body]
pub struct ExYamlError(serde_yaml::Error);

/// Why a mod's metadata could not be loaded.
#[derive(Debug)]
pub enum EverestYamlLoadError {
    ParseError(serde_yaml::Error),
    NotOneEntry(usize),
    Missing,
}

/// The metadata of the game itself: Celeste, version 1.4.0.0.
pub fn celeste_module_yaml() -> (r: EverestYaml)
    ensures
        r.name@ == "Celeste"@,
        r.version.0@ == seq![1i32, 4i32, 0i32, 0i32],
        r.dll is None,
        r.dependencies@.len() == 0,
{
    let mut v: Vec<i32> = Vec::new();
    v.push(1);
    v.push(4);
    v.push(0);
    v.push(0);
    proof { assert(v@ =~= seq![1i32, 4i32, 0i32, 0i32]); }
    EverestYaml {
        name: String::from_str("Celeste"),
        version: EverestModuleVersion(v),
        dll: None,
        dependencies: Vec::new(),
    }
}

/// The metadata in an `everest.yaml` whose entries were read: there must be
/// exactly one.
pub fn from_entries(entries: Vec<EverestYaml>) -> (r: Result<EverestYaml, EverestYamlLoadError>)
    ensures
        entries@.len() == 1 ==> (r matches Ok(y) && y == entries@[0]),
        entries@.len() != 1 ==> (r matches Err(EverestYamlLoadError::NotOneEntry(n)) && n == entries@.len()),
{
    let n = entries.len();
    if n != 1 {
        return Err(EverestYamlLoadError::NotOneEntry(n));
    }
    let mut entries = entries;
    let y = entries.remove(0);
    Ok(y)
}

/// The decimal digits of `n`.
pub open spec fn dec_chars(n: nat) -> Seq<char>
    decreases n,
{
    if n < 10 {
        seq![(n + 48) as char]
    } else {
        dec_chars(n / 10).push((n % 10 + 48) as char)
    }
}

/// An integer as `to_string` writes it.
pub open spec fn int_chars(i: int) -> Seq<char> {
    if i < 0 { seq!['-'] + dec_chars((-i) as nat) } else { dec_chars(i as nat) }
}

/// A version as text: its numbers joined by dots.
pub open spec fn version_text(v: Seq<i32>) -> Seq<char>
    decreases v.len(),
{
    if v.len() == 0 {
        Seq::empty()
    } else if v.len() == 1 {
        int_chars(v[0] as int)
    } else {
        version_text(v.drop_last()) + seq!['.'] + int_chars(v.last() as int)
    }
}

pub open spec fn all_digits(d: Seq<char>) -> bool {
    forall|i: int| 0 <= i < d.len() ==> '0' <= #[trigger] d[i] <= '9'
}

/// An `i32` read the way `str::parse` reads one: an optional `+` or `-`, then
/// at least one decimal digit, the value in range.
pub open spec fn parse_i32(p: Seq<char>) -> Option<i32> {
    let neg = p.len() > 0 && p[0] == '-';
    let d = if p.len() > 0 && (p[0] == '-' || p[0] == '+') { p.drop_first() } else { p };
    if d.len() == 0 || !all_digits(d) {
        None
    } else {
        let v: int = if neg { -(decimal(d) as int) } else { decimal(d) as int };
        if i32::MIN <= v <= i32::MAX { Some(v as i32) } else { None }
    }
}

/// The position of the first `.` at or after `i`, or the length.
pub open spec fn next_dot(c: Seq<char>, i: int) -> int
    decreases c.len() - i,
{
    if i >= c.len() {
        c.len() as int
    } else if c[i] == '.' {
        i
    } else {
        next_dot(c, i + 1)
    }
}

/// A version read from text: each part between dots an `i32`.
pub open spec fn parse_version(c: Seq<char>) -> Option<Seq<i32>>
    decreases c.len(),
{
    let i = next_dot(c, 0);
    if 0 <= i <= c.len() {
        match parse_i32(c.take(i)) {
            None => None,
            Some(x) => if i >= c.len() {
                Some(seq![x])
            } else {
                match parse_version(c.skip(i + 1)) {
                    Some(rest) => Some(seq![x] + rest),
                    None => None,
                }
            },
        }
    } else {
        None
    }
}

fn find_dot(s: &str, n: usize, i: usize) -> (r: usize)
    requires
        n == s@.len(),
        i <= n,
    ensures
        r == next_dot(s@, i as int),
        i <= r <= n,
{
    let mut j = i;
    while j < n
        invariant
            n == s@.len(),
            i <= j <= n,
            next_dot(s@, i as int) == next_dot(s@, j as int),
        decreases n - j,
    {
        if s.get_char(j) == '.' {
            return j;
        }
        j = j + 1;
    }
    j
}

/// Reads the characters from `a` to `b` as an `i32`.
fn parse_i32_at(s: &str, a: usize, b: usize) -> (r: Option<i32>)
    requires
        a <= b <= s@.len(),
    ensures
        r == parse_i32(s@.subrange(a as int, b as int)),
{
    let ghost p = s@.subrange(a as int, b as int);
    if a == b {
        return None;
    }
    let c0 = s.get_char(a);
    let neg = c0 == '-';
    let start = if c0 == '-' || c0 == '+' { a + 1 } else { a };
    let ghost d = s@.subrange(start as int, b as int);
    proof {
        assert(p[0] == c0);
        if c0 == '-' || c0 == '+' { assert(d =~= p.drop_first()); } else { assert(d =~= p); }
    }
    if start == b {
        return None;
    }
    let mut acc: u64 = 0;
    let mut t = start;
    proof { assert(d.take(0) =~= Seq::<char>::empty()); }
    while t < b
        invariant
            start <= t <= b <= s@.len(),
            d == s@.subrange(start as int, b as int),
            p == s@.subrange(a as int, b as int),
            p.len() > 0,
            d.len() > 0,
            neg == (p[0] == '-'),
            (p[0] == '-' || p[0] == '+') ==> d == p.drop_first(),
            !(p[0] == '-' || p[0] == '+') ==> d == p,
            forall|q: int| start <= q < t ==> '0' <= #[trigger] s@[q] <= '9',
            acc == decimal(d.take(t - start)),
            acc <= 2147483648,
        decreases b - t,
    {
        let ch = s.get_char(t);
        if !('0' <= ch && ch <= '9') {
            proof { assert(d[t - start] == ch); }
            return None;
        }
        proof {
            assert(d.take(t + 1 - start).drop_last() == d.take(t - start));
            assert(d.take(t + 1 - start).last() == ch);
        }
        acc = acc * 10 + ((ch as u32) - ('0' as u32)) as u64;
        t = t + 1;
        if acc > 2147483648 {
            proof {
                if all_digits(d) { lemma_decimal_prefix(d, t - start); }
            }
            return None;
        }
    }
    proof {
        assert(d.take(t - start) == d);
        assert(all_digits(d)) by {
            assert forall|i: int| 0 <= i < d.len() implies '0' <= #[trigger] d[i] <= '9' by {
                assert(d[i] == s@[start + i]);
            }
        }
    }
    if neg {
        Some((-(acc as i64)) as i32)
    } else if acc <= 2147483647 {
        Some(acc as i32)
    } else {
        None
    }
}

proof fn lemma_next_dot_skip(c: Seq<char>, k: int, i: int)
    requires
        0 <= k <= c.len(),
        0 <= i,
    ensures
        next_dot(c.skip(k), i) == next_dot(c, i + k) - k,
    decreases c.len() - k - i,
{
    if i < c.len() - k && c.skip(k)[i] != '.' {
        lemma_next_dot_skip(c, k, i + 1);
    }
}

impl EverestModuleVersion {
    /// Reads a version: numbers, each optionally signed, separated by dots.
    pub fn parse(s: &str) -> (r: Result<EverestModuleVersion, &'static str>)
        ensures
            match parse_version(s@) {
                Some(v) => r matches Ok(x) && x.0@ == v,
                None => r matches Err(e) && e@ == "unable to parse integer"@,
            },
    {
        let ghost c = s@;
        let n = s.unicode_len();
        let mut out: Vec<i32> = Vec::new();
        let mut start: usize = 0;
        proof { assert(c.skip(0) == c); assert(out@ + Seq::<i32>::empty() == out@); }
        loop
            invariant
                n == c.len(),
                c == s@,
                start <= n,
                parse_version(c) == (match parse_version(c.skip(start as int)) {
                    Some(rest) => Some(out@ + rest),
                    None => None,
                }),
            decreases n - start,
        {
            let j = find_dot(s, n, start);
            let ghost cs = c.skip(start as int);
            proof {
                lemma_next_dot_skip(c, start as int, 0);
                assert(cs.take(j - start) =~= c.subrange(start as int, j as int));
                if j < n { assert(cs.skip(j - start + 1) =~= c.skip(j + 1)); }
            }
            match parse_i32_at(s, start, j) {
                None => {
                    return Err("unable to parse integer");
                },
                Some(x) => {
                    let ghost before = out@;
                    out.push(x);
                    if j >= n {
                        proof { assert(before + seq![x] == out@); }
                        return Ok(EverestModuleVersion(out));
                    }
                    proof {
                        assert forall|rest: Seq<i32>| before + (seq![x] + rest) == out@ + rest by {
                            assert(before + (seq![x] + rest) =~= out@ + rest);
                        }
                    }
                    start = j + 1;
                },
            }
        }
    }
}

/// Appends the decimal digits of `n`.
pub(crate) fn push_decimal(out: &mut String, n: u64)
    ensures
        final(out)@ == old(out)@ + dec_chars(n as nat),
    decreases n,
{
    if n >= 10 {
        push_decimal(out, n / 10);
    }
    let digit = ((n % 10) as u8 + 48u8) as char;
    proof { assert(digit == ((n % 10) + 48) as char); }
    push_char(out, digit);
    proof {
        if n >= 10 {
            assert(dec_chars(n as nat) == dec_chars((n / 10) as nat).push(digit));
        }
    }
}

/// Appends an integer as `to_string` writes it.
fn push_int(out: &mut String, v: i32)
    ensures
        final(out)@ == old(out)@ + int_chars(v as int),
{
    if v < 0 {
        push_char(out, '-');
        let m = (-(v as i64)) as u64;
        push_decimal(out, m);
        proof { assert(old(out)@.push('-') + dec_chars(m as nat) =~= old(out)@ + int_chars(v as int)); }
    } else {
        push_decimal(out, v as u64);
    }
}

impl EverestModuleVersion {
    /// The version as text: its numbers joined by dots.
    pub fn to_string(&self) -> (r: String)
        ensures
            r@ == version_text(self.0@),
    {
        let v = &self.0;
        let mut out = String::new();
        let mut i: usize = 0;
        proof { assert(v@.take(0) =~= Seq::<i32>::empty()); }
        while i < v.len()
            invariant
                i <= v@.len(),
                out@ == version_text(v@.take(i as int)),
            decreases v@.len() - i,
        {
            let ghost before = out@;
            if i > 0 {
                push_char(&mut out, '.');
            }
            push_int(&mut out, v[i]);
            proof {
                let t = v@.take(i + 1);
                assert(t.drop_last() == v@.take(i as int));
                assert(t.last() == v@[i as int]);
                if i == 0 {
                    assert(before.len() == 0);
                    assert(out@ =~= int_chars(v@[0] as int));
                } else {
                    assert(out@ =~= before + seq!['.'] + int_chars(v@[i as int] as int));
                }
            }
            i = i + 1;
        }
        proof { assert(v@.take(i as int) == v@); }
        out
    }
}

impl std::str::FromStr for EverestModuleVersion {
    type Err = &'static str;

    fn from_str(s: &str) -> (r: Result<Self, Self::Err>)
        ensures
            match parse_version(s@) {
                Some(v) => r matches Ok(x) && x.0@ == v,
                None => r matches Err(e) && e@ == "unable to parse integer"@,
            },
    {
        EverestModuleVersion::parse(s)
    }
}

pub proof fn lemma_dec_chars(n: nat)
    ensures
        dec_chars(n).len() >= 1,
        all_digits(dec_chars(n)),
        decimal(dec_chars(n)) == n,
        forall|i: int| 0 <= i < dec_chars(n).len() ==> #[trigger] dec_chars(n)[i] != '.',
    decreases n,
{
    let d = dec_chars(n);
    let ch = ((n % 10) + 48) as char;
    assert(ch as nat == (n % 10) + 48);
    if n >= 10 {
        lemma_dec_chars(n / 10);
        assert(d.drop_last() == dec_chars(n / 10));
        assert(d.last() == ch);
        assert(n == (n / 10) * 10 + n % 10);
        assert(decimal(d) == decimal(d.drop_last()) * 10 + (d.last() as nat - '0' as nat) as nat);
    } else {
        assert(n % 10 == n);
        assert(d.last() == ch);
        assert(d.drop_last().len() == 0);
        assert(decimal(d) == decimal(d.drop_last()) * 10 + (d.last() as nat - '0' as nat) as nat);
    }
}

proof fn lemma_parse_int_chars(a: i32)
    ensures
        parse_i32(int_chars(a as int)) == Some(a),
        forall|i: int| 0 <= i < int_chars(a as int).len() ==> #[trigger] int_chars(a as int)[i] != '.',
{
    if a < 0 {
        let m = (-(a as int)) as nat;
        lemma_dec_chars(m);
        let p = int_chars(a as int);
        assert(p.drop_first() == dec_chars(m));
        assert forall|i: int| 0 <= i < p.len() implies #[trigger] p[i] != '.' by {
            if i > 0 { assert(p[i] == dec_chars(m)[i - 1]); }
        }
    } else {
        lemma_dec_chars(a as nat);
        assert(int_chars(a as int)[0] != '-' && int_chars(a as int)[0] != '+') by {
            assert('0' <= dec_chars(a as nat)[0] <= '9');
        }
    }
}

proof fn lemma_version_text_front(v: Seq<i32>)
    requires
        v.len() >= 2,
    ensures
        version_text(v) == int_chars(v[0] as int) + seq!['.'] + version_text(v.drop_first()),
    decreases v.len(),
{
    let ia = int_chars(v[0] as int);
    if v.len() > 2 {
        lemma_version_text_front(v.drop_last());
        assert(v.drop_last().drop_first() == v.drop_first().drop_last());
        assert(v.drop_first().last() == v.last());
        assert(v.drop_last()[0] == v[0]);
        assert(version_text(v.drop_first()) == version_text(v.drop_first().drop_last()) + seq!['.'] + int_chars(v.last() as int));
        assert(version_text(v) =~= ia + seq!['.'] + version_text(v.drop_first()));
    } else {
        assert(v.drop_last() =~= seq![v[0]]);
        assert(v.drop_first() =~= seq![v[1]]);
        assert(version_text(seq![v[0]]) == ia);
        assert(version_text(seq![v[1]]) == int_chars(v[1] as int));
        assert(v.last() == v[1]);
    }
}

proof fn lemma_next_dot_after(x: Seq<char>, y: Seq<char>)
    requires
        forall|i: int| 0 <= i < x.len() ==> #[trigger] x[i] != '.',
    ensures
        next_dot(x + y, 0) == x.len() + next_dot(y, 0),
{
    let c = x + y;
    assert forall|i: int| 0 <= i <= x.len() implies next_dot(c, i) == x.len() + next_dot(y, 0) by {
        lemma_next_dot_from(x, y, i);
    }
}

proof fn lemma_next_dot_from(x: Seq<char>, y: Seq<char>, i: int)
    requires
        0 <= i <= x.len(),
        forall|k: int| 0 <= k < x.len() ==> #[trigger] x[k] != '.',
    ensures
        next_dot(x + y, i) == x.len() + next_dot(y, 0),
    decreases x.len() - i,
{
    let c = x + y;
    if i < x.len() {
        assert(c[i] == x[i]);
        lemma_next_dot_from(x, y, i + 1);
    } else {
        lemma_next_dot_skip(c, x.len() as int, 0);
        assert(c.skip(x.len() as int) == y);
    }
}

/// A version written as text reads back as itself.
pub proof fn law_version_roundtrip(v: Seq<i32>)
    requires
        v.len() >= 1,
    ensures
        parse_version(version_text(v)) == Some(v),
    decreases v.len(),
{
    let a = v[0];
    lemma_parse_int_chars(a);
    let ia = int_chars(a as int);
    if v.len() == 1 {
        let t = version_text(v);
        assert(t == ia);
        assert(t + Seq::<char>::empty() == t);
        lemma_next_dot_after(ia, Seq::<char>::empty());
        assert(next_dot(Seq::<char>::empty(), 0) == 0);
        assert(t.take(t.len() as int) == t);
        assert(v =~= seq![a]);
    } else {
        let rest = v.drop_first();
        lemma_version_text_front(v);
        law_version_roundtrip(rest);
        let y = seq!['.'] + version_text(rest);
        let t = version_text(v);
        assert(t == ia + y);
        lemma_next_dot_after(ia, y);
        assert(next_dot(y, 0) == 0);
        assert(t.take(ia.len() as int) == ia);
        assert(t.skip(ia.len() + 1int) =~= version_text(rest));
        assert(seq![a] + rest =~= v);
    }
}

} // verus!

//! Lenient comparison of tile texts, as written by different map editors:
//! carriage returns are ignored and a row may end early.
use vstd::prelude::*;
use crate::binel::BinElAttr;

verus! {

/// Whether the text `a` from index `j` on, with carriage returns dropped,
/// lines up with `b` from index `i` on, where a character of `a` may be
/// skipped when `b` has run out or stands at a line break.
pub open spec fn char_tiles_at(a: Seq<char>, b: Seq<char>, j: int, i: int) -> bool
    decreases a.len() - j,
{
    if j < 0 || j >= a.len() {
        true
    } else if a[j] == '\r' {
        char_tiles_at(a, b, j + 1, i)
    } else if 0 <= i < b.len() && b[i] == a[j] {
        char_tiles_at(a, b, j + 1, i + 1)
    } else if i >= b.len() || b[i] == '\n' {
        char_tiles_at(a, b, j + 1, i)
    } else {
        false
    }
}

/// Like `char_tiles_at`, but a character of `a` may only be skipped when it
/// is itself a line break.
pub open spec fn int_tiles_at(a: Seq<char>, b: Seq<char>, j: int, i: int) -> bool
    decreases a.len() - j,
{
    if j < 0 || j >= a.len() {
        true
    } else if a[j] == '\r' {
        int_tiles_at(a, b, j + 1, i)
    } else if 0 <= i < b.len() && b[i] == a[j] {
        int_tiles_at(a, b, j + 1, i + 1)
    } else if (i >= b.len() || b[i] == '\n') && a[j] == '\n' {
        int_tiles_at(a, b, j + 1, i)
    } else {
        false
    }
}

/// Whether a value equals the empty value of its kind, by its contents.
pub open spec fn is_default_of(v: BinElAttr, like: BinElAttr) -> bool {
    match (like, v) {
        (BinElAttr::Bool(_), BinElAttr::Bool(b)) => !b,
        (BinElAttr::Int(_), BinElAttr::Int(i)) => i == 0,
        (BinElAttr::Float(_), BinElAttr::Float(f)) => f == 0,
        (BinElAttr::Text(_), BinElAttr::Text(t)) => t@ == Seq::<char>::empty(),
        _ => false,
    }
}

/// The empty value of the same kind as `like`: `false`, zero or the empty
/// text.
pub fn make_like_default(like: &BinElAttr) -> (r: BinElAttr)
    ensures
        is_default_of(r, *like),
{
    match like {
        BinElAttr::Bool(_) => BinElAttr::Bool(false),
        BinElAttr::Int(_) => BinElAttr::Int(0),
        BinElAttr::Float(_) => BinElAttr::Float(0),
        BinElAttr::Text(_) => BinElAttr::Text(String::new()),
    }
}

/// The tile comparison of integer tiles when `ints`, else of character tiles.
pub open spec fn tiles_at(a: Seq<char>, b: Seq<char>, ints: bool) -> bool {
    if ints { int_tiles_at(a, b, 0, 0) } else { char_tiles_at(a, b, 0, 0) }
}

/// The text of a value when it is one.
pub open spec fn text_of(v: BinElAttr) -> Option<Seq<char>> {
    match v {
        BinElAttr::Text(t) => Some(t@),
        _ => None,
    }
}

fn char_tiles_match(a: &str, b: &str) -> (r: bool)
    ensures
        r == char_tiles_at(a@, b@, 0, 0),
{
    let n = a.unicode_len();
    let m = b.unicode_len();
    let mut j: usize = 0;
    let mut i: usize = 0;
    while j < n
        invariant
            n == a@.len(),
            m == b@.len(),
            j <= n,
            i <= j,
            char_tiles_at(a@, b@, 0, 0) == char_tiles_at(a@, b@, j as int, i as int),
        decreases n - j,
    {
        let ch = a.get_char(j);
        if ch != '\r' {
            if i < m && b.get_char(i) == ch {
                i = i + 1;
            } else if i >= m || b.get_char(i) == '\n' {
            } else {
                return false;
            }
        }
        j = j + 1;
    }
    true
}

fn int_tiles_match(a: &str, b: &str) -> (r: bool)
    ensures
        r == int_tiles_at(a@, b@, 0, 0),
{
    let n = a.unicode_len();
    let m = b.unicode_len();
    let mut j: usize = 0;
    let mut i: usize = 0;
    while j < n
        invariant
            n == a@.len(),
            m == b@.len(),
            j <= n,
            i <= j,
            int_tiles_at(a@, b@, 0, 0) == int_tiles_at(a@, b@, j as int, i as int),
        decreases n - j,
    {
        let ch = a.get_char(j);
        if ch != '\r' {
            if i < m && b.get_char(i) == ch {
                i = i + 1;
            } else if (i >= m || b.get_char(i) == '\n') && ch == '\n' {
            } else {
                return false;
            }
        }
        j = j + 1;
    }
    true
}

/// Whether two texts of a character tile grid agree: both must be texts,
/// and the second may leave out the end of a row.
pub fn compare_char_tiles_required(first: &BinElAttr, second: &BinElAttr) -> (r: bool)
    ensures
        r == match (*first, *second) {
            (BinElAttr::Text(a), BinElAttr::Text(b)) => char_tiles_at(a@, b@, 0, 0),
            _ => false,
        },
{
    match (first, second) {
        (BinElAttr::Text(a), BinElAttr::Text(b)) => char_tiles_match(a.as_str(), b.as_str()),
        _ => false,
    }
}

/// Whether two texts of an integer tile grid agree: both must be texts, and
/// only line breaks may stand where the second has run out of a row.
pub fn compare_int_tiles_required(first: &BinElAttr, second: &BinElAttr) -> (r: bool)
    ensures
        r == match (*first, *second) {
            (BinElAttr::Text(a), BinElAttr::Text(b)) => int_tiles_at(a@, b@, 0, 0),
            _ => false,
        },
{
    match (first, second) {
        (BinElAttr::Text(a), BinElAttr::Text(b)) => int_tiles_match(a.as_str(), b.as_str()),
        _ => false,
    }
}

/// What the tile comparison of two optional values gives (of integer tiles
/// when `ints`, else of character tiles): a missing value stands for the
/// empty value of the other's kind.
pub open spec fn tiles_optional(
    first: Option<BinElAttr>,
    second: Option<BinElAttr>,
    ints: bool,
) -> bool {
    match (first, second) {
        (Some(a), Some(b)) => match (text_of(a), text_of(b)) {
            (Some(x), Some(y)) => tiles_at(x, y, ints),
            _ => false,
        },
        (Some(a), None) => match text_of(a) {
            Some(x) => tiles_at(x, Seq::empty(), ints),
            None => false,
        },
        (None, Some(b)) => match text_of(b) {
            Some(y) => tiles_at(Seq::empty(), y, ints),
            None => false,
        },
        (None, None) => false,
    }
}

/// Character tile comparison where either value may be missing, but not
/// both.
pub fn compare_char_tiles(first: Option<&BinElAttr>, second: Option<&BinElAttr>) -> (r: bool)
    requires
        first is Some || second is Some,
    ensures
        r == tiles_optional(
            match first { Some(a) => Some(*a), None => None },
            match second { Some(b) => Some(*b), None => None },
            false,
        ),
{
    match (first, second) {
        (None, Some(second)) => {
            let default = make_like_default(second);
            compare_char_tiles_required(&default, second)
        },
        (Some(first), None) => {
            let default = make_like_default(first);
            compare_char_tiles_required(first, &default)
        },
        (Some(first), Some(second)) => compare_char_tiles_required(first, second),
        (None, None) => false,
    }
}

/// Integer tile comparison where either value may be missing, but not both.
pub fn compare_int_tiles(first: Option<&BinElAttr>, second: Option<&BinElAttr>) -> (r: bool)
    requires
        first is Some || second is Some,
    ensures
        r == tiles_optional(
            match first { Some(a) => Some(*a), None => None },
            match second { Some(b) => Some(*b), None => None },
            true,
        ),
{
    match (first, second) {
        (Some(first), Some(second)) => compare_int_tiles_required(first, second),
        (Some(first), None) => {
            let default = make_like_default(first);
            compare_int_tiles_required(first, &default)
        },
        (None, Some(second)) => {
            let default = make_like_default(second);
            compare_int_tiles_required(&default, second)
        },
        (None, None) => false,
    }
}

} // verus!

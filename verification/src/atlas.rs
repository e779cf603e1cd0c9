//! The packed sprite atlases of the game: `.data` files, run-length coded
//! images, and `.meta` files, the index of the sprites in them.
use vstd::prelude::*;
use vstd::slice::slice_subrange;
use vstd::string::StringSliceAdditionalSpecFns;
use vstd::utf8::{valid_utf8, decode_utf8, encode_utf8_decode_utf8};
use crate::binfmt::{u16_of, u32_of};
use crate::binread::{u32_at, utf8_text, push_char};

verus! {

/// A pixel: red, green, blue and alpha.
#[derive(Clone, Copy, Debug, PartialEq, Eq, Structural)]
pub struct Rgba8 {
    pub r: u8,
    pub g: u8,
    pub b: u8,
    pub a: u8,
}

/// An image decoded from a `.data` file: width, height and the pixels row
/// by row.
#[derive(Debug)]
pub struct DataImage {
    pub width: u32,
    pub height: u32,
    pub pixels: Vec<Rgba8>,
}

/// Why an atlas file could not be read.
#[derive(Debug, Clone, Copy, PartialEq, Eq, Structural)]
pub enum AtlasReadError {
    /// The file ended before what it announced.
    UnexpectedEof,
    /// A name in the file is not valid UTF-8.
    InvalidUtf8,
}

/// The transparent pixel that an image starts out with.
pub open spec fn clear() -> Rgba8 {
    Rgba8 { r: 0, g: 0, b: 0, a: 0 }
}

/// `px` with the `n` pixels from `from` on set to `v`.
pub open spec fn fill(px: Seq<Rgba8>, from: int, n: int, v: Rgba8) -> Seq<Rgba8> {
    Seq::new(px.len(), |i: int| if from <= i < from + n { v } else { px[i] })
}

/// How decoding the runs of a `.data` file goes: the pixels; the end of the
/// file first; or a run that reaches past the image, where the reader
/// panics.
pub enum Runs {
    Done(Seq<Rgba8>),
    Eof,
    PastEnd,
}

/// The runs of a `.data` file from byte `pos` on, with `cur` of `total`
/// pixels done so far. A run is a count, an alpha byte where the image has
/// alpha (else the alpha is 255), and, where the alpha is not zero, the blue,
/// green and red bytes of the pixel it repeats; a run of alpha zero leaves
/// its pixels clear.
pub open spec fn runs(b: Seq<u8>, pos: int, cur: int, total: int, has_alpha: bool, px: Seq<Rgba8>) -> Runs
    decreases b.len() - pos,
{
    if cur >= total {
        Runs::Done(px)
    } else if pos < 0 || pos >= b.len() {
        Runs::Eof
    } else {
        let repeat = b[pos] as int;
        let p1 = pos + 1;
        if has_alpha && p1 >= b.len() {
            Runs::Eof
        } else {
            let alpha: u8 = if has_alpha { b[p1] } else { 255 };
            let p2 = if has_alpha { p1 + 1 } else { p1 };
            if alpha > 0 {
                if p2 + 3 > b.len() {
                    Runs::Eof
                } else if cur + repeat > total {
                    Runs::PastEnd
                } else {
                    let v = Rgba8 { r: b[p2 + 2], g: b[p2 + 1], b: b[p2], a: alpha };
                    runs(b, p2 + 3, cur + repeat, total, has_alpha, fill(px, cur, repeat, v))
                }
            } else {
                runs(b, p2, cur + repeat, total, has_alpha, px)
            }
        }
    }
}

/// The width given by the header of a `.data` file.
pub open spec fn data_width(b: Seq<u8>) -> nat {
    u32_of(b)
}

/// The height given by the header of a `.data` file.
pub open spec fn data_height(b: Seq<u8>) -> nat {
    u32_of(b.skip(4))
}

/// The runs of a whole `.data` file, after its header of width, height and
/// alpha flag, over an image that starts out clear.
pub open spec fn data_runs(b: Seq<u8>) -> Runs {
    let total = data_width(b) * data_height(b);
    runs(b, 9, 0, total as int, b[8] != 0, Seq::new(total, |i: int| clear()))
}

/// Whether the reader of `.data` files gets through `b` without panicking:
/// the pixel count fits in 32 bits and no run reaches past the image.
pub open spec fn data_fits(b: Seq<u8>) -> bool {
    b.len() >= 9 ==> data_width(b) * data_height(b) <= u32::MAX && !(data_runs(b) is PastEnd)
}

/// What reading a `.data` file gives.
pub open spec fn spec_decode_data(b: Seq<u8>) -> Result<(nat, nat, Seq<Rgba8>), AtlasReadError> {
    if b.len() < 9 {
        Err(AtlasReadError::UnexpectedEof)
    } else {
        match data_runs(b) {
            Runs::Done(px) => Ok((data_width(b), data_height(b), px)),
            _ => Err(AtlasReadError::UnexpectedEof),
        }
    }
}

/// One run at `pos`, with `cur` pixels done: the pixel it paints if any, the
/// count and the position after it; `None` where the file ends first.
fn read_run(b: &[u8], pos: usize, has_alpha: bool) -> (r: Option<(Option<Rgba8>, usize, usize)>)
    requires
        pos < b@.len(),
    ensures
        match r {
            None => {
                let p1 = pos + 1;
                (has_alpha && p1 >= b@.len()) || ({
                    let alpha: u8 = if has_alpha { b@[p1] } else { 255 };
                    let p2 = if has_alpha { p1 + 1 } else { p1 };
                    alpha > 0 && p2 + 3 > b@.len()
                })
            },
            Some((v, repeat, next)) => {
                let p1 = pos + 1;
                &&& !(has_alpha && p1 >= b@.len())
                &&& repeat == b@[pos as int]
                &&& next <= b@.len()
                &&& {
                    let alpha: u8 = if has_alpha { b@[p1] } else { 255 };
                    let p2 = if has_alpha { p1 + 1 } else { p1 };
                    if alpha > 0 {
                        p2 + 3 <= b@.len() && next == p2 + 3
                            && v == Some(Rgba8 { r: b@[p2 + 2], g: b@[p2 + 1], b: b@[p2], a: alpha })
                    } else {
                        next == p2 && v is None
                    }
                }
            },
        },
{
    let repeat = b[pos] as usize;
    let p1 = pos + 1;
    if has_alpha && p1 >= b.len() {
        return None;
    }
    let alpha: u8 = if has_alpha { b[p1] } else { 255 };
    let p2 = if has_alpha { p1 + 1 } else { p1 };
    if alpha > 0 {
        if b.len() - p2 < 3 {
            None
        } else {
            Some((Some(Rgba8 { r: b[p2 + 2], g: b[p2 + 1], b: b[p2], a: alpha }), repeat, p2 + 3))
        }
    } else {
        Some((None, repeat, p2))
    }
}

/// Whether the reader of `.data` files gets through `bytes` without
/// panicking.
pub fn data_file_fits(bytes: &[u8]) -> (r: bool)
    ensures
        r == data_fits(bytes@),
{
    if bytes.len() < 9 {
        return true;
    }
    let width = u32_at(bytes, 0);
    let height = u32_at(bytes, 4);
    proof {
        assert(bytes@.skip(0) =~= bytes@);
    }
    proof {
        assert((width as u64) * (height as u64) <= 0xffff_fffe_0000_0001u64) by (nonlinear_arith)
            requires
                width <= 0xffff_ffffu32,
                height <= 0xffff_ffffu32;
    }
    let wide: u64 = width as u64 * height as u64;
    if wide > u32::MAX as u64 {
        return false;
    }
    let total = wide as usize;
    let has_alpha = bytes[8] != 0;
    let ghost b = bytes@;
    let ghost zeros = Seq::new(total as nat, |i: int| clear());
    let ghost mut px = zeros;
    let mut pos: usize = 9;
    let mut cur: usize = 0;
    while cur < total
        invariant
            b == bytes@,
            b.len() >= 9,
            total == data_width(b) * data_height(b),
            total <= u32::MAX,
            has_alpha == (b[8] != 0),
            9 <= pos <= b.len(),
            cur <= total,
            data_runs(b) == runs(b, pos as int, cur as int, total as int, has_alpha, px),
        decreases b.len() - pos,
    {
        if pos >= bytes.len() {
            return true;
        }
        match read_run(bytes, pos, has_alpha) {
            None => {
                return true;
            },
            Some((v, repeat, next)) => {
                let ghost old_px = px;
                match v {
                    Some(pixel) => {
                        if repeat > total - cur {
                            return false;
                        }
                        proof {
                            px = fill(px, cur as int, repeat as int, pixel);
                        }
                    },
                    None => {},
                }
                proof {
                    assert(runs(b, pos as int, cur as int, total as int, has_alpha, old_px)
                        == runs(b, next as int, cur + repeat, total as int, has_alpha, px));
                }
                pos = next;
                if repeat >= total - cur {
                    proof {
                        assert(runs(b, pos as int, cur + repeat, total as int, has_alpha, px)
                            == runs(b, pos as int, total as int, total as int, has_alpha, px));
                    }
                    cur = total;
                } else {
                    cur = cur + repeat;
                }
            },
        }
    }
    true
}

/// Sets the `n` pixels of `buf` from `from` on to `v`.
fn fill_run(buf: &mut Vec<Rgba8>, from: usize, n: usize, v: Rgba8)
    requires
        from + n <= old(buf)@.len(),
        from + n <= usize::MAX,
    ensures
        final(buf)@ == fill(old(buf)@, from as int, n as int, v),
{
    let mut k: usize = 0;
    while k < n
        invariant
            from + n <= buf@.len(),
            from + n <= usize::MAX,
            k <= n,
            buf@ == fill(old(buf)@, from as int, k as int, v),
        decreases n - k,
    {
        buf.set(from + k, v);
        k = k + 1;
        proof {
            assert(buf@ =~= fill(old(buf)@, from as int, k as int, v));
        }
    }
    proof {
        assert(buf@ =~= fill(old(buf)@, from as int, n as int, v));
    }
}

/// Decodes a `.data` file: a header of little-endian 32-bit width and
/// height and a byte telling whether runs carry an alpha, then runs of
/// pixels until the image is full. A file that ends first gives
/// `UnexpectedEof`.
pub fn decode_data(bytes: &[u8]) -> (r: Result<DataImage, AtlasReadError>)
    requires
        data_fits(bytes@),
    ensures
        match spec_decode_data(bytes@) {
            Ok((w, h, px)) => r matches Ok(img) && img.width == w && img.height == h && img.pixels@ == px,
            Err(e) => r == Err::<DataImage, AtlasReadError>(e),
        },
{
    if bytes.len() < 9 {
        return Err(AtlasReadError::UnexpectedEof);
    }
    let width = u32_at(bytes, 0);
    let height = u32_at(bytes, 4);
    proof {
        assert(bytes@.skip(0) =~= bytes@);
        assert((width as u64) * (height as u64) <= 0xffff_fffe_0000_0001u64) by (nonlinear_arith)
            requires
                width <= 0xffff_ffffu32,
                height <= 0xffff_ffffu32;
    }
    let total = (width as u64 * height as u64) as usize;
    let has_alpha = bytes[8] != 0;
    let ghost b = bytes@;
    let mut buf: Vec<Rgba8> = Vec::new();
    let mut i: usize = 0;
    while i < total
        invariant
            i <= total,
            buf@ =~= Seq::new(i as nat, |j: int| clear()),
        decreases total - i,
    {
        buf.push(Rgba8 { r: 0, g: 0, b: 0, a: 0 });
        i = i + 1;
    }
    let mut pos: usize = 9;
    let mut cur: usize = 0;
    while cur < total
        invariant
            b == bytes@,
            b.len() >= 9,
            data_fits(b),
            total == data_width(b) * data_height(b),
            total <= u32::MAX,
            buf@.len() == total,
            has_alpha == (b[8] != 0),
            9 <= pos <= b.len(),
            cur <= total,
            data_runs(b) == runs(b, pos as int, cur as int, total as int, has_alpha, buf@),
        decreases b.len() - pos,
    {
        if pos >= bytes.len() {
            return Err(AtlasReadError::UnexpectedEof);
        }
        match read_run(bytes, pos, has_alpha) {
            None => {
                return Err(AtlasReadError::UnexpectedEof);
            },
            Some((v, repeat, next)) => {
                let ghost old_px = buf@;
                match v {
                    Some(pixel) => {
                        proof {
                            assert(!(data_runs(b) is PastEnd));
                        }
                        fill_run(&mut buf, cur, repeat, pixel);
                    },
                    None => {},
                }
                proof {
                    assert(runs(b, pos as int, cur as int, total as int, has_alpha, old_px)
                        == runs(b, next as int, cur + repeat, total as int, has_alpha, buf@));
                }
                pos = next;
                if repeat >= total - cur {
                    proof {
                        assert(runs(b, pos as int, cur + repeat, total as int, has_alpha, buf@)
                            == runs(b, pos as int, total as int, total as int, has_alpha, buf@));
                    }
                    cur = total;
                } else {
                    cur = cur + repeat;
                }
            },
        }
    }
    Ok(DataImage { width, height, pixels: buf })
}

/// A sprite as a `.meta` file lists it: its path, with `/` between the
/// parts, and where it lies in its data file.
#[derive(Debug, Clone)]
pub struct MetaSprite {
    pub path: String,
    pub x: u16,
    pub y: u16,
    pub width: u16,
    pub height: u16,
    pub offset_x: i16,
    pub offset_y: i16,
    pub real_width: u16,
    pub real_height: u16,
}

/// A data file that a `.meta` file names, with the sprites it holds.
#[derive(Debug, Clone)]
pub struct MetaFile {
    pub data_name: String,
    pub sprites: Vec<MetaSprite>,
}

/// What a `.meta` file gives: the data files read, in order, each with the
/// sprites read of it, and the error that stopped the reading, if one did.
/// A data file whose name was read is listed even where the reading stopped
/// within its sprites.
#[derive(Debug)]
pub struct AtlasMeta {
    pub files: Vec<MetaFile>,
    pub error: Option<AtlasReadError>,
}

/// How reading a value at a position went: the value and the position after
/// it, or an error.
pub enum MRead<T> {
    Got(T, int),
    Failed(AtlasReadError),
}

/// A sprite by its path and its eight numbers.
pub type SpriteV = (Seq<char>, int, int, int, int, int, int, int, int);

/// The unsigned 16-bit little-endian number at `q`.
pub open spec fn le_u16(b: Seq<u8>, q: int) -> int {
    u16_of(b[q], b[q + 1]) as int
}

/// The signed 16-bit little-endian number at `q`.
pub open spec fn le_i16(b: Seq<u8>, q: int) -> int {
    let v = le_u16(b, q);
    if v >= 32768 { v - 65536 } else { v }
}

/// A string of a `.meta` file at `pos`: a byte giving its length, then that
/// many bytes of UTF-8.
pub open spec fn m_str(b: Seq<u8>, pos: int) -> MRead<Seq<char>> {
    if pos < 0 || pos >= b.len() {
        MRead::Failed(AtlasReadError::UnexpectedEof)
    } else {
        let n = b[pos] as int;
        if pos + 1 + n > b.len() {
            MRead::Failed(AtlasReadError::UnexpectedEof)
        } else {
            let bytes = b.subrange(pos + 1, pos + 1 + n);
            if valid_utf8(bytes) {
                MRead::Got(decode_utf8(bytes), pos + 1 + n)
            } else {
                MRead::Failed(AtlasReadError::InvalidUtf8)
            }
        }
    }
}

/// A path with each `\` turned into `/`.
pub open spec fn slashes(p: Seq<char>) -> Seq<char> {
    p.map_values(|c: char| if c == '\\' { '/' } else { c })
}

/// A sprite entry at `pos`: its path, then position, size, trim offset and
/// untrimmed size, each a 16-bit number, the offsets signed.
pub open spec fn sprite_at(b: Seq<u8>, pos: int) -> MRead<SpriteV> {
    match m_str(b, pos) {
        MRead::Failed(e) => MRead::Failed(e),
        MRead::Got(p, q) => if q + 16 > b.len() {
            MRead::Failed(AtlasReadError::UnexpectedEof)
        } else {
            MRead::Got(
                (slashes(p), le_u16(b, q), le_u16(b, q + 2), le_u16(b, q + 4), le_u16(b, q + 6),
                    le_i16(b, q + 8), le_i16(b, q + 10), le_u16(b, q + 12), le_u16(b, q + 14)),
                q + 16,
            )
        },
    }
}

/// Up to `n` sprite entries from `pos` on: those read, the position after
/// them, and the error that stopped the reading, if one did.
pub open spec fn sprites_at(b: Seq<u8>, pos: int, n: nat) -> (Seq<SpriteV>, int, Option<AtlasReadError>)
    decreases n,
{
    if n == 0 {
        (Seq::empty(), pos, None)
    } else {
        match sprite_at(b, pos) {
            MRead::Failed(e) => (Seq::empty(), pos, Some(e)),
            MRead::Got(sp, q) => {
                let rest = sprites_at(b, q, (n - 1) as nat);
                (seq![sp] + rest.0, rest.1, rest.2)
            },
        }
    }
}

/// Up to `n` data file entries from `pos` on, each a name, a 16-bit count
/// and that many sprite entries: those read, and the error that stopped the
/// reading, if one did.
pub open spec fn files_at(b: Seq<u8>, pos: int, n: nat) -> (Seq<(Seq<char>, Seq<SpriteV>)>, Option<AtlasReadError>)
    decreases n,
{
    if n == 0 {
        (Seq::empty(), None)
    } else {
        match m_str(b, pos) {
            MRead::Failed(e) => (Seq::empty(), Some(e)),
            MRead::Got(name, q) => if q + 2 > b.len() {
                (seq![(name, Seq::<SpriteV>::empty())], Some(AtlasReadError::UnexpectedEof))
            } else {
                let sp = sprites_at(b, q + 2, le_u16(b, q) as nat);
                if sp.2 is Some {
                    (seq![(name, sp.0)], sp.2)
                } else {
                    let rest = files_at(b, sp.1, (n - 1) as nat);
                    (seq![(name, sp.0)] + rest.0, rest.1)
                }
            },
        }
    }
}

/// What a `.meta` file gives: after a 32-bit version, a command string, a
/// 32-bit checksum and a 16-bit count of data files, the data file entries.
pub open spec fn spec_meta(b: Seq<u8>) -> (Seq<(Seq<char>, Seq<SpriteV>)>, Option<AtlasReadError>) {
    if b.len() < 4 {
        (Seq::empty(), Some(AtlasReadError::UnexpectedEof))
    } else {
        match m_str(b, 4) {
            MRead::Failed(e) => (Seq::empty(), Some(e)),
            MRead::Got(_, q) => if q + 6 > b.len() {
                (Seq::empty(), Some(AtlasReadError::UnexpectedEof))
            } else {
                files_at(b, q + 6, le_u16(b, q + 4) as nat)
            },
        }
    }
}

/// A sprite entry by its values.
pub open spec fn sprite_view(s: MetaSprite) -> SpriteV {
    (s.path@, s.x as int, s.y as int, s.width as int, s.height as int, s.offset_x as int,
        s.offset_y as int, s.real_width as int, s.real_height as int)
}

/// Sprite entries by their values.
pub open spec fn sprites_view(v: Seq<MetaSprite>) -> Seq<SpriteV> {
    v.map_values(|s: MetaSprite| sprite_view(s))
}

/// Data file entries by their values.
pub open spec fn files_view(fs: Seq<MetaFile>) -> Seq<(Seq<char>, Seq<SpriteV>)> {
    fs.map_values(|f: MetaFile| (f.data_name@, sprites_view(f.sprites@)))
}

fn read_u16(b: &[u8], q: usize) -> (r: u16)
    requires
        q + 2 <= b@.len(),
    ensures
        r as int == le_u16(b@, q as int),
{
    b[q] as u16 + 256 * (b[q + 1] as u16)
}

fn read_i16(b: &[u8], q: usize) -> (r: i16)
    requires
        q + 2 <= b@.len(),
    ensures
        r as int == le_i16(b@, q as int),
{
    let v = read_u16(b, q);
    if v >= 32768 {
        (v as i32 - 65536) as i16
    } else {
        v as i16
    }
}

fn read_mstr(b: &[u8], pos: usize) -> (r: Result<(String, usize), AtlasReadError>)
    ensures
        match m_str(b@, pos as int) {
            MRead::Got(s, q) => r matches Ok((t, q2)) && t@ == s && q2 == q,
            MRead::Failed(e) => r == Err::<(String, usize), AtlasReadError>(e),
        },
{
    if pos >= b.len() {
        return Err(AtlasReadError::UnexpectedEof);
    }
    let n = b[pos] as usize;
    if b.len() - (pos + 1) < n {
        return Err(AtlasReadError::UnexpectedEof);
    }
    let bytes = slice_subrange(b, pos + 1, pos + 1 + n);
    match utf8_text(bytes) {
        None => Err(AtlasReadError::InvalidUtf8),
        Some(t) => {
            proof {
                encode_utf8_decode_utf8(t@);
            }
            Ok((String::from_str(t), pos + 1 + n))
        },
    }
}

fn to_slashes(p: &String) -> (r: String)
    ensures
        r@ == slashes(p@),
{
    let n = p.as_str().unicode_len();
    let mut out = String::new();
    let mut i: usize = 0;
    while i < n
        invariant
            n == p@.len(),
            i <= n,
            out@ == slashes(p@.take(i as int)),
        decreases n - i,
    {
        let c = p.as_str().get_char(i);
        push_char(&mut out, if c == '\\' { '/' } else { c });
        i = i + 1;
        proof {
            assert(out@ =~= slashes(p@.take(i as int)));
        }
    }
    proof {
        assert(p@.take(n as int) =~= p@);
    }
    out
}

fn read_sprite(b: &[u8], pos: usize) -> (r: Result<(MetaSprite, usize), AtlasReadError>)
    ensures
        match sprite_at(b@, pos as int) {
            MRead::Got(sp, q) => r matches Ok((t, q2)) && sprite_view(t) == sp && q2 == q,
            MRead::Failed(e) => r == Err::<(MetaSprite, usize), AtlasReadError>(e),
        },
{
    let (raw, q) = match read_mstr(b, pos) {
        Ok(v) => v,
        Err(e) => {
            return Err(e);
        },
    };
    if b.len() - q < 16 {
        return Err(AtlasReadError::UnexpectedEof);
    }
    let path = to_slashes(&raw);
    let sp = MetaSprite {
        path,
        x: read_u16(b, q),
        y: read_u16(b, q + 2),
        width: read_u16(b, q + 4),
        height: read_u16(b, q + 6),
        offset_x: read_i16(b, q + 8),
        offset_y: read_i16(b, q + 10),
        real_width: read_u16(b, q + 12),
        real_height: read_u16(b, q + 14),
    };
    Ok((sp, q + 16))
}

fn read_sprites(b: &[u8], pos: usize, n: u16) -> (r: (Vec<MetaSprite>, usize, Option<AtlasReadError>))
    ensures
        (sprites_view(r.0@), r.1 as int, r.2) == sprites_at(b@, pos as int, n as nat),
{
    let mut out: Vec<MetaSprite> = Vec::new();
    let mut p = pos;
    let mut i: u16 = 0;
    proof {
        assert(sprites_view(out@) + sprites_at(b@, p as int, (n - i) as nat).0 =~= sprites_at(b@, p as int, (n - i) as nat).0);
    }
    while i < n
        invariant
            i <= n,
            sprites_at(b@, pos as int, n as nat) == (
                sprites_view(out@) + sprites_at(b@, p as int, (n - i) as nat).0,
                sprites_at(b@, p as int, (n - i) as nat).1,
                sprites_at(b@, p as int, (n - i) as nat).2,
            ),
        decreases n - i,
    {
        match read_sprite(b, p) {
            Err(e) => {
                proof {
                    assert(sprites_view(out@) + Seq::<SpriteV>::empty() =~= sprites_view(out@));
                }
                return (out, p, Some(e));
            },
            Ok((sp, q)) => {
                let ghost before = sprites_view(out@);
                let ghost rest = sprites_at(b@, q as int, (n - i - 1) as nat);
                out.push(sp);
                proof {
                    assert(sprites_view(out@) =~= before.push(sprite_view(sp)));
                    assert(before + (seq![sprite_view(sp)] + rest.0) =~= sprites_view(out@) + rest.0);
                }
                p = q;
                i = i + 1;
            },
        }
    }
    proof {
        assert(sprites_view(out@) + Seq::<SpriteV>::empty() =~= sprites_view(out@));
    }
    (out, p, None)
}

fn read_files(b: &[u8], pos: usize, n: u16) -> (r: (Vec<MetaFile>, Option<AtlasReadError>))
    ensures
        (files_view(r.0@), r.1) == files_at(b@, pos as int, n as nat),
{
    let mut out: Vec<MetaFile> = Vec::new();
    let mut p = pos;
    let mut i: u16 = 0;
    proof {
        assert(files_view(out@) + files_at(b@, p as int, (n - i) as nat).0 =~= files_at(b@, p as int, (n - i) as nat).0);
    }
    while i < n
        invariant
            i <= n,
            files_at(b@, pos as int, n as nat) == (
                files_view(out@) + files_at(b@, p as int, (n - i) as nat).0,
                files_at(b@, p as int, (n - i) as nat).1,
            ),
        decreases n - i,
    {
        let ghost before = files_view(out@);
        match read_mstr(b, p) {
            Err(e) => {
                proof {
                    assert(before + Seq::<(Seq<char>, Seq<SpriteV>)>::empty() =~= before);
                }
                return (out, Some(e));
            },
            Ok((name, q)) => {
                if b.len() < 2 || q > b.len() - 2 {
                    let ghost nv = name@;
                    out.push(MetaFile { data_name: name, sprites: Vec::new() });
                    proof {
                        assert(sprites_view(out@.last().sprites@) =~= Seq::<SpriteV>::empty());
                        assert(files_view(out@) =~= before + seq![(nv, Seq::<SpriteV>::empty())]);
                    }
                    return (out, Some(AtlasReadError::UnexpectedEof));
                }
                let count = read_u16(b, q);
                let (sprites, q3, err) = read_sprites(b, q + 2, count);
                let ghost nv = name@;
                let ghost sv = sprites_view(sprites@);
                out.push(MetaFile { data_name: name, sprites });
                proof {
                    assert(files_view(out@) =~= before + seq![(nv, sv)]);
                }
                match err {
                    Some(e) => {
                        return (out, Some(e));
                    },
                    None => {
                        let ghost rest = files_at(b@, q3 as int, (n - i - 1) as nat);
                        proof {
                            assert(before + (seq![(nv, sv)] + rest.0) =~= files_view(out@) + rest.0);
                        }
                        p = q3;
                        i = i + 1;
                    },
                }
            },
        }
    }
    proof {
        assert(files_view(out@) + Seq::<(Seq<char>, Seq<SpriteV>)>::empty() =~= files_view(out@));
    }
    (out, None)
}

/// Reads a `.meta` file: after a 32-bit version, a command string, a 32-bit
/// checksum and a 16-bit count, that many data file entries, each a name, a
/// 16-bit count and that many sprite entries. Reading stops at the first
/// error; what was read before it is kept.
pub fn read_meta(bytes: &[u8]) -> (r: AtlasMeta)
    ensures
        (files_view(r.files@), r.error) == spec_meta(bytes@),
{
    if bytes.len() < 4 {
        return AtlasMeta { files: Vec::new(), error: Some(AtlasReadError::UnexpectedEof) };
    }
    match read_mstr(bytes, 4) {
        Err(e) => AtlasMeta { files: Vec::new(), error: Some(e) },
        Ok((_, q)) => {
            if bytes.len() < 6 || q > bytes.len() - 6 {
                AtlasMeta { files: Vec::new(), error: Some(AtlasReadError::UnexpectedEof) }
            } else {
                let count = read_u16(bytes, q + 4);
                let (files, error) = read_files(bytes, q + 6, count);
                AtlasMeta { files, error }
            }
        },
    }
}

} // verus!

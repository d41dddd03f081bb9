//! The content-addressed thumbnail store.
//!
//! A comic's thumbnails live in a directory named by a stable 64-bit hash
//! of its case-folded, slash-normalized path, one `<page>.jpg` per page.
//! Generation decodes the source image, scales it down to fit within a
//! fixed bound without ever upscaling, and encodes a JPEG at a fixed
//! quality.  A thumbnail that already exists is reused, never rewritten.
//! Orphan pruning removes exactly the cache directories whose names no
//! active comic claims.

use vstd::prelude::*;

use crate::chars::{chars_of, string_of};
use crate::numfmt::{dec_digits_signed, i64_to_chars};
use crate::order::{has_name, contains_name};
use crate::paths::{lower_seq, lower_chars, normalize_seq, normalize_chars};

verus! {

/// Bounding box edge for generated thumbnails, in pixels.
pub const THUMBNAIL_MAX_SIZE: u32 = 300;

/// Quality of the encoded thumbnail JPEG.
pub const THUMBNAIL_JPEG_QUALITY: u8 = 80;

/// The offset basis of the 64-bit FNV-1a hash.
pub const FNV_OFFSET: u64 = 0xcbf29ce484222325;

/// The prime of the 64-bit FNV-1a hash.
pub const FNV_PRIME: u64 = 0x100000001b3;

/// One FNV-1a step: fold one character's code point into the hash.
pub open spec fn fnv_step(h: u64, c: char) -> u64 {
    (((h ^ ((c as u32) as u64)) * (FNV_PRIME as int)) % 0x10000000000000000) as u64
}

/// The 64-bit FNV-1a hash of a character sequence.
pub open spec fn fnv1a(s: Seq<char>) -> u64
    decreases s.len(),
{
    if s.len() == 0 {
        FNV_OFFSET
    } else {
        fnv_step(fnv1a(s.drop_last()), s.last())
    }
}

/// The hexadecimal digit character for a value below sixteen.
pub open spec fn hex_char(d: u64) -> char
    recommends
        d < 16,
{
    if d < 10 {
        ((48 + d) as u32) as char
    } else {
        ((87 + d) as u32) as char
    }
}

/// The `i`-th nibble of `h`, most significant first.
pub open spec fn nibble(h: u64, i: int) -> u64 {
    (h >> ((4 * (15 - i)) as u64)) & 0xf
}

/// The sixteen-digit lower-case hexadecimal form of `h`.
pub open spec fn hex16(h: u64) -> Seq<char> {
    Seq::new(16, |i: int| hex_char(nibble(h, i)))
}

/// The cache directory name for a comic: the hex hash of its
/// slash-normalized, case-folded path.
pub open spec fn path_hash_spec(path: Seq<char>) -> Seq<char> {
    hex16(fnv1a(lower_seq(normalize_seq(path))))
}

fn fnv_step_exec(h: u64, c: char) -> (r: u64)
    ensures
        r == fnv_step(h, c),
{
    let x: u64 = h ^ ((c as u32) as u64);
    proof {
        assert((x as u128) * (FNV_PRIME as u128) <= 0xffffffffffffffffffffffffffffffffu128)
            by (nonlinear_arith)
            requires
                x <= 0xffffffffffffffffu64,
        ;
    }
    let prod: u128 = (x as u128) * (FNV_PRIME as u128);
    let r: u64 = (prod % 0x10000000000000000u128) as u64;
    r
}

fn fnv1a_chars(s: &Vec<char>) -> (r: u64)
    ensures
        r == fnv1a(s@),
{
    let mut h: u64 = FNV_OFFSET;
    let mut i: usize = 0;
    proof {
        assert(s@.take(0) =~= Seq::<char>::empty());
    }
    while i < s.len()
        invariant
            i <= s@.len(),
            h == fnv1a(s@.take(i as int)),
        decreases s@.len() - i,
    {
        h = fnv_step_exec(h, s[i]);
        i = i + 1;
        proof {
            assert(s@.take(i as int).drop_last() =~= s@.take(i - 1));
            assert(s@.take(i as int).last() == s@[i - 1]);
        }
    }
    proof {
        assert(s@.take(s@.len() as int) =~= s@);
    }
    h
}

fn hex_char_of(d: u64) -> (r: char)
    requires
        d < 16,
    ensures
        r == hex_char(d),
{
    if d < 10 {
        ((48 + (d as u8)) as u8) as char
    } else {
        ((87 + (d as u8)) as u8) as char
    }
}

fn hex16_chars(h: u64) -> (r: Vec<char>)
    ensures
        r@ == hex16(h),
{
    let mut r: Vec<char> = Vec::new();
    let mut i: usize = 0;
    while i < 16
        invariant
            i <= 16,
            r@.len() == i,
            forall|k: int| 0 <= k < i ==> r@[k] == hex_char(nibble(h, k)),
        decreases 16 - i,
    {
        let sh: u64 = 4 * (15 - (i as u64));
        proof {
            assert(sh == (4 * (15 - i as int)) as u64);
        }
        let d: u64 = (h >> sh) & 0xf;
        proof {
            assert(d == nibble(h, i as int));
            assert(d < 16) by (bit_vector)
                requires
                    d == (h >> sh) & 0xf,
            ;
        }
        r.push(hex_char_of(d));
        i = i + 1;
    }
    proof {
        assert(r@ =~= hex16(h));
    }
    r
}

/// The cache directory name for a comic path.
pub fn hash_path(path: &str) -> (r: String)
    ensures
        r@ == path_hash_spec(path@),
{
    let v = chars_of(path);
    let n = normalize_chars(&v);
    let l = lower_chars(&n);
    let h = fnv1a_chars(&l);
    let hex = hex16_chars(h);
    string_of(&hex)
}

/// The path of a page's thumbnail below the indexed cache root:
/// `<hash(comicPath)>/<pageNumber>.jpg`.
pub open spec fn indexed_thumb_rel_path_spec(comic_path: Seq<char>, page: int) -> Seq<char> {
    path_hash_spec(comic_path) + seq!['/'] + dec_digits_signed(page) + seq!['.', 'j', 'p', 'g']
}

/// The path of a page's thumbnail below the per-comic cache root:
/// `<comicId>/<pageNumber>.jpg`.
pub open spec fn comic_thumb_rel_path_spec(comic_id: int, page: int) -> Seq<char> {
    dec_digits_signed(comic_id) + seq!['/'] + dec_digits_signed(page) + seq!['.', 'j', 'p', 'g']
}

fn append_page_jpg(head: Vec<char>, page_number: i64) -> (r: Vec<char>)
    ensures
        r@ == head@ + seq!['/'] + dec_digits_signed(page_number as int) + seq![
            '.',
            'j',
            'p',
            'g',
        ],
{
    let mut r = head;
    let ghost h0 = r@;
    r.push('/');
    let digits = i64_to_chars(page_number);
    let mut i: usize = 0;
    while i < digits.len()
        invariant
            i <= digits@.len(),
            r@ == h0 + seq!['/'] + digits@.take(i as int),
        decreases digits@.len() - i,
    {
        r.push(digits[i]);
        i = i + 1;
        proof {
            assert(r@ =~= h0 + seq!['/'] + digits@.take(i as int));
        }
    }
    proof {
        assert(digits@.take(digits@.len() as int) =~= digits@);
    }
    r.push('.');
    r.push('j');
    r.push('p');
    r.push('g');
    proof {
        assert(r@ =~= h0 + seq!['/'] + digits@ + seq!['.', 'j', 'p', 'g']);
    }
    r
}

/// The relative path of a page's thumbnail in the indexed cache.
pub fn indexed_thumbnail_rel_path(comic_path: &str, page_number: i64) -> (r: String)
    ensures
        r@ == indexed_thumb_rel_path_spec(comic_path@, page_number as int),
{
    let v = chars_of(comic_path);
    let n = normalize_chars(&v);
    let l = lower_chars(&n);
    let h = fnv1a_chars(&l);
    let hex = hex16_chars(h);
    let full = append_page_jpg(hex, page_number);
    string_of(&full)
}

/// The name of a comic's directory in the per-comic cache.
pub fn comic_dir_name(comic_id: i64) -> (r: String)
    ensures
        r@ == dec_digits_signed(comic_id as int),
{
    let digits = i64_to_chars(comic_id);
    string_of(&digits)
}

/// The relative path of a page's thumbnail in the per-comic cache.
pub fn comic_thumbnail_rel_path(comic_id: i64, page_number: i64) -> (r: String)
    ensures
        r@ == comic_thumb_rel_path_spec(comic_id as int, page_number as int),
{
    let digits = i64_to_chars(comic_id);
    let full = append_page_jpg(digits, page_number);
    string_of(&full)
}

/// Rounded division for positive operands: the nearest integer to `a / b`,
/// halves away from zero.
pub open spec fn round_div(a: int, b: int) -> int
    recommends
        b > 0,
{
    (2 * a + b) / (2 * b)
}

/// The output size of a thumbnail for a source of `w` by `h` pixels: a
/// uniform scale to fit within the bounding box, never upscaling, each
/// dimension floored at one pixel.
pub open spec fn thumb_dims_spec(w: int, h: int) -> (int, int) {
    let m = if w >= h {
        w
    } else {
        h
    };
    if m <= 300 {
        (
            if w < 1 {
                1
            } else {
                w
            },
            if h < 1 {
                1
            } else {
                h
            },
        )
    } else {
        let tw = round_div(300 * w, m);
        let th = round_div(300 * h, m);
        (
            if tw < 1 {
                1
            } else {
                tw
            },
            if th < 1 {
                1
            } else {
                th
            },
        )
    }
}

/// The thumbnail size for a source image.
pub fn thumb_dims(w: u32, h: u32) -> (r: (u32, u32))
    ensures
        (r.0 as int, r.1 as int) == thumb_dims_spec(w as int, h as int),
{
    let m: u32 = if w >= h {
        w
    } else {
        h
    };
    if m <= 300 {
        (
            if w < 1 {
                1
            } else {
                w
            },
            if h < 1 {
                1
            } else {
                h
            },
        )
    } else {
        let wu: u64 = w as u64;
        let hu: u64 = h as u64;
        let mu: u64 = m as u64;
        proof {
            assert(wu <= 0xffffffffu64 && hu <= 0xffffffffu64 && mu <= 0xffffffffu64);
        }
        let tw64: u64 = (600 * wu + mu) / (2 * mu);
        let th64: u64 = (600 * hu + mu) / (2 * mu);
        proof {
            assert(tw64 == round_div(300 * (w as int), m as int) && tw64 <= 300)
                by (nonlinear_arith)
                requires
                    mu > 300,
                    wu <= mu,
                    wu == w && hu == h && mu == m,
                    tw64 == (600 * wu + mu) as int / (2 * mu) as int,
            ;
            assert(th64 == round_div(300 * (h as int), m as int) && th64 <= 300)
                by (nonlinear_arith)
                requires
                    mu > 300,
                    hu <= mu,
                    wu == w && hu == h && mu == m,
                    th64 == (600 * hu + mu) as int / (2 * mu) as int,
            ;
        }
        let tw: u32 = if tw64 < 1 {
            1
        } else {
            tw64 as u32
        };
        let th: u32 = if th64 < 1 {
            1
        } else {
            th64 as u32
        };
        (tw, th)
    }
}

/// Law: a thumbnail fits in the bounding box and never exceeds its source:
/// each output dimension is at least one, at most the box edge, and at
/// most the matching source dimension.
pub proof fn lemma_thumb_dims_bounds(w: int, h: int)
    requires
        1 <= w,
        1 <= h,
    ensures
        1 <= thumb_dims_spec(w, h).0 <= 300,
        1 <= thumb_dims_spec(w, h).1 <= 300,
        thumb_dims_spec(w, h).0 <= w,
        thumb_dims_spec(w, h).1 <= h,
{
    let m = if w >= h {
        w
    } else {
        h
    };
    if m > 300 {
        assert(0 <= round_div(300 * w, m) <= 300 && round_div(300 * w, m) <= w)
            by (nonlinear_arith)
            requires
                m > 300,
                1 <= w <= m,
        ;
        assert(0 <= round_div(300 * h, m) <= 300 && round_div(300 * h, m) <= h)
            by (nonlinear_arith)
            requires
                m > 300,
                1 <= h <= m,
        ;
    }
}

/// Law: for a non-square source, at most one output dimension reaches the
/// box edge, leaving aside sources so close to square that rounding lands
/// both dimensions on it.
pub proof fn lemma_thumb_dims_single_max(w: int, h: int)
    requires
        1 <= w,
        1 <= h,
        w != h,
        600 * (if w <= h {
            w
        } else {
            h
        }) < 599 * (if w >= h {
            w
        } else {
            h
        }),
    ensures
        !(thumb_dims_spec(w, h).0 == 300 && thumb_dims_spec(w, h).1 == 300),
{
    let m = if w >= h {
        w
    } else {
        h
    };
    let n = if w <= h {
        w
    } else {
        h
    };
    if m <= 300 {
    } else {
        assert(round_div(300 * n, m) < 300) by (nonlinear_arith)
            requires
                m > 300,
                1 <= n,
                600 * n < 599 * m,
        ;
    }
}

#[verifier::external_type_specification]
#[verifier::external_body]
pub struct ExDynamicImage(image::DynamicImage);

/// The pixel size the bytes decode to, when they decode as an image at
/// all.
pub uninterp spec fn decoded_dims(data: Seq<u8>) -> Option<(u32, u32)>;

/// Relies on `image::load_from_memory` and
/// `GenericImageView::dimensions`: decoding is a function of the bytes
/// alone.
#[verifier::external_body]
fn image_decode(data: &Vec<u8>) -> (r: Result<(image::DynamicImage, u32, u32), String>)
    ensures
        r matches Ok(t) ==> decoded_dims(data@) == Some((t.1, t.2)),
        r is Err ==> decoded_dims(data@) is None,
{
    match image::load_from_memory(data.as_slice()) {
        Ok(img) => {
            let (w, h) = image::GenericImageView::dimensions(&img);
            Ok((img, w, h))
        },
        Err(e) => Err(format!("failed to decode image bytes: {e}")),
    }
}

/// Relies on `DynamicImage::resize_exact`,
/// `JpegEncoder::new_with_quality` and `JpegEncoder::encode_image`:
/// resizing yields an image of exactly the given size; encoding a
/// `DynamicImage` (viewed as eight-bit RGBA) fails only on dimensions
/// outside one through 65535, which the bounds exclude, or on writer
/// errors, which an in-memory `Vec` writer never raises — so the whole
/// step succeeds.
#[verifier::external_body]
fn image_resize_encode_jpeg(img: &image::DynamicImage, w: u32, h: u32, quality: u8) -> (r: Result<
    Vec<u8>,
    String,
>)
    requires
        1 <= w <= 300,
        1 <= h <= 300,
    ensures
        r is Ok,
{
    let resized = img.resize_exact(w, h, image::imageops::FilterType::Lanczos3);
    let mut out = Vec::new();
    let mut enc = image::codecs::jpeg::JpegEncoder::new_with_quality(&mut out, quality);
    match enc.encode_image(&resized) {
        Ok(()) => Ok(out),
        Err(e) => Err(format!("failed to encode thumbnail jpeg: {e}")),
    }
}

/// Why a thumbnail could not be generated: the source bytes do not
/// decode as an image.  Scaling and in-memory JPEG encoding of a decoded
/// image cannot fail, so no other kind arises.
#[derive(Debug)]
pub enum ThumbError {
    DecodeFailed(String),
}

/// A generated thumbnail: the encoded JPEG bytes and their pixel size.
pub struct Thumbnail {
    pub jpeg: Vec<u8>,
    pub width: u32,
    pub height: u32,
}

/// Decode the source image, scale it to exactly the thumbnail size and
/// encode it as a JPEG.  Succeeds exactly when the bytes decode as an
/// image; the failure is then of the decode kind.
pub fn render_thumbnail(data: &Vec<u8>) -> (r: Result<Thumbnail, ThumbError>)
    ensures
        r is Ok <==> decoded_dims(data@) is Some,
        r matches Err(e) ==> e is DecodeFailed,
        r matches Ok(t) ==> ({
            let d = decoded_dims(data@)->Some_0;
            let td = thumb_dims_spec(d.0 as int, d.1 as int);
            &&& (t.width as int, t.height as int) == td
            &&& 1 <= t.width <= 300
            &&& 1 <= t.height <= 300
            &&& (d.0 >= 1 ==> t.width <= d.0)
            &&& (d.1 >= 1 ==> t.height <= d.1)
        }),
{
    let (img, w, h) = match image_decode(data) {
        Ok(t) => t,
        Err(m) => {
            return Err(ThumbError::DecodeFailed(m));
        },
    };
    let dims = thumb_dims(w, h);
    proof {
        lemma_thumb_dims_total(w as int, h as int);
        if w >= 1 && h >= 1 {
            lemma_thumb_dims_bounds(w as int, h as int);
        }
    }
    match image_resize_encode_jpeg(&img, dims.0, dims.1, THUMBNAIL_JPEG_QUALITY) {
        Ok(jpeg) => Ok(Thumbnail { jpeg, width: dims.0, height: dims.1 }),
        Err(m) => {
            proof {
                assert(false);
            }
            Err(ThumbError::DecodeFailed(m))
        },
    }
}

/// The thumbnail size is always within the box and at least one pixel on
/// each side, whatever the source size.
proof fn lemma_thumb_dims_total(w: int, h: int)
    requires
        0 <= w,
        0 <= h,
    ensures
        1 <= thumb_dims_spec(w, h).0 <= 300,
        1 <= thumb_dims_spec(w, h).1 <= 300,
{
    let m = if w >= h {
        w
    } else {
        h
    };
    if m > 300 {
        assert(0 <= round_div(300 * w, m) <= 300) by (nonlinear_arith)
            requires
                m > 300,
                0 <= w <= m,
        ;
        assert(0 <= round_div(300 * h, m) <= 300) by (nonlinear_arith)
            requires
                m > 300,
                0 <= h <= m,
        ;
    }
}

/// What one `ensure` call does to the set of cached thumbnail files: an
/// existing file is left alone, a missing one is written.
pub open spec fn ensure_spec(store: Seq<Seq<char>>, path: Seq<char>) -> (Seq<Seq<char>>, bool) {
    if store.contains(path) {
        (store, false)
    } else {
        (store.push(path), true)
    }
}

/// Whether `nm` occurs in the store's file list.
pub open spec fn store_has(store: Seq<String>, nm: Seq<char>) -> bool {
    has_name(store, nm)
}

/// Ensure a page's thumbnail path is present in the cache model: returns
/// the content-addressed path and whether it has to be generated; a path
/// already present is reused untouched.
pub fn ensure_thumbnail_path(store: &mut Vec<String>, comic_path: &str, page_number: i64) -> (r: (
    String,
    bool,
))
    ensures
        r.0@ == indexed_thumb_rel_path_spec(comic_path@, page_number as int),
        store_has(old(store)@, r.0@) ==> !r.1 && final(store)@ == old(store)@,
        !store_has(old(store)@, r.0@) ==> r.1 && final(store)@ == old(store)@.push(r.0),
{
    let rel = indexed_thumbnail_rel_path(comic_path, page_number);
    let cs = chars_of(rel.as_str());
    if contains_name(store, &cs) {
        (rel, false)
    } else {
        store.push(rel.clone());
        (rel, true)
    }
}

/// Law: ensuring the same page's thumbnail twice yields the same path
/// both times, and the second call neither writes nor changes the store.
pub proof fn lemma_ensure_idempotent(store: Seq<Seq<char>>, path: Seq<char>)
    ensures
        ({
            let first = ensure_spec(store, path);
            let second = ensure_spec(first.0, path);
            second.0 == first.0 && !second.1
        }),
{
    let first = ensure_spec(store, path);
    if !store.contains(path) {
        assert(store.push(path)[store.len() as int] == path);
        assert(store.push(path).contains(path));
    }
}

/// The cache directories to delete for a given set of active names:
/// exactly those whose names no active entry claims.
pub fn orphan_dirs(existing: &Vec<String>, active: &Vec<String>) -> (r: Vec<String>)
    ensures
        forall|nm: Seq<char>| #[trigger] has_name(r@, nm) ==> has_name(existing@, nm),
        forall|nm: Seq<char>| #[trigger]
            has_name(existing@, nm) ==> (has_name(r@, nm) <==> !has_name(active@, nm)),
{
    let mut r: Vec<String> = Vec::new();
    let mut i: usize = 0;
    let n = existing.len();
    while i < n
        invariant
            i <= n,
            n == existing@.len(),
            forall|j: int|
                0 <= j < r@.len() ==> exists|k: int|
                    0 <= k < i && #[trigger] r@[j]@ == existing@[k]@,
            forall|j: int| 0 <= j < r@.len() ==> !has_name(active@, #[trigger] r@[j]@),
            forall|k: int|
                0 <= k < i ==> has_name(active@, #[trigger] existing@[k]@) || has_name(
                    r@,
                    existing@[k]@,
                ),
        decreases n - i,
    {
        let cs = chars_of(existing[i].as_str());
        if !contains_name(active, &cs) {
            let ghost rb = r@;
            r.push(existing[i].clone());
            proof {
                assert(r@.last()@ == existing@[i as int]@);
                assert(forall|j: int| 0 <= j < rb.len() ==> r@[j] == rb[j]);
                assert(has_name(r@, existing@[i as int]@));
                assert forall|k: int|
                    0 <= k < i && has_name(rb, #[trigger] existing@[k]@) implies has_name(
                    r@,
                    existing@[k]@,
                ) by {
                    let w = choose|j: int|
                        0 <= j < rb.len() && existing@[k]@ == #[trigger] rb[j]@;
                    assert(existing@[k]@ == r@[w]@);
                }
            }
        }
        i = i + 1;
    }
    proof {
        assert forall|nm: Seq<char>| #[trigger] has_name(r@, nm) implies has_name(
            existing@,
            nm,
        ) by {
            let j = choose|j: int| 0 <= j < r@.len() && nm == #[trigger] r@[j]@;
            let k = choose|k: int| 0 <= k < n && #[trigger] r@[j]@ == existing@[k]@;
            assert(nm == existing@[k]@);
        }
        assert forall|nm: Seq<char>| #[trigger] has_name(existing@, nm) implies (has_name(r@, nm)
            <==> !has_name(active@, nm)) by {
            let k = choose|k: int| 0 <= k < existing@.len() && nm == #[trigger] existing@[k]@;
            if has_name(r@, nm) {
                let j = choose|j: int| 0 <= j < r@.len() && nm == #[trigger] r@[j]@;
                assert(!has_name(active@, r@[j]@));
            } else {
                assert(has_name(active@, existing@[k]@) || has_name(r@, existing@[k]@));
            }
        }
    }
    r
}

/// Whether some active id's decimal name is `nm`.
pub open spec fn has_id_name(ids: Seq<i64>, nm: Seq<char>) -> bool {
    exists|i: int| 0 <= i < ids.len() && nm == dec_digits_signed(#[trigger] ids[i] as int)
}

/// The per-comic cache directories to delete, given the active comic ids:
/// exactly those directories named by no active id.
pub fn orphan_comic_dirs(existing: &Vec<String>, active_ids: &Vec<i64>) -> (r: Vec<String>)
    ensures
        forall|nm: Seq<char>| #[trigger] has_name(r@, nm) ==> has_name(existing@, nm),
        forall|nm: Seq<char>| #[trigger]
            has_name(existing@, nm) ==> (has_name(r@, nm) <==> !has_id_name(active_ids@, nm)),
{
    let mut names: Vec<String> = Vec::new();
    let mut i: usize = 0;
    let n = active_ids.len();
    while i < n
        invariant
            i <= n,
            n == active_ids@.len(),
            names@.len() == i,
            forall|k: int|
                0 <= k < i ==> #[trigger] names@[k]@ == dec_digits_signed(active_ids@[k] as int),
        decreases n - i,
    {
        names.push(comic_dir_name(active_ids[i]));
        i = i + 1;
    }
    let r = orphan_dirs(existing, &names);
    proof {
        assert forall|nm: Seq<char>| #[trigger]
            has_name(names@, nm) <==> has_id_name(active_ids@, nm) by {
            if has_name(names@, nm) {
                let j = choose|j: int| 0 <= j < names@.len() && nm == #[trigger] names@[j]@;
                assert(nm == dec_digits_signed(active_ids@[j] as int));
            }
            if has_id_name(active_ids@, nm) {
                let j = choose|j: int|
                    0 <= j < active_ids@.len() && nm == dec_digits_signed(
                        #[trigger] active_ids@[j] as int,
                    );
                assert(nm == names@[j]@);
            }
        }
    }
    r
}

/// Whether some active comic path hashes to `nm`.
pub open spec fn has_hashed_name(paths: Seq<String>, nm: Seq<char>) -> bool {
    exists|i: int| 0 <= i < paths.len() && nm == path_hash_spec(#[trigger] paths[i]@)
}

/// The indexed cache directories to delete, given the active comic paths:
/// exactly those directories named by no active path's hash.
pub fn orphan_indexed_dirs(existing: &Vec<String>, active_paths: &Vec<String>) -> (r: Vec<String>)
    ensures
        forall|nm: Seq<char>| #[trigger] has_name(r@, nm) ==> has_name(existing@, nm),
        forall|nm: Seq<char>| #[trigger]
            has_name(existing@, nm) ==> (has_name(r@, nm) <==> !has_hashed_name(
                active_paths@,
                nm,
            )),
{
    let mut names: Vec<String> = Vec::new();
    let mut i: usize = 0;
    let n = active_paths.len();
    while i < n
        invariant
            i <= n,
            n == active_paths@.len(),
            names@.len() == i,
            forall|k: int|
                0 <= k < i ==> #[trigger] names@[k]@ == path_hash_spec(active_paths@[k]@),
        decreases n - i,
    {
        names.push(hash_path(active_paths[i].as_str()));
        i = i + 1;
    }
    let r = orphan_dirs(existing, &names);
    proof {
        assert forall|nm: Seq<char>| #[trigger]
            has_name(names@, nm) <==> has_hashed_name(active_paths@, nm) by {
            if has_name(names@, nm) {
                let j = choose|j: int| 0 <= j < names@.len() && nm == #[trigger] names@[j]@;
                assert(nm == path_hash_spec(active_paths@[j]@));
            }
            if has_hashed_name(active_paths@, nm) {
                let j = choose|j: int|
                    0 <= j < active_paths@.len() && nm == path_hash_spec(
                        #[trigger] active_paths@[j]@,
                    );
                assert(nm == names@[j]@);
            }
        }
    }
    r
}

} // verus!

//! File icons: where their tables are looked for, how their pixels are made,
//! and a cache that holds them within a budget.

use crate::paths::{
    components, extension, extension_of, file_name_of, joined, lemma_components_of_entry,
    path_file_name, path_join,
};
use crate::sizes::nearest;
use crate::text::{
    chars_of, find, find_char, lemma_find, lemma_find_is, string_of, text_of, texts_of, trim, trimmed,
};
use vstd::prelude::*;

verus! {

/// An icon's edge in logical pixels.
pub const ICON_PX: u32 = 16;

/// What the cache holds unless told otherwise.
pub const DEFAULT_BUDGET_BYTES: u128 = 8388608;

/// The parts of `text[from..]` between its `:`, the empty ones left out.
pub open spec fn parts(text: Seq<char>, from: int) -> Seq<Seq<char>>
    decreases text.len() - from,
{
    if from < 0 || from >= text.len() {
        Seq::empty()
    } else {
        let colon = find(text, ':', from);
        let rest = if colon < from || colon >= text.len() {
            Seq::empty()
        } else {
            parts(text, colon + 1)
        };
        if colon > from {
            seq![text.subrange(from, colon)] + rest
        } else {
            rest
        }
    }
}

/// The user's own data directory: the one that the environment names by an
/// absolute path, else the one below the home directory.
pub open spec fn own_data_dir(data_home: Option<Seq<char>>, home: Option<Seq<char>>) -> Option<
    Seq<char>,
> {
    if data_home is Some && data_home->0.len() > 0 && data_home->0[0] == '/' {
        data_home
    } else {
        match home {
            Some(h) => Some(path_join(path_join(h, ".local"@), "share"@)),
            None => None,
        }
    }
}

/// The system's data directories.
pub open spec fn system_data_dirs(data_dirs: Option<Seq<char>>) -> Seq<Seq<char>> {
    match data_dirs {
        Some(dirs) => if trimmed(dirs).len() > 0 {
            parts(dirs, 0)
        } else {
            parts("/usr/local/share:/usr/share"@, 0)
        },
        None => parts("/usr/local/share:/usr/share"@, 0),
    }
}

fn push_parts(dirs: &mut Vec<String>, text: &str)
    ensures
        texts_of(final(dirs)@) == texts_of(old(dirs)@) + parts(text@, 0),
{
    let chars = chars_of(text);
    let n: usize = chars.len();
    let mut from: usize = 0;
    let ghost start = texts_of(dirs@);
    let ghost whole = start + parts(text@, 0);
    while from < n
        invariant
            chars@ == text@,
            n == chars@.len(),
            from <= n,
            texts_of(dirs@) + parts(text@, from as int) == whole,
        decreases n - from,
    {
        let ghost before = texts_of(dirs@);
        let colon: usize = find_char(&chars, ':', from);
        let ghost part = chars@.subrange(from as int, colon as int);
        let ghost rest = if colon >= n {
            Seq::empty()
        } else {
            parts(text@, colon + 1)
        };
        if colon > from {
            let ghost earlier = dirs@;
            dirs.push(string_of(&chars, from, colon));
            assert(texts_of(dirs@) =~= before.push(part));
            assert(before.push(part) + rest =~= before + (seq![part] + rest));
        }
        assert(texts_of(dirs@) + rest =~= whole);
        from = if colon < n {
            colon + 1
        } else {
            n
        };
        assert(rest == parts(text@, from as int));
    }
    assert(texts_of(dirs@) =~= whole);
}

/// The user's own data directory, if there is one, and then the system's, from
/// what the environment says of those.
pub fn with_system_dirs(own: Option<String>, data_dirs: Option<String>) -> (dirs: Vec<String>)
    ensures
        texts_of(dirs@) == (match own {
            Some(own) => seq![own@],
            None => Seq::empty(),
        }) + system_data_dirs(text_of(data_dirs)),
{
    let mut dirs: Vec<String> = Vec::new();
    let ghost first = match text_of(own) {
        Some(dir) => seq![dir],
        None => Seq::empty(),
    };
    if let Some(dir) = own {
        dirs.push(dir);
    }
    assert(texts_of(dirs@) =~= first);
    let listed = match data_dirs {
        Some(text) => {
            if trim(text.as_str()).as_str().is_empty() {
                "/usr/local/share:/usr/share".to_owned()
            } else {
                text
            }
        },
        None => "/usr/local/share:/usr/share".to_owned(),
    };
    push_parts(&mut dirs, listed.as_str());
    dirs
}

/// The directories in which the type database is looked for, the user's own
/// first, from what the environment says.
pub fn mime_data_dirs(
    data_home: Option<String>,
    home: Option<String>,
    data_dirs: Option<String>,
) -> (dirs: Vec<String>)
    ensures
        texts_of(dirs@) == (match own_data_dir(text_of(data_home), text_of(home)) {
            Some(own) => seq![own],
            None => Seq::empty(),
        }) + system_data_dirs(text_of(data_dirs)),
{
    let absolute = match &data_home {
        Some(dir) => {
            let chars = chars_of(dir.as_str());
            chars.len() > 0 && chars[0] == '/'
        },
        None => false,
    };
    let own = if absolute {
        data_home
    } else {
        match home {
            Some(home) => {
                let local = joined(home.as_str(), ".local");
                Some(joined(local.as_str(), "share"))
            },
            None => None,
        }
    };
    with_system_dirs(own, data_dirs)
}

/// How an icon file is drawn.
#[derive(Clone, Copy, Debug, PartialEq, Eq, Structural)]
pub enum IconFormat {
    /// As a drawing, at any size.
    Svg,
    /// As an image, resampled where it has another size.
    Raster,
}

pub open spec fn lower_ascii(c: char) -> char {
    if 'A' <= c <= 'Z' {
        ((c as u8) + 32) as u8 as char
    } else {
        c
    }
}

fn ascii_lower(c: char) -> (l: char)
    ensures
        l == lower_ascii(c),
{
    if 'A' <= c && c <= 'Z' {
        ((c as u8) + 32) as char
    } else {
        c
    }
}

/// Whether two texts are the same but for the case of ASCII letters.
pub open spec fn same_ignoring_case(a: Seq<char>, b: Seq<char>) -> bool {
    &&& a.len() == b.len()
    &&& forall|i: int| 0 <= i < a.len() ==> lower_ascii(#[trigger] a[i]) == lower_ascii(b[i])
}

fn eq_ignore_ascii_case(a: &Vec<char>, b: &Vec<char>) -> (same: bool)
    ensures
        same == same_ignoring_case(a@, b@),
{
    if a.len() != b.len() {
        return false;
    }
    let mut i: usize = 0;
    while i < a.len()
        invariant
            i <= a@.len(),
            a@.len() == b@.len(),
            forall|j: int| 0 <= j < i ==> lower_ascii(#[trigger] a@[j]) == lower_ascii(b@[j]),
        decreases a@.len() - i,
    {
        if ascii_lower(a[i]) != ascii_lower(b[i]) {
            return false;
        }
        i = i + 1;
    }
    true
}

/// Whether a file's name says that it is a drawing.
pub open spec fn named_svg(name: Option<Seq<char>>) -> bool {
    match name {
        Some(n) => match extension(n) {
            Some(e) => same_ignoring_case(e, "svg"@) || same_ignoring_case(e, "svgz"@),
            None => false,
        },
        None => false,
    }
}

/// How an icon file is drawn, given its name.
pub fn format_of_name(name: Option<&str>, px: u32) -> (format: Option<IconFormat>)
    ensures
        format == (if px == 0 {
            None
        } else if named_svg(
            match name {
                Some(n) => Some(n@),
                None => None,
            },
        ) {
            Some(IconFormat::Svg)
        } else {
            Some(IconFormat::Raster)
        }),
{
    if px == 0 {
        return None;
    }
    let svg = match name {
        Some(n) => match extension_of(n) {
            Some(e) => {
                let ext = chars_of(e.as_str());
                eq_ignore_ascii_case(&ext, &chars_of("svg")) || eq_ignore_ascii_case(
                    &ext,
                    &chars_of("svgz"),
                )
            },
            None => false,
        },
        None => false,
    };
    if svg {
        Some(IconFormat::Svg)
    } else {
        Some(IconFormat::Raster)
    }
}

/// How the icon file at `path` is drawn to a square of `px`; not at all where
/// there is nothing to draw on.
pub fn icon_format(path: &str, px: u32) -> (format: Option<IconFormat>)
    ensures
        format == (if px == 0 {
            None
        } else if named_svg(path_file_name(path@)) {
            Some(IconFormat::Svg)
        } else {
            Some(IconFormat::Raster)
        }),
{
    match file_name_of(path) {
        Some(name) => format_of_name(Some(name.as_str()), px),
        None => format_of_name(None, px),
    }
}

/// A power of two that brings `alpha / 255` to 24 significant bits.
pub open spec fn alpha_scale(alpha: int) -> int {
    if alpha >= 128 {
        0x100_0000
    } else if alpha >= 64 {
        0x200_0000
    } else if alpha >= 32 {
        0x400_0000
    } else if alpha >= 16 {
        0x800_0000
    } else if alpha >= 8 {
        0x1000_0000
    } else if alpha >= 4 {
        0x2000_0000
    } else if alpha >= 2 {
        0x4000_0000
    } else {
        0x8000_0000
    }
}

/// `alpha / 255`, times that power of two, to the nearest whole number.
pub open spec fn alpha_significand(alpha: int) -> int {
    nearest(alpha * alpha_scale(alpha), 255)
}

/// How often half of the last of 24 significant bits goes into one, for a
/// number between `k` and `k + 1`.
pub open spec fn half_units(k: int) -> int {
    if k >= 128 {
        0x2_0000
    } else if k >= 64 {
        0x4_0000
    } else if k >= 32 {
        0x8_0000
    } else if k >= 16 {
        0x10_0000
    } else if k >= 8 {
        0x20_0000
    } else if k >= 4 {
        0x40_0000
    } else if k >= 2 {
        0x80_0000
    } else if k >= 1 {
        0x100_0000
    } else {
        0x200_0000
    }
}

/// A colour channel with its alpha taken out: `channel / (alpha / 255)`, each
/// division kept to 24 significant bits, cut to a whole number and held to
/// 255.
pub open spec fn unmultiplied(channel: int, alpha: int) -> int {
    let scaled = channel * alpha_scale(alpha);
    let m = alpha_significand(alpha);
    let k = scaled / m;
    if scaled >= 255 * m {
        255
    } else if ((k + 1) * m - scaled) * half_units(k) <= m {
        k + 1
    } else {
        k
    }
}

/// A premultiplied RGBA pixel as a straight BGRA one.
pub open spec fn straight_bgra(pixel: Seq<u8>) -> Seq<u8> {
    let a = pixel[3] as int;
    if 0 < a < 255 {
        seq![
            unmultiplied(pixel[2] as int, a) as u8,
            unmultiplied(pixel[1] as int, a) as u8,
            unmultiplied(pixel[0] as int, a) as u8,
            pixel[3],
        ]
    } else {
        seq![pixel[2], pixel[1], pixel[0], pixel[3]]
    }
}

fn scale_for(alpha: u64) -> (scale: u64)
    ensures
        scale == alpha_scale(alpha as int),
        0x100_0000 <= scale <= 0x8000_0000,
{
    if alpha >= 128 {
        0x100_0000
    } else if alpha >= 64 {
        0x200_0000
    } else if alpha >= 32 {
        0x400_0000
    } else if alpha >= 16 {
        0x800_0000
    } else if alpha >= 8 {
        0x1000_0000
    } else if alpha >= 4 {
        0x2000_0000
    } else if alpha >= 2 {
        0x4000_0000
    } else {
        0x8000_0000
    }
}

fn half_units_for(k: u64) -> (units: u64)
    ensures
        units == half_units(k as int),
        0x2_0000 <= units <= 0x200_0000,
{
    if k >= 128 {
        0x2_0000
    } else if k >= 64 {
        0x4_0000
    } else if k >= 32 {
        0x8_0000
    } else if k >= 16 {
        0x10_0000
    } else if k >= 8 {
        0x20_0000
    } else if k >= 4 {
        0x40_0000
    } else if k >= 2 {
        0x80_0000
    } else if k >= 1 {
        0x100_0000
    } else {
        0x200_0000
    }
}

fn significand_for(alpha: u64) -> (m: u64)
    requires
        0 < alpha < 255,
    ensures
        m == alpha_significand(alpha as int),
        0x80_0000 <= m <= 0x100_0000,
{
    let scale = scale_for(alpha);
    proof {
        assert(alpha * scale <= 254 * 0x100_0000 || alpha * scale < 128 * 0x200_0000) by (
            nonlinear_arith)
            requires
                0 < alpha < 255,
                scale == alpha_scale(alpha as int),
        ;
        assert(255 * 0x80_0000 <= alpha * scale <= 255 * 0x100_0000) by (nonlinear_arith)
            requires
                0 < alpha < 255,
                scale == alpha_scale(alpha as int),
        ;
    }
    let n: u64 = alpha * scale;
    let q: u64 = n / 255;
    let rest: u64 = n % 255;
    if 2 * rest > 255 || (2 * rest == 255 && q % 2 == 1) {
        q + 1
    } else {
        q
    }
}

fn unmultiply(channel: u8, alpha: u8) -> (straight: u8)
    requires
        0 < alpha < 255,
    ensures
        straight == unmultiplied(channel as int, alpha as int),
        0 <= unmultiplied(channel as int, alpha as int) <= 255,
{
    let scale = scale_for(alpha as u64);
    let m = significand_for(alpha as u64);
    assert(channel as int * scale <= 255 * 0x8000_0000) by (nonlinear_arith)
        requires
            0 <= channel <= 255,
            scale <= 0x8000_0000,
    ;
    let scaled: u64 = channel as u64 * scale;
    if scaled >= 255 * m {
        return 255;
    }
    let k: u64 = scaled / m;
    proof {
        vstd::arithmetic::div_mod::lemma_fundamental_div_mod(scaled as int, m as int);
        assert(m * (scaled as int / m as int) == k * m) by (nonlinear_arith)
            requires
                k == scaled as int / m as int,
        ;
        assert(k < 255) by (nonlinear_arith)
            requires
                k * m <= scaled,
                scaled < 255 * m,
                m > 0,
        ;
        assert((k + 1) * m == k * m + m) by (nonlinear_arith);
        assert((k + 1) * m <= 255 * 0x100_0000) by (nonlinear_arith)
            requires
                k < 255,
                m <= 0x100_0000,
        ;
    }
    let rest: u64 = (k + 1) * m - scaled;
    let units = half_units_for(k);
    assert(rest * units <= 0x100_0000 * 0x200_0000) by (nonlinear_arith)
        requires
            0 <= rest <= 0x100_0000,
            units <= 0x200_0000,
    ;
    if rest * units <= m {
        (k + 1) as u8
    } else {
        k as u8
    }
}

/// Makes a straight BGRA pixel of a premultiplied RGBA one.
pub fn premultiplied_rgba_to_straight_bgra(pixel: [u8; 4]) -> (bgra: [u8; 4])
    ensures
        bgra@ == straight_bgra(pixel@),
{
    let alpha = pixel[3];
    let bgra = if alpha > 0 && alpha < 255 {
        [
            unmultiply(pixel[2], alpha),
            unmultiply(pixel[1], alpha),
            unmultiply(pixel[0], alpha),
            alpha,
        ]
    } else {
        [pixel[2], pixel[1], pixel[0], alpha]
    };
    assert(bgra@ =~= straight_bgra(pixel@));
    bgra
}

/// A loaded icon: a square of straight BGRA pixels.
#[derive(Debug, PartialEq, Eq)]
pub struct Rasterised {
    pub size: u32,
    pub bgra: Vec<u8>,
}

/// Pixel `i` of some bytes, four to a pixel.
pub open spec fn pixel_at(bytes: Seq<u8>, i: int) -> Seq<u8> {
    bytes.subrange(4 * i, 4 * i + 4)
}

/// An RGBA pixel as a BGRA one.
pub open spec fn swapped_bgra(pixel: Seq<u8>) -> Seq<u8> {
    seq![pixel[2], pixel[1], pixel[0], pixel[3]]
}

impl Rasterised {
    /// An icon of the premultiplied RGBA pixels that a drawing gave.
    pub fn from_premultiplied(size: u32, rgba: &Vec<u8>) -> (icon: Self)
        requires
            rgba@.len() % 4 == 0,
        ensures
            icon.size == size,
            icon.bgra@.len() == rgba@.len(),
            forall|i: int|
                0 <= i < rgba@.len() / 4 ==> #[trigger] pixel_at(icon.bgra@, i) == straight_bgra(
                    pixel_at(rgba@, i),
                ),
    {
        let mut bgra: Vec<u8> = Vec::new();
        let mut i: usize = 0;
        let n: usize = rgba.len();
        while i < n
            invariant
                n == rgba@.len(),
                n % 4 == 0,
                i % 4 == 0,
                i <= n,
                bgra@.len() == i,
                forall|p: int|
                    0 <= p < i / 4 ==> #[trigger] pixel_at(bgra@, p) == straight_bgra(
                        pixel_at(rgba@, p),
                    ),
            decreases n - i,
        {
            let ghost before = bgra@;
            let pixel = [rgba[i], rgba[i + 1], rgba[i + 2], rgba[i + 3]];
            let out = premultiplied_rgba_to_straight_bgra(pixel);
            bgra.push(out[0]);
            bgra.push(out[1]);
            bgra.push(out[2]);
            bgra.push(out[3]);
            proof {
                assert(pixel@ =~= pixel_at(rgba@, i as int / 4));
                assert(pixel_at(bgra@, i as int / 4) =~= out@);
                assert forall|p: int| 0 <= p < (i + 4) / 4 implies #[trigger] pixel_at(bgra@, p)
                    == straight_bgra(pixel_at(rgba@, p)) by {
                    if p < i / 4 {
                        assert(pixel_at(bgra@, p) =~= pixel_at(before, p));
                    }
                }
            }
            i = i + 4;
        }
        Rasterised { size, bgra }
    }

    /// An icon of an image's straight RGBA pixels.
    pub fn from_straight(size: u32, rgba: &Vec<u8>) -> (icon: Self)
        requires
            rgba@.len() % 4 == 0,
        ensures
            icon.size == size,
            icon.bgra@.len() == rgba@.len(),
            forall|i: int|
                0 <= i < rgba@.len() / 4 ==> #[trigger] pixel_at(icon.bgra@, i) == swapped_bgra(
                    pixel_at(rgba@, i),
                ),
    {
        let mut bgra: Vec<u8> = Vec::new();
        let mut i: usize = 0;
        let n: usize = rgba.len();
        while i < n
            invariant
                n == rgba@.len(),
                n % 4 == 0,
                i % 4 == 0,
                i <= n,
                bgra@.len() == i,
                forall|p: int|
                    0 <= p < i / 4 ==> #[trigger] pixel_at(bgra@, p) == swapped_bgra(
                        pixel_at(rgba@, p),
                    ),
            decreases n - i,
        {
            let ghost before = bgra@;
            bgra.push(rgba[i + 2]);
            bgra.push(rgba[i + 1]);
            bgra.push(rgba[i]);
            bgra.push(rgba[i + 3]);
            proof {
                assert(pixel_at(bgra@, i as int / 4) =~= swapped_bgra(
                    pixel_at(rgba@, i as int / 4),
                ));
                assert forall|p: int| 0 <= p < (i + 4) / 4 implies #[trigger] pixel_at(bgra@, p)
                    == swapped_bgra(pixel_at(rgba@, p)) by {
                    if p < i / 4 {
                        assert(pixel_at(bgra@, p) =~= pixel_at(before, p));
                    }
                }
            }
            i = i + 4;
        }
        Rasterised { size, bgra }
    }

    /// The icon in an image file that is called `name` and holds `bytes`.
    /// `None` where there is nothing to draw on, where the file is of no format
    /// that can be read, or where the image is too large to be resampled.
    pub fn from_image_file(px: u32, name: &str, bytes: &Vec<u8>) -> (icon: Option<Self>)
        ensures
            match icon {
                Some(icon) => {
                    &&& px > 0
                    &&& extension(name@) is Some
                    &&& image_of(bytes@, extension(name@)->0) is Some
                    &&& ({
                        let (rgba, width, height) = image_of(bytes@, extension(name@)->0)->0;
                        &&& can_resample(width, px)
                        &&& is_icon_of(icon, px, rgba, width, height)
                    })
                },
                None => px == 0 || extension(name@) is None || image_of(
                    bytes@,
                    extension(name@)->0,
                ) is None || !can_resample((image_of(bytes@, extension(name@)->0)->0).1, px),
            },
    {
        if px == 0 {
            return None;
        }
        match decode_image(name, bytes) {
            Some((rgba, width, height)) => if resample_fits(width, px) {
                Some(Rasterised::from_image(px, rgba, width, height))
            } else {
                None
            },
            None => None,
        }
    }

    /// An icon of an image's straight RGBA pixels, resampled where the image
    /// is not a square of the wanted size.
    pub fn from_image(px: u32, rgba: Vec<u8>, width: u32, height: u32) -> (icon: Self)
        requires
            rgba@.len() == width as int * height as int * 4,
            can_resample(width, px),
        ensures
            is_icon_of(icon, px, rgba@, width, height),
    {
        if width == px && height == px {
            assert((px as int * px as int * 4) % 4 == 0) by (nonlinear_arith);
            return Rasterised::from_straight(px, &rgba);
        }
        let sampled = resampled(rgba, width, height, px);
        assert((px as int * px as int * 4) % 4 == 0) by (nonlinear_arith);
        let icon = Rasterised::from_straight(px, &sampled);
        proof {
            if width == 0 || height == 0 {
                assert forall|i: int| 0 <= i < px as int * px as int implies #[trigger] pixel_at(
                    icon.bgra@,
                    i,
                ) == seq![0u8, 0u8, 0u8, 0u8] by {
                    assert(pixel_at(icon.bgra@, i) == swapped_bgra(pixel_at(sampled@, i)));
                    assert(pixel_at(icon.bgra@, i) =~= seq![0u8, 0u8, 0u8, 0u8]);
                }
            }
        }
        icon
    }
}

/// Whether the buffers that resampling fills fit into memory's addresses.
pub open spec fn can_resample(width: u32, px: u32) -> bool {
    &&& width as int * px as int * 16 <= usize::MAX / 2
    &&& px as int * px as int * 16 <= usize::MAX / 2
}

fn resample_fits(width: u32, px: u32) -> (fits: bool)
    ensures
        fits == can_resample(width, px),
{
    let w = width as u128;
    let p = px as u128;
    assert(w * p * 16 <= 0xffff_ffff * 0xffff_ffff * 16) by (nonlinear_arith)
        requires
            w <= 0xffff_ffff,
            p <= 0xffff_ffff,
    ;
    assert(p * p * 16 <= 0xffff_ffff * 0xffff_ffff * 16) by (nonlinear_arith)
        requires
            p <= 0xffff_ffff,
    ;
    assert(0 <= w * p && 0 <= p * p) by (nonlinear_arith);
    let limit = (usize::MAX / 2) as u128;
    w * p * 16 <= limit && p * p * 16 <= limit
}

/// Whether `icon` is the square of `px` of an image's straight RGBA pixels.
/// Which pixels it holds is stated of an image that is such a square already,
/// and of one without pixels, whose icon is blank.
pub open spec fn is_icon_of(
    icon: Rasterised,
    px: u32,
    rgba: Seq<u8>,
    width: u32,
    height: u32,
) -> bool {
    &&& icon.size == px
    &&& icon.bgra@.len() == px as int * px as int * 4
    &&& width == px && height == px ==> forall|i: int|
        0 <= i < rgba.len() / 4 ==> #[trigger] pixel_at(icon.bgra@, i) == swapped_bgra(
            pixel_at(rgba, i),
        )
    &&& width == 0 || height == 0 ==> forall|i: int|
        0 <= i < px as int * px as int ==> #[trigger] pixel_at(icon.bgra@, i) == seq![
            0u8,
            0u8,
            0u8,
            0u8,
        ]
}

/// The image in a file that is called `name` and holds `bytes`: its RGBA bytes,
/// its width and its height.
pub fn decode_image(name: &str, bytes: &Vec<u8>) -> (image: Option<(Vec<u8>, u32, u32)>)
    ensures
        match image {
            Some((rgba, width, height)) => {
                &&& extension(name@) is Some
                &&& image_of(bytes@, extension(name@)->0) == Some((rgba@, width, height))
                &&& rgba@.len() == width as int * height as int * 4
            },
            None => extension(name@) is None || image_of(bytes@, extension(name@)->0) is None,
        },
{
    match extension_of(name) {
        Some(ext) => decoded(bytes, ext.as_str()),
        None => None,
    }
}

/// The image that some bytes are, in the format that files of an extension
/// have: its RGBA bytes, its width and its height.
pub uninterp spec fn image_of(bytes: Seq<u8>, extension: Seq<char>) -> Option<(Seq<u8>, u32, u32)>;

/// `image::load_from_memory_with_format`, in the format that
/// `image::ImageFormat::from_extension` has for an extension: the image's RGBA
/// bytes, four to a pixel, its width and its height. `None` where there is no
/// such format, or the bytes are no image of it. The result is a function of
/// the bytes and the extension.
#[verifier::external_body]
fn decoded(bytes: &Vec<u8>, extension: &str) -> (image: Option<(Vec<u8>, u32, u32)>)
    ensures
        match image {
            Some((rgba, width, height)) => {
                &&& image_of(bytes@, extension@) == Some((rgba@, width, height))
                &&& rgba@.len() == width as int * height as int * 4
            },
            None => image_of(bytes@, extension@) is None,
        },
{
    let format = image::ImageFormat::from_extension(extension)?;
    let rgba = image::load_from_memory_with_format(bytes, format).ok()?.into_rgba8();
    let (width, height) = rgba.dimensions();
    Some((rgba.into_raw(), width, height))
}

/// `image::imageops::resize` to a square of `px`, with the Lanczos filter
/// with window 3, of the image that the RGBA bytes are. What is stated is how
/// many bytes come back, and that they are zero for an image without pixels.
/// Which bytes they are otherwise rests on the machine's arithmetic and is not
/// stated.
#[verifier::external_body]
fn resampled(rgba: Vec<u8>, width: u32, height: u32, px: u32) -> (sampled: Vec<u8>)
    requires
        rgba@.len() == width as int * height as int * 4,
        can_resample(width, px),
    ensures
        sampled@.len() == px as int * px as int * 4,
        width == 0 || height == 0 ==> forall|i: int|
            0 <= i < sampled@.len() ==> sampled@[i] == 0,
{
    let image = image::RgbaImage::from_raw(width, height, rgba).unwrap();
    image::imageops::resize(&image, px, px, image::imageops::FilterType::Lanczos3).into_raw()
}

proof fn lemma_parts_of_the_rest(text: Seq<char>, k: int, from: int)
    requires
        0 <= k <= from <= text.len(),
    ensures
        parts(text, from) == parts(text.skip(k), from - k),
    decreases text.len() - from,
{
    if from < text.len() {
        let rest = text.skip(k);
        lemma_find(text, ':', from);
        let colon = find(text, ':', from);
        lemma_find_is(rest, ':', from - k, colon - k);
        assert(text.subrange(from, colon) =~= rest.subrange(from - k, colon - k));
        if colon < text.len() {
            lemma_parts_of_the_rest(text, k, colon + 1);
        }
    }
}

/// A list of directories is cut at its colons: what stands before the first is
/// its first directory, unless nothing does, and what stands behind it is a list
/// again.
pub proof fn lemma_list_is_cut_at_its_colons(first: Seq<char>, rest: Seq<char>)
    requires
        !first.contains(':'),
    ensures
        parts(first, 0) == (if first.len() > 0 {
            seq![first]
        } else {
            Seq::empty()
        }),
        parts(first + seq![':'] + rest, 0) == (if first.len() > 0 {
            seq![first]
        } else {
            Seq::empty()
        }) + parts(rest, 0),
{
    let n = first.len() as int;
    assert forall|i: int| 0 <= i < n implies first[i] != ':' by {
        assert(first.contains(first[i]));
    }
    if n > 0 {
        lemma_find_is(first, ':', 0, n);
        assert(first.subrange(0, n) =~= first);
        assert(parts(first, 0) =~= seq![first]);
    }
    let text = first + seq![':'] + rest;
    assert(text[n] == ':');
    lemma_find_is(text, ':', 0, n);
    assert(text.subrange(0, n) =~= first);
    assert(text.skip(n + 1) =~= rest);
    lemma_parts_of_the_rest(text, n + 1, n + 1);
    assert(parts(text, 0) =~= (if n > 0 {
        seq![first]
    } else {
        Seq::empty()
    }) + parts(rest, 0));
}

/// The user's own directory is the one that the environment names, where that is
/// an absolute path; any other is passed over for the one below the home
/// directory, and without a home there is none.
pub proof fn lemma_own_directory(data_home: Option<Seq<char>>, home: Option<Seq<char>>)
    ensures
        data_home is Some && data_home->0.len() > 0 && data_home->0[0] == '/' ==> own_data_dir(
            data_home,
            home,
        ) == data_home,
        data_home is None || data_home->0.len() == 0 || data_home->0[0] != '/' ==> {
            &&& home is None ==> own_data_dir(data_home, home) is None
            &&& home is Some ==> {
                &&& own_data_dir(data_home, home) is Some
                &&& components(own_data_dir(data_home, home)->0) == components(home->0) + seq![
                    ".local"@,
                    "share"@,
                ]
            }
        },
{
    reveal_strlit(".local");
    reveal_strlit("share");
    if let Some(h) = home {
        let local = path_join(h, ".local"@);
        lemma_components_of_entry(h, ".local"@);
        lemma_components_of_entry(local, "share"@);
        assert(components(h).push(".local"@).push("share"@) =~= components(h) + seq![
            ".local"@,
            "share"@,
        ]);
    }
}

/// The system's directories are those that the environment lists, in its order;
/// where it lists nothing, the two that are usual.
pub proof fn lemma_system_directories(data_dirs: Option<Seq<char>>)
    ensures
        data_dirs is Some && trimmed(data_dirs->0).len() > 0 ==> system_data_dirs(data_dirs) == parts(
            data_dirs->0,
            0,
        ),
        data_dirs is None || trimmed(data_dirs->0).len() == 0 ==> system_data_dirs(data_dirs)
            == seq!["/usr/local/share"@, "/usr/share"@],
{
    reveal_strlit("/usr/local/share:/usr/share");
    reveal_strlit("/usr/local/share");
    reveal_strlit("/usr/share");
    let first = "/usr/local/share"@;
    let rest = "/usr/share"@;
    assert("/usr/local/share:/usr/share"@ =~= first + seq![':'] + rest);
    assert(!first.contains(':'));
    assert(!rest.contains(':'));
    lemma_list_is_cut_at_its_colons(first, rest);
    lemma_list_is_cut_at_its_colons(rest, Seq::empty());
    assert(seq![first] + seq![rest] =~= seq![first, rest]);
}

/// The case of ASCII letters, and of nothing else, does not matter to whether a
/// file is a drawing; its extension decides.
pub proof fn lemma_drawings_by_extension(name: Seq<char>)
    ensures
        named_svg(Some(name)) <==> extension(name) is Some && ({
            let lower = extension(name)->0.map_values(
                |c: char|
                    if 'A' <= c <= 'Z' {
                        ((c as u8) + 32) as u8 as char
                    } else {
                        c
                    },
            );
            lower == seq!['s', 'v', 'g'] || lower == seq!['s', 'v', 'g', 'z']
        }),
        !named_svg(None),
{
    reveal_strlit("svg");
    reveal_strlit("svgz");
    if let Some(ext) = extension(name) {
        let lower = ext.map_values(
            |c: char|
                if 'A' <= c <= 'Z' {
                    ((c as u8) + 32) as u8 as char
                } else {
                    c
                },
        );
        assert(forall|i: int| 0 <= i < ext.len() ==> lower[i] == lower_ascii(#[trigger] ext[i]));
        if same_ignoring_case(ext, "svg"@) {
            assert(lower =~= seq!['s', 'v', 'g']) by {
                assert(lower_ascii(ext[0]) == lower_ascii("svg"@[0]));
                assert(lower_ascii(ext[1]) == lower_ascii("svg"@[1]));
                assert(lower_ascii(ext[2]) == lower_ascii("svg"@[2]));
            }
        }
        if same_ignoring_case(ext, "svgz"@) {
            assert(lower =~= seq!['s', 'v', 'g', 'z']) by {
                assert(lower_ascii(ext[0]) == lower_ascii("svgz"@[0]));
                assert(lower_ascii(ext[1]) == lower_ascii("svgz"@[1]));
                assert(lower_ascii(ext[2]) == lower_ascii("svgz"@[2]));
                assert(lower_ascii(ext[3]) == lower_ascii("svgz"@[3]));
            }
        }
        if lower == seq!['s', 'v', 'g'] {
            assert(ext.len() == lower.len());
            assert forall|i: int| 0 <= i < ext.len() implies lower_ascii(#[trigger] ext[i])
                == lower_ascii("svg"@[i]) by {
                assert(lower[i] == seq!['s', 'v', 'g'][i]);
            }
        }
        if lower == seq!['s', 'v', 'g', 'z'] {
            assert(ext.len() == lower.len());
            assert forall|i: int| 0 <= i < ext.len() implies lower_ascii(#[trigger] ext[i])
                == lower_ascii("svgz"@[i]) by {
                assert(lower[i] == seq!['s', 'v', 'g', 'z'][i]);
            }
        }
    }
}

/// Alpha's significand is its share of the scale, rounded.
proof fn lemma_significand(alpha: int)
    requires
        0 < alpha < 255,
    ensures
        alpha_scale(alpha) >= 0x100_0000,
        -255 <= 2 * (255 * alpha_significand(alpha) - alpha * alpha_scale(alpha)) <= 255,
        alpha_significand(alpha) > 0,
{
    let scale = alpha_scale(alpha);
    let n = alpha * scale;
    assert(n >= scale) by (nonlinear_arith)
        requires
            alpha >= 1,
            scale >= 0,
            n == alpha * scale,
    ;
    vstd::arithmetic::div_mod::lemma_fundamental_div_mod(n, 255);
}

/// A channel with its alpha taken out is `255 * channel / alpha` to within one,
/// for the channels that a premultiplied pixel has.
pub proof fn lemma_alpha_is_taken_out(channel: int, alpha: int)
    requires
        0 < alpha < 255,
        0 <= channel <= alpha,
    ensures
        0 <= unmultiplied(channel, alpha) <= 255,
        alpha * (unmultiplied(channel, alpha) - 1) <= 255 * channel,
        255 * channel <= alpha * (unmultiplied(channel, alpha) + 1),
{
    lemma_significand(alpha);
    let scale = alpha_scale(alpha);
    let m = alpha_significand(alpha);
    let scaled = channel * scale;
    lemma_quotient(channel, alpha, scale, m);
    assert(alpha * (255 - 1) <= 255 * alpha <= alpha * (255 + 1)) by (nonlinear_arith)
        requires
            alpha > 0,
    ;
}

proof fn lemma_quotient(channel: int, alpha: int, scale: int, m: int)
    requires
        0 < alpha < 255,
        0 <= channel <= alpha,
        scale >= 0x100_0000,
        -255 <= 2 * (255 * m - alpha * scale) <= 255,
        m > 0,
    ensures
        ({
            let scaled = channel * scale;
            let k = scaled / m;
            &&& scaled >= 255 * m ==> channel == alpha
            &&& scaled < 255 * m ==> {
                &&& 0 <= k < 255
                &&& alpha * (k - 1) <= 255 * channel
                &&& alpha * k <= 255 * channel
                &&& 255 * channel <= alpha * (k + 1)
                &&& 255 * channel <= alpha * (k + 2)
            }
        }),
{
    let scaled = channel * scale;
    let n = alpha * scale;
    assert(scaled >= 0) by (nonlinear_arith)
        requires
            channel >= 0,
            scale >= 0,
            scaled == channel * scale,
    ;
    if scaled >= 255 * m {
        assert(channel == alpha) by (nonlinear_arith)
            requires
                2 * scaled >= 2 * n - 255,
                scaled == channel * scale,
                n == alpha * scale,
                channel <= alpha,
                scale >= 0x100_0000,
        ;
    } else {
        vstd::arithmetic::div_mod::lemma_fundamental_div_mod(scaled, m);
        let k = scaled / m;
        let rest = scaled % m;
        assert(k >= 0) by (nonlinear_arith)
            requires
                scaled == m * k + rest,
                scaled >= 0,
                0 <= rest < m,
                m > 0,
        ;
        assert(k < 255) by (nonlinear_arith)
            requires
                scaled == m * k + rest,
                scaled < 255 * m,
                rest >= 0,
                m > 0,
        ;
        lemma_quotient_bounds(channel, alpha, scale, m, k, rest);
        assert(alpha * (k + 1) == alpha * k + alpha) by (nonlinear_arith);
        assert(alpha * (k + 2) == alpha * k + 2 * alpha) by (nonlinear_arith);
        assert(alpha * (k - 1) == alpha * k - alpha) by (nonlinear_arith);
    }
}

proof fn lemma_quotient_bounds(channel: int, alpha: int, scale: int, m: int, k: int, rest: int)
    requires
        0 < alpha < 255,
        0 <= channel <= alpha,
        scale >= 0x100_0000,
        -255 <= 2 * (255 * m - alpha * scale) <= 255,
        0 <= k < 255,
        0 <= rest < m,
        channel * scale == m * k + rest,
    ensures
        alpha * k <= 255 * channel,
        255 * channel <= alpha * (k + 1),
{
    let err = 255 * m - alpha * scale;
    assert(255 * (channel * scale) == 255 * m * k + 255 * rest) by (nonlinear_arith)
        requires
            channel * scale == m * k + rest,
    ;
    assert(255 * m * k == (alpha * scale + err) * k) by (nonlinear_arith)
        requires
            255 * m == alpha * scale + err,
    ;
    assert((alpha * scale + err) * k == alpha * k * scale + err * k) by (nonlinear_arith);
    assert(255 * (channel * scale) == 255 * channel * scale) by (nonlinear_arith);
    assert(-128 * 255 <= err * k <= 128 * 255) by (nonlinear_arith)
        requires
            -128 <= err <= 128,
            0 <= k < 255,
    ;
    // 255 * channel * scale == alpha * k * scale + err * k + 255 * rest
    let low = 255 * channel - alpha * k;
    assert(low * scale == err * k + 255 * rest) by (nonlinear_arith)
        requires
            255 * channel * scale == alpha * k * scale + err * k + 255 * rest,
            low == 255 * channel - alpha * k,
    ;
    assert(low >= 0) by (nonlinear_arith)
        requires
            low * scale == err * k + 255 * rest,
            err * k >= -128 * 255,
            rest >= 0,
            scale >= 0x100_0000,
    ;
    assert(255 * rest < 255 * m);
    assert(255 * m <= alpha * scale + 128);
    assert(low * scale < alpha * scale + 128 + 128 * 255);
    assert(low <= alpha) by (nonlinear_arith)
        requires
            low * scale < alpha * scale + 128 + 128 * 255,
            scale >= 0x100_0000,
    ;
    assert(alpha * (k + 1) == alpha * k + alpha) by (nonlinear_arith);
}

/// A quotient is cut to a whole number, unless it comes so near to the next one
/// that 24 significant bits do not tell it from that.
pub proof fn lemma_quotient_is_cut(channel: int, alpha: int)
    requires
        0 < alpha < 255,
        0 <= channel <= alpha,
    ensures
        ({
            let scaled = channel * alpha_scale(alpha);
            let share = alpha_significand(alpha);
            let r = unmultiplied(channel, alpha);
            let short = (scaled / share + 1) * share - scaled;
            &&& r == 255 || r == scaled / share || r == scaled / share + 1
            &&& scaled < 255 * share && short * 0x200_0000 <= share ==> r == scaled / share + 1
            &&& scaled < 255 * share && short * 0x2_0000 > share ==> r == scaled / share
        }),
{
    lemma_significand(alpha);
    let scaled = channel * alpha_scale(alpha);
    let share = alpha_significand(alpha);
    let k = scaled / share;
    let short = (k + 1) * share - scaled;
    vstd::arithmetic::div_mod::lemma_fundamental_div_mod(scaled, share);
    assert((k + 1) * share == share * k + share) by (nonlinear_arith);
    assert(short > 0);
    let units = half_units(k);
    assert(short * units <= short * 0x200_0000) by (nonlinear_arith)
        requires
            short > 0,
            units <= 0x200_0000,
    ;
    assert(short * 0x2_0000 <= short * units) by (nonlinear_arith)
        requires
            short > 0,
            units >= 0x2_0000,
    ;
}

/// A channel that exceeds its alpha, which none of a premultiplied pixel does, is
/// held to the most there is.
pub proof fn lemma_channel_is_held(channel: int, alpha: int)
    requires
        0 < alpha < 255,
        alpha < channel <= 255,
    ensures
        unmultiplied(channel, alpha) == 255,
{
    lemma_significand(alpha);
    let scale = alpha_scale(alpha);
    assert(channel * scale >= alpha * scale + scale) by (nonlinear_arith)
        requires
            channel >= alpha + 1,
            scale > 0,
    ;
}

/// A pixel keeps its alpha, and each of its colours goes to its own place. An
/// opaque pixel keeps its colours, and so does one that is not seen.
pub proof fn lemma_pixel_keeps_its_colours(pixel: Seq<u8>)
    requires
        pixel.len() == 4,
    ensures
        straight_bgra(pixel).len() == 4,
        straight_bgra(pixel)[3] == pixel[3],
        pixel[3] == 255 || pixel[3] == 0 ==> straight_bgra(pixel) == seq![
            pixel[2],
            pixel[1],
            pixel[0],
            pixel[3],
        ],
        0 < pixel[3] < 255 ==> {
            &&& straight_bgra(pixel)[0] == unmultiplied(pixel[2] as int, pixel[3] as int) as u8
            &&& straight_bgra(pixel)[1] == unmultiplied(pixel[1] as int, pixel[3] as int) as u8
            &&& straight_bgra(pixel)[2] == unmultiplied(pixel[0] as int, pixel[3] as int) as u8
        },
        swapped_bgra(pixel) == seq![pixel[2], pixel[1], pixel[0], pixel[3]],
        swapped_bgra(swapped_bgra(pixel)) == pixel,
{
    assert(swapped_bgra(swapped_bgra(pixel)) =~= pixel);
}

/// The pixels of an image stand one behind the other, four bytes to each.
pub proof fn lemma_pixels_follow_one_another(bytes: Seq<u8>, i: int, j: int)
    requires
        0 <= i,
        4 * i + 4 <= bytes.len(),
        0 <= j < 4,
    ensures
        pixel_at(bytes, i).len() == 4,
        pixel_at(bytes, i)[j] == bytes[4 * i + j],
{
}

/// An icon is a square of the size that was asked for. An image that is such a
/// square already is kept pixel by pixel, its colours in their places; one
/// without pixels gives an icon that is not seen.
pub proof fn lemma_icon_is_a_square(
    icon: Rasterised,
    px: u32,
    rgba: Seq<u8>,
    width: u32,
    height: u32,
    i: int,
)
    requires
        is_icon_of(icon, px, rgba, width, height),
        rgba.len() == width as int * height as int * 4,
        0 <= i < px as int * px as int,
    ensures
        icon.size == px,
        icon.bgra@.len() == px as int * px as int * 4,
        width == px && height == px ==> {
            &&& icon.bgra@[4 * i] == rgba[4 * i + 2]
            &&& icon.bgra@[4 * i + 1] == rgba[4 * i + 1]
            &&& icon.bgra@[4 * i + 2] == rgba[4 * i]
            &&& icon.bgra@[4 * i + 3] == rgba[4 * i + 3]
        },
        width == 0 || height == 0 ==> icon.bgra@[4 * i + 3] == 0,
{
    let out = icon.bgra@;
    if width == px && height == px {
        assert(pixel_at(out, i) == swapped_bgra(pixel_at(rgba, i)));
        assert(out[4 * i] == pixel_at(out, i)[0]);
        assert(out[4 * i + 1] == pixel_at(out, i)[1]);
        assert(out[4 * i + 2] == pixel_at(out, i)[2]);
        assert(out[4 * i + 3] == pixel_at(out, i)[3]);
    }
    if width == 0 || height == 0 {
        assert(pixel_at(out, i) == seq![0u8, 0u8, 0u8, 0u8]);
        assert(out[4 * i + 3] == pixel_at(out, i)[3]);
    }
}

} // verus!

//! Scale modes, 9-way alignment, option parsing and the resize layout.

use vstd::prelude::*;

use crate::canvas::{in_rect, rgba_at, Canvas, Rgba};
use crate::text::{
    all_ascii, all_ascii_graphic, ascii_lower, chars_of, contains_seq, decimal_text, ends_with_seq,
    ends_with_str, lemma_decimal_text, lemma_graphic_is_ascii, lemma_split_by_graphic,
    lemma_split_by_pieces, lowercased, parse_unsigned, parse_unsigned_decimal, split_by, split_on,
    str_eq, to_lowercase, trim, trim_spec, lemma_trim_graphic, unsigned_digits,
};

verus! {

/// How the source image is scaled to fit the requested WxH canvas.
///
/// In every mode the output canvas is exactly the requested WxH; any space
/// the image does not cover is filled (transparent for PNG, black for JPG).
#[derive(Clone, Copy, Debug, PartialEq, Eq, Structural)]
pub enum ScaleMode {
    /// Deform the image to exactly fill the canvas (aspect ratio lost).
    Scale,
    /// Never upscale: a source that fits inside the canvas keeps its pixel
    /// size; a larger one behaves like `KeepAspect`.
    Keep,
    /// Scale to fit inside the canvas preserving the aspect ratio.
    KeepAspect,
}

/// The name by which a mode is written on the command line.
pub open spec fn mode_name(m: ScaleMode) -> Seq<char> {
    match m {
        ScaleMode::Scale => "scale"@,
        ScaleMode::Keep => "keep"@,
        ScaleMode::KeepAspect => "keep-aspect"@,
    }
}

impl ScaleMode {
    pub fn as_str(self) -> (r: &'static str)
        ensures
            r@ == mode_name(self),
    {
        match self {
            ScaleMode::Scale => "scale",
            ScaleMode::Keep => "keep",
            ScaleMode::KeepAspect => "keep-aspect",
        }
    }
}

/// Horizontal placement of the image within the leftover canvas area.
#[derive(Clone, Copy, Debug, PartialEq, Eq, Structural)]
pub enum HAlign {
    Left,
    Center,
    Right,
}

/// Vertical placement of the image within the leftover canvas area.
#[derive(Clone, Copy, Debug, PartialEq, Eq, Structural)]
pub enum VAlign {
    Top,
    Center,
    Bottom,
}

/// 9-direction placement of the image within the leftover canvas area.
#[derive(Clone, Copy, Debug, PartialEq, Eq, Structural)]
pub struct Align {
    pub h: HAlign,
    pub v: VAlign,
}

/// Offset of a `dir`-aligned item inside `pad` units of leftover space.
pub open spec fn h_offset(dir: HAlign, pad: u32) -> u32 {
    match dir {
        HAlign::Left => 0,
        HAlign::Center => pad / 2,
        HAlign::Right => pad,
    }
}

pub open spec fn v_offset(dir: VAlign, pad: u32) -> u32 {
    match dir {
        VAlign::Top => 0,
        VAlign::Center => pad / 2,
        VAlign::Bottom => pad,
    }
}

/// `r` places an item by `a` in `pad_x x pad_y` of leftover space: flush
/// with the start or the end of the space, or centred with the two margins
/// differing by at most one (the larger after the item).
pub open spec fn placed_by(a: Align, pad_x: u32, pad_y: u32, r: (u32, u32)) -> bool {
    &&& r.0 <= pad_x
    &&& r.1 <= pad_y
    &&& (a.h == HAlign::Left ==> r.0 == 0)
    &&& (a.h == HAlign::Right ==> r.0 == pad_x)
    &&& (a.h == HAlign::Center ==> r.0 <= pad_x - r.0 <= r.0 + 1)
    &&& (a.v == VAlign::Top ==> r.1 == 0)
    &&& (a.v == VAlign::Bottom ==> r.1 == pad_y)
    &&& (a.v == VAlign::Center ==> r.1 <= pad_y - r.1 <= r.1 + 1)
}

/// The offset of an alignment puts the item flush left/top, flush
/// right/bottom, or centred within one unit.
pub proof fn law_align_offset(a: Align, pad_x: u32, pad_y: u32)
    ensures
        placed_by(a, pad_x, pad_y, (h_offset(a.h, pad_x), v_offset(a.v, pad_y))),
{
}

/// Canonical hyphenated name: vertical part first, centered axes omitted.
pub open spec fn align_name(a: Align) -> Seq<char> {
    match (a.v, a.h) {
        (VAlign::Center, HAlign::Center) => "center"@,
        (VAlign::Center, HAlign::Left) => "left"@,
        (VAlign::Center, HAlign::Right) => "right"@,
        (VAlign::Top, HAlign::Center) => "top"@,
        (VAlign::Bottom, HAlign::Center) => "bottom"@,
        (VAlign::Top, HAlign::Left) => "top-left"@,
        (VAlign::Top, HAlign::Right) => "top-right"@,
        (VAlign::Bottom, HAlign::Left) => "bottom-left"@,
        (VAlign::Bottom, HAlign::Right) => "bottom-right"@,
    }
}

impl Align {
    /// Centered alignment on both axes.
    pub fn center() -> (a: Align)
        ensures
            a == (Align { h: HAlign::Center, v: VAlign::Center }),
    {
        Align { h: HAlign::Center, v: VAlign::Center }
    }

    pub fn new(h: HAlign, v: VAlign) -> (a: Align)
        ensures
            a == (Align { h, v }),
    {
        Align { h, v }
    }

    /// The top-left placement offset inside a `pad_x x pad_y` leftover area.
    pub fn offset(self, pad_x: u32, pad_y: u32) -> (r: (u32, u32))
        ensures
            r == (h_offset(self.h, pad_x), v_offset(self.v, pad_y)),
            placed_by(self, pad_x, pad_y, r),
    {
        proof {
            law_align_offset(self, pad_x, pad_y);
        }
        let ox = match self.h {
            HAlign::Left => 0,
            HAlign::Center => pad_x / 2,
            HAlign::Right => pad_x,
        };
        let oy = match self.v {
            VAlign::Top => 0,
            VAlign::Center => pad_y / 2,
            VAlign::Bottom => pad_y,
        };
        (ox, oy)
    }

    /// Canonical hyphenated name, e.g. `top-left`; centered axes are omitted:
    /// `top`, `left`, `center`.
    pub fn name(self) -> (r: String)
        ensures
            r@ == align_name(self),
    {
        let s = match (self.v, self.h) {
            (VAlign::Center, HAlign::Center) => "center",
            (VAlign::Center, HAlign::Left) => "left",
            (VAlign::Center, HAlign::Right) => "right",
            (VAlign::Top, HAlign::Center) => "top",
            (VAlign::Bottom, HAlign::Center) => "bottom",
            (VAlign::Top, HAlign::Left) => "top-left",
            (VAlign::Top, HAlign::Right) => "top-right",
            (VAlign::Bottom, HAlign::Left) => "bottom-left",
            (VAlign::Bottom, HAlign::Right) => "bottom-right",
        };
        String::from_str(s)
    }
}


// ---------- parse errors ----------

/// Why an option value was refused. Each variant keeps the text that the
/// message about it quotes.
#[derive(Debug)]
pub enum ParseError {
    /// A `--stretch` value other than scale, keep, keep-aspect (the input).
    UnknownStretch(String),
    /// An `--align` part that is none of the five words (the part, the input).
    UnknownAlignPart(String, String),
    /// Two different horizontal directions in one `--align` value (the input).
    ConflictingHorizontal(String),
    /// Two different vertical directions in one `--align` value (the input).
    ConflictingVertical(String),
    /// A size that does not split into exactly two parts at `x`/`X` (the input).
    InvalidSizeFormat(String),
    /// A size part that is not an unsigned 32-bit integer (the trimmed part).
    InvalidNumber(String),
    /// A compression value that is no level name and no `u8` (the input).
    UnknownCompression(String),
}

// ---------- --stretch ----------

/// The mode that a lowercased `--stretch` value names.
pub open spec fn stretch_of(lower: Seq<char>) -> Option<ScaleMode> {
    if lower == "scale"@ {
        Some(ScaleMode::Scale)
    } else if lower == "keep"@ {
        Some(ScaleMode::Keep)
    } else if lower == "keep-aspect"@ {
        Some(ScaleMode::KeepAspect)
    } else {
        None
    }
}

pub open spec fn stretch_outcome(r: Result<ScaleMode, ParseError>, lower: Seq<char>, input: Seq<char>) -> bool {
    match stretch_of(lower) {
        Some(m) => r == Ok::<ScaleMode, ParseError>(m),
        None => r matches Err(ParseError::UnknownStretch(q)) && q@ == input,
    }
}

/// Selects the mode named by an already lowercased `--stretch` value.
pub fn stretch_from_lower(lower: &str, input: &str) -> (r: Result<ScaleMode, ParseError>)
    ensures
        stretch_outcome(r, lower@, input@),
{
    if str_eq(lower, "scale") {
        Ok(ScaleMode::Scale)
    } else if str_eq(lower, "keep") {
        Ok(ScaleMode::Keep)
    } else if str_eq(lower, "keep-aspect") {
        Ok(ScaleMode::KeepAspect)
    } else {
        Err(ParseError::UnknownStretch(String::from_str(input)))
    }
}

/// Parses a `--stretch` value ("scale", "keep", "keep-aspect"), ignoring case.
pub fn parse_stretch(s: &str) -> (r: Result<ScaleMode, ParseError>)
    ensures
        stretch_outcome(r, lowercased(s@), s@),
        all_ascii(s@) ==> stretch_outcome(r, ascii_lower(s@), s@),
{
    let lower = to_lowercase(s);
    stretch_from_lower(lower.as_str(), s)
}

// ---------- --align ----------

/// Which rule an `--align` value breaks.
#[derive(Clone, Copy, Debug, PartialEq, Eq, Structural)]
pub enum AlignFault {
    UnknownPart,
    ConflictingHorizontal,
    ConflictingVertical,
}

/// Merging a horizontal direction: an unset or centered axis takes `dir`,
/// the same direction again is kept, another one conflicts (`None`).
pub open spec fn merge_h_spec(h: Option<HAlign>, dir: HAlign) -> Option<Option<HAlign>> {
    match h {
        None => Some(Some(dir)),
        Some(HAlign::Center) => Some(Some(dir)),
        Some(cur) => if cur == dir { Some(h) } else { None },
    }
}

pub open spec fn merge_v_spec(v: Option<VAlign>, dir: VAlign) -> Option<Option<VAlign>> {
    match v {
        None => Some(Some(dir)),
        Some(VAlign::Center) => Some(Some(dir)),
        Some(cur) => if cur == dir { Some(v) } else { None },
    }
}

pub type AlignState = (Option<HAlign>, Option<VAlign>);

/// One normalized `--align` part applied to the axes chosen so far.
pub open spec fn apply_align_part(st: AlignState, part: Seq<char>) -> Result<AlignState, (AlignFault, Seq<char>)> {
    if part == "center"@ {
        Ok((
            if st.0 is None { Some(HAlign::Center) } else { st.0 },
            if st.1 is None { Some(VAlign::Center) } else { st.1 },
        ))
    } else if part == "left"@ || part == "right"@ {
        let dir = if part == "left"@ { HAlign::Left } else { HAlign::Right };
        match merge_h_spec(st.0, dir) {
            Some(h) => Ok((h, st.1)),
            None => Err((AlignFault::ConflictingHorizontal, part)),
        }
    } else if part == "top"@ || part == "bottom"@ {
        let dir = if part == "top"@ { VAlign::Top } else { VAlign::Bottom };
        match merge_v_spec(st.1, dir) {
            Some(v) => Ok((st.0, v)),
            None => Err((AlignFault::ConflictingVertical, part)),
        }
    } else {
        Err((AlignFault::UnknownPart, part))
    }
}

/// The parts applied left to right from no axis chosen; the first fault wins.
pub open spec fn align_fold(parts: Seq<Seq<char>>) -> Result<AlignState, (AlignFault, Seq<char>)>
    decreases parts.len(),
{
    if parts.len() == 0 {
        Ok((None, None))
    } else {
        match align_fold(parts.drop_last()) {
            Ok(st) => apply_align_part(st, parts.last()),
            Err(e) => Err(e),
        }
    }
}

/// The alignment that the chosen axes give; an axis never chosen is centered.
pub open spec fn align_of_state(st: AlignState) -> Align {
    Align {
        h: match st.0 { Some(h) => h, None => HAlign::Center },
        v: match st.1 { Some(v) => v, None => VAlign::Center },
    }
}

/// The parts of an `--align` value made of printable non-space ASCII: split
/// at `-` and lowercased (trimming leaves such text unchanged).
pub open spec fn ascii_align_parts(s: Seq<char>) -> Seq<Seq<char>> {
    split_by(s, '-', '-').map_values(|p: Seq<char>| ascii_lower(p))
}

/// The parts of an `--align` value: split at `-`, each trimmed and lowercased.
pub open spec fn normalized_align_parts(s: Seq<char>) -> Seq<Seq<char>> {
    split_by(s, '-', '-').map_values(|p: Seq<char>| lowercased(trim_spec(p)))
}

pub open spec fn align_outcome(r: Result<Align, ParseError>, parts: Seq<Seq<char>>, input: Seq<char>) -> bool {
    match align_fold(parts) {
        Ok(st) => r == Ok::<Align, ParseError>(align_of_state(st)),
        Err((AlignFault::UnknownPart, p)) =>
            r matches Err(ParseError::UnknownAlignPart(q, i)) && q@ == p && i@ == input,
        Err((AlignFault::ConflictingHorizontal, _)) =>
            r matches Err(ParseError::ConflictingHorizontal(i)) && i@ == input,
        Err((AlignFault::ConflictingVertical, _)) =>
            r matches Err(ParseError::ConflictingVertical(i)) && i@ == input,
    }
}

/// Merges a horizontal direction into the accumulated parse result.
/// A `Center` placeholder counts as "not yet chosen", so a later concrete
/// direction (as in "center-left") overrides it.
pub fn merge_h(h: &mut Option<HAlign>, dir: HAlign, what: &str) -> (r: Result<(), ParseError>)
    ensures
        match merge_h_spec(*old(h), dir) {
            Some(nh) => r is Ok && *final(h) == nh,
            None => r matches Err(ParseError::ConflictingHorizontal(w)) && w@ == what@
                && *final(h) == *old(h),
        },
{
    match *h {
        None | Some(HAlign::Center) => {
            *h = Some(dir);
            Ok(())
        },
        Some(cur) => {
            if cur == dir {
                Ok(())
            } else {
                Err(ParseError::ConflictingHorizontal(String::from_str(what)))
            }
        },
    }
}

/// Merges a vertical direction into the accumulated parse result
/// (see [`merge_h`]).
pub fn merge_v(v: &mut Option<VAlign>, dir: VAlign, what: &str) -> (r: Result<(), ParseError>)
    ensures
        match merge_v_spec(*old(v), dir) {
            Some(nv) => r is Ok && *final(v) == nv,
            None => r matches Err(ParseError::ConflictingVertical(w)) && w@ == what@
                && *final(v) == *old(v),
        },
{
    match *v {
        None | Some(VAlign::Center) => {
            *v = Some(dir);
            Ok(())
        },
        Some(cur) => {
            if cur == dir {
                Ok(())
            } else {
                Err(ParseError::ConflictingVertical(String::from_str(what)))
            }
        },
    }
}

/// Reads already normalized `--align` parts (trimmed and lowercased) into an
/// alignment; `input` is the whole value, quoted by the errors.
pub fn align_from_parts(parts: &Vec<String>, input: &str) -> (r: Result<Align, ParseError>)
    ensures
        align_outcome(r, parts@.map_values(|p: String| p@), input@),
{
    let ghost ps = parts@.map_values(|p: String| p@);
    let mut h: Option<HAlign> = None;
    let mut v: Option<VAlign> = None;
    let mut i: usize = 0;
    assert(ps.take(0) =~= Seq::<Seq<char>>::empty());
    while i < parts.len()
        invariant
            ps == parts@.map_values(|p: String| p@),
            i <= parts.len(),
            align_fold(ps.take(i as int)) == Ok::<AlignState, (AlignFault, Seq<char>)>((h, v)),
        decreases parts.len() - i,
    {
        let part = parts[i].as_str();
        assert(ps.take(i + 1).drop_last() =~= ps.take(i as int));
        assert(ps.take(i + 1).last() == part@);
        if str_eq(part, "center") {
            if h.is_none() {
                h = Some(HAlign::Center);
            }
            if v.is_none() {
                v = Some(VAlign::Center);
            }
        } else if str_eq(part, "left") {
            let res = merge_h(&mut h, HAlign::Left, input);
            if res.is_err() {
                proof { assert(align_fold(ps.take(i + 1)) == align_fold(ps)) by { lemma_align_fold_err(ps, i as int + 1); } }
                return Err(res.unwrap_err());
            }
        } else if str_eq(part, "right") {
            let res = merge_h(&mut h, HAlign::Right, input);
            if res.is_err() {
                proof { assert(align_fold(ps.take(i + 1)) == align_fold(ps)) by { lemma_align_fold_err(ps, i as int + 1); } }
                return Err(res.unwrap_err());
            }
        } else if str_eq(part, "top") {
            let res = merge_v(&mut v, VAlign::Top, input);
            if res.is_err() {
                proof { assert(align_fold(ps.take(i + 1)) == align_fold(ps)) by { lemma_align_fold_err(ps, i as int + 1); } }
                return Err(res.unwrap_err());
            }
        } else if str_eq(part, "bottom") {
            let res = merge_v(&mut v, VAlign::Bottom, input);
            if res.is_err() {
                proof { assert(align_fold(ps.take(i + 1)) == align_fold(ps)) by { lemma_align_fold_err(ps, i as int + 1); } }
                return Err(res.unwrap_err());
            }
        } else {
            proof { assert(align_fold(ps.take(i + 1)) == align_fold(ps)) by { lemma_align_fold_err(ps, i as int + 1); } }
            return Err(ParseError::UnknownAlignPart(String::from_str(part), String::from_str(input)));
        }
        i = i + 1;
    }
    assert(ps.take(i as int) =~= ps);
    Ok(Align {
        h: match h { Some(x) => x, None => HAlign::Center },
        v: match v { Some(x) => x, None => VAlign::Center },
    })
}

/// Once the fold has failed on a prefix, it fails the same way on the whole.
proof fn lemma_align_fold_err(parts: Seq<Seq<char>>, j: int)
    requires
        0 <= j <= parts.len(),
        align_fold(parts.take(j)) is Err,
    ensures
        align_fold(parts) == align_fold(parts.take(j)),
    decreases parts.len() - j,
{
    if j < parts.len() {
        assert(parts.take(j + 1).drop_last() =~= parts.take(j));
        lemma_align_fold_err(parts, j + 1);
    } else {
        assert(parts.take(j) =~= parts);
    }
}

/// Parses an `--align` value: split on '-' into a vertical and a horizontal
/// part, in either order ("top-left" and "left-top" both work). Parts are
/// top, bottom / left, right / center (fills whichever axis is not given);
/// each is trimmed and compared ignoring case. A missing axis defaults to
/// center: "top" == "top-center".
pub fn parse_align(s: &str) -> (r: Result<Align, ParseError>)
    ensures
        align_outcome(r, normalized_align_parts(s@), s@),
        all_ascii_graphic(s@) ==> align_outcome(r, ascii_align_parts(s@), s@),
{
    let pieces = split_on(s, '-', '-');
    let ghost sp = split_by(s@, '-', '-');
    let mut norm: Vec<String> = Vec::new();
    let mut i: usize = 0;
    while i < pieces.len()
        invariant
            pieces@.len() == sp.len(),
            sp == split_by(s@, '-', '-'),
            forall|k: int| 0 <= k < pieces@.len() ==> #[trigger] pieces@[k]@ == sp[k],
            i <= pieces.len(),
            norm@.len() == i,
            forall|k: int| 0 <= k < i ==> #[trigger] norm@[k]@ == lowercased(trim_spec(sp[k])),
            all_ascii_graphic(s@) ==> forall|k: int| 0 <= k < i ==> #[trigger] norm@[k]@ == ascii_lower(sp[k]),
        decreases pieces.len() - i,
    {
        proof {
            if all_ascii_graphic(s@) {
                lemma_split_by_graphic(s@, '-', '-');
                assert(all_ascii_graphic(sp[i as int]));
                lemma_graphic_is_ascii(sp[i as int]);
                lemma_trim_graphic(sp[i as int]);
            }
        }
        let t = trim(pieces[i]);
        let l = to_lowercase(t);
        norm.push(l);
        i = i + 1;
    }
    assert(norm@.map_values(|p: String| p@) =~= normalized_align_parts(s@));
    assert(all_ascii_graphic(s@) ==> norm@.map_values(|p: String| p@) =~= ascii_align_parts(s@));
    align_from_parts(&norm, s)
}

// ---------- WxH sizes ----------

/// What a size value gives, from the two trimmed texts around its `x`.
pub open spec fn size_from_text_outcome(r: Result<(u32, u32), ParseError>, a: Seq<char>, b: Seq<char>) -> bool {
    match (parse_unsigned(a, u32::MAX as nat), parse_unsigned(b, u32::MAX as nat)) {
        (Some(w), Some(h)) => r == Ok::<(u32, u32), ParseError>((w as u32, h as u32)),
        (None, _) => r matches Err(ParseError::InvalidNumber(q)) && q@ == a,
        (Some(_), None) => r matches Err(ParseError::InvalidNumber(q)) && q@ == b,
    }
}

pub open spec fn size_outcome(r: Result<(u32, u32), ParseError>, s: Seq<char>) -> bool {
    let parts = split_by(s, 'x', 'X');
    if parts.len() != 2 {
        r matches Err(ParseError::InvalidSizeFormat(q)) && q@ == s
    } else {
        size_from_text_outcome(r, trim_spec(parts[0]), trim_spec(parts[1]))
    }
}

/// What a size value made of printable non-space ASCII gives (trimming
/// leaves its parts unchanged).
pub open spec fn ascii_size_outcome(r: Result<(u32, u32), ParseError>, s: Seq<char>) -> bool {
    let parts = split_by(s, 'x', 'X');
    if parts.len() != 2 {
        r matches Err(ParseError::InvalidSizeFormat(q)) && q@ == s
    } else {
        size_from_text_outcome(r, parts[0], parts[1])
    }
}

/// Reads the width and height texts (already trimmed) of a size value.
pub fn size_from_text(w_text: &str, h_text: &str) -> (r: Result<(u32, u32), ParseError>)
    ensures
        size_from_text_outcome(r, w_text@, h_text@),
{
    let w = match parse_unsigned_decimal(w_text, u32::MAX) {
        Some(w) => w,
        None => {
            return Err(ParseError::InvalidNumber(String::from_str(w_text)));
        },
    };
    let h = match parse_unsigned_decimal(h_text, u32::MAX) {
        Some(h) => h,
        None => {
            return Err(ParseError::InvalidNumber(String::from_str(h_text)));
        },
    };
    Ok((w, h))
}

/// Parses a "WxH" size (the separator is `x` or `X`) into (width, height).
pub fn parse_size(s: &str) -> (r: Result<(u32, u32), ParseError>)
    ensures
        size_outcome(r, s@),
        all_ascii_graphic(s@) ==> ascii_size_outcome(r, s@),
{
    let parts = split_on(s, 'x', 'X');
    if parts.len() != 2 {
        return Err(ParseError::InvalidSizeFormat(String::from_str(s)));
    }
    proof {
        if all_ascii_graphic(s@) {
            lemma_split_by_graphic(s@, 'x', 'X');
            assert(all_ascii_graphic(split_by(s@, 'x', 'X')[0]));
            assert(all_ascii_graphic(split_by(s@, 'x', 'X')[1]));
            lemma_trim_graphic(split_by(s@, 'x', 'X')[0]);
            lemma_trim_graphic(split_by(s@, 'x', 'X')[1]);
        }
    }
    let a = trim(parts[0]);
    let b = trim(parts[1]);
    size_from_text(a, b)
}


/// The `WxH` text of every size, written with decimal numbers, is printable
/// ASCII and reads back as that size, so `parse_size(format!("{w}x{h}"))`
/// gives `(w, h)`.
pub proof fn law_size_roundtrip(w: u32, h: u32)
    ensures
        all_ascii_graphic(decimal_text(w as nat) + seq!['x'] + decimal_text(h as nat)),
        ascii_size_outcome(
            Ok::<(u32, u32), ParseError>((w, h)),
            decimal_text(w as nat) + seq!['x'] + decimal_text(h as nat),
        ),
{
    let a = decimal_text(w as nat);
    let b = decimal_text(h as nat);
    let s = a + seq!['x'] + b;
    lemma_decimal_text(w as nat);
    lemma_decimal_text(h as nat);
    lemma_split_by_pieces(a, b, 'x', 'X');
    assert(unsigned_digits(a) == a);
    assert(unsigned_digits(b) == b);
    assert forall|i: int| 0 <= i < s.len() implies '!' <= #[trigger] s[i] && s[i] <= '~' by {
        if i < a.len() {
            assert(s[i] == a[i]);
        } else if i > a.len() {
            assert(s[i] == b[i - a.len() - 1]);
        }
    }
}

// ---------- laws of the names ----------

proof fn lemma_ascii_lower_identity(s: Seq<char>)
    requires
        forall|i: int| 0 <= i < s.len() ==> !crate::text::is_ascii_upper(#[trigger] s[i]),
    ensures
        ascii_lower(s) == s,
{
    assert(ascii_lower(s) =~= s);
}

/// The name of every scale mode is ASCII and reads back as that mode, so
/// `parse_stretch(m.as_str())` gives `m`.
pub proof fn law_mode_name_roundtrip(m: ScaleMode)
    ensures
        all_ascii(mode_name(m)),
        stretch_of(ascii_lower(mode_name(m))) == Some(m),
{
    reveal_strlit("scale");
    reveal_strlit("keep");
    reveal_strlit("keep-aspect");
    let s = mode_name(m);
    assert forall|i: int| 0 <= i < s.len() implies !crate::text::is_ascii_upper(#[trigger] s[i]) && (s[i] as u32) < 128 by {
    }
    lemma_ascii_lower_identity(s);
}

proof fn lemma_align_parts_one(x: Seq<char>)
    requires
        forall|i: int| 0 <= i < x.len() ==> #[trigger] x[i] != '-' && !crate::text::is_ascii_upper(x[i]),
    ensures
        ascii_align_parts(x) == seq![x],
{
    crate::text::lemma_split_by_pieces(x, Seq::<char>::empty(), '-', '-');
    lemma_ascii_lower_identity(x);
    assert(ascii_align_parts(x) =~= seq![x]);
}

proof fn lemma_align_parts_two(x: Seq<char>, y: Seq<char>)
    requires
        forall|i: int| 0 <= i < x.len() ==> #[trigger] x[i] != '-' && !crate::text::is_ascii_upper(x[i]),
        forall|i: int| 0 <= i < y.len() ==> #[trigger] y[i] != '-' && !crate::text::is_ascii_upper(y[i]),
    ensures
        ascii_align_parts(x + seq!['-'] + y) == seq![x, y],
{
    crate::text::lemma_split_by_pieces(x, y, '-', '-');
    lemma_ascii_lower_identity(x);
    lemma_ascii_lower_identity(y);
    assert(ascii_align_parts(x + seq!['-'] + y) =~= seq![x, y]);
}

proof fn lemma_align_fold_small(x: Seq<char>, y: Seq<char>)
    ensures
        align_fold(seq![x]) == apply_align_part((None, None), x),
        align_fold(seq![x, y]) == match apply_align_part((None, None), x) {
            Ok(st) => apply_align_part(st, y),
            Err(e) => Err(e),
        },
{
    assert(seq![x].drop_last() =~= Seq::<Seq<char>>::empty());
    assert(seq![x, y].drop_last() =~= seq![x]);
    assert(align_fold(Seq::<Seq<char>>::empty()) == Ok::<AlignState, (AlignFault, Seq<char>)>((None, None)));
}

/// The canonical name of every alignment is printable ASCII and reads back
/// as that alignment, so `parse_align(a.name())` gives `a`.
pub proof fn law_align_name_roundtrip(a: Align)
    ensures
        all_ascii_graphic(align_name(a)),
        align_fold(ascii_align_parts(align_name(a))) matches Ok(st) && align_of_state(st) == a,
{
    reveal_strlit("center");
    reveal_strlit("left");
    reveal_strlit("right");
    reveal_strlit("top");
    reveal_strlit("bottom");
    reveal_strlit("top-left");
    reveal_strlit("top-right");
    reveal_strlit("bottom-left");
    reveal_strlit("bottom-right");
    let s = align_name(a);
    assert forall|i: int| 0 <= i < s.len() implies '!' <= #[trigger] s[i] && s[i] <= '~' by {}
    lemma_align_fold_small("center"@, "center"@);
    lemma_align_fold_small("left"@, "left"@);
    lemma_align_fold_small("right"@, "right"@);
    lemma_align_fold_small("top"@, "left"@);
    lemma_align_fold_small("top"@, "right"@);
    lemma_align_fold_small("bottom"@, "left"@);
    lemma_align_fold_small("bottom"@, "right"@);
    match (a.v, a.h) {
        (VAlign::Center, HAlign::Center) => {
            lemma_align_parts_one("center"@);
        },
        (VAlign::Center, HAlign::Left) => {
            lemma_align_parts_one("left"@);
        },
        (VAlign::Center, HAlign::Right) => {
            lemma_align_parts_one("right"@);
        },
        (VAlign::Top, HAlign::Center) => {
            lemma_align_parts_one("top"@);
        },
        (VAlign::Bottom, HAlign::Center) => {
            lemma_align_parts_one("bottom"@);
        },
        (VAlign::Top, HAlign::Left) => {
            assert(s =~= "top"@ + seq!['-'] + "left"@);
            lemma_align_parts_two("top"@, "left"@);
        },
        (VAlign::Top, HAlign::Right) => {
            assert(s =~= "top"@ + seq!['-'] + "right"@);
            lemma_align_parts_two("top"@, "right"@);
        },
        (VAlign::Bottom, HAlign::Left) => {
            assert(s =~= "bottom"@ + seq!['-'] + "left"@);
            lemma_align_parts_two("bottom"@, "left"@);
            assert("bottom"@[0] != "center"@[0]);
        },
        (VAlign::Bottom, HAlign::Right) => {
            assert(s =~= "bottom"@ + seq!['-'] + "right"@);
            lemma_align_parts_two("bottom"@, "right"@);
            assert("bottom"@[0] != "center"@[0]);
        },
    }
}

/// The five words of an `--align` value.
pub open spec fn align_word(x: Seq<char>) -> bool {
    x == "center"@ || x == "left"@ || x == "right"@ || x == "top"@ || x == "bottom"@
}

/// Two readings of `--align` parts agree: both give the same alignment, or
/// both fail for the same reason.
pub open spec fn same_align_result(
    p: Result<AlignState, (AlignFault, Seq<char>)>,
    q: Result<AlignState, (AlignFault, Seq<char>)>,
) -> bool {
    match (p, q) {
        (Ok(a), Ok(b)) => align_of_state(a) == align_of_state(b),
        (Err((f, _)), Err((g, _))) => f == g,
        _ => false,
    }
}

proof fn lemma_align_word_chars(x: Seq<char>)
    requires
        align_word(x),
    ensures
        forall|i: int| 0 <= i < x.len() ==> #[trigger] x[i] != '-' && !crate::text::is_ascii_upper(x[i]),
        all_ascii_graphic(x),
        x.len() > 0,
{
    reveal_strlit("center");
    reveal_strlit("left");
    reveal_strlit("right");
    reveal_strlit("top");
    reveal_strlit("bottom");
}

proof fn lemma_align_words_differ()
    ensures
        "center"@ != "left"@,
        "center"@ != "right"@,
        "center"@ != "top"@,
        "center"@ != "bottom"@,
        "left"@ != "right"@,
        "left"@ != "top"@,
        "left"@ != "bottom"@,
        "right"@ != "top"@,
        "right"@ != "bottom"@,
        "top"@ != "bottom"@,
{
    reveal_strlit("center");
    reveal_strlit("left");
    reveal_strlit("right");
    reveal_strlit("top");
    reveal_strlit("bottom");
    assert("center"@.len() == 6 && "left"@.len() == 4 && "right"@.len() == 5);
    assert("top"@.len() == 3 && "bottom"@.len() == 6);
    assert("bottom"@[0] != "center"@[0]);
}

proof fn lemma_graphic_join(x: Seq<char>, y: Seq<char>)
    requires
        all_ascii_graphic(x),
        all_ascii_graphic(y),
    ensures
        all_ascii_graphic(x + seq!['-'] + y),
{
    let s = x + seq!['-'] + y;
    assert forall|i: int| 0 <= i < s.len() implies '!' <= #[trigger] s[i] && s[i] <= '~' by {
        if i < x.len() {
            assert(s[i] == x[i]);
        } else if i > x.len() {
            assert(s[i] == y[i - x.len() - 1]);
        }
    }
}

/// A vertical and a horizontal direction may come in either order:
/// `parse_align("top-left")` and `parse_align("left-top")` agree, and so do
/// any two of the five words written both ways round.
pub proof fn law_align_either_order(x: Seq<char>, y: Seq<char>)
    requires
        align_word(x),
        align_word(y),
    ensures
        all_ascii_graphic(x + seq!['-'] + y),
        same_align_result(
            align_fold(ascii_align_parts(x + seq!['-'] + y)),
            align_fold(ascii_align_parts(y + seq!['-'] + x)),
        ),
{
    lemma_align_word_chars(x);
    lemma_align_word_chars(y);
    lemma_graphic_join(x, y);
    lemma_align_parts_two(x, y);
    lemma_align_parts_two(y, x);
    lemma_align_fold_small(x, y);
    lemma_align_fold_small(y, x);
    lemma_align_words_differ();
}

/// An axis that the value leaves out is centered: `parse_align("top")` and
/// `parse_align("top-center")` agree, and so does every word followed by
/// `-center`.
pub proof fn law_align_missing_axis_centered(x: Seq<char>)
    requires
        align_word(x),
    ensures
        all_ascii_graphic(x),
        all_ascii_graphic(x + seq!['-'] + "center"@),
        align_fold(ascii_align_parts(x)) is Ok,
        same_align_result(
            align_fold(ascii_align_parts(x)),
            align_fold(ascii_align_parts(x + seq!['-'] + "center"@)),
        ),
{
    let c = "center"@;
    lemma_align_word_chars(x);
    lemma_align_word_chars(c);
    lemma_graphic_join(x, c);
    lemma_align_parts_one(x);
    lemma_align_parts_two(x, c);
    lemma_align_fold_small(x, c);
    lemma_align_words_differ();
}

/// The parts of an `--align` value that succeed: each is one of the five
/// words, and neither both horizontal nor both vertical directions occur.
pub open spec fn align_parts_valid(parts: Seq<Seq<char>>) -> bool {
    &&& forall|i: int| 0 <= i < parts.len() ==> align_word(#[trigger] parts[i])
    &&& !(parts.contains("left"@) && parts.contains("right"@))
    &&& !(parts.contains("top"@) && parts.contains("bottom"@))
}

/// The alignment that valid parts name: the direction given on each axis,
/// centered where none is given.
pub open spec fn align_of_parts(parts: Seq<Seq<char>>) -> Align {
    Align {
        h: if parts.contains("left"@) {
            HAlign::Left
        } else if parts.contains("right"@) {
            HAlign::Right
        } else {
            HAlign::Center
        },
        v: if parts.contains("top"@) {
            VAlign::Top
        } else if parts.contains("bottom"@) {
            VAlign::Bottom
        } else {
            VAlign::Center
        },
    }
}

/// The axes that reading `parts` has chosen so far.
spec fn h_chosen(parts: Seq<Seq<char>>) -> Option<HAlign> {
    if parts.contains("left"@) {
        Some(HAlign::Left)
    } else if parts.contains("right"@) {
        Some(HAlign::Right)
    } else if parts.contains("center"@) {
        Some(HAlign::Center)
    } else {
        None
    }
}

spec fn v_chosen(parts: Seq<Seq<char>>) -> Option<VAlign> {
    if parts.contains("top"@) {
        Some(VAlign::Top)
    } else if parts.contains("bottom"@) {
        Some(VAlign::Bottom)
    } else if parts.contains("center"@) {
        Some(VAlign::Center)
    } else {
        None
    }
}

proof fn lemma_contains_push(q: Seq<Seq<char>>, x: Seq<char>, w: Seq<char>)
    ensures
        q.push(x).contains(w) <==> (q.contains(w) || x == w),
{
    let p = q.push(x);
    if q.contains(w) {
        let i = choose|i: int| 0 <= i < q.len() && q[i] == w;
        assert(p[i] == w);
    }
    if x == w {
        assert(p[q.len() as int] == w);
    }
    if p.contains(w) {
        let i = choose|i: int| 0 <= i < p.len() && p[i] == w;
        if i < q.len() {
            assert(q[i] == w);
        }
    }
}

proof fn lemma_align_fold_state(parts: Seq<Seq<char>>)
    ensures
        align_fold(parts) is Ok <==> align_parts_valid(parts),
        align_fold(parts) matches Ok(st) ==> st == (h_chosen(parts), v_chosen(parts)),
    decreases parts.len(),
{
    lemma_align_words_differ();
    if parts.len() == 0 {
        assert(!parts.contains("left"@) && !parts.contains("right"@) && !parts.contains("center"@));
        assert(!parts.contains("top"@) && !parts.contains("bottom"@));
    } else {
        let q = parts.drop_last();
        let x = parts.last();
        assert(q.push(x) =~= parts);
        lemma_align_fold_state(q);
        lemma_contains_push(q, x, "left"@);
        lemma_contains_push(q, x, "right"@);
        lemma_contains_push(q, x, "top"@);
        lemma_contains_push(q, x, "bottom"@);
        lemma_contains_push(q, x, "center"@);
        if align_parts_valid(parts) {
            assert forall|i: int| 0 <= i < q.len() implies align_word(#[trigger] q[i]) by {
                assert(q[i] == parts[i]);
            }
            assert(align_word(parts[parts.len() - 1]));
        }
        if align_parts_valid(q) && align_word(x) {
            assert forall|i: int| 0 <= i < parts.len() implies align_word(#[trigger] parts[i]) by {
                if i < q.len() {
                    assert(parts[i] == q[i]);
                }
            }
        }
        if !align_word(x) {
            assert(!align_word(parts[parts.len() - 1]));
        }
        if q.contains("left"@) && q.contains("right"@) {
            assert(!align_parts_valid(q));
        }
    }
}

/// `parse_align` in closed form: the parts succeed exactly when each is one
/// of the five words and no axis gets both of its directions; the
/// alignment then takes the direction given on each axis and centers the
/// others. (`parse_align` reads the parts of its value split at `-`, each
/// trimmed and lowercased.)
pub proof fn law_align_closed_form(parts: Seq<Seq<char>>)
    ensures
        align_fold(parts) is Ok <==> align_parts_valid(parts),
        align_fold(parts) matches Ok(st) ==> align_of_state(st) == align_of_parts(parts),
{
    lemma_align_fold_state(parts);
}

/// The order of the parts does not matter: two `--align` values with the
/// same parts, in any order and any number of times, both succeed with the
/// same alignment or both fail.
pub proof fn law_align_order_free(p: Seq<Seq<char>>, q: Seq<Seq<char>>)
    requires
        forall|w: Seq<char>| p.contains(w) <==> q.contains(w),
    ensures
        align_fold(p) is Ok <==> align_fold(q) is Ok,
        align_fold(p) matches Ok(a) ==> (align_fold(q) matches Ok(b) && align_of_state(a) == align_of_state(b)),
{
    law_align_closed_form(p);
    law_align_closed_form(q);
    assert(p.contains("left"@) == q.contains("left"@));
    assert(p.contains("right"@) == q.contains("right"@));
    assert(p.contains("top"@) == q.contains("top"@));
    assert(p.contains("bottom"@) == q.contains("bottom"@));
    if align_parts_valid(p) {
        assert forall|i: int| 0 <= i < q.len() implies align_word(#[trigger] q[i]) by {
            assert(q.contains(q[i]));
            assert(p.contains(q[i]));
            let j = choose|j: int| 0 <= j < p.len() && p[j] == q[i];
            assert(align_word(p[j]));
        }
    }
    if align_parts_valid(q) {
        assert forall|i: int| 0 <= i < p.len() implies align_word(#[trigger] p[i]) by {
            assert(p.contains(p[i]));
            assert(q.contains(p[i]));
            let j = choose|j: int| 0 <= j < q.len() && q[j] == p[i];
            assert(align_word(q[j]));
        }
    }
}

// ---------- layout ----------

/// Scaled size plus top-left placement on the canvas.
#[derive(Clone, Copy, Debug, PartialEq, Eq, Structural)]
pub struct Layout {
    pub dw: u32,
    pub dh: u32,
    pub ox: u32,
    pub oy: u32,
}

/// The size at which an `iw x ih` image is drawn on a `w x h` canvas, where
/// `contain` is its aspect-preserving fit inside the canvas.
pub open spec fn scaled_size(iw: u32, ih: u32, w: u32, h: u32, mode: ScaleMode, contain: (u32, u32)) -> (u32, u32) {
    match mode {
        ScaleMode::Scale => (w, h),
        ScaleMode::KeepAspect => contain,
        ScaleMode::Keep => if iw <= w && ih <= h { (iw, ih) } else { contain },
    }
}

pub open spec fn layout_spec(iw: u32, ih: u32, w: u32, h: u32, mode: ScaleMode, align: Align, contain: (u32, u32)) -> Layout {
    let (dw, dh) = scaled_size(iw, ih, w, h, mode, contain);
    Layout {
        dw,
        dh,
        ox: h_offset(align.h, (w - dw) as u32),
        oy: v_offset(align.v, (h - dh) as u32),
    }
}

/// Decides how big an `iw x ih` image is drawn on a `w x h` canvas and where
/// it is placed. `Scale` fills the canvas; `KeepAspect` draws it at
/// `contain`, its aspect-preserving fit inside the canvas (which the caller
/// computes in floating point); `Keep` keeps the native size when the image
/// fits and falls back to `contain` otherwise. The leftover space is split
/// by `align`.
pub fn compute_layout(iw: u32, ih: u32, w: u32, h: u32, mode: ScaleMode, align: Align, contain: (u32, u32)) -> (lay: Layout)
    requires
        contain.0 <= w,
        contain.1 <= h,
    ensures
        lay == layout_spec(iw, ih, w, h, mode, align, contain),
        lay.ox + lay.dw <= w,
        lay.oy + lay.dh <= h,
        mode == ScaleMode::Scale ==> lay.dw == w && lay.dh == h,
        mode == ScaleMode::KeepAspect ==> (lay.dw, lay.dh) == contain,
        mode == ScaleMode::Keep ==> (lay.dw, lay.dh) == (if iw <= w && ih <= h { (iw, ih) } else { contain }),
        placed_by(align, (w - lay.dw) as u32, (h - lay.dh) as u32, (lay.ox, lay.oy)),
{
    proof {
        law_layout_modes(iw, ih, w, h, mode, align, contain);
    }
    let (dw, dh) = match mode {
        ScaleMode::Scale => (w, h),
        ScaleMode::KeepAspect => contain,
        ScaleMode::Keep => {
            if iw <= w && ih <= h {
                (iw, ih)
            } else {
                contain
            }
        },
    };
    let pad_x = w - dw;
    let pad_y = h - dh;
    let (ox, oy) = align.offset(pad_x, pad_y);
    Layout { dw, dh, ox, oy }
}

/// `Keep` never upscales: an image that fits keeps its native size, and a
/// larger one is laid out exactly as `KeepAspect` lays it out.
pub proof fn law_keep_mode(iw: u32, ih: u32, w: u32, h: u32, align: Align, contain: (u32, u32))
    ensures
        iw <= w && ih <= h ==> {
            let lay = layout_spec(iw, ih, w, h, ScaleMode::Keep, align, contain);
            lay.dw == iw && lay.dh == ih
        },
        !(iw <= w && ih <= h) ==> layout_spec(iw, ih, w, h, ScaleMode::Keep, align, contain)
            == layout_spec(iw, ih, w, h, ScaleMode::KeepAspect, align, contain),
{
}

/// `Scale` fills the whole canvas; `KeepAspect` draws the image at its
/// aspect-preserving fit; in every mode the image lies inside the canvas,
/// placed by the alignment in the space it leaves.
pub proof fn law_layout_modes(iw: u32, ih: u32, w: u32, h: u32, mode: ScaleMode, align: Align, contain: (u32, u32))
    requires
        contain.0 <= w,
        contain.1 <= h,
    ensures
        ({
            let lay = layout_spec(iw, ih, w, h, mode, align, contain);
            &&& mode == ScaleMode::Scale ==> lay == (Layout { dw: w, dh: h, ox: 0, oy: 0 })
            &&& mode == ScaleMode::KeepAspect ==> (lay.dw, lay.dh) == contain
            &&& lay.dw <= w && lay.dh <= h
            &&& placed_by(align, (w - lay.dw) as u32, (h - lay.dh) as u32, (lay.ox, lay.oy))
        }),
{
    let lay = layout_spec(iw, ih, w, h, mode, align, contain);
    law_align_offset(align, (w - lay.dw) as u32, (h - lay.dh) as u32);
}

/// The fill of the leftover canvas area: opaque black for JPG output (JPEG
/// has no alpha channel), transparent otherwise.
pub open spec fn fill_spec(ext: Seq<char>) -> Rgba {
    if ext == "jpg"@ || ext == "jpeg"@ {
        Rgba { r: 0, g: 0, b: 0, a: 255 }
    } else {
        Rgba { r: 0, g: 0, b: 0, a: 0 }
    }
}

/// JPG output (extension `jpg` or `jpeg` as written) pads with opaque black,
/// since JPEG has no alpha channel; every other output pads with fully
/// transparent pixels.
pub proof fn law_fill_colour(ext: Seq<char>)
    ensures
        (ext == "jpg"@ || ext == "jpeg"@) ==> fill_spec(ext) == (Rgba { r: 0, g: 0, b: 0, a: 255 }),
        !(ext == "jpg"@ || ext == "jpeg"@) ==> fill_spec(ext).a == 0,
{
}

/// Fill colour for the leftover canvas area of an output with extension `ext`.
pub fn fill_for_ext(ext: &str) -> (p: Rgba)
    ensures
        p == fill_spec(ext@),
{
    if str_eq(ext, "jpg") || str_eq(ext, "jpeg") {
        Rgba { r: 0, g: 0, b: 0, a: 255 }
    } else {
        Rgba { r: 0, g: 0, b: 0, a: 0 }
    }
}

/// Sizes for which drawing `img` on a `w x h` canvas allocates only buffers
/// that a `Vec` can hold, at most `isize::MAX` bytes (the canvas, and for a
/// resampling the buffers of `image::imageops::resize`).
pub open spec fn canvas_fits(img: &Canvas, w: u32, h: u32) -> bool {
    &&& w as int * h as int * 4 <= isize::MAX
    &&& img.w() as int * h as int * 16 <= isize::MAX
}

/// `out` shows, in the placed `lay.dw x lay.dh` rectangle, a Lanczos3
/// resampling of `img` to that size exactly as the `image` crate returned
/// it.
pub open spec fn shows_resampling(out: &Canvas, img: &Canvas, lay: Layout) -> bool {
    out.drawn() matches Some((dx, dy, Some(r))) && {
        &&& dx == lay.ox
        &&& dy == lay.oy
        &&& r.src == img.bytes()
        &&& r.src_w == img.w()
        &&& r.src_h == img.h()
        &&& r.w == lay.dw
        &&& r.h == lay.dh
        &&& forall|x: int, y: int|
            0 <= x < out.w() && 0 <= y < out.h() && in_rect(x, y, lay.ox as int, lay.oy as int, lay.dw as int, lay.dh as int)
                ==> #[trigger] out.pixel(x, y) == rgba_at(r.bytes, (y - lay.oy) * lay.dw + (x - lay.ox))
    }
}

/// The `w x h` canvas that drawing `img` by `lay` on `fill` gives: every
/// pixel outside the placed `lay.dw x lay.dh` rectangle is `fill`; an
/// image drawn at its native size shows its own pixels unchanged, and one
/// drawn at another size shows its Lanczos3 resampling to that size, as
/// the `image` crate returned it (whose values are not stated).
pub open spec fn composed(out: &Canvas, img: &Canvas, w: u32, h: u32, lay: Layout, fill: Rgba) -> bool {
    &&& out.w() == w
    &&& out.h() == h
    &&& forall|x: int, y: int|
        0 <= x < w && 0 <= y < h && !in_rect(x, y, lay.ox as int, lay.oy as int, lay.dw as int, lay.dh as int)
            ==> #[trigger] out.pixel(x, y) == fill
    &&& (lay.dw == img.w() && lay.dh == img.h()) ==> forall|x: int, y: int|
        0 <= x < w && 0 <= y < h && in_rect(x, y, lay.ox as int, lay.oy as int, lay.dw as int, lay.dh as int)
            ==> #[trigger] out.pixel(x, y) == img.pixel(x - lay.ox, y - lay.oy)
    &&& !(lay.dw == img.w() && lay.dh == img.h()) ==> shows_resampling(out, img, lay)
}

/// A `w x h` canvas of `fill` with `src` drawn at `(ox, oy)`, clipped to
/// the canvas.
pub fn compose(src: &Canvas, w: u32, h: u32, ox: u32, oy: u32, fill: Rgba) -> (out: Canvas)
    requires
        w as int * h as int * 4 <= isize::MAX,
    ensures
        out.w() == w,
        out.h() == h,
        forall|x: int, y: int|
            0 <= x < w && 0 <= y < h ==> #[trigger] out.pixel(x, y) == if in_rect(
                x,
                y,
                ox as int,
                oy as int,
                src.w() as int,
                src.h() as int,
            ) {
                src.pixel(x - ox, y - oy)
            } else {
                fill
            },
        out.drawn() == Some((ox, oy, src.resampling())),
{
    let mut canvas = Canvas::from_pixel(w, h, fill);
    canvas.paste(src, ox, oy);
    canvas
}

/// Draws `img` onto a `w x h` canvas of `fill` using the given mode and
/// alignment; `contain` is the aspect-preserving fit of the image inside
/// the canvas. The image is drawn as it is at its native size, otherwise
/// resampled with Lanczos3.
pub fn resize_onto_canvas(img: &Canvas, w: u32, h: u32, mode: ScaleMode, align: Align, fill: Rgba, contain: (u32, u32)) -> (out: Canvas)
    requires
        contain.0 <= w,
        contain.1 <= h,
        canvas_fits(img, w, h),
    ensures
        composed(&out, img, w, h, layout_spec(img.w(), img.h(), w, h, mode, align, contain), fill),
{
    let (iw, ih) = img.dimensions();
    let lay = compute_layout(iw, ih, w, h, mode, align, contain);
    let src = if lay.dw == iw && lay.dh == ih {
        img.duplicate()
    } else {
        proof {
            assert(lay.dw as int * lay.dh as int <= w as int * h as int) by (nonlinear_arith)
                requires
                    lay.dw <= w,
                    lay.dh <= h,
            ;
            assert(iw as int * lay.dh as int <= iw as int * h as int) by (nonlinear_arith)
                requires
                    lay.dh <= h,
            ;
        }
        img.resized_lanczos3(lay.dw, lay.dh)
    };
    let canvas = compose(&src, w, h, lay.ox, lay.oy, fill);
    canvas
}

/// Resizes an image in memory (for atlas pipeline reuse): the output is the
/// `size` canvas, filled for an output of extension `ext`.
pub fn resize_dynamic_image(img: &Canvas, size: (u32, u32), mode: ScaleMode, align: Align, ext: &str, contain: (u32, u32)) -> (out: Canvas)
    requires
        contain.0 <= size.0,
        contain.1 <= size.1,
        canvas_fits(img, size.0, size.1),
    ensures
        composed(&out, img, size.0, size.1, layout_spec(img.w(), img.h(), size.0, size.1, mode, align, contain), fill_spec(ext@)),
{
    resize_onto_canvas(img, size.0, size.1, mode, align, fill_for_ext(ext), contain)
}

// ---------- output naming ----------

/// The extension a resized file is saved with, from its source extension
/// already lowercased: JPG sources stay JPG, everything else becomes PNG.
pub open spec fn ext_choice(lower: Option<Seq<char>>) -> Seq<char> {
    match lower {
        Some(l) => if l == "jpg"@ || l == "jpeg"@ { "jpg"@ } else { "png"@ },
        None => "png"@,
    }
}

/// The extension a resized file is saved with, from its source extension
/// as given (compared ignoring case).
pub open spec fn output_ext_spec(ext: Option<Seq<char>>) -> Seq<char> {
    ext_choice(
        match ext {
            Some(e) => Some(lowercased(e)),
            None => None,
        },
    )
}

/// A source saved as JPG stays JPG; every other source, and one without an
/// extension, is saved as PNG.
pub proof fn law_output_kind(lower: Option<Seq<char>>)
    ensures
        ext_choice(lower) == "jpg"@ <==> (lower == Some("jpg"@) || lower == Some("jpeg"@)),
        ext_choice(lower) == "jpg"@ || ext_choice(lower) == "png"@,
{
    reveal_strlit("jpg");
    reveal_strlit("png");
    assert("jpg"@ != "png"@) by {
        assert("jpg"@[0] != "png"@[0]);
    }
}

/// Chooses the output extension from an already lowercased source extension.
pub fn extension_for_lower(lower: Option<&str>) -> (r: &'static str)
    ensures
        r@ == ext_choice(
            match lower {
                Some(l) => Some(l@),
                None => None,
            },
        ),
{
    match lower {
        Some(l) => if str_eq(l, "jpg") || str_eq(l, "jpeg") {
            "jpg"
        } else {
            "png"
        },
        None => "png",
    }
}

/// Chooses the output extension for a source file with extension `ext`.
pub fn output_extension(ext: Option<&str>) -> (r: &'static str)
    ensures
        r@ == output_ext_spec(
            match ext {
                Some(e) => Some(e@),
                None => None,
            },
        ),
        ext matches Some(e) ==> (all_ascii(e@) ==> r@ == ext_choice(Some(ascii_lower(e@)))),
{
    match ext {
        Some(e) => {
            let l = to_lowercase(e);
            extension_for_lower(Some(l.as_str()))
        },
        None => extension_for_lower(None),
    }
}

/// A resized image ready to be written: its file name and extension.
pub struct ResizedImage {
    pub file_name: String,
    pub ext: &'static str,
    pub image: Canvas,
}

/// Resizes one decoded source image for saving into the output directory:
/// the name keeps the source stem, the extension follows
/// [`output_extension`], and the leftover fill follows that extension.
pub fn resize_image(img: &Canvas, file_stem: &str, ext: Option<&str>, size: (u32, u32), mode: ScaleMode, align: Align, contain: (u32, u32)) -> (r: ResizedImage)
    requires
        contain.0 <= size.0,
        contain.1 <= size.1,
        canvas_fits(img, size.0, size.1),
    ensures
        ({
            let out_ext = output_ext_spec(
                match ext {
                    Some(e) => Some(e@),
                    None => None,
                },
            );
            &&& r.ext@ == out_ext
            &&& (ext matches Some(e) ==> (all_ascii(e@) ==> out_ext == ext_choice(Some(ascii_lower(e@)))))
            &&& r.file_name@ == file_stem@ + "."@ + out_ext
            &&& composed(&r.image, img, size.0, size.1, layout_spec(img.w(), img.h(), size.0, size.1, mode, align, contain), fill_spec(out_ext))
        }),
{
    let out_ext = output_extension(ext);
    let image = resize_onto_canvas(img, size.0, size.1, mode, align, fill_for_ext(out_ext), contain);
    let file_name = String::from_str(file_stem).concat(".").concat(out_ext);
    ResizedImage { file_name, ext: out_ext, image }
}

// ---------- file name filters ----------

/// Simple glob-style matching of a lowercased file name against a lowercased
/// pattern: `*.*` needs a dot, `*.ext` needs the suffix `.ext`, `*` matches
/// anything, and any other pattern must equal the name.
pub open spec fn glob_match_spec(pattern: Seq<char>, name: Seq<char>) -> bool {
    if pattern == "*.*"@ {
        contains_seq(name, "."@)
    } else if pattern.len() >= 2 && pattern[0] == '*' && pattern[1] == '.' {
        ends_with_seq(name, "."@ + pattern.skip(2))
    } else if pattern == "*"@ {
        true
    } else {
        name == pattern
    }
}

/// The file-name filter: `*` takes every name, `*.*` every name with a
/// dot, `*.ext` every name ending in `.ext`, and any other pattern only the
/// name equal to it.
pub proof fn law_glob_rules(pattern: Seq<char>, name: Seq<char>, e: Seq<char>)
    ensures
        glob_match_spec(seq!['*'], name),
        glob_match_spec(seq!['*', '.', '*'], name) == contains_seq(name, seq!['.']),
        e != seq!['*'] ==> glob_match_spec(seq!['*', '.'] + e, name) == ends_with_seq(name, seq!['.'] + e),
        !(pattern.len() >= 1 && pattern[0] == '*') ==> glob_match_spec(pattern, name) == (name == pattern),
{
    reveal_strlit("*.*");
    reveal_strlit("*");
    reveal_strlit(".");
    assert("*.*"@ =~= seq!['*', '.', '*']);
    assert("*"@ =~= seq!['*']);
    assert("."@ =~= seq!['.']);
    let p = seq!['*', '.'] + e;
    assert(p.skip(2) =~= e);
    assert(p[0] == '*' && p[1] == '.');
    if p == seq!['*', '.', '*'] {
        assert(e =~= seq!['*']);
    }
    if !(pattern.len() >= 1 && pattern[0] == '*') {
        assert(pattern != seq!['*', '.', '*']);
        assert(pattern != seq!['*']);
    }
}

/// Matches an already lowercased name against an already lowercased pattern.
pub fn glob_match_lower(pattern: &str, name: &str) -> (r: bool)
    ensures
        r == glob_match_spec(pattern@, name@),
{
    if str_eq(pattern, "*.*") {
        return crate::text::contains_str(name, ".");
    }
    let pc = chars_of(pattern);
    if pc.len() >= 2 && pc[0] == '*' && pc[1] == '.' {
        let ext = pattern.substring_char(2, pc.len());
        let suffix = String::from_str(".").concat(ext);
        return ends_with_str(name, suffix.as_str());
    }
    if str_eq(pattern, "*") {
        return true;
    }
    str_eq(name, pattern)
}

/// Glob-style matching of a single file name against a pattern, ignoring case.
pub fn glob_match(pattern: &str, name: &str) -> (r: bool)
    ensures
        r == glob_match_spec(lowercased(pattern@), lowercased(name@)),
        all_ascii(pattern@) && all_ascii(name@) ==> r == glob_match_spec(ascii_lower(pattern@), ascii_lower(name@)),
{
    let p = to_lowercase(pattern);
    let n = to_lowercase(name);
    glob_match_lower(p.as_str(), n.as_str())
}

} // verus!

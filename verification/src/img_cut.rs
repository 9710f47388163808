//! Cutting one image into a grid of segments, with templated file names.

use vstd::prelude::*;

use crate::canvas::Canvas;
use vstd::arithmetic::div_mod::lemma_fundamental_div_mod_converse;
use crate::text::{
    chars_of, contains_seq, contains_str, decimal_string, decimal_text, occurs_at, replace_all,
    replace_str,
};

verus! {

// ---------- name templates ----------

/// The template in effect: the given one when it holds `$col`, `$row` or
/// `$index`, otherwise `{stem}-$index`.
pub open spec fn template_spec(name_template: Option<Seq<char>>, file_stem: Seq<char>) -> Seq<char> {
    match name_template {
        Some(t) => if contains_seq(t, "$col"@) || contains_seq(t, "$row"@) || contains_seq(t, "$index"@) {
            t
        } else {
            file_stem + "-$index"@
        },
        None => file_stem + "-$index"@,
    }
}

/// `t` holds at least one of the placeholders `$col`, `$row`, `$index`.
pub open spec fn has_placeholder(t: Seq<char>) -> bool {
    contains_seq(t, "$col"@) || contains_seq(t, "$row"@) || contains_seq(t, "$index"@)
}

/// A given template with any placeholder is used as it is; one without a
/// placeholder, or no template, gives `{stem}-$index`.
pub proof fn law_template_choice(t: Seq<char>, stem: Seq<char>)
    ensures
        contains_seq(t, "$col"@) ==> template_spec(Some(t), stem) == t,
        contains_seq(t, "$row"@) ==> template_spec(Some(t), stem) == t,
        contains_seq(t, "$index"@) ==> template_spec(Some(t), stem) == t,
        !has_placeholder(t) ==> template_spec(Some(t), stem) == stem + "-$index"@,
        template_spec(None, stem) == stem + "-$index"@,
{
}

/// Resolves the effective template string (see [`template_spec`]).
pub fn resolve_name_template(name_template: Option<&str>, file_stem: &str) -> (r: String)
    ensures
        r@ == template_spec(
            match name_template {
                Some(t) => Some(t@),
                None => None,
            },
            file_stem@,
        ),
        name_template matches Some(t) ==> (has_placeholder(t@) ==> r@ == t@),
        name_template matches Some(t) ==> (!has_placeholder(t@) ==> r@ == file_stem@ + "-$index"@),
        name_template is None ==> r@ == file_stem@ + "-$index"@,
{
    proof {
        if let Some(t) = name_template {
            law_template_choice(t@, file_stem@);
        }
    }
    if let Some(tmpl) = name_template {
        if contains_str(tmpl, "$col") || contains_str(tmpl, "$row") || contains_str(tmpl, "$index") {
            return String::from_str(tmpl);
        }
    }
    String::from_str(file_stem).concat("-$index")
}

/// The template with `$col`, `$row`, then `$index` replaced by the decimal
/// numbers.
pub open spec fn substitute_spec(template: Seq<char>, col: u32, row: u32, index: u32) -> Seq<char> {
    replace_all(
        replace_all(replace_all(template, "$col"@, decimal_text(col as nat)), "$row"@, decimal_text(row as nat)),
        "$index"@,
        decimal_text(index as nat),
    )
}

/// Substitutes the `$col`, `$row`, `$index` placeholders in the template.
pub fn substitute(template: &str, col: u32, row: u32, index: u32) -> (r: String)
    ensures
        r@ == substitute_spec(template@, col, row, index),
{
    proof {
        reveal_strlit("$col");
        reveal_strlit("$row");
        reveal_strlit("$index");
    }
    let c = decimal_string(col);
    let a = replace_str(template, "$col", c.as_str());
    let r = decimal_string(row);
    let b = replace_str(a.as_str(), "$row", r.as_str());
    let i = decimal_string(index);
    replace_str(b.as_str(), "$index", i.as_str())
}

/// No character of `s` is `$`.
pub open spec fn dollar_free(s: Seq<char>) -> bool {
    forall|i: int| 0 <= i < s.len() ==> #[trigger] s[i] != '$'
}

proof fn lemma_replace_free(x: Seq<char>, y: Seq<char>, pat: Seq<char>, rep: Seq<char>)
    requires
        pat.len() > 0,
        pat[0] == '$',
        dollar_free(x),
    ensures
        replace_all(x + y, pat, rep) == x + replace_all(y, pat, rep),
    decreases x.len(),
{
    if x.len() == 0 {
        assert(x + y =~= y);
        assert(x + replace_all(y, pat, rep) =~= replace_all(y, pat, rep));
    } else {
        let s = x + y;
        assert(s[0] == x[0]);
        if occurs_at(s, pat, 0) {
            assert(s.subrange(0, pat.len() as int)[0] == s[0]);
        }
        let t = x.skip(1);
        assert(dollar_free(t)) by {
            assert forall|i: int| 0 <= i < t.len() implies #[trigger] t[i] != '$' by {
                assert(t[i] == x[i + 1]);
            }
        }
        assert(s.skip(1) =~= t + y);
        lemma_replace_free(t, y, pat, rep);
        assert(seq![x[0]] + (t + replace_all(y, pat, rep)) =~= x + replace_all(y, pat, rep));
    }
}

proof fn lemma_replace_front(y: Seq<char>, pat: Seq<char>, rep: Seq<char>)
    requires
        pat.len() > 0,
    ensures
        replace_all(pat + y, pat, rep) == rep + replace_all(y, pat, rep),
{
    let s = pat + y;
    assert(s.subrange(0, pat.len() as int) =~= pat);
    assert(occurs_at(s, pat, 0));
    assert(s.skip(pat.len() as int) =~= y);
}

proof fn lemma_replace_mismatch(q: Seq<char>, y: Seq<char>, pat: Seq<char>, rep: Seq<char>)
    requires
        q.len() > 1,
        pat.len() > 1,
        q[0] == '$',
        pat[0] == '$',
        q[1] != pat[1],
        dollar_free(q.skip(1)),
        dollar_free(y),
    ensures
        replace_all(q + y, pat, rep) == q + y,
{
    let s = q + y;
    if occurs_at(s, pat, 0) {
        assert(s.subrange(0, pat.len() as int)[1] == s[1]);
        assert(s[1] == q[1]);
    }
    assert(s.skip(1) =~= q.skip(1) + y);
    lemma_join3_free(q.skip(1), Seq::<char>::empty(), y);
    assert(q.skip(1) + Seq::<char>::empty() + y =~= q.skip(1) + y);
    lemma_replace_none(q.skip(1) + y, pat, rep);
    assert(seq![s[0]] + (q.skip(1) + y) =~= q + y);
}

proof fn lemma_replace_none(x: Seq<char>, pat: Seq<char>, rep: Seq<char>)
    requires
        pat.len() > 0,
        pat[0] == '$',
        dollar_free(x),
    ensures
        replace_all(x, pat, rep) == x,
{
    lemma_replace_free(x, Seq::<char>::empty(), pat, rep);
    assert(x + Seq::<char>::empty() =~= x);
    assert(replace_all(Seq::<char>::empty(), pat, rep) =~= Seq::<char>::empty());
}

proof fn lemma_decimal_dollar_free(n: nat)
    ensures
        dollar_free(decimal_text(n)),
{
    crate::text::lemma_decimal_text(n);
    let d = decimal_text(n);
    assert forall|i: int| 0 <= i < d.len() implies #[trigger] d[i] != '$' by {
        assert(crate::text::is_ascii_digit(d[i]));
    }
}

proof fn lemma_join3_free(a: Seq<char>, b: Seq<char>, c: Seq<char>)
    requires
        dollar_free(a),
        dollar_free(b),
        dollar_free(c),
    ensures
        dollar_free(a + b + c),
{
    let s = a + b + c;
    assert forall|i: int| 0 <= i < s.len() implies #[trigger] s[i] != '$' by {
        if i < a.len() {
            assert(s[i] == a[i]);
        } else if i < a.len() + b.len() {
            assert(s[i] == b[i - a.len()]);
        } else {
            assert(s[i] == c[i - a.len() - b.len()]);
        }
    }
}

/// Substitution puts each number in the place of its own placeholder and
/// leaves the rest of the template as it is: `$col` gives the column,
/// `$row` the row and `$index` the index, and text without `$` is kept.
pub proof fn law_substitute_places(x: Seq<char>, y: Seq<char>, col: u32, row: u32, index: u32)
    requires
        dollar_free(x),
        dollar_free(y),
    ensures
        substitute_spec(x + y, col, row, index) == x + y,
        substitute_spec(x + "$col"@ + y, col, row, index) == x + decimal_text(col as nat) + y,
        substitute_spec(x + "$row"@ + y, col, row, index) == x + decimal_text(row as nat) + y,
        substitute_spec(x + "$index"@ + y, col, row, index) == x + decimal_text(index as nat) + y,
{
    reveal_strlit("$col");
    reveal_strlit("$row");
    reveal_strlit("$index");
    let pc = "$col"@;
    let pr = "$row"@;
    let pi = "$index"@;
    let dc = decimal_text(col as nat);
    let dr = decimal_text(row as nat);
    let di = decimal_text(index as nat);
    lemma_decimal_dollar_free(col as nat);
    lemma_decimal_dollar_free(row as nat);
    lemma_decimal_dollar_free(index as nat);
    lemma_join3_free(x, Seq::<char>::empty(), y);
    assert(x + Seq::<char>::empty() + y =~= x + y);
    lemma_replace_none(x + y, pc, dc);
    lemma_replace_none(x + y, pr, dr);
    lemma_replace_none(x + y, pi, di);
    lemma_replace_none(y, pc, dc);
    lemma_replace_none(y, pr, dr);
    lemma_replace_none(y, pi, di);
    // `$col`
    assert(x + pc + y =~= x + (pc + y));
    lemma_replace_free(x, pc + y, pc, dc);
    lemma_replace_front(y, pc, dc);
    assert(x + (dc + y) =~= x + dc + y);
    lemma_join3_free(x, dc, y);
    lemma_replace_none(x + dc + y, pr, dr);
    lemma_replace_none(x + dc + y, pi, di);
    // `$row`
    assert(x + pr + y =~= x + (pr + y));
    lemma_replace_mismatch(pr, y, pc, dc);
    lemma_replace_free(x, pr + y, pc, dc);
    lemma_replace_free(x, pr + y, pr, dr);
    lemma_replace_front(y, pr, dr);
    assert(x + (dr + y) =~= x + dr + y);
    lemma_join3_free(x, dr, y);
    lemma_replace_none(x + dr + y, pi, di);
    // `$index`
    assert(x + pi + y =~= x + (pi + y));
    lemma_replace_mismatch(pi, y, pc, dc);
    lemma_replace_free(x, pi + y, pc, dc);
    lemma_replace_mismatch(pi, y, pr, dr);
    lemma_replace_free(x, pi + y, pr, dr);
    lemma_replace_free(x, pi + y, pi, di);
    lemma_replace_front(y, pi, di);
    assert(x + (di + y) =~= x + di + y);
    lemma_join3_free(x, di, y);
}

// ---------- file name validation ----------

/// Characters forbidden in file names on Windows and/or macOS.
pub open spec fn is_illegal_char(c: char) -> bool {
    c == '/' || c == '\\' || c == ':' || c == '*' || c == '?' || c == '"' || c == '<' || c == '>' || c == '|'
}

/// ASCII control characters (U+0000..=U+001F and U+007F).
pub open spec fn is_control_char(c: char) -> bool {
    (c as u32) < 0x20 || c as u32 == 0x7f
}

/// Index of the first illegal or control character of `s` (its length when
/// there is none).
pub open spec fn first_bad_char(s: Seq<char>) -> nat
    decreases s.len(),
{
    if s.len() == 0 || is_illegal_char(s[0]) || is_control_char(s[0]) {
        0
    } else {
        1 + first_bad_char(s.skip(1))
    }
}

/// Why a cut is refused.
#[derive(Debug)]
pub enum CutError {
    /// A zero column or row count.
    ZeroSegments,
    /// The image (width, height) is smaller than the segment grid (cols, rows).
    ImageTooSmall(u32, u32, u32, u32),
    /// The file name is empty after substitution.
    EmptyName,
    /// A character forbidden in file names (the character, the name).
    IllegalChar(char, String),
    /// An ASCII control character (the character, the name).
    ControlChar(char, String),
}

pub open spec fn name_outcome(r: Result<(), CutError>, name: Seq<char>) -> bool {
    if name.len() == 0 {
        r matches Err(CutError::EmptyName)
    } else {
        let i = first_bad_char(name);
        if i >= name.len() {
            r is Ok
        } else if is_illegal_char(name[i as int]) {
            r matches Err(CutError::IllegalChar(c, n)) && c == name[i as int] && n@ == name
        } else {
            r matches Err(CutError::ControlChar(c, n)) && c == name[i as int] && n@ == name
        }
    }
}

proof fn lemma_first_bad_char(s: Seq<char>, k: int)
    requires
        0 <= k <= s.len(),
        forall|i: int| 0 <= i < k ==> !is_illegal_char(#[trigger] s[i]) && !is_control_char(s[i]),
        k < s.len() ==> is_illegal_char(s[k]) || is_control_char(s[k]),
    ensures
        first_bad_char(s) == k,
    decreases k,
{
    if k > 0 {
        assert forall|i: int| 0 <= i < k - 1 implies !is_illegal_char(#[trigger] s.skip(1)[i]) && !is_control_char(s.skip(1)[i]) by {
            assert(s.skip(1)[i] == s[i + 1]);
        }
        lemma_first_bad_char(s.skip(1), k - 1);
    }
}

/// A character that a file name may not hold: one of `/ \ : * ? " < > |`
/// or an ASCII control character.
pub open spec fn reserved_in_names(c: char) -> bool {
    ||| c == '/' || c == '\\' || c == ':' || c == '*' || c == '?'
    ||| c == '"' || c == '<' || c == '>' || c == '|'
    ||| (c as u32) < 0x20 || c as u32 == 0x7f
}

proof fn lemma_first_bad_at_most(s: Seq<char>, i: int)
    requires
        0 <= i < s.len(),
        is_illegal_char(s[i]) || is_control_char(s[i]),
    ensures
        first_bad_char(s) <= i,
        first_bad_char(s) < s.len(),
        is_illegal_char(s[first_bad_char(s) as int]) || is_control_char(s[first_bad_char(s) as int]),
    decreases i,
{
    if i > 0 && !(is_illegal_char(s[0]) || is_control_char(s[0])) {
        assert(s.skip(1)[i - 1] == s[i]);
        lemma_first_bad_at_most(s.skip(1), i - 1);
        assert(s.skip(1)[first_bad_char(s.skip(1)) as int] == s[first_bad_char(s) as int]);
    }
}

proof fn lemma_no_bad(s: Seq<char>)
    requires
        forall|i: int| 0 <= i < s.len() ==> !reserved_in_names(#[trigger] s[i]),
    ensures
        first_bad_char(s) == s.len(),
    decreases s.len(),
{
    if s.len() > 0 {
        assert(!reserved_in_names(s[0]));
        assert forall|i: int| 0 <= i < s.skip(1).len() implies !reserved_in_names(#[trigger] s.skip(1)[i]) by {
            assert(s.skip(1)[i] == s[i + 1]);
        }
        lemma_no_bad(s.skip(1));
    }
}

/// A file name is refused exactly when it is empty or holds a reserved
/// character, and then the first reserved character is the one reported.
pub proof fn law_file_names(name: Seq<char>, r: Result<(), CutError>)
    requires
        name_outcome(r, name),
    ensures
        r is Ok <==> (name.len() > 0 && forall|i: int| 0 <= i < name.len() ==> !reserved_in_names(#[trigger] name[i])),
        r matches Err(CutError::IllegalChar(c, _)) ==> reserved_in_names(c)
            && exists|i: int| 0 <= i < name.len() && name[i] == c,
        r matches Err(CutError::ControlChar(c, _)) ==> reserved_in_names(c)
            && exists|i: int| 0 <= i < name.len() && name[i] == c,
{
    if name.len() > 0 {
        if forall|i: int| 0 <= i < name.len() ==> !reserved_in_names(#[trigger] name[i]) {
            lemma_no_bad(name);
        } else {
            let i = choose|i: int| 0 <= i < name.len() && reserved_in_names(#[trigger] name[i]);
            lemma_first_bad_at_most(name, i);
        }
        let k = first_bad_char(name) as int;
        if k < name.len() {
            lemma_first_bad_at_most(name, k);
            assert(name[k] == name[k]);
        }
    }
}

fn char_code(c: char) -> (r: u32)
    ensures
        r == c as u32,
{
    c as u32
}

/// Checks that `name` is not empty and holds no character forbidden in file
/// names and no ASCII control character; the first offending character is
/// reported.
pub fn validate_filename(name: &str) -> (r: Result<(), CutError>)
    ensures
        name_outcome(r, name@),
{
    let cs = chars_of(name);
    if cs.len() == 0 {
        return Err(CutError::EmptyName);
    }
    let mut i: usize = 0;
    while i < cs.len()
        invariant
            cs@ == name@,
            i <= cs.len(),
            forall|k: int| 0 <= k < i ==> !is_illegal_char(#[trigger] name@[k]) && !is_control_char(name@[k]),
        decreases cs.len() - i,
    {
        let ch = cs[i];
        let illegal = ch == '/' || ch == '\\' || ch == ':' || ch == '*' || ch == '?' || ch == '"' || ch == '<'
            || ch == '>' || ch == '|';
        let code = char_code(ch);
        if illegal {
            proof {
                lemma_first_bad_char(name@, i as int);
            }
            return Err(CutError::IllegalChar(ch, String::from_str(name)));
        }
        if code < 0x20 || code == 0x7f {
            proof {
                lemma_first_bad_char(name@, i as int);
            }
            return Err(CutError::ControlChar(ch, String::from_str(name)));
        }
        i = i + 1;
    }
    proof {
        lemma_first_bad_char(name@, cs.len() as int);
    }
    Ok(())
}


// ---------- cutting ----------

/// One cut segment and the file name it is saved under.
pub struct Segment {
    pub name: String,
    pub col: u32,
    pub row: u32,
    pub index: u32,
    pub x: u32,
    pub y: u32,
    pub image: Canvas,
}

pub open spec fn name_ok(name: Seq<char>) -> bool {
    name.len() > 0 && first_bad_char(name) >= name.len()
}

/// Which refusal, if any, a cut meets, in the order they are checked: the
/// grid, the image size, then the name that the template gives for the
/// first segment.
pub open spec fn cut_refusal(img_w: u32, img_h: u32, cols: u32, rows: u32, template: Seq<char>, index_start: u32) -> Option<CutFault> {
    if cols == 0 || rows == 0 {
        Some(CutFault::Grid)
    } else if img_w < cols || img_h < rows {
        Some(CutFault::Size)
    } else if !name_ok(substitute_spec(template, 0, 0, index_start)) {
        Some(CutFault::Name)
    } else {
        None
    }
}

/// The three checks a cut must pass.
pub enum CutFault {
    Grid,
    Size,
    Name,
}

/// Start and extent of segment `i` of `n` along an axis of `total` pixels:
/// equal parts of `total / n`, the last one taking the remainder.
pub open spec fn segment_span(total: u32, n: u32, i: int) -> (int, int) {
    let part = total / n;
    let start = i * part;
    (start, if i == n - 1 { total - start } else { part as int })
}

/// Segment `k` (row-major) of the cut: its grid cell, index, name and pixels.
pub open spec fn segment_matches(s: Segment, img: &Canvas, cols: u32, rows: u32, template: Seq<char>, index_start: u32, k: int) -> bool {
    let col = k % cols as int;
    let row = k / cols as int;
    let (x, w) = segment_span(img.w(), cols, col);
    let (y, h) = segment_span(img.h(), rows, row);
    &&& s.col == col
    &&& s.row == row
    &&& s.index == index_start + k
    &&& s.x == x
    &&& s.y == y
    &&& s.name@ == substitute_spec(template, col as u32, row as u32, (index_start + k) as u32) + ".png"@
    &&& s.image.w() == w
    &&& s.image.h() == h
    &&& forall|px: int, py: int| 0 <= px < w && 0 <= py < h ==> #[trigger] s.image.pixel(px, py) == img.pixel(x + px, y + py)
}

proof fn lemma_span(total: u32, n: u32, i: int)
    requires
        n > 0,
        0 <= i < n,
    ensures
        ({
            let (start, ext) = segment_span(total, n, i);
            0 <= start && 0 <= ext && start + ext <= total
        }),
{
    let part = total / n;
    assert(0 <= i * part) by (nonlinear_arith)
        requires
            i >= 0,
            part >= 0,
    ;
    assert(i * part + part <= n * part) by (nonlinear_arith)
        requires
            i + 1 <= n,
            part >= 0,
    ;
    assert(n * part <= total) by (nonlinear_arith)
        requires
            part == total / n,
            n > 0,
    ;
}

/// Cuts `img` into `segments.0` columns x `segments.1` rows, row by row;
/// segment `k` gets index `index_start + k` and the file name that
/// `name_template` (or `{file_stem}-$index`) gives with its column, row and
/// index, plus `.png`. Equal parts of `width / cols` by `height / rows`;
/// the last column and row absorb the remainder.
pub fn cut_image(img: &Canvas, segments: (u32, u32), name_template: Option<&str>, file_stem: &str, index_start: u32) -> (r: Result<Vec<Segment>, CutError>)
    requires
        cut_refusal(img.w(), img.h(), segments.0, segments.1,
            template_spec(match name_template { Some(t) => Some(t@), None => None }, file_stem@), index_start) is None
            ==> index_start + segments.0 * segments.1 <= u32::MAX,
    ensures
        ({
            let (cols, rows) = segments;
            let template = template_spec(match name_template { Some(t) => Some(t@), None => None }, file_stem@);
            let trial = substitute_spec(template, 0, 0, index_start);
            match cut_refusal(img.w(), img.h(), cols, rows, template, index_start) {
                Some(CutFault::Grid) => r matches Err(CutError::ZeroSegments),
                Some(CutFault::Size) => r matches Err(CutError::ImageTooSmall(a, b, c, d))
                    && a == img.w() && b == img.h() && c == cols && d == rows,
                Some(CutFault::Name) => r matches Err(e) && name_outcome(Err::<(), CutError>(e), trial),
                None => r matches Ok(segs) && segs@.len() == cols * rows
                    && forall|k: int| 0 <= k < segs@.len() ==> segment_matches(
                        #[trigger] segs@[k], img, cols, rows, template, index_start, k),
            }
        }),
{
    let (img_w, img_h) = img.dimensions();
    let (cols, rows) = segments;
    if cols == 0 || rows == 0 {
        return Err(CutError::ZeroSegments);
    }
    if img_w < cols || img_h < rows {
        return Err(CutError::ImageTooSmall(img_w, img_h, cols, rows));
    }
    let template = resolve_name_template(name_template, file_stem);
    let ghost tspec = template@;
    let trial = substitute(template.as_str(), 0, 0, index_start);
    let check = validate_filename(trial.as_str());
    if check.is_err() {
        return Err(check.unwrap_err());
    }
    assert(name_ok(trial@));
    let seg_w = img_w / cols;
    let seg_h = img_h / rows;
    let mut out: Vec<Segment> = Vec::new();
    let mut index = index_start;
    let mut row: u32 = 0;
    while row < rows
        invariant
            cols > 0,
            rows > 0,
            img_w == img.w(),
            img_h == img.h(),
            seg_w == img_w / cols,
            seg_h == img_h / rows,
            template@ == tspec,
            index_start + cols * rows <= u32::MAX,
            row <= rows,
            out@.len() == row * cols,
            index == index_start + row * cols,
            forall|k: int| 0 <= k < out@.len() ==> segment_matches(#[trigger] out@[k], img, cols, rows, tspec, index_start, k),
        decreases rows - row,
    {
        let mut col: u32 = 0;
        while col < cols
            invariant
                cols > 0,
                rows > 0,
                img_w == img.w(),
                img_h == img.h(),
                seg_w == img_w / cols,
                seg_h == img_h / rows,
                template@ == tspec,
                index_start + cols * rows <= u32::MAX,
                row < rows,
                col <= cols,
                out@.len() == row * cols + col,
                index == index_start + row * cols + col,
                forall|k: int| 0 <= k < out@.len() ==> segment_matches(#[trigger] out@[k], img, cols, rows, tspec, index_start, k),
            decreases cols - col,
        {
            proof {
                lemma_span(img_w, cols, col as int);
                lemma_span(img_h, rows, row as int);
                assert(row * cols + col < cols * rows) by (nonlinear_arith)
                    requires
                        row < rows,
                        col < cols,
                ;
                assert(col * seg_w <= img_w);
                assert(row * seg_h <= img_h);
            }
            let x = col * seg_w;
            let y = row * seg_h;
            let w = if col == cols - 1 { img_w - x } else { seg_w };
            let h = if row == rows - 1 { img_h - y } else { seg_h };
            let sub = img.crop(x, y, w, h);
            let name = substitute(template.as_str(), col, row, index).concat(".png");
            let ghost k = out@.len() as int;
            proof {
                lemma_fundamental_div_mod_converse(k, cols as int, row as int, col as int);
            }
            out.push(Segment { name, col, row, index, x, y, image: sub });
            proof {
                assert(segment_matches(out@[k], img, cols, rows, tspec, index_start, k));
            }
            index = index + 1;
            col = col + 1;
        }
        proof {
            assert((row + 1) * cols == row * cols + cols) by (nonlinear_arith);
        }
        row = row + 1;
    }
    assert(rows * cols == cols * rows) by (nonlinear_arith);
    Ok(out)
}


// ---------- laws ----------

/// The segment of `n` along an axis of `total` pixels that holds pixel `p`.
pub open spec fn segment_of(total: u32, n: u32, p: int) -> int {
    let part = total as int / n as int;
    if p / part < n { p / part } else { n - 1 }
}

/// The segments tile each axis: every pixel lies in exactly one segment.
pub proof fn law_segments_tile(total: u32, n: u32, p: int, i: int)
    requires
        0 < n <= total,
        0 <= p < total,
        0 <= i < n,
    ensures
        ({
            let (start, ext) = segment_span(total, n, i);
            start <= p < start + ext <==> i == segment_of(total, n, p)
        }),
{
    let part = total as int / n as int;
    assert(part >= 1) by (nonlinear_arith)
        requires
            part == total as int / n as int,
            0 < n <= total,
    ;
    vstd::arithmetic::div_mod::lemma_fundamental_div_mod(p, part);
    vstd::arithmetic::div_mod::lemma_fundamental_div_mod(total as int, n as int);
    let q = p / part;
    let (start, ext) = segment_span(total, n, i);
    assert(q * part <= p < q * part + part) by (nonlinear_arith)
        requires
            p == part * q + p % part,
            0 <= p % part < part,
    ;
    assert(n * part <= total) by (nonlinear_arith)
        requires
            part == total as int / n as int,
            n > 0,
    ;
    if i < q {
        assert(i * part + part <= q * part) by (nonlinear_arith)
            requires
                i < q,
                part >= 0,
        ;
    }
    if i > q {
        assert(q * part + part <= i * part) by (nonlinear_arith)
            requires
                q < i,
                part >= 0,
        ;
    }
    if q >= n {
        assert(n * part <= q * part) by (nonlinear_arith)
            requires
                n <= q,
                part >= 0,
        ;
        if i < n - 1 {
            assert(i * part + part <= (n - 1) * part + part) by (nonlinear_arith)
                requires
                    i < n - 1,
                    part >= 0,
            ;
            assert((n - 1) * part + part == n * part) by (nonlinear_arith);
        }
    }
    if q < n && i == n - 1 && q != i {
        assert(q * part + part <= i * part) by (nonlinear_arith)
            requires
                q < i,
                part >= 0,
        ;
    }
}

/// Every segment but the last along an axis is `total / n` pixels, the
/// segments follow one another from the start, and the last one takes the
/// remainder up to the far edge: no segment is empty and none is smaller
/// than the others.
pub proof fn law_segment_sizes(total: u32, n: u32, i: int)
    requires
        0 < n <= total,
        0 <= i < n,
    ensures
        ({
            let (start, ext) = segment_span(total, n, i);
            let part = total as int / n as int;
            &&& part >= 1
            &&& start == i * part
            &&& i < n - 1 ==> ext == part && segment_span(total, n, i + 1).0 == start + ext
            &&& i == n - 1 ==> start + ext == total && ext >= part
        }),
{
    let part = total as int / n as int;
    assert(part >= 1) by (nonlinear_arith)
        requires
            part == total as int / n as int,
            0 < n <= total,
    ;
    assert(n * part <= total) by (nonlinear_arith)
        requires
            part == total as int / n as int,
            n > 0,
    ;
    assert((i + 1) * part == i * part + part) by (nonlinear_arith);
    if i == n - 1 {
        assert(i * part + part == n * part) by (nonlinear_arith)
            requires
                i == n - 1,
        ;
    }
}

/// The template in effect always holds at least one of the placeholders
/// `$col`, `$row`, `$index`.
pub proof fn law_template_has_placeholder(name_template: Option<Seq<char>>, file_stem: Seq<char>)
    ensures
        ({
            let t = template_spec(name_template, file_stem);
            contains_seq(t, "$col"@) || contains_seq(t, "$row"@) || contains_seq(t, "$index"@)
        }),
{
    let f = file_stem + "-$index"@;
    reveal_strlit("-$index");
    reveal_strlit("$index");
    let i = file_stem.len() as int + 1;
    assert(f.subrange(i, i + 6) =~= "$index"@);
    assert(crate::text::occurs_at(f, "$index"@, i));
}

} // verus!

//! Natural-order comparison of file names: digit runs compare by value, so
//! "2" sorts before "10".

use vstd::prelude::*;

use crate::permutation::{is_permutation, lemma_sorted_permutation_unique};
use crate::text::{
    all_digits, chars_of, decimal_value, digit_value, is_ascii_digit, lemma_decimal_value_bound,
    lemma_decimal_value_front, lemma_pow10_mono, pow10,
};

verus! {

// ---------- chunks ----------

/// A piece of a name: a run of ASCII digits (compared by the number it
/// stands for), or a run of other characters.
pub ghost enum SpecChunk {
    Num(Seq<char>),
    Str(Seq<char>),
}

/// A run of ASCII digits, or a run of other characters.
pub enum Chunk {
    Num(Vec<char>),
    Str(Vec<char>),
}

impl View for Chunk {
    type V = SpecChunk;

    open spec fn view(&self) -> SpecChunk {
        match self {
            Chunk::Num(d) => SpecChunk::Num(d@),
            Chunk::Str(s) => SpecChunk::Str(s@),
        }
    }
}

/// Index of the first ASCII digit of `s`, or its length when there is none.
pub open spec fn first_digit(s: Seq<char>) -> nat
    decreases s.len(),
{
    if s.len() == 0 || is_ascii_digit(s[0]) {
        0
    } else {
        1 + first_digit(s.skip(1))
    }
}

/// Length of the run of ASCII digits at the start of `s`.
pub open spec fn digit_run(s: Seq<char>) -> nat
    decreases s.len(),
{
    if s.len() == 0 || !is_ascii_digit(s[0]) {
        0
    } else {
        1 + digit_run(s.skip(1))
    }
}

pub proof fn lemma_digit_run_bound(s: Seq<char>)
    ensures
        digit_run(s) <= s.len(),
        all_digits(s.take(digit_run(s) as int)),
        digit_run(s) < s.len() ==> !is_ascii_digit(s[digit_run(s) as int]),
    decreases s.len(),
{
    if s.len() > 0 && is_ascii_digit(s[0]) {
        lemma_digit_run_bound(s.skip(1));
        let e = digit_run(s.skip(1)) as int;
        assert forall|i: int| 0 <= i < e + 1 implies is_ascii_digit(#[trigger] s.take(e + 1)[i]) by {
            if i > 0 {
                assert(s.take(e + 1)[i] == s.skip(1).take(e as int)[i - 1]);
            }
        }
    }
}

pub proof fn lemma_first_digit_bound(s: Seq<char>)
    ensures
        first_digit(s) <= s.len(),
        forall|i: int| 0 <= i < first_digit(s) ==> !is_ascii_digit(#[trigger] s[i]),
        first_digit(s) < s.len() ==> is_ascii_digit(s[first_digit(s) as int]),
    decreases s.len(),
{
    if s.len() > 0 && !is_ascii_digit(s[0]) {
        lemma_first_digit_bound(s.skip(1));
        assert forall|i: int| 0 <= i < first_digit(s) implies !is_ascii_digit(#[trigger] s[i]) by {
            if i > 0 {
                assert(s[i] == s.skip(1)[i - 1]);
            }
        }
    }
}

/// `s` cut into alternating runs of non-digits and digits.
pub open spec fn chunks(s: Seq<char>) -> Seq<SpecChunk>
    decreases s.len(), 1nat,
{
    if s.len() == 0 {
        seq![]
    } else {
        let p = first_digit(s);
        if p >= s.len() {
            seq![SpecChunk::Str(s)]
        } else if p > 0 {
            seq![SpecChunk::Str(s.take(p as int))] + digit_chunks(s.skip(p as int))
        } else {
            digit_chunks(s)
        }
    }
}

/// The chunks of `s` when it starts with a digit: its digit run, then the
/// chunks of the rest.
pub open spec fn digit_chunks(s: Seq<char>) -> Seq<SpecChunk>
    decreases s.len(), 0nat,
{
    let e = digit_run(s);
    if s.len() == 0 || e == 0 {
        seq![]
    } else {
        proof {
            lemma_digit_run_bound(s);
        }
        seq![SpecChunk::Num(s.take(e as int))] + chunks(s.skip(e as int))
    }
}

// ---------- the order ----------

/// Three-way comparison of integers as -1, 0, 1.
pub open spec fn three_way(a: int, b: int) -> int {
    if a < b {
        -1
    } else if a > b {
        1
    } else {
        0
    }
}

/// Lexicographic comparison by code point (how `str` orders: UTF-8 byte
/// order and code point order agree).
pub open spec fn text_order(a: Seq<char>, b: Seq<char>) -> int
    decreases a.len(),
{
    if a.len() == 0 || b.len() == 0 {
        three_way(a.len() as int, b.len() as int)
    } else if a[0] != b[0] {
        three_way(a[0] as int, b[0] as int)
    } else {
        text_order(a.skip(1), b.skip(1))
    }
}

/// Digit runs compare by the numbers they stand for and come before text;
/// text compares as text.
pub open spec fn chunk_order(a: SpecChunk, b: SpecChunk) -> int {
    match (a, b) {
        (SpecChunk::Num(x), SpecChunk::Num(y)) => three_way(decimal_value(x) as int, decimal_value(y) as int),
        (SpecChunk::Num(_), SpecChunk::Str(_)) => -1,
        (SpecChunk::Str(_), SpecChunk::Num(_)) => 1,
        (SpecChunk::Str(x), SpecChunk::Str(y)) => text_order(x, y),
    }
}

/// The first differing pair of chunks decides; when one list runs out,
/// the shorter list comes first.
pub open spec fn chunks_order(a: Seq<SpecChunk>, b: Seq<SpecChunk>) -> int
    decreases a.len(),
{
    if a.len() == 0 || b.len() == 0 {
        three_way(a.len() as int, b.len() as int)
    } else if chunk_order(a[0], b[0]) != 0 {
        chunk_order(a[0], b[0])
    } else {
        chunks_order(a.skip(1), b.skip(1))
    }
}

/// Natural order of two names, as -1 (before), 0 (tie), 1 (after).
pub open spec fn natural_order(a: Seq<char>, b: Seq<char>) -> int {
    chunks_order(chunks(a), chunks(b))
}


// ---------- splitting into chunks ----------

proof fn lemma_first_digit_exact(s: Seq<char>, k: int)
    requires
        0 <= k <= s.len(),
        forall|i: int| 0 <= i < k ==> !is_ascii_digit(#[trigger] s[i]),
        k < s.len() ==> is_ascii_digit(s[k]),
    ensures
        first_digit(s) == k,
    decreases k,
{
    if k > 0 {
        assert forall|i: int| 0 <= i < k - 1 implies !is_ascii_digit(#[trigger] s.skip(1)[i]) by {
            assert(s.skip(1)[i] == s[i + 1]);
        }
        lemma_first_digit_exact(s.skip(1), k - 1);
    }
}

proof fn lemma_digit_run_exact(s: Seq<char>, k: int)
    requires
        0 <= k <= s.len(),
        forall|i: int| 0 <= i < k ==> is_ascii_digit(#[trigger] s[i]),
        k < s.len() ==> !is_ascii_digit(s[k]),
    ensures
        digit_run(s) == k,
    decreases k,
{
    if k > 0 {
        assert forall|i: int| 0 <= i < k - 1 implies is_ascii_digit(#[trigger] s.skip(1)[i]) by {
            assert(s.skip(1)[i] == s[i + 1]);
        }
        lemma_digit_run_exact(s.skip(1), k - 1);
    }
}

/// Copies `s[i..j]`.
fn sub_chars(s: &Vec<char>, i: usize, j: usize) -> (r: Vec<char>)
    requires
        i <= j <= s.len(),
    ensures
        r@ == s@.subrange(i as int, j as int),
{
    let mut r: Vec<char> = Vec::new();
    let mut k = i;
    while k < j
        invariant
            i <= k <= j <= s.len(),
            r@ == s@.subrange(i as int, k as int),
        decreases j - k,
    {
        r.push(s[k]);
        assert(s@.subrange(i as int, k + 1) =~= s@.subrange(i as int, k as int).push(s@[k as int]));
        k = k + 1;
    }
    r
}

/// Splits `s` into numeric and non-numeric chunks.
pub fn split_chunks(s: &Vec<char>) -> (r: Vec<Chunk>)
    ensures
        r@.map_values(|c: Chunk| c@) == chunks(s@),
{
    let n = s.len();
    let mut out: Vec<Chunk> = Vec::new();
    let mut i: usize = 0;
    assert(s@.skip(0) =~= s@);
    while i < n
        invariant
            n == s.len(),
            i <= n,
            out@.map_values(|c: Chunk| c@) + chunks(s@.skip(i as int)) == chunks(s@),
        decreases n - i,
    {
        let ghost rest = s@.skip(i as int);
        let ghost before = out@.map_values(|c: Chunk| c@);
        // first digit at or after i
        let mut p = i;
        while p < n && !('0' <= s[p] && s[p] <= '9')
            invariant
                i <= p <= n,
                n == s.len(),
                forall|k: int| i <= k < p ==> !is_ascii_digit(#[trigger] s@[k]),
            decreases n - p,
        {
            p = p + 1;
        }
        proof {
            assert forall|k: int| 0 <= k < p - i implies !is_ascii_digit(#[trigger] rest[k]) by {
                assert(rest[k] == s@[i + k]);
            }
            lemma_first_digit_exact(rest, p - i);
        }
        if p == n {
            out.push(Chunk::Str(sub_chars(s, i, n)));
            assert(s@.subrange(i as int, n as int) =~= rest);
            assert(out@.map_values(|c: Chunk| c@) =~= before.push(SpecChunk::Str(rest)));
            assert(s@.skip(n as int) =~= Seq::<char>::empty());
            i = n;
        } else {
            let ghost rest2 = s@.skip(p as int);
            assert(rest.skip(p - i) =~= rest2);
            if p > i {
                out.push(Chunk::Str(sub_chars(s, i, p)));
                assert(s@.subrange(i as int, p as int) =~= rest.take(p - i));
            }
            let ghost mid = out@.map_values(|c: Chunk| c@);
            assert(mid + digit_chunks(rest2) =~= before + chunks(rest)) by {
                if p > i {
                    assert(mid =~= before.push(SpecChunk::Str(rest.take(p - i))));
                }
            }
            let mut e = p;
            while e < n && '0' <= s[e] && s[e] <= '9'
                invariant
                    p <= e <= n,
                    n == s.len(),
                    forall|k: int| p <= k < e ==> is_ascii_digit(#[trigger] s@[k]),
                decreases n - e,
            {
                e = e + 1;
            }
            proof {
                assert forall|k: int| 0 <= k < e - p implies is_ascii_digit(#[trigger] rest2[k]) by {
                    assert(rest2[k] == s@[p + k]);
                }
                lemma_digit_run_exact(rest2, e - p);
                assert(s@.subrange(p as int, e as int) =~= rest2.take(e - p));
                assert(all_digits(s@.subrange(p as int, e as int))) by {
                    assert forall|k: int| 0 <= k < e - p implies is_ascii_digit(#[trigger] s@.subrange(p as int, e as int)[k]) by {
                        assert(s@.subrange(p as int, e as int)[k] == s@[p + k]);
                    }
                }
                assert(rest2.skip(e - p) =~= s@.skip(e as int));
                assert(rest2[0] == s@[p as int]);
            }
            let run = sub_chars(s, p, e);
            out.push(Chunk::Num(run));
            assert(out@.map_values(|c: Chunk| c@) =~= mid.push(SpecChunk::Num(rest2.take(e - p))));
            assert(digit_chunks(rest2) == seq![SpecChunk::Num(rest2.take(e - p))] + chunks(s@.skip(e as int)));
            assert(out@.map_values(|c: Chunk| c@) + chunks(s@.skip(e as int)) =~= mid + digit_chunks(rest2));
            i = e;
        }
    }
    assert(s@.skip(n as int) =~= Seq::<char>::empty());
    assert(out@.map_values(|c: Chunk| c@) + Seq::<SpecChunk>::empty() =~= out@.map_values(|c: Chunk| c@));
    out
}

// ---------- comparing ----------

fn text_order_code(a: &Vec<char>, b: &Vec<char>) -> (r: i8)
    ensures
        r as int == text_order(a@, b@),
{
    let mut k: usize = 0;
    assert(a@.skip(0) =~= a@);
    assert(b@.skip(0) =~= b@);
    while k < a.len() && k < b.len()
        invariant
            k <= a.len(),
            k <= b.len(),
            text_order(a@.skip(k as int), b@.skip(k as int)) == text_order(a@, b@),
        decreases a.len() - k,
    {
        assert(a@.skip(k as int)[0] == a@[k as int]);
        assert(b@.skip(k as int)[0] == b@[k as int]);
        if a[k] != b[k] {
            return if a[k] < b[k] { -1 } else { 1 };
        }
        assert(a@.skip(k as int).skip(1) =~= a@.skip(k + 1));
        assert(b@.skip(k as int).skip(1) =~= b@.skip(k + 1));
        k = k + 1;
    }
    if a.len() - k < b.len() - k {
        -1
    } else if a.len() - k > b.len() - k {
        1
    } else {
        0
    }
}

/// Dropping leading zeros keeps the value of a digit run.
proof fn lemma_strip_zeros(x: Seq<char>, i: int)
    requires
        all_digits(x),
        0 <= i <= x.len(),
        forall|k: int| 0 <= k < i ==> #[trigger] x[k] == '0',
    ensures
        decimal_value(x) == decimal_value(x.skip(i)),
    decreases i,
{
    if i > 0 {
        lemma_decimal_value_front(x);
        let t = x.skip(1);
        assert(all_digits(t)) by {
            assert forall|k: int| 0 <= k < t.len() implies is_ascii_digit(#[trigger] t[k]) by {
                assert(t[k] == x[k + 1]);
            }
        }
        assert forall|k: int| 0 <= k < i - 1 implies #[trigger] t[k] == '0' by {
            assert(t[k] == x[k + 1]);
        }
        lemma_strip_zeros(t, i - 1);
        assert(t.skip(i - 1) =~= x.skip(i));
        assert(x[0] == '0');
        assert(digit_value(x[0]) == 0);
        let pw = pow10((x.len() - 1) as nat);
        let dz = digit_value(x[0]);
        assert(dz * pw == 0) by (nonlinear_arith)
            requires
                dz == 0,
        ;
        assert(decimal_value(x) == decimal_value(t));
    } else {
        assert(x.skip(0) =~= x);
    }
}

proof fn lemma_skip_digits(x: Seq<char>, i: int)
    requires
        all_digits(x),
        0 <= i <= x.len(),
    ensures
        all_digits(x.skip(i)),
{
    assert forall|k: int| 0 <= k < x.skip(i).len() implies is_ascii_digit(#[trigger] x.skip(i)[k]) by {
        assert(x.skip(i)[k] == x[k + i]);
    }
}

/// Digit runs of one length compare as text exactly as their values do.
proof fn lemma_digits_same_len(a: Seq<char>, b: Seq<char>)
    requires
        all_digits(a),
        all_digits(b),
        a.len() == b.len(),
    ensures
        text_order(a, b) == three_way(decimal_value(a) as int, decimal_value(b) as int),
    decreases a.len(),
{
    if a.len() == 0 {
        assert(a =~= Seq::<char>::empty());
        assert(b =~= Seq::<char>::empty());
    } else {
        lemma_decimal_value_front(a);
        lemma_decimal_value_front(b);
        lemma_skip_digits(a, 1);
        lemma_skip_digits(b, 1);
        lemma_decimal_value_bound(a.skip(1));
        lemma_decimal_value_bound(b.skip(1));
        let p = pow10((a.len() - 1) as nat);
        let da = digit_value(a[0]) as int;
        let db = digit_value(b[0]) as int;
        let ra = decimal_value(a.skip(1)) as int;
        let rb = decimal_value(b.skip(1)) as int;
        assert(is_ascii_digit(a[0]) && is_ascii_digit(b[0]));
        if a[0] != b[0] {
            if da < db {
                assert(da * p + ra < db * p + rb) by (nonlinear_arith)
                    requires
                        da + 1 <= db,
                        0 <= ra < p,
                        0 <= rb,
                        0 <= da,
                ;
            } else {
                assert(db * p + rb < da * p + ra) by (nonlinear_arith)
                    requires
                        db + 1 <= da,
                        0 <= rb < p,
                        0 <= ra,
                        0 <= db,
                ;
            }
        } else {
            lemma_digits_same_len(a.skip(1), b.skip(1));
        }
    }
}

/// A digit run without leading zero is worth at least `10^(n - 1)`.
proof fn lemma_leading_digit(s: Seq<char>)
    requires
        all_digits(s),
        s.len() > 0,
        s[0] != '0',
    ensures
        decimal_value(s) >= pow10((s.len() - 1) as nat),
{
    lemma_decimal_value_front(s);
    assert(is_ascii_digit(s[0]));
    let d = digit_value(s[0]) as int;
    let p = pow10((s.len() - 1) as nat) as int;
    assert(d * p >= p) by (nonlinear_arith)
        requires
            d >= 1,
            p >= 0,
    ;
}

/// Compares two digit runs by the numbers they stand for, whatever their
/// length: leading zeros dropped, the longer run is larger, runs of one
/// length compare digit by digit.
fn digits_order_code(x: &Vec<char>, y: &Vec<char>) -> (r: i8)
    requires
        all_digits(x@),
        all_digits(y@),
    ensures
        r as int == three_way(decimal_value(x@) as int, decimal_value(y@) as int),
{
    let mut i: usize = 0;
    while i < x.len() && x[i] == '0'
        invariant
            i <= x.len(),
            forall|k: int| 0 <= k < i ==> #[trigger] x@[k] == '0',
        decreases x.len() - i,
    {
        i = i + 1;
    }
    let mut j: usize = 0;
    while j < y.len() && y[j] == '0'
        invariant
            j <= y.len(),
            forall|k: int| 0 <= k < j ==> #[trigger] y@[k] == '0',
        decreases y.len() - j,
    {
        j = j + 1;
    }
    let ghost xs = x@.skip(i as int);
    let ghost ys = y@.skip(j as int);
    proof {
        lemma_strip_zeros(x@, i as int);
        lemma_strip_zeros(y@, j as int);
        lemma_skip_digits(x@, i as int);
        lemma_skip_digits(y@, j as int);
        lemma_decimal_value_bound(xs);
        lemma_decimal_value_bound(ys);
    }
    let lx = x.len() - i;
    let ly = y.len() - j;
    if lx < ly {
        proof {
            assert(ys[0] == y@[j as int]);
            lemma_leading_digit(ys);
            lemma_pow10_mono(xs.len(), (ys.len() - 1) as nat);
        }
        -1
    } else if lx > ly {
        proof {
            assert(xs[0] == x@[i as int]);
            lemma_leading_digit(xs);
            lemma_pow10_mono(ys.len(), (xs.len() - 1) as nat);
        }
        1
    } else {
        let a = sub_chars(x, i, x.len());
        let b = sub_chars(y, j, y.len());
        assert(a@ =~= xs);
        assert(b@ =~= ys);
        proof {
            lemma_digits_same_len(xs, ys);
        }
        text_order_code(&a, &b)
    }
}

fn chunk_order_code(a: &Chunk, b: &Chunk) -> (r: i8)
    requires
        a@ matches SpecChunk::Num(d) ==> all_digits(d),
        b@ matches SpecChunk::Num(d) ==> all_digits(d),
    ensures
        r as int == chunk_order(a@, b@),
{
    match (a, b) {
        (Chunk::Num(x), Chunk::Num(y)) => digits_order_code(x, y),
        (Chunk::Num(_), Chunk::Str(_)) => -1,
        (Chunk::Str(_), Chunk::Num(_)) => 1,
        (Chunk::Str(x), Chunk::Str(y)) => text_order_code(x, y),
    }
}

/// Natural-order comparison as -1, 0 or 1: both names are split into
/// numeric and non-numeric chunks, compared pairwise (numbers by value,
/// before text; text by code point); the first difference decides, and
/// otherwise the name with fewer chunks comes first.
pub fn compare_code(a: &str, b: &str) -> (r: i8)
    ensures
        r as int == natural_order(a@, b@),
{
    let ca = split_chunks(&chars_of(a));
    let cb = split_chunks(&chars_of(b));
    let ghost va = ca@.map_values(|c: Chunk| c@);
    let ghost vb = cb@.map_values(|c: Chunk| c@);
    proof {
        law_chunks_are_runs(a@);
        law_chunks_are_runs(b@);
    }
    let mut k: usize = 0;
    assert(va.skip(0) =~= va);
    assert(vb.skip(0) =~= vb);
    while k < ca.len() && k < cb.len()
        invariant
            va == ca@.map_values(|c: Chunk| c@),
            vb == cb@.map_values(|c: Chunk| c@),
            va == chunks(a@),
            vb == chunks(b@),
            k <= ca.len(),
            k <= cb.len(),
            chunks_order(va.skip(k as int), vb.skip(k as int)) == natural_order(a@, b@),
            well_split(va),
            well_split(vb),
        decreases ca.len() - k,
    {
        assert(va.skip(k as int)[0] == ca@[k as int]@);
        assert(vb.skip(k as int)[0] == cb@[k as int]@);
        assert(va[k as int] == ca@[k as int]@);
        assert(vb[k as int] == cb@[k as int]@);
        let o = chunk_order_code(&ca[k], &cb[k]);
        if o != 0 {
            return o;
        }
        assert(va.skip(k as int).skip(1) =~= va.skip(k + 1));
        assert(vb.skip(k as int).skip(1) =~= vb.skip(k + 1));
        k = k + 1;
    }
    if ca.len() - k < cb.len() - k {
        -1
    } else if ca.len() - k > cb.len() - k {
        1
    } else {
        0
    }
}

/// The number `-1`, `0`, `1` that an `Ordering` stands for.
pub open spec fn ordering_code(o: std::cmp::Ordering) -> int {
    match o {
        std::cmp::Ordering::Less => -1,
        std::cmp::Ordering::Equal => 0,
        std::cmp::Ordering::Greater => 1,
    }
}

/// Natural-order comparison: digit runs compare by value, so "2" < "10".
pub fn compare(a: &str, b: &str) -> (r: std::cmp::Ordering)
    ensures
        ordering_code(r) == natural_order(a@, b@),
{
    let c = compare_code(a, b);
    proof {
        law_natural_order_antisymmetric(a@, b@);
    }
    if c < 0 {
        std::cmp::Ordering::Less
    } else if c == 0 {
        std::cmp::Ordering::Equal
    } else {
        std::cmp::Ordering::Greater
    }
}

// ---------- sorting ----------

/// `r` orders `names` by natural order; tied names keep their input order
/// (what a stable sort gives).
pub open spec fn naturally_sorted(names: Seq<Seq<char>>, r: Seq<usize>) -> bool {
    forall|i: int, j: int|
        #![trigger r[i], r[j]]
        0 <= i < j < r.len() ==> {
            let o = natural_order(names[r[i] as int], names[r[j] as int]);
            o < 0 || (o == 0 && r[i] < r[j])
        }
}

/// The order in which a stable sort by natural order of the names puts
/// them: `r[k]` is the index in `names` of the `k`-th name.
pub fn natural_sort_order(names: &Vec<String>) -> (r: Vec<usize>)
    ensures
        is_permutation(r@, names@.len()),
        naturally_sorted(names@.map_values(|s: String| s@), r@),
{
    let ghost ns = names@.map_values(|s: String| s@);
    let mut out: Vec<usize> = Vec::new();
    let mut k: usize = 0;
    while k < names.len()
        invariant
            ns == names@.map_values(|s: String| s@),
            k <= names.len(),
            is_permutation(out@, k as nat),
            naturally_sorted(ns, out@),
        decreases names.len() - k,
    {
        let mut j = out.len();
        while j > 0 && compare_code(names[out[j - 1]].as_str(), names[k].as_str()) > 0
            invariant
                ns == names@.map_values(|s: String| s@),
                k < names.len(),
                j <= out.len(),
                out.len() == k,
                is_permutation(out@, k as nat),
                forall|t: int| j <= t < out.len() ==> natural_order(ns[out@[t] as int], ns[k as int]) > 0,
            decreases j,
        {
            j = j - 1;
        }
        let ghost before = out@;
        proof {
            if j > 0 {
                assert(natural_order(ns[before[j - 1] as int], ns[k as int]) <= 0);
            }
        }
        out.insert(j, k);
        proof {
            let after = out@;
            assert(after == before.insert(j as int, k));
            assert forall|a: int, b: int| #![trigger after[a], after[b]] 0 <= a < b < after.len() implies {
                let o = natural_order(ns[after[a] as int], ns[after[b] as int]);
                o < 0 || (o == 0 && after[a] < after[b])
            } by {
                if b == j {
                    // an earlier element against the new one
                    assert(after[a] == before[a]);
                    if a < j - 1 {
                        law_natural_order_transitive(ns[before[a] as int], ns[before[j - 1] as int], ns[k as int]);
                    }
                } else if a == j {
                    // the new element against a later one
                    assert(after[b] == before[b - 1]);
                    law_natural_order_antisymmetric(ns[k as int], ns[before[b - 1] as int]);
                } else {
                    let a0 = if a < j { a } else { a - 1 };
                    let b0 = if b < j { b } else { b - 1 };
                    assert(after[a] == before[a0]);
                    assert(after[b] == before[b0]);
                }
            }
            assert forall|a: int, b: int| 0 <= a < b < after.len() implies after[a] != after[b] by {
                if a != j && b != j {
                    let a0 = if a < j { a } else { a - 1 };
                    let b0 = if b < j { b } else { b - 1 };
                    assert(after[a] == before[a0]);
                    assert(after[b] == before[b0]);
                } else if a == j {
                    assert(after[b] == before[b - 1]);
                } else {
                    assert(after[a] == before[a]);
                }
            }
            assert forall|a: int| 0 <= a < after.len() implies #[trigger] after[a] < k + 1 by {
                if a < j {
                    assert(after[a] == before[a]);
                } else if a > j {
                    assert(after[a] == before[a - 1]);
                }
            }
        }
        k = k + 1;
    }
    out
}

// ---------- laws of the order ----------

proof fn lemma_text_order(a: Seq<char>, b: Seq<char>)
    ensures
        text_order(a, b) == -text_order(b, a),
        text_order(a, b) == 0 <==> a =~= b,
        -1 <= text_order(a, b) <= 1,
    decreases a.len(),
{
    if a.len() > 0 && b.len() > 0 && a[0] == b[0] {
        lemma_text_order(a.skip(1), b.skip(1));
        if a.skip(1) =~= b.skip(1) {
            assert(a =~= b) by {
                assert forall|i: int| 0 <= i < a.len() implies a[i] == b[i] by {
                    if i > 0 {
                        assert(a[i] == a.skip(1)[i - 1]);
                        assert(b[i] == b.skip(1)[i - 1]);
                    }
                }
            }
        }
        if a =~= b {
            assert(a.skip(1) =~= b.skip(1));
        }
    }
}

proof fn lemma_text_order_trans(a: Seq<char>, b: Seq<char>, c: Seq<char>)
    requires
        text_order(a, b) <= 0,
        text_order(b, c) <= 0,
    ensures
        text_order(a, c) <= 0,
    decreases a.len(),
{
    if a.len() > 0 && b.len() > 0 && c.len() > 0 && a[0] == b[0] && b[0] == c[0] {
        lemma_text_order_trans(a.skip(1), b.skip(1), c.skip(1));
    }
}

proof fn lemma_chunk_order(a: SpecChunk, b: SpecChunk)
    ensures
        chunk_order(a, b) == -chunk_order(b, a),
        a == b ==> chunk_order(a, b) == 0,
        -1 <= chunk_order(a, b) <= 1,
{
    match (a, b) {
        (SpecChunk::Str(x), SpecChunk::Str(y)) => {
            lemma_text_order(x, y);
        },
        _ => {},
    }
}

proof fn lemma_chunk_order_trans(a: SpecChunk, b: SpecChunk, c: SpecChunk)
    requires
        chunk_order(a, b) <= 0,
        chunk_order(b, c) <= 0,
    ensures
        chunk_order(a, c) <= 0,
{
    match (a, b, c) {
        (SpecChunk::Str(x), SpecChunk::Str(y), SpecChunk::Str(z)) => {
            lemma_text_order_trans(x, y, z);
        },
        _ => {},
    }
}

proof fn lemma_chunks_order(a: Seq<SpecChunk>, b: Seq<SpecChunk>)
    ensures
        chunks_order(a, b) == -chunks_order(b, a),
        a =~= b ==> chunks_order(a, b) == 0,
        -1 <= chunks_order(a, b) <= 1,
    decreases a.len(),
{
    if a.len() > 0 && b.len() > 0 {
        lemma_chunk_order(a[0], b[0]);
        if chunk_order(a[0], b[0]) == 0 {
            lemma_chunks_order(a.skip(1), b.skip(1));
            if a =~= b {
                assert(a.skip(1) =~= b.skip(1));
            }
        }
    }
}

proof fn lemma_chunks_order_trans(a: Seq<SpecChunk>, b: Seq<SpecChunk>, c: Seq<SpecChunk>)
    requires
        chunks_order(a, b) <= 0,
        chunks_order(b, c) <= 0,
    ensures
        chunks_order(a, c) <= 0,
    decreases a.len(),
{
    if a.len() > 0 && b.len() > 0 && c.len() > 0 {
        lemma_chunk_order(a[0], b[0]);
        lemma_chunk_order(b[0], c[0]);
        lemma_chunk_order(a[0], c[0]);
        lemma_chunk_order_trans(a[0], b[0], c[0]);
        if chunk_order(a[0], c[0]) == 0 {
            // the first chunks all tie
            lemma_chunk_order_trans(b[0], c[0], a[0]);
            lemma_chunk_order_trans(c[0], a[0], b[0]);
            lemma_chunks_order_trans(a.skip(1), b.skip(1), c.skip(1));
        }
    }
}

// ---------- laws of the order of texts and chunks ----------

/// Text compares as `str::cmp` does: a proper prefix comes first.
pub proof fn law_text_prefix_first(p: Seq<char>, t: Seq<char>)
    requires
        t.len() > 0,
    ensures
        text_order(p, p + t) == -1,
        text_order(p + t, p) == 1,
    decreases p.len(),
{
    if p.len() > 0 {
        assert((p + t)[0] == p[0]);
        assert((p + t).skip(1) =~= p.skip(1) + t);
        law_text_prefix_first(p.skip(1), t);
    } else {
        assert(p + t =~= t);
    }
}

/// Text compares as `str::cmp` does: after a common beginning, the first
/// differing characters decide, by code point.
pub proof fn law_text_first_difference(a: Seq<char>, b: Seq<char>, i: int)
    requires
        0 <= i < a.len(),
        i < b.len(),
        a.take(i) == b.take(i),
        a[i] != b[i],
    ensures
        text_order(a, b) == (if (a[i] as int) < (b[i] as int) { -1int } else { 1int }),
    decreases i,
{
    if i > 0 {
        assert(a[0] == a.take(i)[0]);
        assert(b[0] == b.take(i)[0]);
        assert(a.skip(1).take(i - 1) =~= a.take(i).skip(1));
        assert(b.skip(1).take(i - 1) =~= b.take(i).skip(1));
        law_text_first_difference(a.skip(1), b.skip(1), i - 1);
    }
}

/// Equal texts tie.
pub proof fn law_text_equal_ties(a: Seq<char>)
    ensures
        text_order(a, a) == 0,
{
    lemma_text_order(a, a);
}

/// How two chunks compare: a digit run comes before text, digit runs
/// compare by the numbers they stand for, and texts compare as texts.
pub proof fn law_chunk_order_rules(a: SpecChunk, b: SpecChunk)
    ensures
        (a is Num && b is Str) ==> chunk_order(a, b) == -1,
        (a is Str && b is Num) ==> chunk_order(a, b) == 1,
        a matches SpecChunk::Num(x) ==> (b matches SpecChunk::Num(y) ==> {
            &&& decimal_value(x) < decimal_value(y) ==> chunk_order(a, b) == -1
            &&& decimal_value(x) == decimal_value(y) ==> chunk_order(a, b) == 0
            &&& decimal_value(x) > decimal_value(y) ==> chunk_order(a, b) == 1
        }),
        a matches SpecChunk::Str(x) ==> (b matches SpecChunk::Str(y) ==> chunk_order(a, b) == text_order(x, y)),
{
}

/// Chunk lists compare as sequences: a list that is a proper prefix of
/// another comes first.
pub proof fn law_chunks_prefix_first(p: Seq<SpecChunk>, t: Seq<SpecChunk>)
    requires
        t.len() > 0,
    ensures
        chunks_order(p, p + t) == -1,
        chunks_order(p + t, p) == 1,
    decreases p.len(),
{
    if p.len() > 0 {
        assert((p + t)[0] == p[0]);
        lemma_chunk_order(p[0], p[0]);
        assert((p + t).skip(1) =~= p.skip(1) + t);
        law_chunks_prefix_first(p.skip(1), t);
    } else {
        assert(p + t =~= t);
    }
}

/// Chunk lists compare as sequences: after chunks that tie, the first pair
/// that does not tie decides.
pub proof fn law_chunks_first_difference(a: Seq<SpecChunk>, b: Seq<SpecChunk>, i: int)
    requires
        0 <= i < a.len(),
        i < b.len(),
        forall|k: int| 0 <= k < i ==> chunk_order(#[trigger] a[k], b[k]) == 0,
        chunk_order(a[i], b[i]) != 0,
    ensures
        chunks_order(a, b) == chunk_order(a[i], b[i]),
    decreases i,
{
    if i > 0 {
        assert(chunk_order(a[0], b[0]) == 0);
        assert forall|k: int| 0 <= k < i - 1 implies chunk_order(#[trigger] a.skip(1)[k], b.skip(1)[k]) == 0 by {
            assert(a.skip(1)[k] == a[k + 1]);
            assert(b.skip(1)[k] == b[k + 1]);
        }
        law_chunks_first_difference(a.skip(1), b.skip(1), i - 1);
    }
}

// ---------- laws of the split ----------

/// The characters a chunk was cut from.
pub open spec fn chunk_text(c: SpecChunk) -> Seq<char> {
    match c {
        SpecChunk::Num(d) => d,
        SpecChunk::Str(t) => t,
    }
}

/// The chunks' texts put back together.
pub open spec fn join_chunks(cs: Seq<SpecChunk>) -> Seq<char>
    decreases cs.len(),
{
    if cs.len() == 0 {
        Seq::<char>::empty()
    } else {
        chunk_text(cs[0]) + join_chunks(cs.skip(1))
    }
}

/// No character of `t` is an ASCII digit.
pub open spec fn no_digits(t: Seq<char>) -> bool {
    forall|i: int| 0 <= i < t.len() ==> !is_ascii_digit(#[trigger] t[i])
}

/// Every chunk is a non-empty run, of digits for a number and of other
/// characters for text, and numbers and text alternate, so each chunk is a
/// maximal run.
pub open spec fn well_split(cs: Seq<SpecChunk>) -> bool {
    &&& forall|k: int| 0 <= k < cs.len() ==> chunk_text(#[trigger] cs[k]).len() > 0
    &&& forall|k: int| 0 <= k < cs.len() ==> match #[trigger] cs[k] {
        SpecChunk::Num(d) => all_digits(d),
        SpecChunk::Str(t) => no_digits(t),
    }
    &&& forall|i: int, j: int| #![trigger cs[i], cs[j]] 0 <= i && j == i + 1 && j < cs.len() ==> (cs[i] is Num) != (cs[j] is Num)
}

proof fn lemma_well_split_prepend(c: SpecChunk, cs: Seq<SpecChunk>)
    requires
        well_split(cs),
        chunk_text(c).len() > 0,
        match c {
            SpecChunk::Num(d) => all_digits(d),
            SpecChunk::Str(t) => no_digits(t),
        },
        cs.len() > 0 ==> (c is Num) != (cs[0] is Num),
    ensures
        well_split(seq![c] + cs),
        join_chunks(seq![c] + cs) == chunk_text(c) + join_chunks(cs),
{
    let all = seq![c] + cs;
    assert(all.skip(1) =~= cs);
    assert forall|k: int| 0 <= k < all.len() implies chunk_text(#[trigger] all[k]).len() > 0 by {
        if k > 0 {
            assert(all[k] == cs[k - 1]);
        }
    }
    assert forall|k: int| 0 <= k < all.len() implies match #[trigger] all[k] {
        SpecChunk::Num(d) => all_digits(d),
        SpecChunk::Str(t) => no_digits(t),
    } by {
        if k > 0 {
            assert(all[k] == cs[k - 1]);
        }
    }
    assert forall|i: int, j: int| #![trigger all[i], all[j]] 0 <= i && j == i + 1 && j < all.len() implies (all[i] is Num) != (all[j] is Num) by {
        if i > 0 {
            assert(all[i] == cs[i - 1]);
            assert(all[j] == cs[j - 1]);
        } else {
            assert(all[j] == cs[0]);
        }
    }
}

/// `split_chunks` cuts a name into its maximal runs: the chunks put back
/// together give the name, each is a non-empty run of digits (a number) or
/// of other characters (text), numbers and text alternate, and the first
/// chunk is a number exactly when the name starts with a digit.
pub proof fn law_chunks_are_runs(s: Seq<char>)
    ensures
        join_chunks(chunks(s)) == s,
        well_split(chunks(s)),
        chunks(s).len() > 0 <==> s.len() > 0,
        s.len() > 0 ==> (chunks(s)[0] is Num <==> is_ascii_digit(s[0])),
    decreases s.len(),
{
    if s.len() == 0 {
        assert(join_chunks(Seq::<SpecChunk>::empty()) =~= Seq::<char>::empty());
    } else {
        let p = first_digit(s);
        lemma_first_digit_bound(s);
        if p >= s.len() {
            lemma_well_split_prepend(SpecChunk::Str(s), Seq::<SpecChunk>::empty());
            assert(seq![SpecChunk::Str(s)] + Seq::<SpecChunk>::empty() =~= chunks(s));
            assert(s + Seq::<char>::empty() =~= s);
        } else {
            let r = s.skip(p as int);
            assert(r[0] == s[p as int]);
            let e = digit_run(r);
            lemma_digit_run_bound(r);
            assert(e >= 1);
            let t = r.skip(e as int);
            law_chunks_are_runs(t);
            if t.len() > 0 {
                assert(t[0] == r[e as int]);
            }
            let d = r.take(e as int);
            lemma_well_split_prepend(SpecChunk::Num(d), chunks(t));
            let dc = seq![SpecChunk::Num(d)] + chunks(t);
            assert(digit_chunks(r) == dc);
            assert(d + t =~= r);
            if p > 0 {
                let h = s.take(p as int);
                assert(no_digits(h)) by {
                    assert forall|i: int| 0 <= i < h.len() implies !is_ascii_digit(#[trigger] h[i]) by {
                        assert(h[i] == s[i]);
                    }
                }
                lemma_well_split_prepend(SpecChunk::Str(h), dc);
                assert(chunks(s) == seq![SpecChunk::Str(h)] + dc);
                assert(h + r =~= s);
            } else {
                assert(r =~= s);
            }
        }
    }
}

/// Every name ties with itself in natural order.
pub proof fn law_natural_order_reflexive(a: Seq<char>)
    ensures
        natural_order(a, a) == 0,
{
    lemma_chunks_order(chunks(a), chunks(a));
}

/// Swapping the two names reverses the comparison.
pub proof fn law_natural_order_antisymmetric(a: Seq<char>, b: Seq<char>)
    ensures
        natural_order(a, b) == -natural_order(b, a),
        -1 <= natural_order(a, b) <= 1,
{
    lemma_chunks_order(chunks(a), chunks(b));
}

/// Natural order is transitive: if `a` is not after `b` and `b` is not
/// after `c`, then `a` is not after `c`. With the two laws above it is a
/// total preorder, so sorting by it is well defined.
pub proof fn law_natural_order_transitive(a: Seq<char>, b: Seq<char>, c: Seq<char>)
    requires
        natural_order(a, b) <= 0,
        natural_order(b, c) <= 0,
    ensures
        natural_order(a, c) <= 0,
{
    lemma_chunks_order_trans(chunks(a), chunks(b), chunks(c));
}

/// A stable sort by natural order has one outcome: any two orders that
/// list every name once, in natural order with ties in input order, are
/// the same, so the contract of [`natural_sort_order`] pins its result.
pub proof fn law_natural_sort_order_unique(names: Seq<Seq<char>>, r: Seq<usize>, s: Seq<usize>)
    requires
        is_permutation(r, names.len()),
        naturally_sorted(names, r),
        is_permutation(s, names.len()),
        naturally_sorted(names, s),
    ensures
        r == s,
{
    let before = |a: usize, b: usize|
        {
            let o = natural_order(names[a as int], names[b as int]);
            o < 0 || (o == 0 && a < b)
        };
    assert forall|a: usize, b: usize| #[trigger] before(a, b) implies !before(b, a) by {
        law_natural_order_antisymmetric(names[a as int], names[b as int]);
    }
    lemma_sorted_permutation_unique(r, s, names.len(), before);
}

} // verus!

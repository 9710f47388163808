//! Character-level text helpers shared by the option parsers.

use vstd::prelude::*;

verus! {

// ---------- outside functions: Unicode case folding and trimming ----------

/// What `str::to_lowercase` returns for a string with the given characters.
pub uninterp spec fn lowercased(s: Seq<char>) -> Seq<char>;

/// Characters with the Unicode property White_Space, the whitespace of
/// `str::trim` and `char::is_whitespace`.
pub open spec fn is_white_space(c: char) -> bool {
    let u = c as u32;
    ||| 0x9 <= u <= 0xD
    ||| u == 0x20
    ||| u == 0x85
    ||| u == 0xA0
    ||| u == 0x1680
    ||| 0x2000 <= u <= 0x200A
    ||| u == 0x2028
    ||| u == 0x2029
    ||| u == 0x202F
    ||| u == 0x205F
    ||| u == 0x3000
}

/// Number of whitespace characters at the start of `s`.
pub open spec fn leading_white(s: Seq<char>) -> nat
    decreases s.len(),
{
    if s.len() > 0 && is_white_space(s[0]) {
        1 + leading_white(s.skip(1))
    } else {
        0
    }
}

/// Number of whitespace characters at the end of `s`.
pub open spec fn trailing_white(s: Seq<char>) -> nat
    decreases s.len(),
{
    if s.len() > 0 && is_white_space(s.last()) {
        1 + trailing_white(s.drop_last())
    } else {
        0
    }
}

/// `s` without its leading and trailing whitespace.
pub open spec fn trim_spec(s: Seq<char>) -> Seq<char> {
    if leading_white(s) >= s.len() {
        Seq::<char>::empty()
    } else {
        s.subrange(leading_white(s) as int, s.len() - trailing_white(s))
    }
}

/// Trimming leaves text of printable non-space ASCII characters unchanged.
pub proof fn lemma_trim_graphic(s: Seq<char>)
    requires
        all_ascii_graphic(s),
    ensures
        trim_spec(s) == s,
{
    if s.len() > 0 {
        assert('!' <= s[0] && s[0] <= '~');
        assert('!' <= s[s.len() - 1] && s[s.len() - 1] <= '~');
        assert(leading_white(s) == 0);
        assert(trailing_white(s) == 0);
        assert(s.subrange(0, s.len() as int) =~= s);
    } else {
        assert(s =~= Seq::<char>::empty());
    }
}

pub open spec fn is_ascii_upper(c: char) -> bool {
    'A' <= c && c <= 'Z'
}

pub open spec fn ascii_lower_char(c: char) -> char {
    if is_ascii_upper(c) {
        ((c as u32) + 32) as char
    } else {
        c
    }
}

pub open spec fn all_ascii(s: Seq<char>) -> bool {
    forall|i: int| 0 <= i < s.len() ==> (#[trigger] s[i] as u32) < 128
}

/// Every character is a printable ASCII character other than the space.
pub open spec fn all_ascii_graphic(s: Seq<char>) -> bool {
    forall|i: int| 0 <= i < s.len() ==> '!' <= #[trigger] s[i] && s[i] <= '~'
}

/// `s` with `A`..=`Z` lowercased and every other character kept.
pub open spec fn ascii_lower(s: Seq<char>) -> Seq<char> {
    s.map_values(|c: char| ascii_lower_char(c))
}

/// Calls `str::to_lowercase`. Its result depends on the characters of `s`
/// alone (the Unicode lowercase mapping of std); the contract names that
/// result and states the one fact the documentation gives plainly: on ASCII
/// text it lowercases `A`..=`Z` and keeps every other character. Nothing is
/// stated of non-ASCII text beyond the name.
#[verifier::external_body]
pub(crate) fn to_lowercase(s: &str) -> (r: String)
    ensures
        r@ == lowercased(s@),
        all_ascii(s@) ==> r@ == ascii_lower(s@),
{
    s.to_lowercase()
}

/// Calls `str::trim`: `s` with its leading and trailing whitespace removed,
/// whitespace being the characters of the Unicode property White_Space.
#[verifier::external_body]
pub(crate) fn trim(s: &str) -> (r: &str)
    ensures
        r@ == trim_spec(s@),
{
    s.trim()
}

/// Builds a `String` from its characters (`String: FromIterator<char>`).
#[verifier::external_body]
pub(crate) fn string_from_chars(v: Vec<char>) -> (s: String)
    ensures
        s@ == v@,
{
    v.into_iter().collect()
}

// ---------- characters of a string ----------

/// The characters of `s`, in order.
pub fn chars_of(s: &str) -> (v: Vec<char>)
    ensures
        v@ == s@,
{
    let mut v: Vec<char> = Vec::new();
    for c in it: s.chars()
        invariant
            v@ == it.seq().take(it.index() as int),
            it.seq() == s@,
    {
        v.push(c);
    }
    v
}

/// Whether two strings hold the same characters.
pub fn str_eq(a: &str, b: &str) -> (r: bool)
    ensures
        r == (a@ == b@),
{
    let va = chars_of(a);
    let vb = chars_of(b);
    if va.len() != vb.len() {
        return false;
    }
    let mut i: usize = 0;
    while i < va.len()
        invariant
            va@ == a@,
            vb@ == b@,
            va.len() == vb.len(),
            i <= va.len(),
            forall|k: int| 0 <= k < i ==> va@[k] == vb@[k],
        decreases va.len() - i,
    {
        if va[i] != vb[i] {
            return false;
        }
        i = i + 1;
    }
    assert(va@ =~= vb@);
    true
}

// ---------- splitting ----------

/// `s` split at every character equal to `a` or `b`, as `str::split` does:
/// `n` separators give `n + 1` pieces, empty pieces included.
pub open spec fn split_by(s: Seq<char>, a: char, b: char) -> Seq<Seq<char>>
    decreases s.len(),
{
    if s.len() == 0 {
        seq![Seq::<char>::empty()]
    } else {
        let r = split_by(s.drop_last(), a, b);
        let c = s.last();
        if c == a || c == b {
            r.push(Seq::<char>::empty())
        } else {
            r.update(r.len() - 1, r.last().push(c))
        }
    }
}

/// The pieces of printable non-space ASCII text are such text too.
pub proof fn lemma_split_by_graphic(s: Seq<char>, a: char, b: char)
    requires
        all_ascii_graphic(s),
    ensures
        forall|k: int| 0 <= k < split_by(s, a, b).len() ==> all_ascii_graphic(#[trigger] split_by(s, a, b)[k]),
    decreases s.len(),
{
    if s.len() > 0 {
        let t = s.drop_last();
        assert(all_ascii_graphic(t)) by {
            assert forall|i: int| 0 <= i < t.len() implies '!' <= #[trigger] t[i] && t[i] <= '~' by {
                assert(t[i] == s[i]);
            }
        }
        lemma_split_by_graphic(t, a, b);
        lemma_split_by_nonempty(t, a, b);
        let r = split_by(t, a, b);
        let c = s.last();
        if !(c == a || c == b) {
            let q = r.last().push(c);
            assert(all_ascii_graphic(r[r.len() - 1]));
            assert(all_ascii_graphic(q)) by {
                assert forall|i: int| 0 <= i < q.len() implies '!' <= #[trigger] q[i] && q[i] <= '~' by {
                    if i < q.len() - 1 {
                        assert(q[i] == r.last()[i]);
                    }
                }
            }
            assert forall|k: int| 0 <= k < split_by(s, a, b).len() implies all_ascii_graphic(#[trigger] split_by(s, a, b)[k]) by {
                if k < r.len() - 1 {
                    assert(split_by(s, a, b)[k] == r[k]);
                }
            }
        } else {
            assert forall|k: int| 0 <= k < split_by(s, a, b).len() implies all_ascii_graphic(#[trigger] split_by(s, a, b)[k]) by {
                if k < r.len() {
                    assert(split_by(s, a, b)[k] == r[k]);
                } else {
                    assert(split_by(s, a, b)[k] =~= Seq::<char>::empty());
                }
            }
        }
    }
}

/// Appending text without separators extends the last piece.
pub proof fn lemma_split_by_append(u: Seq<char>, t: Seq<char>, a: char, b: char)
    requires
        forall|i: int| 0 <= i < t.len() ==> #[trigger] t[i] != a && t[i] != b,
    ensures
        split_by(u + t, a, b) == split_by(u, a, b).update(
            split_by(u, a, b).len() - 1,
            split_by(u, a, b).last() + t,
        ),
    decreases t.len(),
{
    lemma_split_by_nonempty(u, a, b);
    if t.len() == 0 {
        assert(u + t =~= u);
        assert(split_by(u, a, b).last() + t =~= split_by(u, a, b).last());
        assert(split_by(u, a, b).update(split_by(u, a, b).len() - 1, split_by(u, a, b).last())
            =~= split_by(u, a, b));
    } else {
        let t0 = t.drop_last();
        lemma_split_by_append(u, t0, a, b);
        assert((u + t).drop_last() =~= u + t0);
        assert((u + t).last() == t.last());
        let r = split_by(u, a, b);
        let r1 = split_by(u + t0, a, b);
        assert(r1 == r.update(r.len() - 1, r.last() + t0));
        assert(r1.len() == r.len());
        assert(r1.last() == r.last() + t0);
        assert(t.last() == t[t.len() - 1]);
        assert(t.last() != a && t.last() != b);
        assert(split_by(u + t, a, b) == r1.update(r1.len() - 1, r1.last().push(t.last())));
        assert(r1.last().push(t.last()) =~= r.last() + t);
        assert(split_by(u + t, a, b) =~= r.update(r.len() - 1, r.last() + t));
    }
}

/// Text without separators is one piece; `x`, a separator, `y` is two.
pub proof fn lemma_split_by_pieces(x: Seq<char>, y: Seq<char>, a: char, b: char)
    requires
        forall|i: int| 0 <= i < x.len() ==> #[trigger] x[i] != a && x[i] != b,
        forall|i: int| 0 <= i < y.len() ==> #[trigger] y[i] != a && y[i] != b,
    ensures
        split_by(x, a, b) == seq![x],
        split_by(x + seq![a] + y, a, b) == seq![x, y],
{
    lemma_split_by_append(Seq::<char>::empty(), x, a, b);
    assert(Seq::<char>::empty() + x =~= x);
    assert(seq![Seq::<char>::empty()].update(0, Seq::<char>::empty() + x) =~= seq![x]);
    let u = x + seq![a];
    assert(u.drop_last() =~= x);
    assert(split_by(u, a, b) =~= seq![x, Seq::<char>::empty()]);
    lemma_split_by_append(u, y, a, b);
    assert(Seq::<char>::empty() + y =~= y);
    assert(seq![x, Seq::<char>::empty()].update(1, Seq::<char>::empty() + y) =~= seq![x, y]);
}

/// Printable ASCII text is ASCII.
pub proof fn lemma_graphic_is_ascii(s: Seq<char>)
    requires
        all_ascii_graphic(s),
    ensures
        all_ascii(s),
{
    assert forall|i: int| 0 <= i < s.len() implies (#[trigger] s[i] as u32) < 128 by {
        assert('!' <= s[i] && s[i] <= '~');
    }
}

proof fn lemma_split_by_nonempty(s: Seq<char>, a: char, b: char)
    ensures
        split_by(s, a, b).len() >= 1,
    decreases s.len(),
{
    if s.len() > 0 {
        lemma_split_by_nonempty(s.drop_last(), a, b);
    }
}

/// Splits `s` at every occurrence of `a` or `b`.
pub fn split_on<'a>(s: &'a str, a: char, b: char) -> (parts: Vec<&'a str>)
    ensures
        parts@.len() == split_by(s@, a, b).len(),
        forall|k: int| 0 <= k < parts@.len() ==> #[trigger] parts@[k]@ == split_by(s@, a, b)[k],
{
    let cs = chars_of(s);
    let n = cs.len();
    let mut parts: Vec<&'a str> = Vec::new();
    let mut start: usize = 0;
    let mut i: usize = 0;
    while i < n
        invariant
            cs@ == s@,
            n == cs.len(),
            start <= i <= n,
            ({
                let r = split_by(s@.take(i as int), a, b);
                &&& parts@.len() + 1 == r.len()
                &&& forall|k: int| 0 <= k < parts@.len() ==> #[trigger] parts@[k]@ == r[k]
                &&& r.last() == s@.subrange(start as int, i as int)
            }),
        decreases n - i,
    {
        proof {
            lemma_split_by_nonempty(s@.take(i as int), a, b);
            assert(s@.take(i + 1).drop_last() =~= s@.take(i as int));
        }
        let c = cs[i];
        if c == a || c == b {
            let p = s.substring_char(start, i);
            parts.push(p);
            start = i + 1;
            assert(s@.subrange(start as int, i + 1) =~= Seq::<char>::empty());
        } else {
            assert(s@.subrange(start as int, i + 1) =~= s@.subrange(start as int, i as int).push(c));
        }
        i = i + 1;
    }
    proof {
        assert(s@.take(n as int) =~= s@);
        lemma_split_by_nonempty(s@, a, b);
    }
    let p = s.substring_char(start, n);
    parts.push(p);
    parts
}


// ---------- decimal numbers ----------

pub open spec fn is_ascii_digit(c: char) -> bool {
    '0' <= c && c <= '9'
}

pub open spec fn all_digits(s: Seq<char>) -> bool {
    forall|i: int| 0 <= i < s.len() ==> is_ascii_digit(#[trigger] s[i])
}

pub open spec fn digit_value(c: char) -> nat {
    (c as int - '0' as int) as nat
}

/// The value of a run of decimal digits (most significant first).
pub open spec fn decimal_value(s: Seq<char>) -> nat
    decreases s.len(),
{
    if s.len() == 0 {
        0
    } else {
        decimal_value(s.drop_last()) * 10 + digit_value(s.last())
    }
}

/// The digits of an unsigned integer literal: a leading `+` is dropped.
pub open spec fn unsigned_digits(s: Seq<char>) -> Seq<char> {
    if s.len() > 0 && s[0] == '+' {
        s.skip(1)
    } else {
        s
    }
}

/// The value that `str::parse` gives for an unsigned integer type whose
/// largest value is `limit`: an optional `+` followed by one or more ASCII
/// digits whose value does not exceed `limit`; anything else is refused.
pub open spec fn parse_unsigned(s: Seq<char>, limit: nat) -> Option<nat> {
    let d = unsigned_digits(s);
    if d.len() > 0 && all_digits(d) && decimal_value(d) <= limit {
        Some(decimal_value(d))
    } else {
        None
    }
}

pub proof fn lemma_decimal_value_prefix(s: Seq<char>, j: int)
    requires
        all_digits(s),
        0 <= j <= s.len(),
    ensures
        decimal_value(s.take(j)) <= decimal_value(s),
    decreases s.len(),
{
    if j < s.len() {
        assert(s.drop_last().take(j) =~= s.take(j));
        assert(all_digits(s.drop_last()));
        lemma_decimal_value_prefix(s.drop_last(), j);
    } else {
        assert(s.take(j) =~= s);
    }
}

/// `10` to the power `n`.
pub open spec fn pow10(n: nat) -> nat
    decreases n,
{
    if n == 0 {
        1
    } else {
        10 * pow10((n - 1) as nat)
    }
}

pub proof fn lemma_pow10_mono(a: nat, b: nat)
    requires
        a <= b,
    ensures
        1 <= pow10(a) <= pow10(b),
    decreases b,
{
    if b > 0 {
        if a == b {
            lemma_pow10_mono((a - 1) as nat, (b - 1) as nat);
        } else {
            lemma_pow10_mono(a, (b - 1) as nat);
        }
    }
}

/// The value of a digit run from its first digit: that digit times the
/// power of ten of the rest's length, plus the value of the rest.
pub proof fn lemma_decimal_value_front(s: Seq<char>)
    requires
        s.len() > 0,
    ensures
        decimal_value(s) == digit_value(s[0]) * pow10((s.len() - 1) as nat) + decimal_value(s.skip(1)),
    decreases s.len(),
{
    if s.len() == 1 {
        assert(s.drop_last() =~= Seq::<char>::empty());
        assert(s.skip(1) =~= Seq::<char>::empty());
        assert(decimal_value(Seq::<char>::empty()) == 0);
        assert(pow10(0) == 1);
        assert(s.last() == s[0]);
        assert(decimal_value(s) == decimal_value(s.drop_last()) * 10 + digit_value(s.last()));
        assert(decimal_value(s.skip(1)) == 0);
    } else {
        let t = s.drop_last();
        lemma_decimal_value_front(t);
        assert(s.skip(1).drop_last() =~= t.skip(1));
        assert(s.skip(1).last() == s.last());
        assert(t[0] == s[0]);
        let d0 = digit_value(s[0]);
        let p = pow10((t.len() - 1) as nat);
        let v = decimal_value(t.skip(1));
        let dl = digit_value(s.last());
        assert(pow10((s.len() - 1) as nat) == 10 * p);
        assert(decimal_value(s) == decimal_value(t) * 10 + dl);
        assert(decimal_value(s.skip(1)) == v * 10 + dl);
        assert((d0 * p + v) * 10 + dl == d0 * (10 * p) + (v * 10 + dl)) by (nonlinear_arith);
    }
}

/// A run of `n` digits is worth less than `10^n`.
pub proof fn lemma_decimal_value_bound(s: Seq<char>)
    requires
        all_digits(s),
    ensures
        decimal_value(s) < pow10(s.len()),
    decreases s.len(),
{
    if s.len() > 0 {
        let t = s.drop_last();
        assert(all_digits(t)) by {
            assert forall|i: int| 0 <= i < t.len() implies is_ascii_digit(#[trigger] t[i]) by {
                assert(t[i] == s[i]);
            }
        }
        lemma_decimal_value_bound(t);
        assert(is_ascii_digit(s[s.len() - 1]));
        assert(digit_value(s.last()) <= 9);
        assert(pow10(s.len()) == 10 * pow10(t.len()));
    }
}

/// Parses an unsigned decimal integer of at most `limit`, as `str::parse`
/// does for `u32` when `limit` is `u32::MAX`.
pub fn parse_unsigned_decimal(s: &str, limit: u32) -> (r: Option<u32>)
    ensures
        r matches Some(v) ==> parse_unsigned(s@, limit as nat) == Some(v as nat),
        r is None ==> parse_unsigned(s@, limit as nat) is None,
{
    let cs = chars_of(s);
    let n = cs.len();
    let mut i: usize = 0;
    if n > 0 && cs[0] == '+' {
        i = 1;
    }
    let start = i;
    let ghost d = unsigned_digits(s@);
    assert(d =~= s@.skip(start as int));
    if start == n {
        return None;
    }
    let mut val: u64 = 0;
    while i < n
        invariant
            cs@ == s@,
            n == cs.len(),
            start <= i <= n,
            start < n,
            d == s@.skip(start as int),
            d == unsigned_digits(s@),
            all_digits(s@.subrange(start as int, i as int)),
            val as nat == decimal_value(s@.subrange(start as int, i as int)),
            val <= limit,
        decreases n - i,
    {
        let c = cs[i];
        if !('0' <= c && c <= '9') {
            assert(!is_ascii_digit(c));
            assert(d[i - start] == c);
            assert(!all_digits(d));
            return None;
        }
        let dv = (c as u32 - '0' as u32) as u64;
        let ghost pre = s@.subrange(start as int, i as int);
        let ghost cur = s@.subrange(start as int, i + 1);
        assert(cur.drop_last() =~= pre);
        assert(all_digits(cur));
        assert(dv as nat == digit_value(c));
        val = val * 10 + dv;
        assert(val as nat == decimal_value(cur));
        if val > limit as u64 {
            proof {
                assert(cur =~= d.take(i + 1 - start));
                if all_digits(d) {
                    lemma_decimal_value_prefix(d, i + 1 - start);
                }
            }
            return None;
        }
        i = i + 1;
    }
    assert(s@.subrange(start as int, n as int) =~= d);
    Some(val as u32)
}

/// The decimal text of `n`, as `Display` writes an unsigned integer.
pub open spec fn decimal_text(n: nat) -> Seq<char>
    decreases n,
{
    if n < 10 {
        seq![digit_char(n)]
    } else {
        decimal_text(n / 10).push(digit_char(n % 10))
    }
}

pub open spec fn digit_char(d: nat) -> char {
    ((d + 48) as u8) as char
}

/// The decimal text of `n` is a non-empty run of digits whose value is `n`.
pub proof fn lemma_decimal_text(n: nat)
    ensures
        decimal_text(n).len() > 0,
        all_digits(decimal_text(n)),
        decimal_value(decimal_text(n)) == n,
    decreases n,
{
    if n < 10 {
        let d: u8 = (n + 48) as u8;
        assert(d as int == n + 48);
        assert(digit_char(n) as int == n + 48);
        assert(decimal_text(n).drop_last() =~= Seq::<char>::empty());
        assert(decimal_value(Seq::<char>::empty()) == 0);
        assert(decimal_value(decimal_text(n)) == digit_value(digit_char(n)));
    } else {
        lemma_decimal_text(n / 10);
        let t = decimal_text(n / 10);
        let c = digit_char(n % 10);
        let d: u8 = (n % 10 + 48) as u8;
        assert(d as int == n % 10 + 48);
        assert(c as int == n % 10 + 48);
        assert(t.push(c).drop_last() =~= t);
        assert(decimal_value(t.push(c)) == decimal_value(t) * 10 + digit_value(c));
        assert(n == (n / 10) * 10 + n % 10);
        assert forall|i: int| 0 <= i < t.push(c).len() implies is_ascii_digit(#[trigger] t.push(c)[i]) by {
            if i < t.len() {
                assert(t.push(c)[i] == t[i]);
            }
        }
    }
}

fn decimal_chars(n: u32) -> (v: Vec<char>)
    ensures
        v@ == decimal_text(n as nat),
    decreases n,
{
    let d: u8 = (n % 10) as u8;
    let c: char = (d + 48) as char;
    if n < 10 {
        let mut v: Vec<char> = Vec::new();
        v.push(c);
        assert(v@ =~= seq![digit_char(n as nat)]);
        v
    } else {
        let mut v = decimal_chars(n / 10);
        v.push(c);
        v
    }
}

/// The decimal text of `n`.
pub fn decimal_string(n: u32) -> (s: String)
    ensures
        s@ == decimal_text(n as nat),
{
    string_from_chars(decimal_chars(n))
}

// ---------- searching and replacing ----------

/// `pat` occurs in `s` at position `i`.
pub open spec fn occurs_at(s: Seq<char>, pat: Seq<char>, i: int) -> bool {
    0 <= i && i + pat.len() <= s.len() && s.subrange(i, i + pat.len()) == pat
}

pub open spec fn contains_seq(s: Seq<char>, pat: Seq<char>) -> bool {
    exists|i: int| occurs_at(s, pat, i)
}

pub open spec fn ends_with_seq(s: Seq<char>, suffix: Seq<char>) -> bool {
    suffix.len() <= s.len() && s.skip(s.len() - suffix.len()) == suffix
}

fn occurs_at_exec(s: &Vec<char>, pat: &Vec<char>, i: usize) -> (r: bool)
    requires
        i + pat.len() <= s.len(),
    ensures
        r == occurs_at(s@, pat@, i as int),
{
    let mut k: usize = 0;
    while k < pat.len()
        invariant
            i + pat.len() <= s.len(),
            k <= pat.len(),
            forall|j: int| 0 <= j < k ==> s@[i + j] == pat@[j],
        decreases pat.len() - k,
    {
        if s[i + k] != pat[k] {
            assert(s@.subrange(i as int, i + pat.len())[k as int] != pat@[k as int]);
            return false;
        }
        k = k + 1;
    }
    assert(s@.subrange(i as int, i + pat.len()) =~= pat@);
    true
}

/// Whether `pat` occurs in `s` (`str::contains` with a string pattern).
pub fn contains_str(s: &str, pat: &str) -> (r: bool)
    ensures
        r == contains_seq(s@, pat@),
{
    let sv = chars_of(s);
    let pv = chars_of(pat);
    if pv.len() > sv.len() {
        return false;
    }
    if pv.len() == 0 {
        assert(occurs_at(s@, pat@, 0)) by {
            assert(s@.subrange(0, 0) =~= pat@);
        }
        return true;
    }
    let last = sv.len() - pv.len();
    let mut i: usize = 0;
    while i <= last
        invariant
            sv@ == s@,
            pv@ == pat@,
            last == sv.len() - pv.len(),
            last < sv.len(),
            i <= last + 1,
            forall|j: int| 0 <= j < i ==> !occurs_at(s@, pat@, j),
        decreases last + 1 - i,
    {
        if occurs_at_exec(&sv, &pv, i) {
            return true;
        }
        i = i + 1;
    }
    assert forall|j: int| !occurs_at(s@, pat@, j) by {
        if 0 <= j && j + pat@.len() <= s@.len() {
            assert(j < i);
        }
    }
    false
}

/// Whether `s` ends with `suffix` (`str::ends_with`).
pub fn ends_with_str(s: &str, suffix: &str) -> (r: bool)
    ensures
        r == ends_with_seq(s@, suffix@),
{
    let sv = chars_of(s);
    let pv = chars_of(suffix);
    if pv.len() > sv.len() {
        return false;
    }
    let start = sv.len() - pv.len();
    let r = occurs_at_exec(&sv, &pv, start);
    assert(s@.skip(start as int) =~= s@.subrange(start as int, start + pv.len()));
    r
}

/// `s` with every occurrence of the non-empty `pat` replaced by `rep`,
/// matches taken from the left without overlap (`str::replace`).
pub open spec fn replace_all(s: Seq<char>, pat: Seq<char>, rep: Seq<char>) -> Seq<char>
    recommends
        pat.len() > 0,
    decreases s.len(),
{
    if s.len() == 0 || pat.len() == 0 {
        s
    } else if occurs_at(s, pat, 0) {
        rep + replace_all(s.skip(pat.len() as int), pat, rep)
    } else {
        seq![s[0]] + replace_all(s.skip(1), pat, rep)
    }
}

/// Replaces every occurrence of `pat` in `s` by `rep`.
pub fn replace_str(s: &str, pat: &str, rep: &str) -> (r: String)
    requires
        pat@.len() > 0,
    ensures
        r@ == replace_all(s@, pat@, rep@),
{
    let sv = chars_of(s);
    let pv = chars_of(pat);
    let rv = chars_of(rep);
    let mut out: Vec<char> = Vec::new();
    let mut i: usize = 0;
    assert(s@.skip(0) =~= s@);
    assert(out@ + s@ =~= s@);
    while i < sv.len()
        invariant
            sv@ == s@,
            pv@ == pat@,
            rv@ == rep@,
            pv.len() > 0,
            i <= sv.len(),
            out@ + replace_all(s@.skip(i as int), pat@, rep@) == replace_all(s@, pat@, rep@),
        decreases sv.len() - i,
    {
        let ghost rest = s@.skip(i as int);
        if pv.len() <= sv.len() - i && occurs_at_exec(&sv, &pv, i) {
            proof {
                assert(rest.subrange(0, pat@.len() as int) =~= s@.subrange(i as int, i + pat@.len()));
                assert(rest.skip(pat@.len() as int) =~= s@.skip(i + pat@.len()));
            }
            let mut k: usize = 0;
            let ghost out0 = out@;
            while k < rv.len()
                invariant
                    k <= rv.len(),
                    out@ == out0 + rv@.take(k as int),
                decreases rv.len() - k,
            {
                out.push(rv[k]);
                assert(rv@.take(k + 1) =~= rv@.take(k as int).push(rv@[k as int]));
                k = k + 1;
            }
            assert(rv@.take(k as int) =~= rep@);
            assert(out@ + replace_all(s@.skip(i + pv.len()), pat@, rep@) =~= out0 + replace_all(rest, pat@, rep@));
            i = i + pv.len();
        } else {
            proof {
                if i + pat@.len() <= s@.len() {
                    assert(rest.subrange(0, pat@.len() as int) =~= s@.subrange(i as int, i + pat@.len()));
                }
                assert(rest.skip(1) =~= s@.skip(i + 1));
            }
            let ghost out0 = out@;
            out.push(sv[i]);
            assert(out@ + replace_all(s@.skip(i + 1), pat@, rep@) =~= out0 + replace_all(rest, pat@, rep@));
            i = i + 1;
        }
    }
    assert(s@.skip(i as int) =~= Seq::<char>::empty());
    assert(out@ + Seq::<char>::empty() =~= out@);
    string_from_chars(out)
}

} // verus!

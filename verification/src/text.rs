//! Character-level text handling shared by the icon lookup: splitting,
//! trimming, searching, and number parsing, each stated over `Seq<char>`.

use vstd::prelude::*;

verus! {

/// `str::to_lowercase`: the Unicode lower-case mapping of a whole string
/// (context-sensitive, so it is named rather than stated per character).
pub uninterp spec fn unicode_lowercase(s: Seq<char>) -> Seq<char>;

/// The ASCII lower-case form of a character: `A`..`Z` become `a`..`z`.
pub open spec fn ascii_lower(c: char) -> char {
    if 'A' <= c && c <= 'Z' {
        ((c as u32) + 32) as char
    } else {
        c
    }
}

/// `str::to_lowercase` returns the string that `unicode_lowercase` names; on
/// ASCII text that is the ASCII lower-casing of each character (the Unicode
/// lower-case mapping of an ASCII letter is its ASCII lower case, and every
/// other ASCII character maps to itself).
pub assume_specification[ str::to_lowercase ](s: &str) -> (r: String)
    ensures
        r@ == unicode_lowercase(s@),
        (forall|i: int| 0 <= i < s@.len() ==> (s@[i] as u32) < 128) ==> r@ == s@.map_values(
            |c: char| ascii_lower(c),
        ),
;

/// The characters of a string, in order.
pub(crate) fn chars_of(s: &str) -> (v: Vec<char>)
    ensures
        v@ == s@,
{
    let mut v: Vec<char> = Vec::new();
    for c in it: s.chars()
        invariant
            v@ == it.seq().take(it.index() as int),
    {
        v.push(c);
    }
    v
}

/// Builds a string from characters.
pub(crate) fn string_of(cs: &[char]) -> (s: String)
    ensures
        s@ == cs@,
{
    let mut s = String::new();
    let mut i: usize = 0;
    while i < cs.len()
        invariant
            i <= cs@.len(),
            s@ == cs@.take(i as int),
        decreases cs@.len() - i,
    {
        s.push(cs[i]);
        proof {
            assert(cs@.take(i as int + 1) =~= cs@.take(i as int).push(cs@[i as int]));
        }
        i = i + 1;
    }
    assert(cs@.take(cs@.len() as int) =~= cs@);
    s
}

/// The characters of a string literal or `&str`, as a string.
pub(crate) fn string_from(s: &str) -> (r: String)
    ensures
        r@ == s@,
{
    s.to_owned()
}

/// A copy of `s[from..to]`.
pub(crate) fn copy_range(s: &[char], from: usize, to: usize) -> (v: Vec<char>)
    requires
        from <= to <= s@.len(),
    ensures
        v@ == s@.subrange(from as int, to as int),
{
    let mut v: Vec<char> = Vec::new();
    let mut i = from;
    while i < to
        invariant
            from <= i <= to <= s@.len(),
            v@ == s@.subrange(from as int, i as int),
        decreases to - i,
    {
        v.push(s[i]);
        proof {
            assert(s@.subrange(from as int, i + 1) =~= s@.subrange(from as int, i as int).push(
                s@[i as int],
            ));
        }
        i = i + 1;
    }
    v
}

/// Whether two character sequences are equal.
pub(crate) fn same_chars(a: &[char], b: &[char]) -> (r: bool)
    ensures
        r == (a@ == b@),
{
    if a.len() != b.len() {
        return false;
    }
    let mut i: usize = 0;
    while i < a.len()
        invariant
            i <= a@.len(),
            a@.len() == b@.len(),
            forall|k: int| 0 <= k < i ==> a@[k] == b@[k],
        decreases a@.len() - i,
    {
        if a[i] != b[i] {
            return false;
        }
        i = i + 1;
    }
    assert(a@ =~= b@);
    true
}

/// Index of the first `a` or `b` in `s`, or its length when there is none.
pub open spec fn index_of2(s: Seq<char>, a: char, b: char) -> nat
    decreases s.len(),
{
    if s.len() == 0 {
        0
    } else if s[0] == a || s[0] == b {
        0
    } else {
        1 + index_of2(s.drop_first(), a, b)
    }
}

/// `index_of2` lies within `s`, points at a separator when it is inside `s`,
/// and no separator comes before it.
pub proof fn lemma_index_of2_bound(s: Seq<char>, a: char, b: char)
    ensures
        index_of2(s, a, b) <= s.len(),
        index_of2(s, a, b) < s.len() ==> (s[index_of2(s, a, b) as int] == a || s[index_of2(
            s,
            a,
            b,
        ) as int] == b),
        forall|j: int| 0 <= j < index_of2(s, a, b) ==> s[j] != a && s[j] != b,
    decreases s.len(),
{
    if s.len() > 0 && !(s[0] == a || s[0] == b) {
        lemma_index_of2_bound(s.drop_first(), a, b);
        assert forall|j: int| 0 <= j < index_of2(s, a, b) implies s[j] != a && s[j] != b by {
            if j > 0 {
                assert(s[j] == s.drop_first()[j - 1]);
            }
        }
    }
}

/// `index_of2` is the first position holding `a` or `b`.
pub(crate) proof fn lemma_index_of2_at(s: Seq<char>, a: char, b: char, k: int)
    requires
        0 <= k <= s.len(),
        forall|j: int| 0 <= j < k ==> s[j] != a && s[j] != b,
        k < s.len() ==> (s[k] == a || s[k] == b),
    ensures
        index_of2(s, a, b) == k,
    decreases s.len(),
{
    if k > 0 {
        assert(s[0] != a && s[0] != b);
        assert forall|j: int| 0 <= j < k - 1 implies s.drop_first()[j] != a && s.drop_first()[j]
            != b by {
            assert(s.drop_first()[j] == s[j + 1]);
        }
        lemma_index_of2_at(s.drop_first(), a, b, k - 1);
    }
}

/// Splitting two texts joined at a separator gives the pieces of the first,
/// then those of the second.
pub proof fn lemma_segments_join(front: Seq<char>, sep: char, back: Seq<char>, a: char, b: char)
    requires
        sep == a || sep == b,
    ensures
        segments(front + seq![sep] + back, a, b) == segments(front, a, b) + segments(back, a, b),
    decreases front.len(),
{
    let w = front + seq![sep] + back;
    lemma_index_of2_bound(front, a, b);
    let i = index_of2(front, a, b);
    if i < front.len() {
        assert forall|j: int| 0 <= j < i implies w[j] != a && w[j] != b by {
            assert(w[j] == front[j]);
        }
        lemma_index_of2_at(w, a, b, i as int);
        let rest = front.skip(i as int + 1);
        assert(w.take(i as int) =~= front.take(i as int));
        assert(w.skip(i as int + 1) =~= rest + seq![sep] + back);
        lemma_segments_join(rest, sep, back, a, b);
        assert(segments(w, a, b) =~= seq![front.take(i as int)] + segments(rest + seq![sep] + back, a, b));
        assert(segments(front, a, b) =~= seq![front.take(i as int)] + segments(rest, a, b));
        assert(segments(w, a, b) =~= segments(front, a, b) + segments(back, a, b));
    } else {
        assert forall|j: int| 0 <= j < front.len() implies w[j] != a && w[j] != b by {
            assert(w[j] == front[j]);
        }
        lemma_index_of2_at(w, a, b, front.len() as int);
        assert(w.take(front.len() as int) =~= front);
        assert(w.skip(front.len() as int + 1) =~= back);
        assert(segments(front, a, b) =~= seq![front]);
        assert(segments(w, a, b) =~= seq![front] + segments(back, a, b));
    }
}

/// The pieces of `s` between separators `a` or `b`, in order, empty pieces
/// included (as `str::split` gives them).
pub open spec fn segments(s: Seq<char>, a: char, b: char) -> Seq<Seq<char>>
    decreases s.len(),
{
    let i = index_of2(s, a, b);
    if i >= s.len() {
        seq![s]
    } else {
        proof {
            lemma_index_of2_bound(s, a, b);
        }
        seq![s.take(i as int)] + segments(s.skip(i as int + 1), a, b)
    }
}

/// Splits `s` at every `a` or `b`.
pub(crate) fn split2(s: &[char], a: char, b: char) -> (parts: Vec<Vec<char>>)
    ensures
        parts@.len() == segments(s@, a, b).len(),
        forall|i: int| 0 <= i < parts@.len() ==> #[trigger] parts@[i]@ == segments(s@, a, b)[i],
{
    let mut parts: Vec<Vec<char>> = Vec::new();
    let mut cur: Vec<char> = Vec::new();
    let ghost mut done: Seq<Seq<char>> = seq![];
    let mut start: usize = 0;
    let mut i: usize = 0;
    assert(s@.skip(0) =~= s@);
    while i < s.len()
        invariant
            start <= i <= s@.len(),
            cur@ == s@.subrange(start as int, i as int),
            forall|j: int| start <= j < i ==> s@[j] != a && s@[j] != b,
            parts@.len() == done.len(),
            forall|k: int| 0 <= k < parts@.len() ==> #[trigger] parts@[k]@ == done[k],
            segments(s@, a, b) == done + segments(s@.skip(start as int), a, b),
        decreases s@.len() - i,
    {
        let c = s[i];
        if c == a || c == b {
            proof {
                let t = s@.skip(start as int);
                lemma_index_of2_at(t, a, b, i - start);
                assert(t.take(i - start) =~= cur@);
                assert(t.skip(i - start + 1) =~= s@.skip(i + 1));
                assert(segments(t, a, b) == seq![cur@] + segments(s@.skip(i + 1), a, b));
                assert(done + seq![cur@] + segments(s@.skip(i + 1), a, b) =~= done + (seq![cur@]
                    + segments(s@.skip(i + 1), a, b)));
                done = done.push(cur@);
            }
            parts.push(cur);
            cur = Vec::new();
            start = i + 1;
        } else {
            cur.push(c);
        }
        i = i + 1;
    }
    proof {
        let t = s@.skip(start as int);
        lemma_index_of2_at(t, a, b, t.len() as int);
        assert(t =~= cur@);
        done = done.push(cur@);
    }
    parts.push(cur);
    parts
}

/// Unicode White_Space, as `char::is_whitespace` tests it.
pub open spec fn is_white_space(c: char) -> bool {
    ||| c == '\t'
    ||| c == '\n'
    ||| c == '\u{0B}'
    ||| c == '\u{0C}'
    ||| c == '\r'
    ||| c == ' '
    ||| c == '\u{85}'
    ||| c == '\u{A0}'
    ||| c == '\u{1680}'
    ||| ('\u{2000}' <= c && c <= '\u{200A}')
    ||| c == '\u{2028}'
    ||| c == '\u{2029}'
    ||| c == '\u{202F}'
    ||| c == '\u{205F}'
    ||| c == '\u{3000}'
}

pub(crate) fn is_white_space_exec(c: char) -> (r: bool)
    ensures
        r == is_white_space(c),
{
    c == '\t' || c == '\n' || c == '\u{0B}' || c == '\u{0C}' || c == '\r' || c == ' ' || c
        == '\u{85}' || c == '\u{A0}' || c == '\u{1680}' || ('\u{2000}' <= c && c <= '\u{200A}')
        || c == '\u{2028}' || c == '\u{2029}' || c == '\u{202F}' || c == '\u{205F}' || c
        == '\u{3000}'
}

/// Number of leading white-space characters.
pub open spec fn lead_ws(s: Seq<char>) -> nat
    decreases s.len(),
{
    if s.len() > 0 && is_white_space(s[0]) {
        1 + lead_ws(s.drop_first())
    } else {
        0
    }
}

/// Number of trailing white-space characters.
pub open spec fn trail_ws(s: Seq<char>) -> nat
    decreases s.len(),
{
    if s.len() > 0 && is_white_space(s.last()) {
        1 + trail_ws(s.drop_last())
    } else {
        0
    }
}

/// `s` without leading and trailing white space, as `str::trim` gives it.
pub open spec fn trim(s: Seq<char>) -> Seq<char> {
    let t = s.skip(lead_ws(s) as int);
    t.take(t.len() - trail_ws(t))
}

/// Text whose first and last characters are not white space is its own trim.
pub proof fn lemma_trim_of_plain(s: Seq<char>)
    requires
        s.len() > 0,
        !is_white_space(s[0]),
        !is_white_space(s.last()),
    ensures
        trim(s) == s,
{
    assert(lead_ws(s) == 0);
    let t = s.skip(0);
    assert(t =~= s);
    assert(trail_ws(t) == 0);
    assert(t.take(t.len() as int) =~= s);
}

/// Text without a separator is one piece.
pub proof fn lemma_segments_single(s: Seq<char>, a: char, b: char)
    requires
        forall|j: int| 0 <= j < s.len() ==> s[j] != a && s[j] != b,
    ensures
        segments(s, a, b) == seq![s],
{
    lemma_index_of2_at(s, a, b, s.len() as int);
}

proof fn lemma_lead_ws(s: Seq<char>, k: int)
    requires
        0 <= k <= s.len(),
        forall|j: int| 0 <= j < k ==> is_white_space(s[j]),
        k < s.len() ==> !is_white_space(s[k]),
    ensures
        lead_ws(s) == k,
    decreases s.len(),
{
    if k > 0 {
        assert forall|j: int| 0 <= j < k - 1 implies is_white_space(s.drop_first()[j]) by {
            assert(s.drop_first()[j] == s[j + 1]);
        }
        lemma_lead_ws(s.drop_first(), k - 1);
    }
}

proof fn lemma_trail_ws(s: Seq<char>, k: int)
    requires
        0 <= k <= s.len(),
        forall|j: int| s.len() - k <= j < s.len() ==> is_white_space(s[j]),
        k < s.len() ==> !is_white_space(s[s.len() - k - 1]),
    ensures
        trail_ws(s) == k,
    decreases s.len(),
{
    if k > 0 {
        assert forall|j: int| s.len() - 1 - (k - 1) <= j < s.len() - 1 implies is_white_space(
            s.drop_last()[j],
        ) by {
            assert(s.drop_last()[j] == s[j]);
        }
        lemma_trail_ws(s.drop_last(), k - 1);
    }
}

/// The bounds `(start, end)` of the trimmed part of `s[from..to]`.
pub(crate) fn trim_bounds(s: &[char], from: usize, to: usize) -> (r: (usize, usize))
    requires
        from <= to <= s@.len(),
    ensures
        from <= r.0 <= r.1 <= to,
        s@.subrange(r.0 as int, r.1 as int) == trim(s@.subrange(from as int, to as int)),
{
    let ghost sub = s@.subrange(from as int, to as int);
    let mut b = from;
    while b < to && is_white_space_exec(s[b])
        invariant
            from <= b <= to <= s@.len(),
            sub == s@.subrange(from as int, to as int),
            forall|j: int| from <= j < b ==> is_white_space(s@[j]),
        decreases to - b,
    {
        b = b + 1;
    }
    proof {
        lemma_lead_ws(sub, b - from);
    }
    let mut e = to;
    while e > b && is_white_space_exec(s[e - 1])
        invariant
            from <= b <= e <= to <= s@.len(),
            forall|j: int| e <= j < to ==> is_white_space(s@[j]),
        decreases e - b,
    {
        e = e - 1;
    }
    proof {
        let t = sub.skip(b - from);
        assert(t =~= s@.subrange(b as int, to as int));
        lemma_trail_ws(t, to - e);
        assert(t.take(t.len() - trail_ws(t)) =~= s@.subrange(b as int, e as int));
    }
    (b, e)
}

/// `p` starts `s`.
pub open spec fn has_prefix(s: Seq<char>, p: Seq<char>) -> bool {
    p.len() <= s.len() && s.take(p.len() as int) == p
}

/// `p` ends `s`.
pub open spec fn has_suffix(s: Seq<char>, p: Seq<char>) -> bool {
    p.len() <= s.len() && s.skip(s.len() - p.len()) == p
}

/// `p` occurs somewhere in `s` (the empty string occurs everywhere).
pub open spec fn occurs_in(s: Seq<char>, p: Seq<char>) -> bool {
    exists|i: int| 0 <= i <= s.len() - p.len() && #[trigger] s.subrange(i, i + p.len()) == p
}

/// Whether `s[at..]` starts with `p`.
pub(crate) fn matches_at(s: &[char], at: usize, p: &[char]) -> (r: bool)
    requires
        at <= s@.len(),
    ensures
        r == (at + p@.len() <= s@.len() && s@.subrange(at as int, at + p@.len()) == p@),
{
    if p.len() > s.len() - at {
        return false;
    }
    let mut j: usize = 0;
    while j < p.len()
        invariant
            j <= p@.len(),
            at + p@.len() <= s@.len(),
            s@.len() <= usize::MAX,
            forall|k: int| 0 <= k < j ==> s@[at + k] == p@[k],
        decreases p@.len() - j,
    {
        if s[at + j] != p[j] {
            assert(s@.subrange(at as int, at + p@.len())[j as int] != p@[j as int]);
            return false;
        }
        j = j + 1;
    }
    assert(s@.subrange(at as int, at + p@.len()) =~= p@);
    true
}

/// Whether `p` occurs in `s`.
pub(crate) fn contains(s: &[char], p: &[char]) -> (r: bool)
    ensures
        r == occurs_in(s@, p@),
{
    if p.len() > s.len() {
        return false;
    }
    let limit = s.len() - p.len();
    let mut i: usize = 0;
    loop
        invariant
            p@.len() <= s@.len(),
            limit == s@.len() - p@.len(),
            i <= limit,
            forall|k: int| 0 <= k < i ==> #[trigger] s@.subrange(k, k + p@.len()) != p@,
        decreases limit - i,
    {
        if matches_at(s, i, p) {
            return true;
        }
        if i == limit {
            return false;
        }
        i = i + 1;
    }
}

/// Whether `s` starts with `p`.
pub(crate) fn starts_with(s: &[char], p: &[char]) -> (r: bool)
    ensures
        r == has_prefix(s@, p@),
{
    let r = matches_at(s, 0, p);
    proof {
        if p@.len() <= s@.len() {
            assert(s@.subrange(0, p@.len() as int) =~= s@.take(p@.len() as int));
        }
    }
    r
}

/// Whether `s` ends with `p`.
pub(crate) fn ends_with(s: &[char], p: &[char]) -> (r: bool)
    ensures
        r == has_suffix(s@, p@),
{
    if p.len() > s.len() {
        return false;
    }
    let r = matches_at(s, s.len() - p.len(), p);
    proof {
        assert(s@.subrange(s@.len() - p@.len(), s@.len() as int) =~= s@.skip(
            s@.len() - p@.len(),
        ));
    }
    r
}

/// The value of a decimal digit character.
pub open spec fn digit_value(c: char) -> int {
    c as int - 48
}

pub open spec fn is_digit(c: char) -> bool {
    '0' <= c && c <= '9'
}

/// The number that a string of decimal digits denotes.
pub open spec fn decimal_value(s: Seq<char>) -> nat
    decreases s.len(),
{
    if s.len() == 0 {
        0
    } else {
        (10 * decimal_value(s.drop_last()) + digit_value(s.last())) as nat
    }
}

/// `s` without one leading `+` sign.
pub open spec fn unsigned_digits(s: Seq<char>) -> Seq<char> {
    if s.len() > 0 && s[0] == '+' {
        s.drop_first()
    } else {
        s
    }
}

/// What `str::parse::<u32>` gives: an optional `+`, then at least one decimal
/// digit and nothing else, denoting a number that fits in 32 bits.
pub open spec fn parse_u32(s: Seq<char>) -> Option<u32> {
    let digits = unsigned_digits(s);
    if digits.len() > 0 && (forall|i: int| 0 <= i < digits.len() ==> #[trigger] is_digit(digits[i]))
        && decimal_value(digits) <= u32::MAX {
        Some(decimal_value(digits) as u32)
    } else {
        None
    }
}

/// The decimal digit character for `d` (below ten).
pub open spec fn digit_char(d: nat) -> char {
    (d + 48) as char
}

/// The decimal numeral of `n`, without leading zeros (`0` for zero).
pub open spec fn decimal_digits(n: nat) -> Seq<char>
    decreases n,
{
    if n < 10 {
        seq![digit_char(n)]
    } else {
        decimal_digits(n / 10).push(digit_char(n % 10))
    }
}

proof fn lemma_digit_char(d: nat)
    requires
        d < 10,
    ensures
        is_digit(digit_char(d)),
        digit_value(digit_char(d)) == d,
{
    assert(digit_char(d) as int == d + 48);
}

/// The numeral of `n` is a non-empty string of decimal digits that denotes `n`.
pub proof fn lemma_decimal_digits(n: nat)
    ensures
        decimal_digits(n).len() > 0,
        forall|i: int| 0 <= i < decimal_digits(n).len() ==> #[trigger] is_digit(decimal_digits(n)[i]),
        decimal_value(decimal_digits(n)) == n,
    decreases n,
{
    if n >= 10 {
        lemma_decimal_digits(n / 10);
        lemma_digit_char(n % 10);
        let d = decimal_digits(n);
        assert(d.drop_last() =~= decimal_digits(n / 10));
        assert(d.last() == digit_char(n % 10));
        assert forall|i: int| 0 <= i < d.len() implies #[trigger] is_digit(d[i]) by {
            if i < d.len() - 1 {
                assert(d[i] == decimal_digits(n / 10)[i]);
            }
        }
        assert(10 * (n / 10) + n % 10 == n) by (nonlinear_arith);
    } else {
        lemma_digit_char(n);
        let d = decimal_digits(n);
        assert(d.drop_last() =~= Seq::<char>::empty());
        assert(decimal_value(d.drop_last()) == 0);
        assert(d.last() == digit_char(n));
    }
}

/// Reading the numeral of a 32-bit number back gives that number.
pub proof fn lemma_parse_decimal_digits(n: u32)
    ensures
        parse_u32(decimal_digits(n as nat)) == Some(n),
{
    lemma_decimal_digits(n as nat);
    let d = decimal_digits(n as nat);
    assert(is_digit(d[0]));
    assert(unsigned_digits(d) == d);
}

proof fn lemma_decimal_value_grows(s: Seq<char>, k: int)
    requires
        0 <= k <= s.len(),
        forall|i: int| 0 <= i < s.len() ==> #[trigger] is_digit(s[i]),
    ensures
        decimal_value(s.take(k)) <= decimal_value(s),
    decreases s.len() - k,
{
    if k < s.len() {
        lemma_decimal_value_grows(s, k + 1);
        assert(s.take(k + 1).drop_last() =~= s.take(k));
        assert(is_digit(s[k]));
        assert(s.take(k + 1).last() == s[k]);
        assert(decimal_value(s.take(k + 1)) == 10 * decimal_value(s.take(k)) + digit_value(s[k]));
    } else {
        assert(s.take(k) =~= s);
    }
}

/// Parses `s[from..to]` as `str::parse::<u32>` does.
pub(crate) fn parse_u32_in(s: &[char], from: usize, to: usize) -> (r: Option<u32>)
    requires
        from <= to <= s@.len(),
    ensures
        r == parse_u32(s@.subrange(from as int, to as int)),
{
    let ghost sub = s@.subrange(from as int, to as int);
    let mut b = from;
    if b < to && s[b] == '+' {
        b = b + 1;
    }
    let ghost digits = s@.subrange(b as int, to as int);
    assert(digits =~= unsigned_digits(sub));
    if b == to {
        return None;
    }
    let mut i = b;
    while i < to
        invariant
            b <= i <= to <= s@.len(),
            digits == s@.subrange(b as int, to as int),
            digits == unsigned_digits(s@.subrange(from as int, to as int)),
            forall|j: int| b <= j < i ==> is_digit(s@[j]),
        decreases to - i,
    {
        if !('0' <= s[i] && s[i] <= '9') {
            assert(digits[i - b] == s@[i as int]);
            assert(!is_digit(digits[i - b]));
            assert(!(forall|j: int| 0 <= j < digits.len() ==> #[trigger] is_digit(digits[j])));
            return None;
        }
        i = i + 1;
    }
    assert forall|j: int| 0 <= j < digits.len() implies #[trigger] is_digit(digits[j]) by {
        assert(digits[j] == s@[b + j]);
    }
    let mut acc: u64 = 0;
    let mut i = b;
    while i < to
        invariant
            b <= i <= to <= s@.len(),
            digits == s@.subrange(b as int, to as int),
            digits == unsigned_digits(s@.subrange(from as int, to as int)),
            forall|j: int| 0 <= j < digits.len() ==> #[trigger] is_digit(digits[j]),
            acc <= u32::MAX,
            acc == decimal_value(digits.take(i - b)),
        decreases to - i,
    {
        assert(digits[i - b] == s@[i as int]);
        assert(is_digit(digits[i - b]));
        let d = (s[i] as u32 - 48) as u64;
        assert(digits.take(i - b + 1).drop_last() =~= digits.take(i - b));
        assert(digits.take(i - b + 1).last() == s@[i as int]);
        assert(decimal_value(digits.take(i - b + 1)) == 10 * decimal_value(digits.take(i - b))
            + digit_value(s@[i as int]));
        let next = acc * 10 + d;
        if next > 0xFFFF_FFFF {
            proof {
                lemma_decimal_value_grows(digits, i - b + 1);
            }
            return None;
        }
        acc = next;
        i = i + 1;
    }
    assert(digits.take(to - b) =~= digits);
    Some(acc as u32)
}

/// Every piece that splitting gives occurs in the text split.
pub proof fn lemma_segment_occurs(s: Seq<char>, a: char, b: char, k: int)
    requires
        0 <= k < segments(s, a, b).len(),
    ensures
        occurs_in(s, segments(s, a, b)[k]),
    decreases s.len(),
{
    let i = index_of2(s, a, b);
    lemma_index_of2_bound(s, a, b);
    let p = segments(s, a, b)[k];
    if i >= s.len() {
        assert(p == s);
        assert(s.subrange(0int, 0int + p.len()) =~= p);
    } else if k == 0 {
        assert(p == s.take(i as int));
        assert(s.subrange(0int, 0int + p.len()) =~= p);
    } else {
        let rest = s.skip(i as int + 1);
        assert(p == segments(rest, a, b)[k - 1]);
        lemma_segment_occurs(rest, a, b, k - 1);
        let j = choose|j: int|
            0 <= j <= rest.len() - p.len() && #[trigger] rest.subrange(j, j + p.len()) == p;
        let at = j + i + 1;
        assert(s.subrange(at, at + p.len()) =~= rest.subrange(j, j + p.len()));
    }
}

} // verus!

//! Icon lookup decisions: reading the icon name out of a `.desktop` entry and
//! the icon theme out of GTK settings, ranking candidate icon files by the
//! size in their path, driving the lookup of an app's icon, and turning icon
//! files and bitmaps into RGBA pixels.

use vstd::prelude::*;

use crate::text::{
    chars_of, copy_range, decimal_digits, ends_with, has_prefix, has_suffix, index_of2, is_digit,
    is_white_space, lemma_decimal_digits, lemma_segments_single, lemma_trim_of_plain, lemma_index_of2_at, lemma_index_of2_bound, lemma_parse_decimal_digits,
    lemma_segment_occurs, lemma_segments_join, parse_u32, parse_u32_in, same_chars, segments, split2,
    starts_with, string_from, string_of, trim, trim_bounds, unsigned_digits,
};

verus! {

/// The size that one path component names: `WxH` with equal sides gives
/// `W`; a component without `x` gives its number; anything else gives none.
pub open spec fn part_size(part: Seq<char>) -> Option<u32> {
    let x = index_of2(part, 'x', 'x');
    if x < part.len() {
        match (parse_u32(part.take(x as int)), parse_u32(part.skip(x as int + 1))) {
            (Some(w), Some(h)) => if w == h {
                Some(w)
            } else {
                None
            },
            _ => None,
        }
    } else {
        parse_u32(part)
    }
}

/// The size named by the first component, in order, that names one.
pub open spec fn first_size(parts: Seq<Seq<char>>) -> Option<u32>
    decreases parts.len(),
{
    if parts.len() == 0 {
        None
    } else {
        match part_size(parts[0]) {
            Some(n) => Some(n),
            None => first_size(parts.drop_first()),
        }
    }
}

/// The icon size that a path names (components split at `/` and `\`).
pub open spec fn spec_size_from_path(path: Seq<char>) -> Option<u32> {
    first_size(segments(path, '/', '\\'))
}

/// Text without a decimal digit is no number.
proof fn lemma_no_digit_no_number(t: Seq<char>)
    requires
        forall|i: int| 0 <= i < t.len() ==> !#[trigger] is_digit(t[i]),
    ensures
        parse_u32(t) is None,
{
    let d = unsigned_digits(t);
    if d.len() > 0 {
        if t.len() > 0 && t[0] == '+' {
            assert(d[0] == t[1]);
        }
        assert(!is_digit(d[0]));
    }
}

/// A path component without a decimal digit names no size.
proof fn lemma_no_digit_no_size(part: Seq<char>)
    requires
        forall|i: int| 0 <= i < part.len() ==> !#[trigger] is_digit(part[i]),
    ensures
        part_size(part) is None,
{
    lemma_index_of2_bound(part, 'x', 'x');
    let x = index_of2(part, 'x', 'x');
    if x < part.len() {
        let front = part.take(x as int);
        assert forall|i: int| 0 <= i < front.len() implies !#[trigger] is_digit(front[i]) by {
            assert(front[i] == part[i]);
        }
        lemma_no_digit_no_number(front);
    } else {
        lemma_no_digit_no_number(part);
    }
}

/// Components that name no size are passed over.
proof fn lemma_first_size_skips(skipped: Seq<Seq<char>>, rest: Seq<Seq<char>>)
    requires
        forall|k: int| 0 <= k < skipped.len() ==> #[trigger] part_size(skipped[k]) is None,
    ensures
        first_size(skipped + rest) == first_size(rest),
    decreases skipped.len(),
{
    if skipped.len() > 0 {
        assert((skipped + rest)[0] == skipped[0]);
        assert((skipped + rest).drop_first() =~= skipped.drop_first() + rest);
        assert forall|k: int| 0 <= k < skipped.drop_first().len() implies #[trigger] part_size(
            skipped.drop_first()[k],
        ) is None by {
            assert(skipped.drop_first()[k] == skipped[k + 1]);
        }
        lemma_first_size_skips(skipped.drop_first(), rest);
    } else {
        assert(skipped + rest =~= rest);
    }
}

/// For every 32-bit `n`, the component `n` and the component `nxn` (such as
/// `48` or `512x512`) name the size `n`; and a path whose components before
/// such an `nxn` component hold no digit (such as
/// `/usr/share/icons/hicolor/512x512/apps/firefox.png`) has the size `n`,
/// whatever follows.
pub proof fn lemma_square_size_is_read(n: u32, before: Seq<char>, after: Seq<char>)
    requires
        forall|i: int| 0 <= i < before.len() ==> !#[trigger] is_digit(before[i]),
    ensures
        part_size(decimal_digits(n as nat)) == Some(n),
        part_size(decimal_digits(n as nat) + seq!['x'] + decimal_digits(n as nat)) == Some(n),
        spec_size_from_path(
            before + seq!['/'] + decimal_digits(n as nat) + seq!['x'] + decimal_digits(n as nat) + seq![
                '/',
            ] + after,
        ) == Some(n),
{
    let d = decimal_digits(n as nat);
    lemma_decimal_digits(n as nat);
    lemma_parse_decimal_digits(n);
    assert forall|j: int| 0 <= j < d.len() implies d[j] != 'x' && d[j] != '/' && d[j] != '\\' by {
        assert(is_digit(d[j]));
    }
    lemma_index_of2_at(d, 'x', 'x', d.len() as int);
    let sq = d + seq!['x'] + d;
    assert forall|j: int| 0 <= j < d.len() implies sq[j] != 'x' by {
        assert(sq[j] == d[j]);
    }
    lemma_index_of2_at(sq, 'x', 'x', d.len() as int);
    assert(sq.take(d.len() as int) =~= d);
    assert(sq.skip(d.len() as int + 1) =~= d);
    assert forall|j: int| 0 <= j < sq.len() implies sq[j] != '/' && sq[j] != '\\' by {
        if j < d.len() {
            assert(sq[j] == d[j]);
        } else if j > d.len() {
            assert(sq[j] == d[j - d.len() - 1]);
        }
    }
    lemma_index_of2_at(sq, '/', '\\', sq.len() as int);
    assert(segments(sq, '/', '\\') =~= seq![sq]);
    let tail = sq + seq!['/'] + after;
    lemma_segments_join(sq, '/', after, '/', '\\');
    lemma_segments_join(before, '/', tail, '/', '\\');
    let path = before + seq!['/'] + d + seq!['x'] + d + seq!['/'] + after;
    assert(path =~= before + seq!['/'] + tail);
    let front = segments(before, '/', '\\');
    assert forall|k: int| 0 <= k < front.len() implies #[trigger] part_size(front[k]) is None by {
        lemma_segment_occurs(before, '/', '\\', k);
        let p = front[k];
        let at = choose|at: int|
            0 <= at <= before.len() - p.len() && #[trigger] before.subrange(at, at + p.len()) == p;
        assert forall|i: int| 0 <= i < p.len() implies !#[trigger] is_digit(p[i]) by {
            assert(p[i] == before[at + i]);
        }
        lemma_no_digit_no_size(p);
    }
    let rest = seq![sq] + segments(after, '/', '\\');
    assert(segments(path, '/', '\\') =~= front + rest);
    lemma_first_size_skips(front, rest);
    assert(rest[0] == sq);
}

/// A component `wxh` with unequal sides (such as `16x32`) names no size.
pub proof fn lemma_unequal_sides_name_no_size(w: u32, h: u32)
    requires
        w != h,
    ensures
        part_size(decimal_digits(w as nat) + seq!['x'] + decimal_digits(h as nat)) is None,
{
    let dw = decimal_digits(w as nat);
    let dh = decimal_digits(h as nat);
    lemma_decimal_digits(w as nat);
    lemma_parse_decimal_digits(w);
    lemma_parse_decimal_digits(h);
    let part = dw + seq!['x'] + dh;
    assert forall|j: int| 0 <= j < dw.len() implies part[j] != 'x' by {
        assert(part[j] == dw[j]);
        assert(is_digit(dw[j]));
    }
    lemma_index_of2_at(part, 'x', 'x', dw.len() as int);
    assert(part.take(dw.len() as int) =~= dw);
    assert(part.skip(dw.len() as int + 1) =~= dh);
}

/// Index of the first `a` or `b` in `s[from..]`, relative to `from`.
pub(crate) fn find2(s: &[char], from: usize, a: char, b: char) -> (i: usize)
    requires
        from <= s@.len(),
    ensures
        i == index_of2(s@.skip(from as int), a, b),
{
    let mut i = from;
    while i < s.len() && s[i] != a && s[i] != b
        invariant
            from <= i <= s@.len(),
            forall|j: int| from <= j < i ==> s@[j] != a && s@[j] != b,
        decreases s@.len() - i,
    {
        i = i + 1;
    }
    proof {
        lemma_index_of2_at(s@.skip(from as int), a, b, i - from);
    }
    i - from
}

fn part_size_exec(part: &[char]) -> (r: Option<u32>)
    ensures
        r == part_size(part@),
{
    let x = find2(part, 0, 'x', 'x');
    assert(part@.skip(0) =~= part@);
    if x < part.len() {
        assert(part@.subrange(0, x as int) =~= part@.take(x as int));
        assert(part@.subrange(x + 1, part@.len() as int) =~= part@.skip(x + 1));
        match (parse_u32_in(part, 0, x), parse_u32_in(part, x + 1, part.len())) {
            (Some(w), Some(h)) => if w == h {
                Some(w)
            } else {
                None
            },
            _ => None,
        }
    } else {
        assert(part@.subrange(0, part@.len() as int) =~= part@);
        parse_u32_in(part, 0, part.len())
    }
}

/// The icon size named in a path: the first component that is `NxN` (equal
/// sides) or a bare number, read as `str::parse::<u32>` reads numbers.
pub fn extract_size_from_path(path: &str) -> (r: Option<u32>)
    ensures
        r == spec_size_from_path(path@),
{
    let cs = chars_of(path);
    let parts = split2(cs.as_slice(), '/', '\\');
    let ghost all = segments(path@, '/', '\\');
    let mut i: usize = 0;
    assert(all.skip(0) =~= all);
    while i < parts.len()
        invariant
            i <= parts@.len(),
            parts@.len() == all.len(),
            all == segments(path@, '/', '\\'),
            forall|k: int| 0 <= k < parts@.len() ==> #[trigger] parts@[k]@ == all[k],
            first_size(all) == first_size(all.skip(i as int)),
        decreases parts@.len() - i,
    {
        let r = part_size_exec(parts[i].as_slice());
        assert(all.skip(i as int).drop_first() =~= all.skip(i + 1));
        assert(all.skip(i as int)[0] == parts@[i as int]@);
        if r.is_some() {
            return r;
        }
        i = i + 1;
    }
    None
}

/// The name of a `[Section]` header line.
pub open spec fn section_of(line: Seq<char>) -> Option<Seq<char>> {
    if has_prefix(line, "["@) && has_suffix(line, "]"@) && line.len() >= 2 {
        Some(line.subrange(1, line.len() - 1))
    } else {
        None
    }
}

/// The trimmed value of an `Icon=` line.
pub open spec fn icon_key_value(line: Seq<char>) -> Option<Seq<char>> {
    if has_prefix(line, "Icon="@) {
        Some(trim(line.skip("Icon="@.len() as int)))
    } else {
        None
    }
}

/// Reads lines in order, tracking whether they lie in the `[Desktop Entry]`
/// section: the first non-empty `Icon=` value there wins; failing that, the
/// first non-empty `Icon=` value anywhere.
pub open spec fn scan_desktop(lines: Seq<Seq<char>>, in_entry: bool, fallback: Option<Seq<char>>) -> Option<
    Seq<char>,
>
    decreases lines.len(),
{
    if lines.len() == 0 {
        fallback
    } else {
        let line = trim(lines[0]);
        let in_entry2 = match section_of(line) {
            Some(sec) => sec == "Desktop Entry"@,
            None => in_entry,
        };
        match icon_key_value(line) {
            Some(v) => if v.len() > 0 {
                if in_entry2 {
                    Some(v)
                } else {
                    scan_desktop(
                        lines.drop_first(),
                        in_entry2,
                        if fallback is None {
                            Some(v)
                        } else {
                            fallback
                        },
                    )
                }
            } else {
                scan_desktop(lines.drop_first(), in_entry2, fallback)
            },
            None => scan_desktop(lines.drop_first(), in_entry2, fallback),
        }
    }
}

/// The icon name a `.desktop` file gives, its lines being the pieces between
/// newlines, each read trimmed.
pub open spec fn spec_icon_name_from_desktop(content: Seq<char>) -> Option<Seq<char>> {
    scan_desktop(segments(content, '\n', '\n'), false, None)
}

/// One line of text: not empty, with no newline, and not starting or ending
/// with white space.
pub open spec fn plain_line(v: Seq<char>) -> bool {
    &&& v.len() > 0
    &&& forall|j: int| 0 <= j < v.len() ==> #[trigger] v[j] != '\n'
    &&& !is_white_space(v[0])
    &&& !is_white_space(v.last())
}

proof fn lemma_icon_line(v: Seq<char>)
    requires
        plain_line(v),
    ensures
        plain_line("Icon="@ + v),
        trim("Icon="@ + v) == "Icon="@ + v,
        section_of("Icon="@ + v) is None,
        icon_key_value("Icon="@ + v) == Some(v),
{
    reveal_strlit("Icon=");
    reveal_strlit("[");
    let l = "Icon="@ + v;
    assert(l[0] == 'I');
    assert(l.last() == v.last());
    assert forall|j: int| 0 <= j < l.len() implies #[trigger] l[j] != '\n' by {
        if j >= 5 {
            assert(l[j] == v[j - 5]);
        }
    }
    lemma_trim_of_plain(l);
    lemma_trim_of_plain(v);
    assert(l.take(1) != "["@) by {
        assert(l.take(1)[0] == 'I');
    }
    assert(l.take(5) =~= "Icon="@);
    assert(l.skip(5) =~= v);
}

proof fn lemma_entry_header()
    ensures
        plain_line("[Desktop Entry]"@),
        trim("[Desktop Entry]"@) == "[Desktop Entry]"@,
        section_of("[Desktop Entry]"@) == Some("Desktop Entry"@),
        icon_key_value("[Desktop Entry]"@) is None,
{
    reveal_strlit("[Desktop Entry]");
    reveal_strlit("Desktop Entry");
    reveal_strlit("Icon=");
    reveal_strlit("[");
    reveal_strlit("]");
    let l = "[Desktop Entry]"@;
    lemma_trim_of_plain(l);
    assert(l.take(1) =~= "["@);
    assert(l.skip(l.len() - 1) =~= "]"@);
    assert(l.subrange(1, l.len() - 1) =~= "Desktop Entry"@);
    assert(l.take(5) != "Icon="@) by {
        assert(l.take(5)[0] == '[');
    }
}

proof fn lemma_line_then(l: Seq<char>, after: Seq<char>)
    requires
        forall|j: int| 0 <= j < l.len() ==> #[trigger] l[j] != '\n',
    ensures
        segments(l + "\n"@ + after, '\n', '\n') == seq![l] + segments(after, '\n', '\n'),
{
    reveal_strlit("\n");
    assert(l + "\n"@ + after =~= l + seq!['\n'] + after);
    lemma_segments_join(l, '\n', after, '\n', '\n');
    lemma_segments_single(l, '\n', '\n');
}

proof fn lemma_scan_entry_then_icon(v: Seq<char>, rest: Seq<Seq<char>>, fallback: Option<Seq<char>>)
    requires
        plain_line(v),
    ensures
        scan_desktop(seq!["[Desktop Entry]"@, "Icon="@ + v] + rest, false, fallback) == Some(v),
{
    lemma_icon_line(v);
    lemma_entry_header();
    let lines = seq!["[Desktop Entry]"@, "Icon="@ + v] + rest;
    let tail = seq!["Icon="@ + v] + rest;
    assert(lines[0] == "[Desktop Entry]"@);
    assert(lines.drop_first() =~= tail);
    assert(tail[0] == "Icon="@ + v);
    assert(scan_desktop(tail, true, fallback) == Some(v));
}

/// The `Icon=` value of the `[Desktop Entry]` section is the icon name, also
/// when an `Icon=` line of no section comes before it; with no section at
/// all, the first `Icon=` value is used. Lines after these do not matter.
pub proof fn lemma_desktop_entry_icon_wins(v: Seq<char>, w: Seq<char>, after: Seq<char>)
    requires
        plain_line(v),
        plain_line(w),
    ensures
        spec_icon_name_from_desktop("[Desktop Entry]"@ + "\n"@ + "Icon="@ + v + "\n"@ + after)
            == Some(v),
        spec_icon_name_from_desktop(
            "Icon="@ + w + "\n"@ + "[Desktop Entry]"@ + "\n"@ + "Icon="@ + v + "\n"@ + after,
        ) == Some(v),
        spec_icon_name_from_desktop("Icon="@ + w) == Some(w),
{
    lemma_icon_line(v);
    lemma_icon_line(w);
    lemma_entry_header();
    let head = "[Desktop Entry]"@;
    let lv = "Icon="@ + v;
    let lw = "Icon="@ + w;
    let nl = "\n"@;
    let rest = segments(after, '\n', '\n');
    let c1 = head + nl + lv + nl + after;
    lemma_line_then(lv, after);
    lemma_line_then(head, lv + nl + after);
    assert(c1 =~= head + nl + (lv + nl + after));
    assert(segments(c1, '\n', '\n') =~= seq![head, lv] + rest);
    lemma_scan_entry_then_icon(v, rest, None);
    lemma_scan_entry_then_icon(v, rest, Some(w));
    let c2 = lw + nl + head + nl + lv + nl + after;
    lemma_line_then(lw, c1);
    assert(c2 =~= lw + nl + c1);
    let lines2 = seq![lw] + (seq![head, lv] + rest);
    assert(segments(c2, '\n', '\n') =~= lines2);
    assert(lines2[0] == lw);
    assert(lines2.drop_first() =~= seq![head, lv] + rest);
    assert(scan_desktop(lines2, false, None) == Some(v));
    lemma_segments_single(lw, '\n', '\n');
    assert(seq![lw].drop_first() =~= Seq::<Seq<char>>::empty());
    assert(scan_desktop(Seq::<Seq<char>>::empty(), false, Some(w)) == Some(w));
    assert(scan_desktop(seq![lw], false, None) == Some(w));
    assert("[Desktop Entry]"@ + nl + "Icon="@ + v + nl + after =~= c1);
    assert("Icon="@ + w + nl + "[Desktop Entry]"@ + nl + "Icon="@ + v + nl + after =~= c2);
}

/// Reads the icon name out of the text of a `.desktop` file: the `Icon=` key
/// of the `[Desktop Entry]` section, else the first `Icon=` key elsewhere.
pub fn icon_name_from_desktop(content: &str) -> (r: Option<String>)
    ensures
        match r {
            Some(name) => spec_icon_name_from_desktop(content@) == Some(name@),
            None => spec_icon_name_from_desktop(content@) is None,
        },
{
    let cs = chars_of(content);
    let lines = split2(cs.as_slice(), '\n', '\n');
    let ghost all = segments(content@, '\n', '\n');
    let open_bracket = chars_of("[");
    let close_bracket = chars_of("]");
    let icon_key = chars_of("Icon=");
    let entry = chars_of("Desktop Entry");
    let mut in_entry = false;
    let mut fallback: Option<Vec<char>> = None;
    let mut i: usize = 0;
    assert(all.skip(0) =~= all);
    while i < lines.len()
        invariant
            i <= lines@.len(),
            lines@.len() == all.len(),
            all == segments(content@, '\n', '\n'),
            forall|k: int| 0 <= k < lines@.len() ==> #[trigger] lines@[k]@ == all[k],
            open_bracket@ == "["@,
            close_bracket@ == "]"@,
            icon_key@ == "Icon="@,
            entry@ == "Desktop Entry"@,
            spec_icon_name_from_desktop(content@) == scan_desktop(
                all.skip(i as int),
                in_entry,
                match fallback {
                    Some(v) => Some(v@),
                    None => None,
                },
            ),
        decreases lines@.len() - i,
    {
        let line = lines[i].as_slice();
        let ghost rest = all.skip(i as int);
        assert(rest[0] == line@);
        assert(rest.drop_first() =~= all.skip(i + 1));
        let (b, e) = trim_bounds(line, 0, line.len());
        assert(line@.subrange(0, line@.len() as int) =~= line@);
        let t = copy_range(line, b, e);
        if starts_with(t.as_slice(), open_bracket.as_slice()) && ends_with(
            t.as_slice(),
            close_bracket.as_slice(),
        ) && t.len() >= 2 {
            let sec = copy_range(t.as_slice(), 1, t.len() - 1);
            in_entry = same_chars(sec.as_slice(), entry.as_slice());
        }
        if starts_with(t.as_slice(), icon_key.as_slice()) {
            let (vb, ve) = trim_bounds(t.as_slice(), icon_key.len(), t.len());
            assert(t@.subrange(icon_key@.len() as int, t@.len() as int) =~= t@.skip(
                icon_key@.len() as int,
            ));
            if vb < ve {
                let v = copy_range(t.as_slice(), vb, ve);
                if in_entry {
                    return Some(string_of(v.as_slice()));
                } else if fallback.is_none() {
                    fallback = Some(v);
                }
            }
        }
        i = i + 1;
    }
    match fallback {
        Some(v) => Some(string_of(v.as_slice())),
        None => None,
    }
}

/// The trimmed value of a `gtk-icon-theme-name = ...` line, when not empty.
pub open spec fn theme_line_value(line: Seq<char>) -> Option<Seq<char>> {
    let t = trim(line);
    let eq = index_of2(t, '=', '=');
    if has_prefix(t, "gtk-icon-theme-name"@) && eq < t.len() {
        let v = trim(t.skip(eq as int + 1));
        if v.len() > 0 {
            Some(v)
        } else {
            None
        }
    } else {
        None
    }
}

/// The first line, in order, that gives a theme name.
pub open spec fn first_theme_value(lines: Seq<Seq<char>>) -> Option<Seq<char>>
    decreases lines.len(),
{
    if lines.len() == 0 {
        None
    } else {
        match theme_line_value(lines[0]) {
            Some(v) => Some(v),
            None => first_theme_value(lines.drop_first()),
        }
    }
}

/// The icon theme a GTK `settings.ini` text names.
pub open spec fn spec_theme_name_from_settings(content: Seq<char>) -> Option<Seq<char>> {
    first_theme_value(segments(content, '\n', '\n'))
}

proof fn lemma_theme_line(v: Seq<char>)
    requires
        plain_line(v),
    ensures
        forall|j: int|
            0 <= j < ("gtk-icon-theme-name"@ + "="@ + v).len() ==> #[trigger] (
            "gtk-icon-theme-name"@ + "="@ + v)[j] != '\n',
        theme_line_value("gtk-icon-theme-name"@ + "="@ + v) == Some(v),
{
    reveal_strlit("gtk-icon-theme-name");
    reveal_strlit("=");
    let key = "gtk-icon-theme-name"@;
    let l = key + "="@ + v;
    assert(key.len() == 19);
    assert(l[0] == 'g');
    assert(l.last() == v.last());
    assert forall|j: int| 0 <= j < l.len() implies #[trigger] l[j] != '\n' by {
        if j >= 20 {
            assert(l[j] == v[j - 20]);
        }
    }
    lemma_trim_of_plain(l);
    lemma_trim_of_plain(v);
    assert forall|j: int| 0 <= j < 19 implies l[j] != '=' && l[j] != '=' by {
        assert(l[j] == key[j]);
    }
    lemma_index_of2_at(l, '=', '=', 19);
    assert(l.take(19) =~= key);
    assert(l.skip(20) =~= v);
}

/// The value of the first `gtk-icon-theme-name=` line is the icon theme,
/// also after a `[Settings]` header; lines after it do not matter.
pub proof fn lemma_settings_theme_found(v: Seq<char>, after: Seq<char>)
    requires
        plain_line(v),
    ensures
        spec_theme_name_from_settings("gtk-icon-theme-name"@ + "="@ + v + "\n"@ + after) == Some(v),
        spec_theme_name_from_settings(
            "[Settings]"@ + "\n"@ + "gtk-icon-theme-name"@ + "="@ + v + "\n"@ + after,
        ) == Some(v),
{
    reveal_strlit("[Settings]");
    reveal_strlit("gtk-icon-theme-name");
    lemma_theme_line(v);
    let l = "gtk-icon-theme-name"@ + "="@ + v;
    let nl = "\n"@;
    let head = "[Settings]"@;
    let rest = segments(after, '\n', '\n');
    lemma_line_then(l, after);
    assert("gtk-icon-theme-name"@ + "="@ + v + nl + after =~= l + nl + after);
    assert((seq![l] + rest)[0] == l);
    assert(first_theme_value(seq![l] + rest) == Some(v));
    assert forall|j: int| 0 <= j < head.len() implies #[trigger] head[j] != '\n' by {}
    lemma_line_then(head, l + nl + after);
    let c2 = "[Settings]"@ + nl + "gtk-icon-theme-name"@ + "="@ + v + nl + after;
    assert(c2 =~= head + nl + (l + nl + after));
    lemma_trim_of_plain(head);
    assert("gtk-icon-theme-name"@.len() == 19);
    assert(head.len() == 10);
    assert(!has_prefix(head, "gtk-icon-theme-name"@));
    let lines2 = seq![head] + (seq![l] + rest);
    assert(lines2[0] == head);
    assert(lines2.drop_first() =~= seq![l] + rest);
    assert(theme_line_value(head) is None);
    assert(first_theme_value(lines2) == Some(v));
}

/// Reads the icon theme name out of the text of a GTK `settings.ini`: the
/// value after `=` on the first line starting `gtk-icon-theme-name` whose
/// value is not empty.
pub fn theme_name_from_settings(content: &str) -> (r: Option<String>)
    ensures
        match r {
            Some(name) => spec_theme_name_from_settings(content@) == Some(name@),
            None => spec_theme_name_from_settings(content@) is None,
        },
{
    let cs = chars_of(content);
    let lines = split2(cs.as_slice(), '\n', '\n');
    let ghost all = segments(content@, '\n', '\n');
    let key = chars_of("gtk-icon-theme-name");
    let mut i: usize = 0;
    assert(all.skip(0) =~= all);
    while i < lines.len()
        invariant
            i <= lines@.len(),
            lines@.len() == all.len(),
            all == segments(content@, '\n', '\n'),
            forall|k: int| 0 <= k < lines@.len() ==> #[trigger] lines@[k]@ == all[k],
            key@ == "gtk-icon-theme-name"@,
            spec_theme_name_from_settings(content@) == first_theme_value(all.skip(i as int)),
        decreases lines@.len() - i,
    {
        let line = lines[i].as_slice();
        let ghost rest = all.skip(i as int);
        assert(rest[0] == line@);
        assert(rest.drop_first() =~= all.skip(i + 1));
        let (b, e) = trim_bounds(line, 0, line.len());
        assert(line@.subrange(0, line@.len() as int) =~= line@);
        let t = copy_range(line, b, e);
        if starts_with(t.as_slice(), key.as_slice()) {
            let eq = find2(t.as_slice(), 0, '=', '=');
            assert(t@.skip(0) =~= t@);
            if eq < t.len() {
                let (vb, ve) = trim_bounds(t.as_slice(), eq + 1, t.len());
                assert(t@.subrange(eq + 1, t@.len() as int) =~= t@.skip(eq + 1));
                if vb < ve {
                    let v = copy_range(t.as_slice(), vb, ve);
                    return Some(string_of(v.as_slice()));
                }
            }
        }
        i = i + 1;
    }
    None
}

/// What the icon lookup for an app has learnt.
pub enum IconLookupEvent {
    /// The lookup begins.
    Start,
    /// Whether a `.desktop` file was found for the app.
    DesktopFileFound(bool),
    /// The text of that `.desktop` file, when it could be read.
    DesktopFileRead(Option<String>),
    /// The icon file found for the icon name (its path as text), if any.
    IconFileFound(Option<String>),
}

/// What the icon lookup for an app does next.
pub enum IconLookupStep {
    /// Look for the app's `.desktop` file.
    FindDesktopFile,
    /// Read the `.desktop` file found.
    ReadDesktopFile,
    /// Look for the icon file of this icon name.
    FindIconFile(String),
    /// The lookup is over, with the icon's path or without one.
    Done(Option<String>),
}

/// The icon lookup for an app, one step at a time: find its `.desktop` file,
/// read the icon name from it, find that icon's file; any missing piece ends
/// the lookup without an icon.
pub fn resolve_linux_icon(event: IconLookupEvent) -> (step: IconLookupStep)
    ensures
        match event {
            IconLookupEvent::Start => step is FindDesktopFile,
            IconLookupEvent::DesktopFileFound(found) => if found {
                step is ReadDesktopFile
            } else {
                step matches IconLookupStep::Done(None)
            },
            IconLookupEvent::DesktopFileRead(None) => step matches IconLookupStep::Done(None),
            IconLookupEvent::DesktopFileRead(Some(text)) => match spec_icon_name_from_desktop(
                text@,
            ) {
                Some(name) => step matches IconLookupStep::FindIconFile(n) && n@ == name,
                None => step matches IconLookupStep::Done(None),
            },
            IconLookupEvent::IconFileFound(path) => step matches IconLookupStep::Done(p) && p
                == path,
        },
{
    match event {
        IconLookupEvent::Start => IconLookupStep::FindDesktopFile,
        IconLookupEvent::DesktopFileFound(found) => {
            if found {
                IconLookupStep::ReadDesktopFile
            } else {
                IconLookupStep::Done(None)
            }
        },
        IconLookupEvent::DesktopFileRead(None) => IconLookupStep::Done(None),
        IconLookupEvent::DesktopFileRead(Some(text)) => match icon_name_from_desktop(
            text.as_str(),
        ) {
            Some(name) => IconLookupStep::FindIconFile(name),
            None => IconLookupStep::Done(None),
        },
        IconLookupEvent::IconFileFound(path) => IconLookupStep::Done(path),
    }
}

/// Width, height and RGBA bytes of an icon.
pub type Rgba = (u32, u32, Vec<u8>);

/// The mathematical form of an optional icon.
pub open spec fn rgba_view(r: Option<Rgba>) -> Option<(u32, u32, Seq<u8>)> {
    match r {
        Some(img) => Some((img.0, img.1, img.2@)),
        None => None,
    }
}

/// What the `image` crate makes of an image file: its format chosen by the
/// path's extension, decoded and converted to 8-bit RGBA, as width, height
/// and pixel bytes; `None` when the format is unknown or decoding fails.
pub uninterp spec fn decoded_rgba(path: Seq<char>, contents: Seq<u8>) -> Option<(u32, u32, Seq<u8>)>;

/// `image::ImageFormat::from_path` then `image::load_from_memory_with_format`,
/// the image converted by `to_rgba8`, read out by `dimensions` and
/// `into_raw` (what `image::open` does, from bytes already read). Claims:
/// the result is what `decoded_rgba` names, and the pixel bytes are four per
/// pixel, row by row (`to_rgba8` builds a `width * height * 4` buffer).
#[verifier::external_body]
fn decode_icon_file(path: &str, contents: &[u8]) -> (r: Option<Rgba>)
    ensures
        rgba_view(r) == decoded_rgba(path@, contents@),
        r matches Some(img) ==> img.2@.len() == 4 * img.0 * img.1,
{
    let format = image::ImageFormat::from_path(path).ok()?;
    let img = image::load_from_memory_with_format(contents, format).ok()?.to_rgba8();
    let (width, height) = img.dimensions();
    Some((width, height, img.into_raw()))
}

/// The RGBA pixels of the icon file at `path`, given its contents (`None`
/// when it is not a readable file). The path `none` stands for no icon.
pub fn extract_icon_rgba(path: &str, contents: Option<&[u8]>) -> (r: Option<Rgba>)
    ensures
        path@ == "none"@ ==> r is None,
        path@ != "none"@ ==> match contents {
            None => r is None,
            Some(c) => rgba_view(r) == decoded_rgba(path@, c@),
        },
        r matches Some(img) ==> img.2@.len() == 4 * img.0 * img.1,
{
    if string_from(path) == string_from("none") {
        return None;
    }
    match contents {
        Some(c) => decode_icon_file(path, c),
        None => None,
    }
}

/// Some pixel of a bitmap has a non-zero alpha byte.
pub open spec fn any_alpha(buf: Seq<u8>) -> bool {
    exists|i: int| 0 <= i < buf.len() - buf.len() % 4 && i % 4 == 3 && buf[i] != 0
}

/// Byte `i` of a BGRA bitmap turned into RGBA: blue and red swap places in
/// every whole 4-byte pixel, and when no pixel has a non-zero alpha byte all
/// alpha bytes become 255; a trailing partial pixel stays as it was.
pub open spec fn rgba_byte(buf: Seq<u8>, i: int) -> u8 {
    let whole = buf.len() - buf.len() % 4;
    if i >= whole {
        buf[i]
    } else if i % 4 == 0 {
        buf[i + 2]
    } else if i % 4 == 2 {
        buf[i - 2]
    } else if i % 4 == 3 && !any_alpha(buf) {
        255
    } else {
        buf[i]
    }
}

/// The alpha bytes of a bitmap are kept as they are when some whole pixel has
/// a non-zero alpha byte, and become 255 only when every whole pixel's alpha
/// byte is zero.
pub proof fn lemma_alpha_made_opaque_only_when_all_zero(buf: Seq<u8>, i: int)
    requires
        0 <= i < buf.len() - buf.len() % 4,
        i % 4 == 3,
    ensures
        (exists|k: int| 0 <= k < buf.len() - buf.len() % 4 && k % 4 == 3 && #[trigger] buf[k] > 0)
            ==> rgba_byte(buf, i) == buf[i],
        (forall|k: int| 0 <= k < buf.len() - buf.len() % 4 && k % 4 == 3 ==> #[trigger] buf[k] == 0)
            ==> rgba_byte(buf, i) == 255,
{
    if exists|k: int| 0 <= k < buf.len() - buf.len() % 4 && k % 4 == 3 && #[trigger] buf[k] > 0 {
        let k = choose|k: int| 0 <= k < buf.len() - buf.len() % 4 && k % 4 == 3 && #[trigger] buf[k] > 0;
        assert(any_alpha(buf));
    }
    if forall|k: int| 0 <= k < buf.len() - buf.len() % 4 && k % 4 == 3 ==> #[trigger] buf[k] == 0 {
        assert(!any_alpha(buf));
    }
}

/// Within each whole pixel the first and third bytes trade places and the
/// second stays; the bytes of a trailing partial pixel stay as they are.
pub proof fn lemma_blue_and_red_swap(buf: Seq<u8>, i: int)
    requires
        0 <= i < buf.len(),
    ensures
        i < buf.len() - buf.len() % 4 && i % 4 == 0 ==> rgba_byte(buf, i) == buf[i + 2]
            && rgba_byte(buf, i + 1) == buf[i + 1] && rgba_byte(buf, i + 2) == buf[i],
        i >= buf.len() - buf.len() % 4 ==> rgba_byte(buf, i) == buf[i],
{
}

/// The icon made of a `width` x `height` BGRA bitmap, as Windows gives it:
/// the same size, with the pixels turned into RGBA by [`bgra_to_rgba`].
pub fn icon_from_bgra(width: u32, height: u32, bgra: Vec<u8>) -> (r: Rgba)
    requires
        bgra@.len() == 4 * width * height,
    ensures
        r.0 == width,
        r.1 == height,
        r.2@.len() == 4 * width * height,
        forall|i: int| 0 <= i < bgra@.len() ==> #[trigger] r.2@[i] == rgba_byte(bgra@, i),
{
    (width, height, bgra_to_rgba(bgra))
}

/// Turns the BGRA bytes that Windows gives for an icon into RGBA, making an
/// icon whose alpha channel is all zero fully opaque.
#[verifier::rlimit(40)]
pub fn bgra_to_rgba(buf: Vec<u8>) -> (r: Vec<u8>)
    ensures
        r@.len() == buf@.len(),
        forall|i: int| 0 <= i < buf@.len() ==> #[trigger] r@[i] == rgba_byte(buf@, i),
        forall|i: int|
            0 <= i < buf@.len() - buf@.len() % 4 && i % 4 == 0 ==> #[trigger] r@[i] == buf@[i + 2]
                && r@[i + 1] == buf@[i + 1] && r@[i + 2] == buf@[i],
        forall|i: int| buf@.len() - buf@.len() % 4 <= i < buf@.len() ==> #[trigger] r@[i] == buf@[i],
        (exists|k: int| 0 <= k < buf@.len() - buf@.len() % 4 && k % 4 == 3 && #[trigger] buf@[k] > 0)
            ==> forall|i: int|
            0 <= i < buf@.len() - buf@.len() % 4 && i % 4 == 3 ==> #[trigger] r@[i] == buf@[i],
        (forall|k: int| 0 <= k < buf@.len() - buf@.len() % 4 && k % 4 == 3 ==> #[trigger] buf@[k] == 0)
            ==> forall|i: int|
            0 <= i < buf@.len() - buf@.len() % 4 && i % 4 == 3 ==> #[trigger] r@[i] == 255,
{
    let ghost orig = buf@;
    let mut out = buf;
    let n = out.len();
    let whole = n - n % 4;
    let mut any = false;
    let mut p: usize = 0;
    while p < whole
        invariant
            out@.len() == n == orig.len(),
            whole == n - n % 4,
            p % 4 == 0,
            p <= whole,
            forall|i: int| p <= i < n ==> #[trigger] out@[i] == orig[i],
            forall|i: int|
                0 <= i < p ==> #[trigger] out@[i] == if i % 4 == 0 {
                    orig[i + 2]
                } else if i % 4 == 2 {
                    orig[i - 2]
                } else {
                    orig[i]
                },
            any == exists|i: int| 0 <= i < p && i % 4 == 3 && orig[i] != 0,
        decreases whole - p,
    {
        let b0 = out[p];
        let b2 = out[p + 2];
        out[p] = b2;
        out[p + 2] = b0;
        proof {
            assert(out@[p + 3] == orig[p + 3]);
        }
        if out[p + 3] != 0 {
            any = true;
        }
        p = p + 4;
    }
    if !any {
        let mut q: usize = 3;
        while q < whole
            invariant
                out@.len() == n == orig.len(),
                whole == n - n % 4,
                q % 4 == 3,
                q <= whole + 3,
                !any_alpha(orig),
                forall|i: int| 0 <= i < n ==> #[trigger] out@[i] == if i >= whole {
                    orig[i]
                } else if i % 4 == 0 {
                    orig[i + 2]
                } else if i % 4 == 2 {
                    orig[i - 2]
                } else if i % 4 == 3 && i < q {
                    255
                } else {
                    orig[i]
                },
            decreases whole + 3 - q,
        {
            out[q] = 255;
            q = q + 4;
        }
    }
    proof {
        assert forall|i: int| 0 <= i < n implies #[trigger] out@[i] == rgba_byte(orig, i) by {
            if i % 4 == 3 && i < whole {
                if any {
                    assert(any_alpha(orig));
                }
            }
        }
        assert forall|i: int| 0 <= i < whole && i % 4 == 3 implies ((exists|k: int|
            0 <= k < whole && k % 4 == 3 && #[trigger] orig[k] > 0) ==> #[trigger] out@[i] == orig[i])
            && ((forall|k: int| 0 <= k < whole && k % 4 == 3 ==> #[trigger] orig[k] == 0) ==> out@[i]
            == 255) by {
            lemma_alpha_made_opaque_only_when_all_zero(orig, i);
        }
        assert forall|i: int| 0 <= i < whole && i % 4 == 0 implies #[trigger] out@[i] == orig[i + 2]
            && out@[i + 1] == orig[i + 1] && out@[i + 2] == orig[i] by {
            lemma_blue_and_red_swap(orig, i);
            assert(out@[i + 1] == rgba_byte(orig, i + 1));
            assert(out@[i + 2] == rgba_byte(orig, i + 2));
        }
    }
    out
}

} // verus!

//! Where the icon lookup looks: joining paths, the directories named by the
//! environment, the candidate file names, and picking among the files found.

use vstd::prelude::*;

use crate::icon::{extract_size_from_path, spec_size_from_path};
use crate::text::{
    chars_of, contains, copy_range, ends_with, has_suffix, lemma_segment_occurs, occurs_in,
    segments, split2, string_from, string_of, unicode_lowercase,
};

verus! {

/// What `Path::join` gives on Unix: an absolute `part` replaces `base`;
/// otherwise `part` follows `base`, with a `/` between them unless `base`
/// is empty or already ends with one.
pub open spec fn path_join(base: Seq<char>, part: Seq<char>) -> Seq<char> {
    if part.len() > 0 && part[0] == '/' {
        part
    } else if base.len() > 0 && base.last() != '/' {
        base + seq!['/'] + part
    } else {
        base + part
    }
}

/// A joined path ends with the part joined on; a relative part follows the
/// base, with one `/` between them when the base does not end with one; an
/// absolute part replaces the base.
pub proof fn lemma_path_join(base: Seq<char>, part: Seq<char>)
    ensures
        has_suffix(path_join(base, part), part),
        part.len() > 0 && part[0] == '/' ==> path_join(base, part) == part,
        !(part.len() > 0 && part[0] == '/') ==> path_join(base, part).take(base.len() as int)
            == base,
        !(part.len() > 0 && part[0] == '/') && base.len() > 0 && base.last() != '/' ==> path_join(
            base,
            part,
        ).len() == base.len() + 1 + part.len() && path_join(base, part)[base.len() as int] == '/',
        !(part.len() > 0 && part[0] == '/') && (base.len() == 0 || base.last() == '/') ==> path_join(
            base,
            part,
        ).len() == base.len() + part.len(),
{
    let j = path_join(base, part);
    assert(j.skip(j.len() - part.len()) =~= part);
    if !(part.len() > 0 && part[0] == '/') {
        assert(j.take(base.len() as int) =~= base);
    }
}

/// Joins `part` onto `base` as `Path::join` does on Unix.
pub fn join_path(base: &str, part: &str) -> (r: String)
    ensures
        r@ == path_join(base@, part@),
{
    let p = chars_of(part);
    if p.len() > 0 && p[0] == '/' {
        return string_from(part);
    }
    let b = chars_of(base);
    let mut r = string_from(base);
    if b.len() > 0 && b[b.len() - 1] != '/' {
        r.push('/');
    }
    r.append(part);
    r
}

/// Whether a path is absolute on Unix (it starts at the root).
pub fn is_absolute_path(path: &str) -> (r: bool)
    ensures
        r == (path@.len() > 0 && path@[0] == '/'),
{
    let p = chars_of(path);
    p.len() > 0 && p[0] == '/'
}

/// A directory to look in, and whether it is to be dropped when an equal
/// path was already kept.
pub struct DirCandidate {
    pub path: String,
    pub checked: bool,
}

/// The mathematical form of a list of candidate directories.
pub open spec fn candidates_view(v: Seq<DirCandidate>) -> Seq<(Seq<char>, bool)> {
    v.map_values(|c: DirCandidate| (c.path@, c.checked))
}

/// The mathematical form of a list of strings.
pub open spec fn strings_view(v: Seq<String>) -> Seq<Seq<char>> {
    v.map_values(|s: String| s@)
}

/// `leaf` joined onto each non-empty entry of a list, in order.
pub open spec fn joined_dirs(entries: Seq<Seq<char>>, leaf: Seq<char>) -> Seq<Seq<char>>
    decreases entries.len(),
{
    if entries.len() == 0 {
        seq![]
    } else {
        joined_dirs(entries.drop_last(), leaf) + if entries.last().len() > 0 {
            seq![path_join(entries.last(), leaf)]
        } else {
            seq![]
        }
    }
}

/// Each path of a list, to be deduplicated.
pub open spec fn all_checked(paths: Seq<Seq<char>>) -> Seq<(Seq<char>, bool)> {
    paths.map_values(|p: Seq<char>| (p, true))
}

/// `leaf` joined onto each non-empty entry of a `:`-separated list.
fn join_each(list: &str, leaf: &str, out: &mut Vec<DirCandidate>)
    ensures
        candidates_view(final(out)@) == candidates_view(old(out)@) + all_checked(
            joined_dirs(segments(list@, ':', ':'), leaf@),
        ),
{
    let cs = chars_of(list);
    let parts = split2(cs.as_slice(), ':', ':');
    let ghost segs = segments(list@, ':', ':');
    let ghost start = candidates_view(out@);
    let mut i: usize = 0;
    while i < parts.len()
        invariant
            i <= parts@.len(),
            parts@.len() == segs.len(),
            segs == segments(list@, ':', ':'),
            forall|k: int| 0 <= k < parts@.len() ==> #[trigger] parts@[k]@ == segs[k],
            candidates_view(out@) == start + all_checked(joined_dirs(segs.take(i as int), leaf@)),
        decreases parts@.len() - i,
    {
        let ghost before = candidates_view(out@);
        assert(segs.take(i + 1).drop_last() =~= segs.take(i as int));
        assert(segs.take(i + 1).last() == parts@[i as int]@);
        if parts[i].len() > 0 {
            let entry = string_of(parts[i].as_slice());
            let path = join_path(entry.as_str(), leaf);
            out.push(DirCandidate { path, checked: true });
            assert(candidates_view(out@) =~= before.push((path_join(parts@[i as int]@, leaf@), true)));
        } else {
            assert(candidates_view(out@) =~= before);
        }
        assert(all_checked(joined_dirs(segs.take(i + 1), leaf@)) =~= all_checked(
            joined_dirs(segs.take(i as int), leaf@),
        ) + if parts@[i as int]@.len() > 0 {
            seq![(path_join(parts@[i as int]@, leaf@), true)]
        } else {
            seq![]
        });
        i = i + 1;
    }
    assert(segs.take(parts@.len() as int) =~= segs);
}

/// The directories that may hold `.desktop` files, in search order: the
/// user's `~/.local/share/applications`, then `$XDG_DATA_HOME/applications`,
/// then `applications` under each entry of `$XDG_DATA_DIRS` (or the two
/// standard system directories when that variable is unset). All but the
/// first are dropped when an equal path was already kept.
pub open spec fn spec_desktop_dir_candidates(
    home: Option<Seq<char>>,
    data_home: Option<Seq<char>>,
    data_dirs: Option<Seq<char>>,
) -> Seq<(Seq<char>, bool)> {
    (match home {
        Some(h) => seq![(path_join(h, ".local/share/applications"@), false)],
        None => seq![],
    }) + (match data_home {
        Some(x) => seq![(path_join(x, "applications"@), true)],
        None => seq![],
    }) + (match data_dirs {
        Some(d) => all_checked(joined_dirs(segments(d, ':', ':'), "applications"@)),
        None => seq![
            ("/usr/share/applications"@, true),
            ("/usr/local/share/applications"@, true),
        ],
    })
}

/// The mathematical form of an optional string.
pub open spec fn opt_view(o: Option<String>) -> Option<Seq<char>> {
    match o {
        Some(s) => Some(s@),
        None => None,
    }
}

/// The candidate directories for `.desktop` files, given the values of
/// `HOME`, `XDG_DATA_HOME` and `XDG_DATA_DIRS` (each `None` when unset).
pub fn desktop_dir_candidates(
    home: Option<String>,
    data_home: Option<String>,
    data_dirs: Option<String>,
) -> (r: Vec<DirCandidate>)
    ensures
        candidates_view(r@) == spec_desktop_dir_candidates(
            opt_view(home),
            opt_view(data_home),
            opt_view(data_dirs),
        ),
        home matches Some(h) ==> r@.len() >= 1 && r@[0].path@ == path_join(
            h@,
            ".local/share/applications"@,
        ) && !r@[0].checked,
{
    let mut out: Vec<DirCandidate> = Vec::new();
    match &home {
        Some(h) => {
            out.push(
                DirCandidate {
                    path: join_path(h.as_str(), ".local/share/applications"),
                    checked: false,
                },
            );
        },
        None => {},
    }
    match &data_home {
        Some(x) => {
            out.push(DirCandidate { path: join_path(x.as_str(), "applications"), checked: true });
        },
        None => {},
    }
    let ghost so_far = candidates_view(out@);
    match &data_dirs {
        Some(d) => {
            join_each(d.as_str(), "applications", &mut out);
        },
        None => {
            out.push(DirCandidate { path: string_from("/usr/share/applications"), checked: true });
            out.push(
                DirCandidate { path: string_from("/usr/local/share/applications"), checked: true },
            );
        },
    }
    assert(candidates_view(out@) =~= spec_desktop_dir_candidates(
        opt_view(home),
        opt_view(data_home),
        opt_view(data_dirs),
    ));
    proof {
        if let Some(h) = &home {
            assert(candidates_view(out@)[0] == (out@[0].path@, out@[0].checked));
        }
    }
    out
}

/// The directories that may hold icon themes, in search order: the user's
/// `~/.local/share/icons` and `~/.icons`, then `icons` under each entry of
/// `$XDG_DATA_DIRS` (or `/usr/share/icons` when that variable is unset).
/// All but the first two are dropped when an equal path was already kept.
pub open spec fn spec_icon_dir_candidates(home: Option<Seq<char>>, data_dirs: Option<Seq<char>>) -> Seq<
    (Seq<char>, bool),
> {
    (match home {
        Some(h) => seq![
            (path_join(h, ".local/share/icons"@), false),
            (path_join(h, ".icons"@), false),
        ],
        None => seq![],
    }) + (match data_dirs {
        Some(d) => all_checked(joined_dirs(segments(d, ':', ':'), "icons"@)),
        None => seq![("/usr/share/icons"@, true)],
    })
}

/// Whenever `HOME` is set, the user's two icon directories come first, and
/// what follows is what `XDG_DATA_DIRS` alone gives, whatever it holds.
pub proof fn lemma_home_icon_dirs_come_first(home: Seq<char>, data_dirs: Option<Seq<char>>)
    ensures
        spec_icon_dir_candidates(Some(home), data_dirs) == seq![
            (path_join(home, ".local/share/icons"@), false),
            (path_join(home, ".icons"@), false),
        ] + spec_icon_dir_candidates(None, data_dirs),
        spec_icon_dir_candidates(None, data_dirs) == match data_dirs {
            Some(d) => all_checked(joined_dirs(segments(d, ':', ':'), "icons"@)),
            None => seq![("/usr/share/icons"@, true)],
        },
{
    assert(spec_icon_dir_candidates(None, data_dirs) =~= match data_dirs {
        Some(d) => all_checked(joined_dirs(segments(d, ':', ':'), "icons"@)),
        None => seq![("/usr/share/icons"@, true)],
    });
}

/// Whenever `HOME` is set, the user's applications directory comes first,
/// and what follows does not depend on `HOME`; `$XDG_DATA_HOME/applications`
/// comes next when that variable is set; and with `XDG_DATA_DIRS` unset the
/// list ends with the standard system directories.
pub proof fn lemma_home_desktop_dir_comes_first(
    home: Seq<char>,
    data_home: Option<Seq<char>>,
    data_dirs: Option<Seq<char>>,
)
    ensures
        spec_desktop_dir_candidates(Some(home), data_home, data_dirs) == seq![
            (path_join(home, ".local/share/applications"@), false),
        ] + spec_desktop_dir_candidates(None, data_home, data_dirs),
        data_home matches Some(x) ==> spec_desktop_dir_candidates(None, data_home, data_dirs)[0] == (
            path_join(x, "applications"@),
            true,
        ),
        data_dirs is None ==> spec_desktop_dir_candidates(None, data_home, data_dirs).len() >= 2
            && spec_desktop_dir_candidates(None, data_home, data_dirs).last() == (
            "/usr/local/share/applications"@,
            true,
        ),
{
    assert(spec_desktop_dir_candidates(Some(home), data_home, data_dirs) =~= seq![
        (path_join(home, ".local/share/applications"@), false),
    ] + spec_desktop_dir_candidates(None, data_home, data_dirs));
}

/// The candidate icon base directories, given the values of `HOME` and
/// `XDG_DATA_DIRS` (each `None` when unset).
pub fn icon_dir_candidates(home: Option<String>, data_dirs: Option<String>) -> (r: Vec<DirCandidate>)
    ensures
        candidates_view(r@) == spec_icon_dir_candidates(opt_view(home), opt_view(data_dirs)),
        home matches Some(h) ==> r@.len() >= 2 && r@[0].path@ == path_join(h@, ".local/share/icons"@)
            && !r@[0].checked && r@[1].path@ == path_join(h@, ".icons"@) && !r@[1].checked,
{
    let mut out: Vec<DirCandidate> = Vec::new();
    match &home {
        Some(h) => {
            out.push(
                DirCandidate { path: join_path(h.as_str(), ".local/share/icons"), checked: false },
            );
            out.push(DirCandidate { path: join_path(h.as_str(), ".icons"), checked: false });
        },
        None => {},
    }
    match &data_dirs {
        Some(d) => {
            join_each(d.as_str(), "icons", &mut out);
        },
        None => {
            out.push(DirCandidate { path: string_from("/usr/share/icons"), checked: true });
        },
    }
    assert(candidates_view(out@) =~= spec_icon_dir_candidates(opt_view(home), opt_view(data_dirs)));
    proof {
        if let Some(h) = &home {
            assert(candidates_view(out@)[0] == (out@[0].path@, out@[0].checked));
            assert(candidates_view(out@)[1] == (out@[1].path@, out@[1].checked));
        }
    }
    out
}

/// Whether `std::path::Path` holds two paths equal (it compares them
/// component by component).
pub uninterp spec fn same_path(a: Seq<char>, b: Seq<char>) -> bool;

/// `PartialEq` of `std::path::Path`, on two UTF-8 paths. Claims: the result
/// is what `same_path` names, and a path equals itself.
#[verifier::external_body]
fn paths_equal(a: &str, b: &str) -> (r: bool)
    ensures
        r == same_path(a@, b@),
        a@ == b@ ==> r,
{
    std::path::Path::new(a) == std::path::Path::new(b)
}

/// The directories kept from the candidates: those that exist, in order,
/// less the checked ones equal to one already kept.
pub open spec fn kept_dirs(cands: Seq<(Seq<char>, bool)>, exists: Seq<bool>) -> Seq<Seq<char>>
    decreases cands.len(),
{
    if cands.len() == 0 {
        seq![]
    } else {
        let prev = kept_dirs(cands.drop_last(), exists.drop_last());
        let c = cands.last();
        if exists.last() && !(c.1 && exists|k: int| 0 <= k < prev.len() && same_path(prev[k], c.0)) {
            prev.push(c.0)
        } else {
            prev
        }
    }
}

/// Only directories that exist are kept, each the path of an existing
/// candidate, at most one per candidate; an existing candidate that is not
/// checked against earlier ones is always kept; when none exists, none is
/// kept.
pub proof fn lemma_kept_dirs(cands: Seq<(Seq<char>, bool)>, exists: Seq<bool>)
    requires
        cands.len() == exists.len(),
    ensures
        kept_dirs(cands, exists).len() <= cands.len(),
        forall|k: int|
            #![trigger kept_dirs(cands, exists)[k]]
            0 <= k < kept_dirs(cands, exists).len() ==> exists|i: int|
                #![trigger cands[i]]
                0 <= i < cands.len() && exists[i] && cands[i].0 == kept_dirs(cands, exists)[k],
        forall|i: int|
            0 <= i < cands.len() && exists[i] && !cands[i].1 ==> kept_dirs(cands, exists).contains(
                #[trigger] cands[i].0,
            ),
        (forall|i: int| 0 <= i < cands.len() ==> !#[trigger] exists[i]) ==> kept_dirs(
            cands,
            exists,
        ).len() == 0,
    decreases cands.len(),
{
    if cands.len() > 0 {
        let front = cands.drop_last();
        let fe = exists.drop_last();
        lemma_kept_dirs(front, fe);
        let prev = kept_dirs(front, fe);
        let kept = kept_dirs(cands, exists);
        let n = cands.len() - 1;
        assert forall|k: int| #![trigger kept[k]] 0 <= k < kept.len() implies exists|i: int|
            #![trigger cands[i]]
            0 <= i < cands.len() && exists[i] && cands[i].0 == kept[k] by {
            if k < prev.len() {
                let i = choose|i: int|
                    #![trigger front[i]]
                    0 <= i < front.len() && fe[i] && front[i].0 == prev[k];
                assert(front[i] == cands[i]);
                assert(fe[i] == exists[i]);
                assert(kept[k] == prev[k]);
            } else {
                assert(cands[n].0 == kept[k]);
            }
        }
        assert forall|i: int| 0 <= i < cands.len() && exists[i] && !cands[i].1 implies kept.contains(
            #[trigger] cands[i].0,
        ) by {
            if i < n {
                assert(front[i] == cands[i]);
                assert(fe[i] == exists[i]);
                assert(prev.contains(front[i].0));
                let k = choose|k: int| 0 <= k < prev.len() && prev[k] == front[i].0;
                assert(kept[k] == prev[k]);
            } else {
                assert(kept[prev.len() as int] == cands[i].0);
            }
        }
        if forall|i: int| 0 <= i < cands.len() ==> !#[trigger] exists[i] {
            assert forall|i: int| 0 <= i < fe.len() implies !#[trigger] fe[i] by {
                assert(fe[i] == exists[i]);
            }
            assert(!exists[n]);
        }
    }
}

/// Keeps the candidate directories that exist (`exists[i]` tells of
/// `candidates[i]`), dropping a checked one when an equal path was kept.
pub fn keep_existing_distinct(candidates: &Vec<DirCandidate>, exists: &Vec<bool>) -> (r: Vec<
    String,
>)
    requires
        candidates@.len() == exists@.len(),
    ensures
        strings_view(r@) == kept_dirs(candidates_view(candidates@), exists@),
{
    let ghost cv = candidates_view(candidates@);
    let mut out: Vec<String> = Vec::new();
    let mut i: usize = 0;
    while i < candidates.len()
        invariant
            i <= candidates@.len(),
            candidates@.len() == exists@.len(),
            cv == candidates_view(candidates@),
            strings_view(out@) == kept_dirs(cv.take(i as int), exists@.take(i as int)),
        decreases candidates@.len() - i,
    {
        let ghost prev = strings_view(out@);
        assert(cv.take(i + 1).drop_last() =~= cv.take(i as int));
        assert(exists@.take(i + 1).drop_last() =~= exists@.take(i as int));
        assert(cv.take(i + 1).last() == (candidates@[i as int].path@, candidates@[i as int].checked));
        if exists[i] {
            let c = &candidates[i];
            let mut dup = false;
            if c.checked {
                let mut j: usize = 0;
                while j < out.len()
                    invariant
                        j <= out@.len(),
                        prev == strings_view(out@),
                        !dup ==> forall|k: int| 0 <= k < j ==> !same_path(prev[k], c.path@),
                        dup ==> exists|k: int| 0 <= k < prev.len() && same_path(prev[k], c.path@),
                    decreases out@.len() - j,
                {
                    assert(prev[j as int] == out@[j as int]@);
                    if paths_equal(out[j].as_str(), c.path.as_str()) {
                        dup = true;
                    }
                    j = j + 1;
                }
            }
            if !dup {
                out.push(c.path.clone());
                assert(strings_view(out@) =~= prev.push(c.path@));
            }
        }
        i = i + 1;
    }
    assert(cv.take(candidates@.len() as int) =~= cv);
    assert(exists@.take(candidates@.len() as int) =~= exists@);
    out
}

/// The `.desktop` files to try first, in order: in each directory, the app
/// key's own name, then its lower-cased name.
pub open spec fn spec_desktop_file_candidates(dirs: Seq<Seq<char>>, key: Seq<char>) -> Seq<Seq<char>>
    decreases dirs.len(),
{
    if dirs.len() == 0 {
        seq![]
    } else {
        spec_desktop_file_candidates(dirs.drop_last(), key) + seq![
            path_join(dirs.last(), key + ".desktop"@),
            path_join(dirs.last(), unicode_lowercase(key) + ".desktop"@),
        ]
    }
}

/// Candidates `2k` and `2k + 1` are the app key's own `.desktop` name and its
/// lower-cased one, both in directory `k`: every directory is tried with both
/// names before the next one.
pub proof fn lemma_desktop_candidates_at(dirs: Seq<Seq<char>>, key: Seq<char>, k: int)
    requires
        0 <= k < dirs.len(),
    ensures
        spec_desktop_file_candidates(dirs, key).len() == 2 * dirs.len(),
        spec_desktop_file_candidates(dirs, key)[2 * k] == path_join(dirs[k], key + ".desktop"@),
        spec_desktop_file_candidates(dirs, key)[2 * k + 1] == path_join(
            dirs[k],
            unicode_lowercase(key) + ".desktop"@,
        ),
    decreases dirs.len(),
{
    let front = spec_desktop_file_candidates(dirs.drop_last(), key);
    if k < dirs.len() - 1 {
        lemma_desktop_candidates_at(dirs.drop_last(), key, k);
        assert(dirs.drop_last()[k] == dirs[k]);
    } else {
        if dirs.len() > 1 {
            lemma_desktop_candidates_at(dirs.drop_last(), key, 0);
        }
    }
    assert(front.len() == 2 * (dirs.len() - 1));
}

/// The paths of the `.desktop` files named after the app key, to be tried in
/// order.
pub fn desktop_file_candidates(dirs: &Vec<String>, app_key: &str) -> (r: Vec<String>)
    ensures
        strings_view(r@) == spec_desktop_file_candidates(strings_view(dirs@), app_key@),
{
    let mut exact = string_from(app_key);
    exact.append(".desktop");
    let mut lower = app_key.to_lowercase();
    lower.append(".desktop");
    let ghost dv = strings_view(dirs@);
    let mut out: Vec<String> = Vec::new();
    let mut i: usize = 0;
    while i < dirs.len()
        invariant
            i <= dirs@.len(),
            dv == strings_view(dirs@),
            exact@ == app_key@ + ".desktop"@,
            lower@ == unicode_lowercase(app_key@) + ".desktop"@,
            strings_view(out@) == spec_desktop_file_candidates(dv.take(i as int), app_key@),
        decreases dirs@.len() - i,
    {
        assert(dv.take(i + 1).drop_last() =~= dv.take(i as int));
        assert(dv.take(i + 1).last() == dirs@[i as int]@);
        let ghost before = strings_view(out@);
        out.push(join_path(dirs[i].as_str(), exact.as_str()));
        out.push(join_path(dirs[i].as_str(), lower.as_str()));
        assert(strings_view(out@) =~= before + seq![
            path_join(dirs@[i as int]@, app_key@ + ".desktop"@),
            path_join(dirs@[i as int]@, unicode_lowercase(app_key@) + ".desktop"@),
        ]);
        i = i + 1;
    }
    assert(dv.take(dirs@.len() as int) =~= dv);
    out
}

/// A directory entry named `<stem>.desktop` matches the app key when the
/// lower-cased key occurs in the lower-cased stem. The stem being the key, or
/// one of its dot-separated parts being it, are instances of this (see
/// [`lemma_desktop_match_covers_names`]).
pub open spec fn spec_desktop_entry_matches(file_name: Seq<char>, key: Seq<char>) -> bool {
    has_suffix(file_name, ".desktop"@) && occurs_in(
        unicode_lowercase(file_name.take(file_name.len() - ".desktop"@.len())),
        unicode_lowercase(key),
    )
}

/// An entry whose lower-cased stem is the lower-cased key, or has it as one
/// of its dot-separated parts, matches.
pub proof fn lemma_desktop_match_covers_names(file_name: Seq<char>, key: Seq<char>, k: int)
    requires
        has_suffix(file_name, ".desktop"@),
        ({
            let stem = unicode_lowercase(file_name.take(file_name.len() - ".desktop"@.len()));
            let key_lower = unicode_lowercase(key);
            stem == key_lower || (0 <= k < segments(stem, '.', '.').len() && segments(
                stem,
                '.',
                '.',
            )[k] == key_lower)
        }),
    ensures
        spec_desktop_entry_matches(file_name, key),
{
    let stem = unicode_lowercase(file_name.take(file_name.len() - ".desktop"@.len()));
    let key_lower = unicode_lowercase(key);
    if stem == key_lower {
        assert(stem.subrange(0int, 0int + key_lower.len()) =~= key_lower);
    } else {
        lemma_segment_occurs(stem, '.', '.', k);
    }
}

/// Only names ending in `.desktop` match; and one whose lower-cased stem holds
/// the lower-cased key anywhere (`firefox-esr` for `firefox`) matches.
pub proof fn lemma_desktop_match_by_stem(file_name: Seq<char>, key: Seq<char>, a: Seq<char>, b: Seq<
    char,
>)
    ensures
        !has_suffix(file_name, ".desktop"@) ==> !spec_desktop_entry_matches(file_name, key),
        has_suffix(file_name, ".desktop"@) && unicode_lowercase(
            file_name.take(file_name.len() - ".desktop"@.len()),
        ) == a + unicode_lowercase(key) + b ==> spec_desktop_entry_matches(file_name, key),
{
    let stem = unicode_lowercase(file_name.take(file_name.len() - ".desktop"@.len()));
    let k = unicode_lowercase(key);
    if stem == a + k + b {
        assert(stem.subrange(a.len() as int, a.len() + k.len() as int) =~= k);
    }
}

/// Whether a file found while listing a directory is taken as the app's
/// `.desktop` file.
pub fn desktop_entry_matches(file_name: &str, app_key: &str) -> (r: bool)
    ensures
        r == spec_desktop_entry_matches(file_name@, app_key@),
{
    let name = chars_of(file_name);
    let suffix = chars_of(".desktop");
    if !ends_with(name.as_slice(), suffix.as_slice()) {
        return false;
    }
    let stem_chars = copy_range(name.as_slice(), 0, name.len() - suffix.len());
    assert(name@.subrange(0, name@.len() - suffix@.len()) =~= name@.take(
        name@.len() - suffix@.len(),
    ));
    let stem = string_of(stem_chars.as_slice());
    let stem_lower = chars_of(stem.as_str().to_lowercase().as_str());
    let key_lower = chars_of(app_key.to_lowercase().as_str());
    contains(stem_lower.as_slice(), key_lower.as_slice())
}

/// The GTK settings files to read for the icon theme, in order.
pub open spec fn spec_gtk_settings_candidates(home: Seq<char>) -> Seq<Seq<char>> {
    seq![
        path_join(path_join(path_join(home, ".config"@), "gtk-3.0"@), "settings.ini"@),
        path_join(path_join(path_join(home, ".config"@), "gtk-4.0"@), "settings.ini"@),
    ]
}

/// The GTK 3 and GTK 4 `settings.ini` paths under the home directory.
pub fn gtk_settings_candidates(home: &str) -> (r: Vec<String>)
    ensures
        strings_view(r@) == spec_gtk_settings_candidates(home@),
{
    let config = join_path(home, ".config");
    let gtk3 = join_path(config.as_str(), "gtk-3.0");
    let gtk4 = join_path(config.as_str(), "gtk-4.0");
    let mut out: Vec<String> = Vec::new();
    out.push(join_path(gtk3.as_str(), "settings.ini"));
    out.push(join_path(gtk4.as_str(), "settings.ini"));
    assert(strings_view(out@) =~= spec_gtk_settings_candidates(home@));
    out
}

/// The themes to search, in order: the active theme, if any, then `hicolor`
/// unless it is the active one.
pub open spec fn spec_icon_theme_order(active: Option<Seq<char>>) -> Seq<Seq<char>> {
    (match active {
        Some(t) => seq![t],
        None => seq![],
    }) + if active == Some("hicolor"@) {
        seq![]
    } else {
        seq!["hicolor"@]
    }
}

/// The active theme is searched first, `hicolor` always comes last, and no
/// theme is searched twice.
pub proof fn lemma_icon_theme_order(active: Option<Seq<char>>)
    ensures
        spec_icon_theme_order(active).len() > 0,
        spec_icon_theme_order(active).last() == "hicolor"@,
        active matches Some(t) ==> spec_icon_theme_order(active)[0] == t,
        active == Some("hicolor"@) ==> spec_icon_theme_order(active) == seq!["hicolor"@],
        active != Some("hicolor"@) ==> spec_icon_theme_order(active).len() == if active is Some {
            2int
        } else {
            1int
        },
{
    assert(spec_icon_theme_order(active) =~= match active {
        Some(t) => if t == "hicolor"@ {
            seq![t]
        } else {
            seq![t, "hicolor"@]
        },
        None => seq!["hicolor"@],
    });
}

/// The icon themes to search, given the active GTK theme.
pub fn icon_theme_order(active: Option<String>) -> (r: Vec<String>)
    ensures
        strings_view(r@) == spec_icon_theme_order(opt_view(active)),
{
    let hicolor = string_from("hicolor");
    let mut out: Vec<String> = Vec::new();
    let mut is_hicolor = false;
    match active {
        Some(t) => {
            is_hicolor = t == hicolor;
            out.push(t);
        },
        None => {},
    }
    if !is_hicolor {
        out.push(hicolor);
    }
    assert(strings_view(out@) =~= spec_icon_theme_order(opt_view(active)));
    out
}

/// `part` joined onto each base directory.
pub open spec fn join_all(bases: Seq<Seq<char>>, part: Seq<char>) -> Seq<Seq<char>> {
    bases.map_values(|b: Seq<char>| path_join(b, part))
}

/// The theme directories to search, in order: for each theme in turn, that
/// theme under each base directory.
pub open spec fn spec_theme_dirs(bases: Seq<Seq<char>>, themes: Seq<Seq<char>>) -> Seq<Seq<char>>
    decreases themes.len(),
{
    if themes.len() == 0 {
        seq![]
    } else {
        spec_theme_dirs(bases, themes.drop_last()) + join_all(bases, themes.last())
    }
}

/// Theme `t` under base directory `b` is theme directory `t * bases.len() + b`:
/// each theme is looked for under every base directory before the next theme.
pub proof fn lemma_theme_dirs_at(bases: Seq<Seq<char>>, themes: Seq<Seq<char>>, t: int, b: int)
    requires
        0 <= t < themes.len(),
        0 <= b < bases.len(),
    ensures
        spec_theme_dirs(bases, themes).len() == themes.len() * bases.len(),
        spec_theme_dirs(bases, themes)[t * bases.len() + b] == path_join(bases[b], themes[t]),
    decreases themes.len(),
{
    lemma_theme_dirs_len(bases, themes.drop_last());
    let front = spec_theme_dirs(bases, themes.drop_last());
    assert(front.len() == (themes.len() - 1) * bases.len());
    assert((themes.len() - 1) * bases.len() + bases.len() == themes.len() * bases.len())
        by (nonlinear_arith);
    if t < themes.len() - 1 {
        lemma_theme_dirs_at(bases, themes.drop_last(), t, b);
        assert(themes.drop_last()[t] == themes[t]);
        assert(t * bases.len() + b < (themes.len() - 1) * bases.len()) by (nonlinear_arith)
            requires
                t < themes.len() - 1,
                b < bases.len(),
        ;
    } else {
        assert(t * bases.len() == (themes.len() - 1) * bases.len());
    }
}

proof fn lemma_theme_dirs_len(bases: Seq<Seq<char>>, themes: Seq<Seq<char>>)
    ensures
        spec_theme_dirs(bases, themes).len() == themes.len() * bases.len(),
    decreases themes.len(),
{
    if themes.len() > 0 {
        lemma_theme_dirs_len(bases, themes.drop_last());
        assert((themes.len() - 1) * bases.len() + bases.len() == themes.len() * bases.len())
            by (nonlinear_arith);
    }
}

/// The theme directories to search, themes first, then base directories.
pub fn theme_dir_candidates(bases: &Vec<String>, themes: &Vec<String>) -> (r: Vec<String>)
    ensures
        strings_view(r@) == spec_theme_dirs(strings_view(bases@), strings_view(themes@)),
{
    let ghost bv = strings_view(bases@);
    let ghost tv = strings_view(themes@);
    let mut out: Vec<String> = Vec::new();
    let mut t: usize = 0;
    while t < themes.len()
        invariant
            t <= themes@.len(),
            bv == strings_view(bases@),
            tv == strings_view(themes@),
            strings_view(out@) == spec_theme_dirs(bv, tv.take(t as int)),
        decreases themes@.len() - t,
    {
        assert(tv.take(t + 1).drop_last() =~= tv.take(t as int));
        assert(tv.take(t + 1).last() == themes@[t as int]@);
        let ghost before = strings_view(out@);
        let mut b: usize = 0;
        while b < bases.len()
            invariant
                b <= bases@.len(),
                t < themes@.len(),
                bv == strings_view(bases@),
                strings_view(out@) == before + join_all(bv.take(b as int), themes@[t as int]@),
            decreases bases@.len() - b,
        {
            let ghost mid = strings_view(out@);
            out.push(join_path(bases[b].as_str(), themes[t].as_str()));
            assert(bv.take(b + 1) =~= bv.take(b as int).push(bases@[b as int]@));
            assert(join_all(bv.take(b + 1), themes@[t as int]@) =~= join_all(
                bv.take(b as int),
                themes@[t as int]@,
            ).push(path_join(bases@[b as int]@, themes@[t as int]@)));
            assert(strings_view(out@) =~= mid.push(path_join(bases@[b as int]@, themes@[t as int]@)));
            b = b + 1;
        }
        assert(bv.take(bases@.len() as int) =~= bv);
        assert(strings_view(out@) =~= spec_theme_dirs(bv, tv.take(t + 1)));
        t = t + 1;
    }
    assert(tv.take(themes@.len() as int) =~= tv);
    out
}

/// A file in a theme is the icon when its name is `<icon>.png`, or equals
/// it once both are lower-cased.
pub open spec fn spec_icon_file_matches(file_name: Seq<char>, icon_name: Seq<char>) -> bool {
    file_name == icon_name + ".png"@ || unicode_lowercase(file_name) == unicode_lowercase(
        icon_name + ".png"@,
    )
}

/// Whether a file found in a theme directory is the named icon.
pub fn icon_file_matches(file_name: &str, icon_name: &str) -> (r: bool)
    ensures
        r == spec_icon_file_matches(file_name@, icon_name@),
{
    let mut png = string_from(icon_name);
    png.append(".png");
    let name = string_from(file_name);
    if name == png {
        return true;
    }
    file_name.to_lowercase() == png.as_str().to_lowercase()
}

/// The icon files to try in the pixmaps directory before listing it: the
/// icon's own name, then its lower-cased name, with `.png` appended.
pub open spec fn spec_pixmap_candidates(icon_name: Seq<char>) -> Seq<Seq<char>> {
    seq![
        path_join("/usr/share/pixmaps"@, icon_name + ".png"@),
        path_join("/usr/share/pixmaps"@, unicode_lowercase(icon_name) + ".png"@),
    ]
}

/// The pixmap files named after the icon, to be tried in order.
pub fn pixmap_candidates(icon_name: &str) -> (r: Vec<String>)
    ensures
        strings_view(r@) == spec_pixmap_candidates(icon_name@),
{
    let mut exact = string_from(icon_name);
    exact.append(".png");
    let mut lower = icon_name.to_lowercase();
    lower.append(".png");
    let mut out: Vec<String> = Vec::new();
    out.push(join_path("/usr/share/pixmaps", exact.as_str()));
    out.push(join_path("/usr/share/pixmaps", lower.as_str()));
    assert(strings_view(out@) =~= spec_pixmap_candidates(icon_name@));
    out
}

/// Whether a file found while listing the pixmaps directory is the icon:
/// its lower-cased name is the lower-cased icon name with `.png` appended.
pub fn pixmap_entry_matches(file_name: &str, icon_name: &str) -> (r: bool)
    ensures
        r == (unicode_lowercase(file_name@) == unicode_lowercase(icon_name@) + ".png"@),
{
    let mut target = icon_name.to_lowercase();
    target.append(".png");
    file_name.to_lowercase() == target
}

/// How a found icon file ranks: whether its lower-cased path mentions
/// `apps`, and the size that its lower-cased path names (0 when none).
pub open spec fn icon_rank(path: Seq<char>) -> (bool, u32) {
    let lower = unicode_lowercase(path);
    (
        occurs_in(lower, "apps"@),
        match spec_size_from_path(lower) {
            Some(n) => n,
            None => 0,
        },
    )
}

/// Rank `a` sorts strictly before rank `b`: files under `apps` first, then
/// larger sizes first.
pub open spec fn ranks_before(a: (bool, u32), b: (bool, u32)) -> bool {
    (a.0 && !b.0) || (a.0 == b.0 && a.1 > b.1)
}

pub(crate) fn icon_rank_exec(path: &str) -> (r: (bool, u32))
    ensures
        r == icon_rank(path@),
{
    let lower = path.to_lowercase();
    let lower_chars = chars_of(lower.as_str());
    let apps = chars_of("apps");
    let has_apps = contains(lower_chars.as_slice(), apps.as_slice());
    let size = match extract_size_from_path(lower.as_str()) {
        Some(n) => n,
        None => 0,
    };
    (has_apps, size)
}

} // verus!

//! The searches for an app's `.desktop` file and for an icon's file, one
//! probe of the file system at a time: each step says what to look at next,
//! given what the last probe found, so the order of probes and "the first hit
//! wins" are stated here while the probing itself is left to the caller.

use vstd::prelude::*;

use crate::paths::{
    desktop_entry_matches, desktop_file_candidates, icon_file_matches, icon_rank,
    lemma_desktop_candidates_at,
    is_absolute_path, join_path, path_join, pixmap_candidates, pixmap_entry_matches,
    ranks_before, spec_desktop_entry_matches, spec_desktop_file_candidates,
    spec_icon_file_matches, spec_pixmap_candidates, strings_view,
};
use crate::text::{string_from, unicode_lowercase};

verus! {

/// Index of the first `true`, or the length when there is none.
pub open spec fn first_true(s: Seq<bool>) -> nat
    decreases s.len(),
{
    if s.len() == 0 {
        0
    } else if s[0] {
        0
    } else {
        1 + first_true(s.drop_first())
    }
}

proof fn lemma_first_true_at(s: Seq<bool>, k: int)
    requires
        0 <= k <= s.len(),
        forall|j: int| 0 <= j < k ==> !s[j],
        k < s.len() ==> s[k],
    ensures
        first_true(s) == k,
    decreases s.len(),
{
    if k > 0 {
        assert forall|j: int| 0 <= j < k - 1 implies !s.drop_first()[j] by {
            assert(s.drop_first()[j] == s[j + 1]);
        }
        lemma_first_true_at(s.drop_first(), k - 1);
    }
}

proof fn lemma_desktop_candidates_len(dirs: Seq<Seq<char>>, key: Seq<char>)
    ensures
        spec_desktop_file_candidates(dirs, key).len() == 2 * dirs.len(),
    decreases dirs.len(),
{
    if dirs.len() > 0 {
        lemma_desktop_candidates_len(dirs.drop_last(), key);
    }
}

/// What the search for an app's `.desktop` file has learnt.
pub enum DesktopSearchEvent {
    /// The search begins.
    Start,
    /// Whether candidate `i` of [`desktop_file_candidates`] is a regular file.
    CandidateChecked(usize, bool),
    /// The names (those that are UTF-8) of the regular files in directory
    /// `i`, in the order the directory lists them.
    DirListed(usize, Vec<String>),
}

/// What the search for an app's `.desktop` file does next.
pub enum DesktopSearchStep {
    /// Check whether candidate `i`, at this path, is a regular file.
    CheckCandidate(usize, String),
    /// List the regular files of directory `i`, at this path.
    ListDir(usize, String),
    /// The search is over, with the file's path or without one.
    Done(Option<String>),
}

/// The mathematical form of a [`DesktopSearchStep`].
pub enum DesktopStepView {
    CheckCandidate(nat, Seq<char>),
    ListDir(nat, Seq<char>),
    Done(Option<Seq<char>>),
}

impl View for DesktopSearchStep {
    type V = DesktopStepView;

    open spec fn view(&self) -> DesktopStepView {
        match self {
            DesktopSearchStep::CheckCandidate(i, p) => DesktopStepView::CheckCandidate(*i as nat, p@),
            DesktopSearchStep::ListDir(i, p) => DesktopStepView::ListDir(*i as nat, p@),
            DesktopSearchStep::Done(Some(p)) => DesktopStepView::Done(Some(p@)),
            DesktopSearchStep::Done(None) => DesktopStepView::Done(None),
        }
    }
}

/// Listing directory `i` next, or giving up when there is none.
pub open spec fn list_dir_step(dirs: Seq<Seq<char>>, i: int) -> DesktopStepView {
    if 0 <= i < dirs.len() {
        DesktopStepView::ListDir(i as nat, dirs[i])
    } else {
        DesktopStepView::Done(None)
    }
}

/// Checking candidate `i` next, or, past the last one, listing the first
/// directory.
pub open spec fn candidate_step(dirs: Seq<Seq<char>>, key: Seq<char>, i: int) -> DesktopStepView {
    let cands = spec_desktop_file_candidates(dirs, key);
    if 0 <= i < cands.len() {
        DesktopStepView::CheckCandidate(i as nat, cands[i])
    } else {
        list_dir_step(dirs, 0)
    }
}

/// Which names of a listing are taken as the app's `.desktop` file.
pub open spec fn desktop_flags(names: Seq<Seq<char>>, key: Seq<char>) -> Seq<bool> {
    names.map_values(|n: Seq<char>| spec_desktop_entry_matches(n, key))
}

/// The next step of the `.desktop` search: the files named after the app key
/// in every directory first, in order (the first that is a regular file
/// wins); then each directory's listing in turn, where the first matching
/// name wins.
pub open spec fn spec_desktop_step(
    dirs: Seq<Seq<char>>,
    key: Seq<char>,
    event: DesktopSearchEvent,
) -> DesktopStepView {
    match event {
        DesktopSearchEvent::Start => candidate_step(dirs, key, 0),
        DesktopSearchEvent::CandidateChecked(i, found) => if found {
            DesktopStepView::Done(Some(spec_desktop_file_candidates(dirs, key)[i as int]))
        } else {
            candidate_step(dirs, key, i + 1)
        },
        DesktopSearchEvent::DirListed(i, names) => {
            let flags = desktop_flags(strings_view(names@), key);
            let m = first_true(flags);
            if m < flags.len() {
                DesktopStepView::Done(Some(path_join(dirs[i as int], names@[m as int]@)))
            } else {
                list_dir_step(dirs, i + 1)
            }
        },
    }
}

/// When directory `i` has been listed, the first listed name that matches the
/// app key is the answer, joined onto `dirs[i]`, the directory that was
/// listed.
pub proof fn lemma_listed_match_is_in_listed_dir(
    dirs: Seq<Seq<char>>,
    key: Seq<char>,
    i: usize,
    names: Vec<String>,
    m: int,
)
    requires
        0 <= m < names@.len(),
        spec_desktop_entry_matches(names@[m]@, key),
        forall|j: int| 0 <= j < m ==> !#[trigger] spec_desktop_entry_matches(names@[j]@, key),
    ensures
        spec_desktop_step(dirs, key, DesktopSearchEvent::DirListed(i, names))
            == DesktopStepView::Done(Some(path_join(dirs[i as int], names@[m]@))),
{
    let flags = desktop_flags(strings_view(names@), key);
    assert forall|j: int| 0 <= j < m implies !flags[j] by {
        assert(strings_view(names@)[j] == names@[j]@);
        assert(!spec_desktop_entry_matches(names@[j]@, key));
    }
    assert(strings_view(names@)[m] == names@[m]@);
    lemma_first_true_at(flags, m);
}

/// When no listed name of directory `i` matches, the next directory is
/// listed, or, after the last one, the search ends without a file.
pub proof fn lemma_unmatched_listing_moves_on(
    dirs: Seq<Seq<char>>,
    key: Seq<char>,
    i: usize,
    names: Vec<String>,
)
    requires
        forall|j: int| 0 <= j < names@.len() ==> !#[trigger] spec_desktop_entry_matches(names@[j]@, key),
    ensures
        i + 1 < dirs.len() ==> spec_desktop_step(dirs, key, DesktopSearchEvent::DirListed(i, names))
            == DesktopStepView::ListDir((i + 1) as nat, dirs[i + 1]),
        i + 1 >= dirs.len() ==> spec_desktop_step(dirs, key, DesktopSearchEvent::DirListed(i, names))
            == DesktopStepView::Done(None),
{
    let flags = desktop_flags(strings_view(names@), key);
    assert forall|j: int| 0 <= j < names@.len() implies !flags[j] by {
        assert(strings_view(names@)[j] == names@[j]@);
        assert(!spec_desktop_entry_matches(names@[j]@, key));
    }
    lemma_first_true_at(flags, names@.len() as int);
}

/// The `.desktop` search tries, in each directory in turn, the app key's own
/// `.desktop` name and then its lower-cased one; a file that is found is the
/// answer; after the last directory's names it lists the first directory.
pub proof fn lemma_desktop_names_tried_in_turn(dirs: Seq<Seq<char>>, key: Seq<char>, k: usize)
    requires
        k < dirs.len(),
        2 * k + 1 <= usize::MAX,
    ensures
        k == 0 ==> spec_desktop_step(dirs, key, DesktopSearchEvent::Start)
            == DesktopStepView::CheckCandidate(0, path_join(dirs[0], key + ".desktop"@)),
        spec_desktop_step(dirs, key, DesktopSearchEvent::CandidateChecked((2 * k) as usize, true))
            == DesktopStepView::Done(Some(path_join(dirs[k as int], key + ".desktop"@))),
        spec_desktop_step(dirs, key, DesktopSearchEvent::CandidateChecked((2 * k + 1) as usize, true))
            == DesktopStepView::Done(
            Some(path_join(dirs[k as int], unicode_lowercase(key) + ".desktop"@)),
        ),
        spec_desktop_step(dirs, key, DesktopSearchEvent::CandidateChecked((2 * k) as usize, false))
            == DesktopStepView::CheckCandidate(
            (2 * k + 1) as nat,
            path_join(dirs[k as int], unicode_lowercase(key) + ".desktop"@),
        ),
        k + 1 < dirs.len() ==> spec_desktop_step(
            dirs,
            key,
            DesktopSearchEvent::CandidateChecked((2 * k + 1) as usize, false),
        ) == DesktopStepView::CheckCandidate(
            (2 * k + 2) as nat,
            path_join(dirs[k + 1], key + ".desktop"@),
        ),
        k + 1 == dirs.len() ==> spec_desktop_step(
            dirs,
            key,
            DesktopSearchEvent::CandidateChecked((2 * k + 1) as usize, false),
        ) == DesktopStepView::ListDir(0, dirs[0]),
{
    lemma_desktop_candidates_at(dirs, key, k as int);
    lemma_desktop_candidates_at(dirs, key, 0);
    if k + 1 < dirs.len() {
        lemma_desktop_candidates_at(dirs, key, k + 1);
    }
}

fn list_dir_exec(dirs: &Vec<String>, i: usize) -> (step: DesktopSearchStep)
    ensures
        step@ == list_dir_step(strings_view(dirs@), i as int),
{
    if i < dirs.len() {
        DesktopSearchStep::ListDir(i, dirs[i].clone())
    } else {
        DesktopSearchStep::Done(None)
    }
}

/// One step of the search for an app's `.desktop` file among `dirs`.
pub fn find_desktop_file(dirs: &Vec<String>, app_key: &str, event: DesktopSearchEvent) -> (step:
    DesktopSearchStep)
    requires
        match event {
            DesktopSearchEvent::Start => true,
            DesktopSearchEvent::CandidateChecked(i, _) => i < 2 * dirs@.len(),
            DesktopSearchEvent::DirListed(i, _) => i < dirs@.len(),
        },
    ensures
        step@ == spec_desktop_step(strings_view(dirs@), app_key@, event),
        match event {
            DesktopSearchEvent::DirListed(i, names) => forall|m: int|
                0 <= m < names@.len() && #[trigger] spec_desktop_entry_matches(names@[m]@, app_key@)
                    && (forall|j: int|
                    0 <= j < m ==> !spec_desktop_entry_matches(names@[j]@, app_key@)) ==> step@
                    == DesktopStepView::Done(Some(path_join(dirs@[i as int]@, names@[m]@))),
            _ => true,
        },
{
    proof {
        if let DesktopSearchEvent::DirListed(i, names) = &event {
            assert forall|m: int|
                0 <= m < names@.len() && #[trigger] spec_desktop_entry_matches(names@[m]@, app_key@)
                    && (forall|j: int|
                    0 <= j < m ==> !spec_desktop_entry_matches(names@[j]@, app_key@)) implies
                spec_desktop_step(strings_view(dirs@), app_key@, event)
                    == DesktopStepView::Done(Some(path_join(dirs@[i as int]@, names@[m]@))) by {
                lemma_listed_match_is_in_listed_dir(strings_view(dirs@), app_key@, *i, *names, m);
                assert(strings_view(dirs@)[i as int] == dirs@[i as int]@);
            }
        }
    }
    let ghost dv = strings_view(dirs@);
    let cands = desktop_file_candidates(dirs, app_key);
    proof {
        lemma_desktop_candidates_len(dv, app_key@);
    }
    let next_candidate = match &event {
        DesktopSearchEvent::Start => 0,
        DesktopSearchEvent::CandidateChecked(i, found) => {
            if *found {
                assert(cands@[*i as int]@ == strings_view(cands@)[*i as int]);
                return DesktopSearchStep::Done(Some(cands[*i].clone()));
            }
            if *i < cands.len() - 1 {
                *i + 1
            } else {
                cands.len()
            }
        },
        DesktopSearchEvent::DirListed(i, names) => {
            let ghost flags = desktop_flags(strings_view(names@), app_key@);
            let mut m: usize = 0;
            #[verifier::loop_isolation(false)]
            while m < names.len()
                invariant
                    m <= names@.len(),
                    flags == desktop_flags(strings_view(names@), app_key@),
                    forall|j: int| 0 <= j < m ==> !flags[j],
                decreases names@.len() - m,
            {
                if desktop_entry_matches(names[m].as_str(), app_key) {
                    proof {
                        lemma_first_true_at(flags, m as int);
                        assert(strings_view(names@)[m as int] == names@[m as int]@);
                    }
                    return DesktopSearchStep::Done(
                        Some(join_path(dirs[*i].as_str(), names[m].as_str())),
                    );
                }
                assert(strings_view(names@)[m as int] == names@[m as int]@);
                m = m + 1;
            }
            proof {
                lemma_first_true_at(flags, names@.len() as int);
            }
            if *i < dirs.len() - 1 {
                return list_dir_exec(dirs, *i + 1);
            } else {
                return DesktopSearchStep::Done(None);
            }
        },
    };
    if next_candidate < cands.len() {
        assert(cands@[next_candidate as int]@ == strings_view(cands@)[next_candidate as int]);
        DesktopSearchStep::CheckCandidate(next_candidate, cands[next_candidate].clone())
    } else {
        list_dir_exec(dirs, 0)
    }
}

/// A regular file found while walking a theme directory: its path as text,
/// and its name when that is UTF-8.
pub struct FoundFile {
    pub path: String,
    pub name: Option<String>,
}

/// What the search for an icon's file has learnt.
pub enum IconSearchEvent {
    /// The search begins.
    Start,
    /// Whether the icon name, an absolute path, is a regular file.
    AbsoluteFileChecked(bool),
    /// Theme directory `i`: `None` when it is not a directory, else the
    /// regular files found by walking it, in walking order.
    ThemeDirSearched(usize, Option<Vec<FoundFile>>),
    /// Whether the pixmaps directory is a directory.
    PixmapsDirChecked(bool),
    /// Whether pixmap candidate `i` of [`pixmap_candidates`] is a regular file.
    PixmapCandidateChecked(usize, bool),
    /// The names (those that are UTF-8) of the regular files in the pixmaps
    /// directory, in listing order.
    PixmapsListed(Vec<String>),
}

/// What the search for an icon's file does next.
pub enum IconSearchStep {
    /// Check whether the icon name itself is a regular file.
    CheckAbsoluteFile,
    /// Walk theme directory `i`, at this path, if it is a directory.
    SearchThemeDir(usize, String),
    /// Check whether the pixmaps directory is a directory.
    CheckPixmapsDir,
    /// Check whether pixmap candidate `i`, at this path, is a regular file.
    CheckPixmapCandidate(usize, String),
    /// List the regular files of the pixmaps directory.
    ListPixmaps,
    /// The icon is the file at this path.
    FoundPath(String),
    /// The icon is this file of those just found in a theme directory.
    FoundInTheme(usize),
    /// There is no icon file.
    NotFound,
}

/// The mathematical form of an [`IconSearchStep`].
pub enum IconStepView {
    CheckAbsoluteFile,
    SearchThemeDir(nat, Seq<char>),
    CheckPixmapsDir,
    CheckPixmapCandidate(nat, Seq<char>),
    ListPixmaps,
    FoundPath(Seq<char>),
    FoundInTheme(nat),
    NotFound,
}

impl View for IconSearchStep {
    type V = IconStepView;

    open spec fn view(&self) -> IconStepView {
        match self {
            IconSearchStep::CheckAbsoluteFile => IconStepView::CheckAbsoluteFile,
            IconSearchStep::SearchThemeDir(i, p) => IconStepView::SearchThemeDir(*i as nat, p@),
            IconSearchStep::CheckPixmapsDir => IconStepView::CheckPixmapsDir,
            IconSearchStep::CheckPixmapCandidate(i, p) => IconStepView::CheckPixmapCandidate(
                *i as nat,
                p@,
            ),
            IconSearchStep::ListPixmaps => IconStepView::ListPixmaps,
            IconSearchStep::FoundPath(p) => IconStepView::FoundPath(p@),
            IconSearchStep::FoundInTheme(k) => IconStepView::FoundInTheme(*k as nat),
            IconSearchStep::NotFound => IconStepView::NotFound,
        }
    }
}

/// Searching theme directory `i` next, or, past the last one, the pixmaps.
pub open spec fn theme_step(theme_dirs: Seq<Seq<char>>, i: int) -> IconStepView {
    if 0 <= i < theme_dirs.len() {
        IconStepView::SearchThemeDir(i as nat, theme_dirs[i])
    } else {
        IconStepView::CheckPixmapsDir
    }
}

/// File `k` found in a theme is the named icon.
pub open spec fn found_matches(files: Seq<FoundFile>, icon_name: Seq<char>, k: int) -> bool {
    files[k].name matches Some(n) && spec_icon_file_matches(n@, icon_name)
}

/// File `k` is the icon taken from a theme: the first, in walking order,
/// among the matching files that rank best (files under `apps` first, then
/// larger sizes).
pub open spec fn is_best_found(files: Seq<FoundFile>, icon_name: Seq<char>, k: int) -> bool {
    &&& 0 <= k < files.len()
    &&& found_matches(files, icon_name, k)
    &&& forall|j: int|
        0 <= j < k && #[trigger] found_matches(files, icon_name, j) ==> ranks_before(
            icon_rank(files[k].path@),
            icon_rank(files[j].path@),
        )
    &&& forall|j: int|
        k < j < files.len() && #[trigger] found_matches(files, icon_name, j) ==> !ranks_before(
            icon_rank(files[j].path@),
            icon_rank(files[k].path@),
        )
}

/// A theme directory yielded no icon: it is not a directory, or none of the
/// files found in it is the named icon.
pub open spec fn theme_dir_missed(files: Option<Vec<FoundFile>>, icon_name: Seq<char>) -> bool {
    match files {
        None => true,
        Some(fs) => forall|j: int| 0 <= j < fs@.len() ==> !#[trigger] found_matches(fs@, icon_name, j),
    }
}

/// A theme directory that is not a directory is skipped: the next theme
/// directory is searched, and the pixmaps are checked only after the last one.
pub proof fn lemma_missing_theme_dir_moves_on(theme_dirs: Seq<Seq<char>>, icon_name: Seq<char>, i: usize)
    ensures
        i + 1 < theme_dirs.len() ==> spec_icon_step(
            theme_dirs,
            icon_name,
            IconSearchEvent::ThemeDirSearched(i, None),
        ) == IconStepView::SearchThemeDir((i + 1) as nat, theme_dirs[i + 1]),
        i + 1 >= theme_dirs.len() ==> spec_icon_step(
            theme_dirs,
            icon_name,
            IconSearchEvent::ThemeDirSearched(i, None),
        ) == IconStepView::CheckPixmapsDir,
{
}

/// The icon search checks an absolute icon name as a file first, then the
/// theme directories in order, then the pixmaps directory: there the icon's
/// own `.png` name, then its lower-cased `.png` name, then a listing; a file
/// that is found is the icon, and a missing pixmaps directory ends the search.
pub proof fn lemma_icon_search_order(theme_dirs: Seq<Seq<char>>, icon_name: Seq<char>)
    ensures
        icon_name.len() > 0 && icon_name[0] == '/' ==> spec_icon_step(
            theme_dirs,
            icon_name,
            IconSearchEvent::Start,
        ) == IconStepView::CheckAbsoluteFile,
        spec_icon_step(theme_dirs, icon_name, IconSearchEvent::AbsoluteFileChecked(true))
            == IconStepView::FoundPath(icon_name),
        theme_dirs.len() > 0 ==> spec_icon_step(
            theme_dirs,
            icon_name,
            IconSearchEvent::AbsoluteFileChecked(false),
        ) == IconStepView::SearchThemeDir(0, theme_dirs[0]),
        theme_dirs.len() > 0 && !(icon_name.len() > 0 && icon_name[0] == '/') ==> spec_icon_step(
            theme_dirs,
            icon_name,
            IconSearchEvent::Start,
        ) == IconStepView::SearchThemeDir(0, theme_dirs[0]),
        theme_dirs.len() == 0 ==> spec_icon_step(
            theme_dirs,
            icon_name,
            IconSearchEvent::AbsoluteFileChecked(false),
        ) == IconStepView::CheckPixmapsDir,
        spec_icon_step(theme_dirs, icon_name, IconSearchEvent::PixmapsDirChecked(false))
            == IconStepView::NotFound,
        spec_icon_step(theme_dirs, icon_name, IconSearchEvent::PixmapsDirChecked(true))
            == IconStepView::CheckPixmapCandidate(
            0,
            path_join("/usr/share/pixmaps"@, icon_name + ".png"@),
        ),
        spec_icon_step(theme_dirs, icon_name, IconSearchEvent::PixmapCandidateChecked(0, true))
            == IconStepView::FoundPath(path_join("/usr/share/pixmaps"@, icon_name + ".png"@)),
        spec_icon_step(theme_dirs, icon_name, IconSearchEvent::PixmapCandidateChecked(0, false))
            == IconStepView::CheckPixmapCandidate(
            1,
            path_join("/usr/share/pixmaps"@, unicode_lowercase(icon_name) + ".png"@),
        ),
        spec_icon_step(theme_dirs, icon_name, IconSearchEvent::PixmapCandidateChecked(1, true))
            == IconStepView::FoundPath(
            path_join("/usr/share/pixmaps"@, unicode_lowercase(icon_name) + ".png"@),
        ),
        spec_icon_step(theme_dirs, icon_name, IconSearchEvent::PixmapCandidateChecked(1, false))
            == IconStepView::ListPixmaps,
{
}

/// In the pixmaps listing, the first name that is the icon's `.png` name
/// once both are lower-cased is the icon, in `/usr/share/pixmaps`; with no
/// such name there is no icon.
pub proof fn lemma_pixmap_listing(icon_name: Seq<char>, theme_dirs: Seq<Seq<char>>, names: Vec<String>)
    ensures
        forall|m: int|
            0 <= m < names@.len() && #[trigger] unicode_lowercase(names@[m]@) == unicode_lowercase(
                icon_name,
            ) + ".png"@ && (forall|j: int|
                0 <= j < m ==> unicode_lowercase(names@[j]@) != unicode_lowercase(icon_name)
                    + ".png"@) ==> spec_icon_step(
                theme_dirs,
                icon_name,
                IconSearchEvent::PixmapsListed(names),
            ) == IconStepView::FoundPath(path_join("/usr/share/pixmaps"@, names@[m]@)),
        (forall|j: int|
            0 <= j < names@.len() ==> #[trigger] unicode_lowercase(names@[j]@) != unicode_lowercase(
                icon_name,
            ) + ".png"@) ==> spec_icon_step(theme_dirs, icon_name, IconSearchEvent::PixmapsListed(names))
            == IconStepView::NotFound,
{
    let flags = pixmap_flags(strings_view(names@), icon_name);
    assert forall|j: int| 0 <= j < names@.len() implies flags[j] == (unicode_lowercase(names@[j]@)
        == unicode_lowercase(icon_name) + ".png"@) by {
        assert(strings_view(names@)[j] == names@[j]@);
    }
    assert forall|m: int|
        0 <= m < names@.len() && #[trigger] unicode_lowercase(names@[m]@) == unicode_lowercase(
            icon_name,
        ) + ".png"@ && (forall|j: int|
            0 <= j < m ==> unicode_lowercase(names@[j]@) != unicode_lowercase(icon_name)
                + ".png"@) implies spec_icon_step(
        theme_dirs,
        icon_name,
        IconSearchEvent::PixmapsListed(names),
    ) == IconStepView::FoundPath(path_join("/usr/share/pixmaps"@, names@[m]@)) by {
        assert(flags[m]);
        assert forall|j: int| 0 <= j < m implies !flags[j] by {
            assert(unicode_lowercase(names@[j]@) != unicode_lowercase(icon_name) + ".png"@);
        }
        lemma_first_true_at(flags, m);
    }
    if forall|j: int|
        0 <= j < names@.len() ==> #[trigger] unicode_lowercase(names@[j]@) != unicode_lowercase(
            icon_name,
        ) + ".png"@ {
        assert forall|j: int| 0 <= j < names@.len() implies !flags[j] by {
            assert(unicode_lowercase(names@[j]@) != unicode_lowercase(icon_name) + ".png"@);
        }
        lemma_first_true_at(flags, names@.len() as int);
    }
}

/// The icon taken from a theme is under `apps` whenever some matching file
/// is; among matching files as much under `apps` as it, none names a larger
/// size; and every matching file before it ranks strictly lower.
pub proof fn lemma_best_found_ranks_highest(files: Seq<FoundFile>, icon_name: Seq<char>, k: int, j: int)
    requires
        is_best_found(files, icon_name, k),
        0 <= j < files.len(),
        found_matches(files, icon_name, j),
    ensures
        icon_rank(files[j].path@).0 ==> icon_rank(files[k].path@).0,
        icon_rank(files[j].path@).0 == icon_rank(files[k].path@).0 ==> icon_rank(files[j].path@).1
            <= icon_rank(files[k].path@).1,
        j < k ==> (icon_rank(files[k].path@).0 && !icon_rank(files[j].path@).0) || (icon_rank(
            files[k].path@,
        ).0 == icon_rank(files[j].path@).0 && icon_rank(files[k].path@).1 > icon_rank(
            files[j].path@,
        ).1),
{
}

/// Which names of the pixmaps listing are taken as the icon.
pub open spec fn pixmap_flags(names: Seq<Seq<char>>, icon_name: Seq<char>) -> Seq<bool> {
    names.map_values(
        |n: Seq<char>| unicode_lowercase(n) == unicode_lowercase(icon_name) + ".png"@,
    )
}

/// The next step of the icon search, except for a theme directory's files
/// (see [`find_icon_file`]): an absolute icon name that is a regular file is
/// the icon; else each theme directory in turn; else, in the pixmaps
/// directory, the icon's own name, then its lower-cased name, then the first
/// listed file whose lower-cased name is the lower-cased icon name with
/// `.png`. The first hit wins.
pub open spec fn spec_icon_step(
    theme_dirs: Seq<Seq<char>>,
    icon_name: Seq<char>,
    event: IconSearchEvent,
) -> IconStepView {
    match event {
        IconSearchEvent::Start => if icon_name.len() > 0 && icon_name[0] == '/' {
            IconStepView::CheckAbsoluteFile
        } else {
            theme_step(theme_dirs, 0)
        },
        IconSearchEvent::AbsoluteFileChecked(found) => if found {
            IconStepView::FoundPath(icon_name)
        } else {
            theme_step(theme_dirs, 0)
        },
        IconSearchEvent::ThemeDirSearched(i, _) => theme_step(theme_dirs, i + 1),
        IconSearchEvent::PixmapsDirChecked(is_dir) => if is_dir {
            IconStepView::CheckPixmapCandidate(0, spec_pixmap_candidates(icon_name)[0])
        } else {
            IconStepView::NotFound
        },
        IconSearchEvent::PixmapCandidateChecked(i, found) => if found {
            IconStepView::FoundPath(spec_pixmap_candidates(icon_name)[i as int])
        } else if i == 0 {
            IconStepView::CheckPixmapCandidate(1, spec_pixmap_candidates(icon_name)[1])
        } else {
            IconStepView::ListPixmaps
        },
        IconSearchEvent::PixmapsListed(names) => {
            let flags = pixmap_flags(strings_view(names@), icon_name);
            let m = first_true(flags);
            if m < flags.len() {
                IconStepView::FoundPath(path_join("/usr/share/pixmaps"@, names@[m as int]@))
            } else {
                IconStepView::NotFound
            }
        },
    }
}

fn theme_step_exec(theme_dirs: &Vec<String>, i: usize) -> (step: IconSearchStep)
    ensures
        step@ == theme_step(strings_view(theme_dirs@), i as int),
{
    if i < theme_dirs.len() {
        IconSearchStep::SearchThemeDir(i, theme_dirs[i].clone())
    } else {
        IconSearchStep::CheckPixmapsDir
    }
}

fn best_found_exec(files: &Vec<FoundFile>, icon_name: &str) -> (r: Option<usize>)
    ensures
        match r {
            Some(k) => is_best_found(files@, icon_name@, k as int),
            None => forall|j: int| 0 <= j < files@.len() ==> !#[trigger] found_matches(files@, icon_name@, j),
        },
{
    let mut best: Option<usize> = None;
    let mut best_rank: (bool, u32) = (false, 0);
    let mut j: usize = 0;
    while j < files.len()
        invariant
            j <= files@.len(),
            match best {
                Some(k) => k < j && best_rank == icon_rank(files@[k as int].path@) && found_matches(
                    files@,
                    icon_name@,
                    k as int,
                ) && (forall|i: int|
                    0 <= i < k && #[trigger] found_matches(files@, icon_name@, i) ==> ranks_before(
                        best_rank,
                        icon_rank(files@[i].path@),
                    )) && (forall|i: int|
                    k < i < j && #[trigger] found_matches(files@, icon_name@, i) ==> !ranks_before(
                        icon_rank(files@[i].path@),
                        best_rank,
                    )),
                None => forall|i: int| 0 <= i < j ==> !#[trigger] found_matches(files@, icon_name@, i),
            },
        decreases files@.len() - j,
    {
        let f = &files[j];
        let is_match = match &f.name {
            Some(n) => icon_file_matches(n.as_str(), icon_name),
            None => false,
        };
        assert(is_match == found_matches(files@, icon_name@, j as int));
        if is_match {
            let rank = crate::paths::icon_rank_exec(f.path.as_str());
            match best {
                None => {
                    best = Some(j);
                    best_rank = rank;
                },
                Some(_) => {
                    if (rank.0 && !best_rank.0) || (rank.0 == best_rank.0 && rank.1 > best_rank.1) {
                        best = Some(j);
                        best_rank = rank;
                    }
                },
            }
        }
        j = j + 1;
    }
    best
}

/// One step of the search for the file of the icon `icon_name`, given the
/// theme directories to search in order (see `theme_dir_candidates`). When a
/// theme directory's files come in, the icon is the first, in walking order,
/// of the matching files that rank best (see [`is_best_found`]); when none
/// matches, the search goes on as [`spec_icon_step`] says.
pub fn find_icon_file(theme_dirs: &Vec<String>, icon_name: &str, event: IconSearchEvent) -> (step:
    IconSearchStep)
    requires
        match event {
            IconSearchEvent::PixmapCandidateChecked(i, _) => i < 2,
            _ => true,
        },
    ensures
        match event {
            IconSearchEvent::ThemeDirSearched(_, Some(files)) => if exists|j: int|
                0 <= j < files@.len() && #[trigger] found_matches(files@, icon_name@, j) {
                step matches IconSearchStep::FoundInTheme(k) && is_best_found(
                    files@,
                    icon_name@,
                    k as int,
                )
            } else {
                step@ == spec_icon_step(strings_view(theme_dirs@), icon_name@, event)
            },
            _ => step@ == spec_icon_step(strings_view(theme_dirs@), icon_name@, event),
        },
        match event {
            IconSearchEvent::ThemeDirSearched(i, files) => theme_dir_missed(files, icon_name@) ==> if i
                + 1 < theme_dirs@.len() {
                step matches IconSearchStep::SearchThemeDir(j, p) && j == i + 1 && p@ == theme_dirs@[i
                    + 1]@
            } else {
                step matches IconSearchStep::CheckPixmapsDir
            },
            _ => true,
        },
{
    match event {
        IconSearchEvent::Start => {
            if is_absolute_path(icon_name) {
                IconSearchStep::CheckAbsoluteFile
            } else {
                theme_step_exec(theme_dirs, 0)
            }
        },
        IconSearchEvent::AbsoluteFileChecked(found) => {
            if found {
                IconSearchStep::FoundPath(string_from(icon_name))
            } else {
                theme_step_exec(theme_dirs, 0)
            }
        },
        IconSearchEvent::ThemeDirSearched(i, files) => {
            match files {
                Some(files) => {
                    match best_found_exec(&files, icon_name) {
                        Some(k) => {
                            return IconSearchStep::FoundInTheme(k);
                        },
                        None => {},
                    }
                },
                None => {},
            }
            if i < theme_dirs.len() {
                proof {
                    if i + 1 < theme_dirs@.len() {
                        assert(strings_view(theme_dirs@)[i + 1] == theme_dirs@[i + 1]@);
                    }
                }
                theme_step_exec(theme_dirs, i + 1)
            } else {
                IconSearchStep::CheckPixmapsDir
            }
        },
        IconSearchEvent::PixmapsDirChecked(is_dir) => {
            if is_dir {
                let cands = pixmap_candidates(icon_name);
                assert(strings_view(cands@).len() == 2);
                assert(cands@[0]@ == strings_view(cands@)[0]);
                IconSearchStep::CheckPixmapCandidate(0, cands[0].clone())
            } else {
                IconSearchStep::NotFound
            }
        },
        IconSearchEvent::PixmapCandidateChecked(i, found) => {
            let cands = pixmap_candidates(icon_name);
            assert(strings_view(cands@).len() == 2);
            assert(cands@[0]@ == strings_view(cands@)[0]);
            assert(cands@[1]@ == strings_view(cands@)[1]);
            if found {
                IconSearchStep::FoundPath(cands[i].clone())
            } else if i == 0 {
                IconSearchStep::CheckPixmapCandidate(1, cands[1].clone())
            } else {
                IconSearchStep::ListPixmaps
            }
        },
        IconSearchEvent::PixmapsListed(names) => {
            let ghost flags = pixmap_flags(strings_view(names@), icon_name@);
            let mut m: usize = 0;
            #[verifier::loop_isolation(false)]
            while m < names.len()
                invariant
                    m <= names@.len(),
                    flags == pixmap_flags(strings_view(names@), icon_name@),
                    forall|j: int| 0 <= j < m ==> !flags[j],
                decreases names@.len() - m,
            {
                assert(strings_view(names@)[m as int] == names@[m as int]@);
                if pixmap_entry_matches(names[m].as_str(), icon_name) {
                    proof {
                        lemma_first_true_at(flags, m as int);
                    }
                    return IconSearchStep::FoundPath(
                        join_path("/usr/share/pixmaps", names[m].as_str()),
                    );
                }
                m = m + 1;
            }
            proof {
                lemma_first_true_at(flags, names@.len() as int);
            }
            IconSearchStep::NotFound
        },
    }
}

} // verus!

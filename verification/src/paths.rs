//! Linux paths and data-file lookup, following the XDG conventions.
//!
//! Paths are texts joined the way `PathBuf::push` joins them on Unix. Whatever the
//! environment or the file system holds is handed in by the caller: environment values as
//! arguments, file tests as closures.
use vstd::prelude::*;

use crate::text::{chars_of, string_of, string_push};

verus! {

/// `base` joined with `name`: an absolute `name` replaces `base`; otherwise a `/` goes between
/// them unless `base` is empty or already ends in one.
pub open spec fn spec_join(base: Seq<char>, name: Seq<char>) -> Seq<char> {
    if name.len() > 0 && name[0] == '/' {
        name
    } else if base.len() == 0 || base.last() == '/' {
        base + name
    } else {
        base + seq!['/'] + name
    }
}

/// Index of the last `/` before `end`, or -1.
pub open spec fn last_slash_before(name: Seq<char>, end: int) -> int
    decreases end,
{
    if end <= 0 {
        -1
    } else if name[end - 1] == '/' {
        end - 1
    } else {
        last_slash_before(name, end - 1)
    }
}

pub proof fn lemma_last_slash_before(name: Seq<char>, end: int)
    requires
        0 <= end <= name.len(),
    ensures
        -1 <= last_slash_before(name, end) < end,
        last_slash_before(name, end) >= 0 ==> name[last_slash_before(name, end)] == '/',
        forall|i: int| last_slash_before(name, end) < i < end ==> name[i] != '/',
    decreases end,
{
    if end > 0 && name[end - 1] != '/' {
        lemma_last_slash_before(name, end - 1);
    }
}

/// Where the file name of the path `name[..end]` lies, as `Path::file_name` finds it on Unix:
/// the last component after dropping trailing `/` and `.` components; none when that
/// component is `..` or there is none.
pub open spec fn file_name_range(name: Seq<char>, end: int) -> Option<(int, int)>
    decreases end,
{
    if end <= 0 || end > name.len() {
        None
    } else if name[end - 1] == '/' {
        file_name_range(name, end - 1)
    } else {
        proof {
            lemma_last_slash_before(name, end);
        }
        let start = last_slash_before(name, end) + 1;
        if end - start == 1 && name[start] == '.' {
            file_name_range(name, start)
        } else if end - start == 2 && name[start] == '.' && name[start + 1] == '.' {
            None
        } else {
            Some((start, end))
        }
    }
}

/// The file name lies inside the path.
pub proof fn lemma_file_name_range(name: Seq<char>, end: int)
    ensures
        match file_name_range(name, end) {
            Some((start, stop)) => 0 <= start < stop <= end <= name.len(),
            None => true,
        },
    decreases end,
{
    if 0 < end <= name.len() {
        lemma_last_slash_before(name, end);
        if name[end - 1] == '/' {
            lemma_file_name_range(name, end - 1);
        } else {
            let start = last_slash_before(name, end) + 1;
            if end - start == 1 && name[start] == '.' {
                lemma_file_name_range(name, start);
            }
        }
    }
}

/// Index of the last `.` in `name[start..end]`, or -1.
pub open spec fn last_dot_between(name: Seq<char>, start: int, end: int) -> int
    decreases end - start,
{
    if end <= start {
        -1
    } else if name[end - 1] == '.' {
        end - 1
    } else {
        last_dot_between(name, start, end - 1)
    }
}

/// Where the file stem of the file name `name[start..end]` ends: before its last `.`, unless
/// that dot is its first character or there is none.
pub open spec fn stem_end(name: Seq<char>, start: int, end: int) -> int {
    if last_dot_between(name, start, end) <= start {
        end
    } else {
        last_dot_between(name, start, end)
    }
}

/// `Path::with_extension` on Unix: the path cut after the file stem, then `.extension` when
/// the extension is not empty; a path without a file name stays as it is.
pub open spec fn spec_with_extension(name: Seq<char>, extension: Seq<char>) -> Seq<char> {
    match file_name_range(name, name.len() as int) {
        None => name,
        Some((start, end)) => name.take(stem_end(name, start, end)) + if extension.len() == 0 {
            Seq::empty()
        } else {
            seq!['.'] + extension
        },
    }
}

/// The packed sibling of a data file: its extension removed, then replaced by `qj`.
pub open spec fn packed_name(name: Seq<char>) -> Seq<char> {
    spec_with_extension(spec_with_extension(name, Seq::empty()), seq!['q', 'j'])
}

/// The paths tried for data file `name`, in order: for each directory, the packed file,
/// then `name` itself.
pub open spec fn data_file_candidates(dirs: Seq<Seq<char>>, name: Seq<char>) -> Seq<Seq<char>> {
    Seq::new(
        2 * dirs.len(),
        |i: int|
            if i % 2 == 0 {
                spec_join(dirs[i / 2], packed_name(name))
            } else {
                spec_join(dirs[i / 2], name)
            },
    )
}

/// `test` was seen to answer `answer` for the path `path`.
pub open spec fn answered<F: Fn(&str) -> bool>(test: F, path: Seq<char>, answer: bool) -> bool {
    exists|p: &str| p@ == path && #[trigger] test.ensures((p,), answer)
}

/// `result` is what looking up data file `name` in `dirs` with the file test `test` may give:
/// the first candidate path the test accepted, every earlier one having been refused; or
/// nothing, every candidate having been refused.
pub open spec fn lookup_result<F: Fn(&str) -> bool>(
    dirs: Seq<Seq<char>>,
    name: Seq<char>,
    test: F,
    result: Option<Seq<char>>,
) -> bool {
    let candidates = data_file_candidates(dirs, name);
    match result {
        Some(path) => exists|k: int|
            0 <= k < candidates.len() && path == candidates[k] && answered(test, candidates[k], true)
                && forall|j: int| 0 <= j < k ==> answered(test, candidates[j], false),
        None => forall|j: int| 0 <= j < candidates.len() ==> answered(test, candidates[j], false),
    }
}

/// The XDG directory: the variable's value when it is set and not empty, otherwise
/// `fallback` under the home directory.
pub open spec fn spec_xdg(value: Option<Seq<char>>, home: Option<Seq<char>>, fallback: Seq<char>) -> Option<Seq<char>> {
    match value {
        Some(value) if value.len() > 0 => Some(value),
        _ => match home {
            Some(home) => Some(spec_join(home, fallback)),
            None => None,
        },
    }
}

/// `name` under an optional directory.
pub open spec fn spec_under(dir: Option<Seq<char>>, name: Seq<char>) -> Option<Seq<char>> {
    match dir {
        Some(dir) => Some(spec_join(dir, name)),
        None => None,
    }
}

/// The configuration directory: `qingjian` under `$XDG_CONFIG_HOME`, or under `~/.config`.
pub open spec fn spec_config_dir(xdg_config_home: Option<Seq<char>>, home: Option<Seq<char>>) -> Option<Seq<char>> {
    spec_under(spec_xdg(xdg_config_home, home, ".config"@), "qingjian"@)
}

/// The user data directory: `qingjian` under `$XDG_DATA_HOME`, or under `~/.local/share`.
pub open spec fn spec_data_dir(xdg_data_home: Option<Seq<char>>, home: Option<Seq<char>>) -> Option<Seq<char>> {
    spec_under(spec_xdg(xdg_data_home, home, ".local/share"@), "qingjian"@)
}

/// The view of an optional borrowed text.
pub open spec fn opt_seq(text: Option<&str>) -> Option<Seq<char>> {
    match text {
        Some(text) => Some(text@),
        None => None,
    }
}

/// The view of an optional text.
pub open spec fn opt_string(text: Option<String>) -> Option<Seq<char>> {
    match text {
        Some(text) => Some(text@),
        None => None,
    }
}

/// `base` joined with `name`, as `PathBuf::join` does on Unix.
pub fn join(base: &str, name: &str) -> (result: String)
    ensures
        result@ == spec_join(base@, name@),
{
    let name_len = name.unicode_len();
    if name_len > 0 && name.get_char(0) == '/' {
        return name.to_owned();
    }
    let base_len = base.unicode_len();
    let mut joined = base.to_owned();
    if !(base_len == 0 || base.get_char(base_len - 1) == '/') {
        string_push(&mut joined, '/');
    }
    joined.append(name);
    joined
}

/// Where the file name of `name[..len]` lies, as [`file_name_range`] says.
fn file_name_of(name: &Vec<char>) -> (result: Option<(usize, usize)>)
    ensures
        match file_name_range(name@, name@.len() as int) {
            Some((start, end)) => result == Some((start as usize, end as usize)),
            None => result is None,
        },
        match result {
            Some((start, end)) => start < end <= name@.len(),
            None => true,
        },
{
    proof {
        lemma_file_name_range(name@, name@.len() as int);
    }
    let mut end: usize = name.len();
    loop
        invariant
            end <= name@.len(),
            file_name_range(name@, name@.len() as int) == file_name_range(name@, end as int),
        decreases end,
    {
        if end == 0 {
            return None;
        }
        if name[end - 1] == '/' {
            end = end - 1;
            continue;
        }
        let mut start: usize = end;
        while start > 0 && name[start - 1] != '/'
            invariant
                start <= end <= name@.len(),
                last_slash_before(name@, end as int) == last_slash_before(name@, start as int),
            decreases start,
        {
            start = start - 1;
        }
        proof {
            lemma_last_slash_before(name@, end as int);
            assert(last_slash_before(name@, end as int) + 1 == start);
        }
        if end - start == 1 && name[start] == '.' {
            end = start;
            continue;
        }
        if end - start == 2 && name[start] == '.' && name[start + 1] == '.' {
            return None;
        }
        return Some((start, end));
    }
}

/// `name` with its extension replaced, as `Path::with_extension` does on Unix.
fn with_extension(name: &str, extension: &str) -> (result: String)
    ensures
        result@ == spec_with_extension(name@, extension@),
{
    let chars = chars_of(name);
    proof {
        lemma_file_name_range(chars@, chars@.len() as int);
    }
    match file_name_of(&chars) {
        None => name.to_owned(),
        Some((start, end)) => {
            let mut dot: usize = end;
            while dot > start && chars[dot - 1] != '.'
                invariant
                    start <= dot <= end <= chars@.len(),
                    last_dot_between(chars@, start as int, end as int) == last_dot_between(
                        chars@,
                        start as int,
                        dot as int,
                    ),
                decreases dot,
            {
                dot = dot - 1;
            }
            let cut: usize = if dot <= start + 1 {
                end
            } else {
                dot - 1
            };
            assert(cut == stem_end(chars@, start as int, end as int));
            let mut result = string_of(&slice_prefix(&chars, cut));
            let ghost stem = result@;
            if extension.unicode_len() > 0 {
                string_push(&mut result, '.');
                result.append(extension);
                assert(result@ =~= stem + (seq!['.'] + extension@));
            } else {
                assert(result@ =~= stem + Seq::<char>::empty());
            }
            result
        },
    }
}

/// The first `len` characters of `chars`.
fn slice_prefix(chars: &Vec<char>, len: usize) -> (result: Vec<char>)
    requires
        len <= chars@.len(),
    ensures
        result@ == chars@.take(len as int),
{
    let mut out: Vec<char> = Vec::new();
    let mut i: usize = 0;
    while i < len
        invariant
            i <= len <= chars@.len(),
            out@ == chars@.take(i as int),
        decreases len - i,
    {
        out.push(chars[i]);
        i = i + 1;
    }
    out
}

/// The XDG directory: `value` when set and not empty, otherwise `fallback` under `home`.
fn xdg(value: Option<&str>, home: Option<&str>, fallback: &str) -> (result: Option<String>)
    ensures
        opt_string(result) == spec_xdg(opt_seq(value), opt_seq(home), fallback@),
{
    match value {
        Some(value) => if !value.is_empty() {
            return Some(value.to_owned());
        },
        None => {},
    }
    match home {
        Some(home) => Some(join(home, fallback)),
        None => None,
    }
}

/// `~/.config/qingjian`, or `$XDG_CONFIG_HOME/qingjian`; `None` without a home directory.
pub fn config_dir(xdg_config_home: Option<&str>, home: Option<&str>) -> (result: Option<String>)
    ensures
        opt_string(result) == spec_config_dir(opt_seq(xdg_config_home), opt_seq(home)),
{
    match xdg(xdg_config_home, home, ".config") {
        Some(dir) => Some(join(dir.as_str(), "qingjian")),
        None => None,
    }
}

/// `~/.local/share/qingjian`, or `$XDG_DATA_HOME/qingjian`; `None` without a home directory.
pub fn data_dir(xdg_data_home: Option<&str>, home: Option<&str>) -> (result: Option<String>)
    ensures
        opt_string(result) == spec_data_dir(opt_seq(xdg_data_home), opt_seq(home)),
{
    match xdg(xdg_data_home, home, ".local/share") {
        Some(dir) => Some(join(dir.as_str(), "qingjian")),
        None => None,
    }
}

/// `config.toml` in the configuration directory.
pub fn config_file(xdg_config_home: Option<&str>, home: Option<&str>) -> (result: Option<String>)
    ensures
        opt_string(result) == spec_under(spec_config_dir(opt_seq(xdg_config_home), opt_seq(home)), "config.toml"@),
{
    match config_dir(xdg_config_home, home) {
        Some(dir) => Some(join(dir.as_str(), "config.toml")),
        None => None,
    }
}

/// The bundled data directory: `$QINGJIAN_SHARE_DIR` when set and not empty, otherwise
/// `/usr/share/qingjian`.
pub fn share_dir(override_dir: Option<&str>) -> (result: String)
    ensures
        result@ == (match opt_seq(override_dir) {
            Some(dir) if dir.len() > 0 => dir,
            _ => "/usr/share/qingjian"@,
        }),
{
    match override_dir {
        Some(dir) => if !dir.is_empty() {
            return dir.to_owned();
        },
        None => {},
    }
    "/usr/share/qingjian".to_owned()
}

/// The directories searched for data files: the bundled directory, its `lexicon`,
/// `glossary` and `emoji` subdirectories, then the user's data directory.
pub fn data_search_dirs(share_dir: &str, user_dir: Option<&str>) -> (result: Vec<String>)
    ensures
        result@.map_values(|dir: String| dir@) == seq![
            share_dir@,
            spec_join(share_dir@, "lexicon"@),
            spec_join(share_dir@, "glossary"@),
            spec_join(share_dir@, "emoji"@),
        ] + match user_dir {
            Some(dir) => seq![dir@],
            None => Seq::<Seq<char>>::empty(),
        },
{
    let mut dirs: Vec<String> = Vec::new();
    dirs.push(share_dir.to_owned());
    dirs.push(join(share_dir, "lexicon"));
    dirs.push(join(share_dir, "glossary"));
    dirs.push(join(share_dir, "emoji"));
    match user_dir {
        Some(dir) => dirs.push(dir.to_owned()),
        None => {},
    }
    assert(dirs@.map_values(|dir: String| dir@) =~= seq![
        share_dir@,
        spec_join(share_dir@, "lexicon"@),
        spec_join(share_dir@, "glossary"@),
        spec_join(share_dir@, "emoji"@),
    ] + match user_dir {
        Some(dir) => seq![dir@],
        None => Seq::<Seq<char>>::empty(),
    });
    dirs
}

/// The data file `name` in the first directory of `dirs` that has it; within one
/// directory the packed `.qj` sibling goes before `name` itself.
pub fn find_data_file(dirs: &Vec<String>, name: &str, is_file: impl Fn(&str) -> bool) -> (result: Option<String>)
    requires
        forall|path: &str| #[trigger] is_file.requires((path,)),
    ensures
        lookup_result(dirs@.map_values(|dir: String| dir@), name@, is_file, opt_string(result)),
{
    let ghost views = dirs@.map_values(|dir: String| dir@);
    let ghost candidates = data_file_candidates(views, name@);
    proof {
        reveal_strlit("");
        reveal_strlit("qj");
        assert(""@ =~= Seq::<char>::empty());
        assert("qj"@ =~= seq!['q', 'j']);
    }
    let stem = with_extension(name, "");
    let packed = with_extension(stem.as_str(), "qj");
    assert(packed@ == packed_name(name@));
    let mut d: usize = 0;
    while d < dirs.len()
        invariant
            d <= dirs@.len(),
            views == dirs@.map_values(|dir: String| dir@),
            candidates == data_file_candidates(views, name@),
            packed@ == packed_name(name@),
            forall|path: &str| #[trigger] is_file.requires((path,)),
            forall|j: int| 0 <= j < 2 * d ==> answered(is_file, candidates[j], false),
        decreases dirs@.len() - d,
    {
        let first = join(dirs[d].as_str(), packed.as_str());
        assert(candidates[2 * d] == first@);
        let found = is_file(first.as_str());
        assert(answered(is_file, candidates[2 * d], found));
        if found {
            return Some(first);
        }
        let second = join(dirs[d].as_str(), name);
        assert(candidates[2 * d + 1] == second@);
        let found = is_file(second.as_str());
        assert(answered(is_file, candidates[2 * d + 1], found));
        if found {
            return Some(second);
        }
        d = d + 1;
    }
    None
}

/// The bundled directory of extra dictionaries, `dicts` under `share_dir`, when
/// `is_dir` finds it to be a directory.
pub fn shared_dicts_dir(share_dir: &str, is_dir: impl Fn(&str) -> bool) -> (result: Option<String>)
    requires
        forall|path: &str| #[trigger] is_dir.requires((path,)),
    ensures
        match result {
            Some(dir) => dir@ == spec_join(share_dir@, "dicts"@) && answered(is_dir, dir@, true),
            None => answered(is_dir, spec_join(share_dir@, "dicts"@), false),
        },
{
    let dir = join(share_dir, "dicts");
    let found = is_dir(dir.as_str());
    assert(answered(is_dir, dir@, found));
    if found {
        Some(dir)
    } else {
        None
    }
}

/// Where the language model comes from: a packed model, or a unigram and a bigram table.
pub enum ModelSource {
    Packed(String),
    Tables { unigram: String, bigram: String },
}

/// The language model files to load from `dirs`: the packed `lm.qj` when there is one, else
/// the pair `lm-unigram.tsv` and `lm-bigram.tsv` when both are there, else none.
pub fn language_model_source(dirs: &Vec<String>, is_file: impl Fn(&str) -> bool) -> (result: Option<ModelSource>)
    requires
        forall|path: &str| #[trigger] is_file.requires((path,)),
    ensures
        ({
            let views = dirs@.map_values(|dir: String| dir@);
            match result {
                Some(ModelSource::Packed(path)) => lookup_result(views, "lm.qj"@, is_file, Some(path@)),
                Some(ModelSource::Tables { unigram, bigram }) => {
                    &&& lookup_result(views, "lm.qj"@, is_file, None)
                    &&& lookup_result(views, "lm-unigram.tsv"@, is_file, Some(unigram@))
                    &&& lookup_result(views, "lm-bigram.tsv"@, is_file, Some(bigram@))
                },
                None => {
                    &&& lookup_result(views, "lm.qj"@, is_file, None)
                    &&& exists|unigram: Option<Seq<char>>, bigram: Option<Seq<char>>|
                        lookup_result(views, "lm-unigram.tsv"@, is_file, unigram) && lookup_result(
                            views,
                            "lm-bigram.tsv"@,
                            is_file,
                            bigram,
                        ) && (unigram is None || bigram is None)
                },
            }
        }),
{
    proof {
        reveal_strlit("lm.qj");
        reveal_strlit("lm-unigram.tsv");
        reveal_strlit("lm-bigram.tsv");
    }
    if let Some(path) = find_data_file(dirs, "lm.qj", &is_file) {
        return Some(ModelSource::Packed(path));
    }
    let unigram = find_data_file(dirs, "lm-unigram.tsv", &is_file);
    let bigram = find_data_file(dirs, "lm-bigram.tsv", &is_file);
    match (unigram, bigram) {
        (Some(unigram), Some(bigram)) => Some(ModelSource::Tables { unigram, bigram }),
        (unigram, bigram) => {
            assert(lookup_result(dirs@.map_values(|dir: String| dir@), "lm-unigram.tsv"@, is_file, opt_string(unigram)));
            assert(lookup_result(dirs@.map_values(|dir: String| dir@), "lm-bigram.tsv"@, is_file, opt_string(bigram)));
            None
        },
    }
}

/// Law: the file name of `name[..end]` is its last component that is neither `.` nor `..`: a
/// run of characters without `/`, starting the path or right after a `/`, and only `/` and `.`
/// follow it.
pub proof fn law_file_name_is_last_component(name: Seq<char>, end: int)
    requires
        0 <= end <= name.len(),
    ensures
        match file_name_range(name, end) {
            Some((start, stop)) => {
                &&& 0 <= start < stop <= end
                &&& (start == 0 || name[start - 1] == '/')
                &&& forall|i: int| start <= i < stop ==> name[i] != '/'
                &&& !(stop - start == 1 && name[start] == '.')
                &&& !(stop - start == 2 && name[start] == '.' && name[start + 1] == '.')
                &&& forall|i: int| stop <= i < end ==> name[i] == '/' || name[i] == '.'
            },
            None => true,
        },
    decreases end,
{
    if end > 0 {
        lemma_last_slash_before(name, end);
        if name[end - 1] == '/' {
            law_file_name_is_last_component(name, end - 1);
        } else {
            let start = last_slash_before(name, end) + 1;
            if end - start == 1 && name[start] == '.' {
                law_file_name_is_last_component(name, start);
            }
        }
    }
}

/// Law: the stem of the file name `name[start..end]` ends at its last `.`, unless that dot is
/// its first character or it has none; then the stem is the whole file name.
pub proof fn law_stem_before_last_dot(name: Seq<char>, start: int, end: int)
    requires
        0 <= start < end <= name.len(),
    ensures
        start < stem_end(name, start, end) <= end,
        stem_end(name, start, end) < end ==> name[stem_end(name, start, end)] == '.' && forall|i: int|
            stem_end(name, start, end) < i < end ==> name[i] != '.',
        stem_end(name, start, end) == end ==> forall|i: int| start < i < end ==> name[i] != '.',
{
    lemma_last_dot_between(name, start, end);
}

/// `last_dot_between` finds the last `.` of the range.
proof fn lemma_last_dot_between(name: Seq<char>, start: int, end: int)
    requires
        0 <= start <= end <= name.len(),
    ensures
        last_dot_between(name, start, end) == -1 || start <= last_dot_between(name, start, end) < end,
        last_dot_between(name, start, end) >= start ==> name[last_dot_between(name, start, end)] == '.',
        forall|i: int| last_dot_between(name, start, end) < i < end && start <= i ==> name[i] != '.',
    decreases end - start,
{
    if end > start && name[end - 1] != '.' {
        lemma_last_dot_between(name, start, end - 1);
    }
}

} // verus!

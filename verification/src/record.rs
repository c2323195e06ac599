//! The names and file formats of installed Python distributions: the `RECORD`
//! manifest, its path, and the paths of compiled bytecode.
use vstd::prelude::*;
use vstd::string::StringExecFns;

use crate::path;
use crate::path::Comp;
use crate::text;

verus! {

/// Suffix of the per-distribution metadata directory.
pub const DIST_INFO_SUFFIX: &'static str = ".dist-info";

/// The installed-files manifest inside a `.dist-info` directory.
pub const RECORD_FILENAME: &'static str = "RECORD";

/// Directory holding compiled bytecode next to its source files.
pub const PYCACHE_DIR: &'static str = "__pycache__";

/// Suffix of compiled bytecode files.
pub const PYC_SUFFIX: &'static str = ".pyc";

/// What comes before the optimization level in the name of a bytecode file.
pub const OPT_TAG: &'static str = ".opt-";

/// Suffix of source files.
pub const PY_SUFFIX: &'static str = ".py";

/// What separates the words of a distribution name.
pub open spec fn is_name_separator() -> spec_fn(char) -> bool {
    |c: char| c == '-' || c == '_' || c == '.'
}

/// The ASCII lower case of a character.
pub open spec fn lower_char(c: char) -> char {
    if 'A' <= c <= 'Z' {
        ((c as int) + 32) as char
    } else {
        c
    }
}

/// The normal form of a distribution name: each run of separators is one `-`, and
/// everything else is in lower case.
pub open spec fn normal_name(name: Seq<char>) -> Seq<char>
    decreases name.len(),
{
    if name.len() == 0 {
        Seq::empty()
    } else {
        let before = normal_name(name.drop_last());
        if !is_name_separator()(name.last()) {
            before.push(lower_char(name.last()))
        } else if ends_in_separator(name.drop_last()) {
            before
        } else {
            before.push('-')
        }
    }
}

pub open spec fn starts_with_separator(name: Seq<char>) -> bool {
    name.len() > 0 && is_name_separator()(name[0])
}

pub open spec fn ends_in_separator(name: Seq<char>) -> bool {
    name.len() > 0 && is_name_separator()(name.last())
}

/// The ASCII lower case of a character.
fn to_lower(c: char) -> (r: char)
    ensures
        r == lower_char(c),
{
    if 'A' <= c && c <= 'Z' {
        ((c as u8) + 32) as char
    } else {
        c
    }
}

/// Normalizes a distribution name per PEP 503.
pub fn normalize_name(name: &str) -> (r: String)
    ensures
        r@ == normal_name(name@),
{
    let chars: Vec<char> = text::to_chars(name);
    let mut out: String = String::new();
    let mut in_run: bool = false;
    let mut i: usize = 0;
    assert(chars@.take(0) =~= Seq::<char>::empty());
    while i < chars.len()
        invariant
            i <= chars@.len(),
            chars@ == name@,
            out@ == normal_name(chars@.take(i as int)),
            in_run == ends_in_separator(chars@.take(i as int)),
        decreases chars@.len() - i,
    {
        let c: char = chars[i];
        assert(chars@.take(i + 1).drop_last() =~= chars@.take(i as int));
        if c == '-' || c == '_' || c == '.' {
            if !in_run {
                out.push('-');
            }
            in_run = true;
        } else {
            out.push(to_lower(c));
            in_run = false;
        }
        i += 1;
    }
    assert(chars@.take(i as int) =~= name@);
    out
}

/// The distribution whose `RECORD` a path is: the dist-info directory and the
/// normalized name.
///
/// The path ends in `<name>-<version>.dist-info/RECORD`, where the name ends at
/// the first `-` and is not empty.
pub open spec fn record_of(p: Seq<Comp>) -> Option<(Seq<Comp>, Seq<char>)> {
    if p.len() < 2 || p.last() != Comp::Normal(RECORD_FILENAME@) {
        None
    } else {
        match p[p.len() - 2] {
            Comp::Normal(dir) => match text::without_suffix(dir, DIST_INFO_SUFFIX@) {
                Some(stem) => match text::before_first(stem, seq!['-']) {
                    Some(name) => if name.len() > 0 {
                        Some((p.drop_last(), normal_name(name)))
                    } else {
                        None
                    },
                    None => None,
                },
                None => None,
            },
            _ => None,
        }
    }
}

/// If `path` is `<...>/<name>-<version>.dist-info/RECORD`, gives the dist-info
/// directory and the normalized distribution name.
///
/// The directory name is `{name}-{version}` with both fields normalized, so the
/// name contains no `-` and the first `-` is the separator.
pub fn parse_record_path(path: &str) -> (r: Option<(&str, String)>)
    ensures
        match r {
            Some((dir, name)) => record_of(path::components(path@)) == Some(
                (path::components(dir@), name@),
            ),
            None => record_of(path::components(path@)) is None,
        },
{
    let file: &str = match path::path_file_name(path) {
        Some(file) => file,
        None => {
            return None;
        },
    };
    if !text::same_text(file, RECORD_FILENAME) {
        return None;
    }
    let dir: &str = match path::path_parent(path) {
        Some(dir) => dir,
        None => {
            return None;
        },
    };
    let dir_name: Vec<char> = match path::path_file_name(dir) {
        Some(dir_name) => text::to_chars(dir_name),
        None => {
            return None;
        },
    };
    let suffix: Vec<char> = text::to_chars(DIST_INFO_SUFFIX);
    let stem_len: usize = match text::strip_suffix(&dir_name, &suffix) {
        Some(stem_len) => stem_len,
        None => {
            return None;
        },
    };
    let stem: Vec<char> = text::chars_of(&dir_name, 0, stem_len);
    let dash: Vec<char> = vec!['-'];
    assert(dash@ =~= seq!['-']);
    match text::find_first(&stem, &dash) {
        None => None,
        Some(name_len) => {
            if name_len == 0 {
                None
            } else {
                let name: String = text::text_of(&stem, 0, name_len);
                Some((dir, normalize_name(name.as_str())))
            }
        },
    }
}

/// What a quoted field holds, where `s` begins after the opening quote. Two quotes
/// in a row stand for one, and a single one ends the field.
pub open spec fn quoted_field(s: Seq<char>) -> Seq<char>
    decreases s.len(),
{
    if s.len() == 0 {
        Seq::empty()
    } else if s[0] != '"' {
        seq![s[0]] + quoted_field(s.skip(1))
    } else if s.len() > 1 && s[1] == '"' {
        seq!['"'] + quoted_field(s.skip(2))
    } else {
        Seq::empty()
    }
}

/// The first field of a CSV line.
pub open spec fn first_field(line: Seq<char>) -> Seq<char> {
    if line.len() > 0 && line[0] == '"' {
        quoted_field(line.skip(1))
    } else {
        match text::before_first(line, seq![',']) {
            Some(field) => field,
            None => line,
        }
    }
}

/// Extracts the first field of a CSV line, handling double-quoted fields (which
/// are used when the path contains a comma or quote).
pub fn csv_first_field(line: &str) -> (r: String)
    ensures
        r@ == first_field(line@),
{
    let chars: Vec<char> = text::to_chars(line);
    if chars.len() == 0 || chars[0] != '"' {
        let comma: Vec<char> = vec![','];
        assert(comma@ =~= seq![',']);
        return match text::find_first(&chars, &comma) {
            Some(end) => text::text_of(&chars, 0, end),
            None => line.to_owned(),
        };
    }
    let mut out: String = String::new();
    let mut i: usize = 1;
    assert(out@ + quoted_field(chars@.skip(1)) =~= first_field(line@));
    while i < chars.len()
        invariant
            1 <= i <= chars.len(),
            chars@ == line@,
            out@ + quoted_field(chars@.skip(i as int)) == first_field(line@),
        decreases chars@.len() - i,
    {
        let ghost rest = chars@.skip(i as int);
        let c: char = chars[i];
        assert(rest[0] == c);
        if c == '"' {
            if i + 1 < chars.len() && chars[i + 1] == '"' {
                assert(rest[1] == '"');
                assert(rest.skip(2) =~= chars@.skip(i + 2));
                assert(out@ + quoted_field(rest) =~= out@.push('"') + quoted_field(rest.skip(2)));
                out.push('"');
                i += 2;
            } else {
                assert(quoted_field(rest) =~= Seq::<char>::empty());
                assert(out@ + quoted_field(rest) =~= out@);
                return out;
            }
        } else {
            assert(rest.skip(1) =~= chars@.skip(i + 1));
            assert(out@ + quoted_field(rest) =~= out@.push(c) + quoted_field(rest.skip(1)));
            out.push(c);
            i += 1;
        }
    }
    assert(chars@.skip(i as int) =~= Seq::<char>::empty());
    assert(out@ + quoted_field(chars@.skip(i as int)) =~= out@);
    out
}

/// The first field of each line, as a function.
pub open spec fn first_field_of() -> spec_fn(Seq<char>) -> Seq<char> {
    |line: Seq<char>| first_field(line)
}

/// The paths that a `RECORD` lists: the first field of each line that has one.
pub open spec fn record_paths(contents: Seq<char>) -> Seq<Seq<char>> {
    text::lines(contents).map_values(first_field_of()).filter(text::not_empty())
}

/// Parses `RECORD` contents (CSV: `path,hash,size`) into a list of paths.
///
/// Paths are absolute or relative to the `.dist-info` directory's parent (i.e.
/// site-packages). Blank lines are ignored.
pub fn parse_record(contents: &str) -> (r: Vec<String>)
    ensures
        text::string_views(r@) == record_paths(contents@),
{
    let lines: Vec<String> = text::split_lines(contents);
    let ghost fields = text::lines(contents@).map_values(first_field_of());
    let mut r: Vec<String> = Vec::new();
    let mut i: usize = 0;
    proof {
        reveal(Seq::filter);
        assert(fields.take(0) =~= Seq::<Seq<char>>::empty());
        assert(text::string_views(r@) =~= Seq::<Seq<char>>::empty());
    }
    while i < lines.len()
        invariant
            i <= lines@.len(),
            text::string_views(lines@) == text::lines(contents@),
            fields == text::lines(contents@).map_values(first_field_of()),
            text::string_views(r@) == fields.take(i as int).filter(text::not_empty()),
        decreases lines@.len() - i,
    {
        let field: String = csv_first_field(lines[i].as_str());
        proof {
            reveal(Seq::filter);
            assert(text::string_views(lines@)[i as int] == lines@[i as int]@);
            assert(fields[i as int] == field@);
            assert(fields.take(i + 1).drop_last() =~= fields.take(i as int));
            assert(text::string_views(r@.push(field)) =~= text::string_views(r@).push(field@));
        }
        if !field.as_str().is_empty() {
            r.push(field);
        }
        i += 1;
    }
    assert(text::string_views(lines@).len() == lines@.len());
    assert(fields.take(i as int) =~= fields);
    r
}

/// The name of a bytecode file without the optimization level, which is its last
/// dotted part if it is there.
pub open spec fn without_level(stem: Seq<char>) -> Seq<char> {
    match text::before_last(stem, OPT_TAG@) {
        Some(front) => if stem.skip((front.len() + OPT_TAG@.len()) as int).contains('.') {
            stem
        } else {
            front
        },
        None => stem,
    }
}

/// The source file of a bytecode file.
///
/// The path ends in `__pycache__/<module>.<tag>.pyc` or
/// `__pycache__/<module>.<tag>.opt-<n>.pyc`. The module name may hold dots, so
/// the optional part is the last dotted part, and the tag the last one before it.
pub open spec fn source_of(p: Seq<Comp>) -> Option<Seq<Comp>> {
    if p.len() < 2 || p[p.len() - 2] != Comp::Normal(PYCACHE_DIR@) {
        None
    } else {
        match p.last() {
            Comp::Normal(file) => match text::without_suffix(file, PYC_SUFFIX@) {
                Some(stem) => {
                    match text::before_last(without_level(stem), seq!['.']) {
                        Some(module) => if module.len() > 0 {
                            Some(
                                p.take(p.len() - 2).push(Comp::Normal(module + PY_SUFFIX@)),
                            )
                        } else {
                            None
                        },
                        None => None,
                    }
                },
                None => None,
            },
            _ => None,
        }
    }
}

/// If `path` is `<dir>/__pycache__/<module>.<tag>.pyc`, gives `<dir>/<module>.py`.
pub fn pyc_source_path(path: &str) -> (r: Option<String>)
    ensures
        match r {
            Some(source) => source_of(path::components(path@)) == Some(
                path::components(source@),
            ),
            None => source_of(path::components(path@)) is None,
        },
{
    let ghost p = path::components(path@);
    proof {
        path::lemma_components_path(path@);
    }
    let file: Vec<char> = match path::path_file_name(path) {
        Some(file) => text::to_chars(file),
        None => {
            return None;
        },
    };
    let suffix: Vec<char> = text::to_chars(PYC_SUFFIX);
    let stem_len: usize = match text::strip_suffix(&file, &suffix) {
        Some(stem_len) => stem_len,
        None => {
            return None;
        },
    };
    let pycache: &str = match path::path_parent(path) {
        Some(pycache) => pycache,
        None => {
            return None;
        },
    };
    let in_pycache: bool = match path::path_file_name(pycache) {
        Some(dir_name) => text::same_text(dir_name, PYCACHE_DIR),
        None => false,
    };
    if !in_pycache {
        return None;
    }
    let stem: Vec<char> = text::chars_of(&file, 0, stem_len);
    let opt: Vec<char> = text::to_chars(OPT_TAG);
    let dot: Vec<char> = vec!['.'];
    assert(dot@ =~= seq!['.']);
    let tagged_len: usize = match text::find_last(&stem, &opt) {
        Some(tagged_len) => {
            let level: Vec<char> = text::chars_of(&stem, tagged_len + opt.len(), stem_len);
            assert(level@ =~= stem@.skip(tagged_len + opt@.len()));
            match text::find_first(&level, &dot) {
                Some(at) => {
                    assert(level@.subrange(at as int, at + 1)[0] == '.');
                    assert(level@[at as int] == '.');
                    stem_len
                },
                None => {
                    proof {
                        lemma_no_dot(level@);
                    }
                    tagged_len
                },
            }
        },
        None => stem_len,
    };
    let tagged: Vec<char> = text::chars_of(&stem, 0, tagged_len);
    assert(tagged_len == stem_len ==> tagged@ =~= stem@);
    assert(tagged@ =~= without_level(stem@));
    let module_len: usize = match text::find_last(&tagged, &dot) {
        Some(module_len) => module_len,
        None => {
            return None;
        },
    };
    if module_len == 0 {
        return None;
    }
    let base: &str = match path::path_parent(pycache) {
        Some(base) => base,
        None => {
            return None;
        },
    };
    let mut source: String = text::text_of(&tagged, 0, module_len);
    let ghost module = source@;
    source.append(PY_SUFFIX);
    proof {
        assert(module == tagged@.take(module_len as int));
        assert forall|j: int| 0 <= j < module.len() implies #[trigger] module[j] != '/' by {
            assert(module[j] == file@[j]);
            assert(path::is_name(file@));
        }
        lemma_source_name(module);
        path::lemma_components_name(source@);
        assert(path::components(base@) =~= p.take(p.len() - 2));
        assert(path::components(base@) + seq![Comp::Normal(source@)] =~= p.take(p.len() - 2).push(
            Comp::Normal(source@),
        ));
        assert(Seq::<Comp>::empty().push(Comp::Normal(source@)) =~= seq![Comp::Normal(source@)]);
        if path::components(base@).len() == 0 {
            assert(path::components(base@) =~= Seq::<Comp>::empty());
        }
    }
    Some(path::path_join(base, source.as_str()))
}

proof fn lemma_no_dot(s: Seq<char>)
    requires
        text::before_first(s, seq!['.']) is None,
    ensures
        !s.contains('.'),
    decreases s.len(),
{
    if s.contains('.') {
        let i = s.index_of_first('.').unwrap();
        s.index_of_first_ensures('.');
        let dot = seq!['.'];
        assert(s.subrange(i, i + 1) =~= dot);
        assert forall|j: int| 0 <= j < i implies !text::matches_at(s, dot, j) by {
            if text::matches_at(s, dot, j) {
                assert(s.subrange(j, j + 1)[0] == '.');
            }
        }
        text::lemma_first_match(s, dot, i);
        assert(text::first_match(s, dot, i));
    }
}

/// A module name with the suffix of source files is a file name.
proof fn lemma_source_name(module: Seq<char>)
    requires
        module.len() > 0,
        forall|j: int| 0 <= j < module.len() ==> #[trigger] module[j] != '/',
    ensures
        path::is_name(module + PY_SUFFIX@),
{
    reveal_strlit(".py");
    let name = module + PY_SUFFIX@;
    assert(name.len() >= 4);
    assert forall|j: int| 0 <= j < name.len() implies #[trigger] name[j] != '/' by {
        if j < module.len() {
            assert(name[j] == module[j]);
        } else {
            assert(name[j] == PY_SUFFIX@[j - module.len()]);
        }
    }
}

} // verus!

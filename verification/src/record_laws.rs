//! What holds of distribution names, of `RECORD` files and of bytecode paths as a
//! whole.
use vstd::prelude::*;

use crate::path::Comp;
use crate::record;
use crate::text;

verus! {

// --------------------------------------------------------------------- names

/// The ASCII lower case of a text.
pub open spec fn lower() -> spec_fn(Seq<char>) -> Seq<char> {
    |s: Seq<char>| s.map_values(|c: char| record::lower_char(c))
}

/// The words of a distribution name in lower case.
pub open spec fn name_words(name: Seq<char>) -> Seq<Seq<char>> {
    text::split_on(name, record::is_name_separator()).filter(text::not_empty()).map_values(lower())
}

/// How the words of a name grow with its last character.
proof fn lemma_words_step(name: Seq<char>, c: char)
    ensures
        ({
            let words = name_words(name);
            name_words(name.push(c)) == if record::is_name_separator()(c) {
                words
            } else if name.len() == 0 || record::ends_in_separator(name) {
                words.push(seq![record::lower_char(c)])
            } else {
                words.drop_last().push(words.last().push(record::lower_char(c)))
            }
        }),
        name.len() > 0 && !record::ends_in_separator(name) ==> name_words(name).len() > 0,
        name.len() == 0 ==> name_words(name).len() == 0,
{
    let sep = record::is_name_separator();
    let pieces = text::split_on(name, sep);
    let words = name_words(name);
    let front = pieces.drop_last();
    let last = pieces.last();
    text::lemma_split_pieces(name, sep);
    assert(name.push(c).drop_last() =~= name);
    assert(last.len() > 0 <==> name.len() > 0 && !record::ends_in_separator(name));
    assert(front.push(last) =~= pieces);
    text::lemma_keep_push(front, last);
    if name.len() == 0 {
        reveal(Seq::filter);
        assert(front =~= Seq::<Seq<char>>::empty());
    }
    if sep(c) {
        text::lemma_keep_push(pieces, Seq::empty());
    } else {
        let longer = last.push(c);
        text::lemma_keep_push(front, longer);
        assert(lower()(longer) =~= lower()(last).push(record::lower_char(c)));
        if last.len() > 0 {
            assert(words.drop_last() =~= front.filter(text::not_empty()).map_values(lower()));
            assert(words.last() == lower()(last));
            assert(name_words(name.push(c)) =~= words.drop_last().push(lower()(longer)));
        } else {
            assert(lower()(longer) =~= seq![record::lower_char(c)]);
            assert(name_words(name.push(c)) =~= words.push(lower()(longer)));
        }
    }
}

/// How a joined text grows with its last word, or by a word.
proof fn lemma_join_grow(words: Seq<Seq<char>>, c: char)
    ensures
        words.len() > 0 ==> text::join_with(words.drop_last().push(words.last().push(c)), '-')
            == text::join_with(words, '-').push(c),
        text::join_with(words.push(seq![c]), '-') == if words.len() > 0 {
            text::join_with(words, '-').push('-').push(c)
        } else {
            seq![c]
        },
{
    let longer = words.push(seq![c]);
    assert(longer.drop_last() =~= words);
    if words.len() > 0 {
        let grown = words.drop_last().push(words.last().push(c));
        assert(grown.drop_last() =~= words.drop_last());
        assert(text::join_with(grown, '-') =~= text::join_with(words, '-').push(c));
        assert(text::join_with(longer, '-') =~= text::join_with(words, '-').push('-').push(c));
    }
}

/// The words with one `-` between them, and one before or behind them if asked for.
pub open spec fn dashed(words: Seq<Seq<char>>, before: bool, behind: bool) -> Seq<char> {
    let dash = |there: bool| if there { seq!['-'] } else { Seq::<char>::empty() };
    if words.len() == 0 {
        dash(before)
    } else {
        dash(before) + text::join_with(words, '-') + dash(behind)
    }
}

/// The normal form of a name is its words in lower case with one `-` between them, and
/// one at each end at which the name has separators.
pub proof fn lemma_normal_form(name: Seq<char>)
    ensures
        record::normal_name(name) == dashed(
            name_words(name),
            record::starts_with_separator(name),
            record::ends_in_separator(name),
        ),
        name_words(name).len() == 0 && name.len() > 0 ==> record::starts_with_separator(name),
    decreases name.len(),
{
    if name.len() == 0 {
        lemma_words_step(name, '-');
        assert(record::normal_name(name) =~= dashed(name_words(name), false, false));
    } else {
        let n = name.drop_last();
        let c = name.last();
        lemma_normal_form(n);
        lemma_words_step(n, c);
        assert(n.push(c) =~= name);
        let words = name_words(n);
        let l = record::lower_char(c);
        lemma_join_grow(words, l);
        if n.len() > 0 {
            assert(n[0] == name[0]);
        }
        assert(record::normal_name(name) =~= dashed(
            name_words(name),
            record::starts_with_separator(name),
            record::ends_in_separator(name),
        ));
    }
}

/// A normal form is in lower case, holds no separator but `-`, and no two of them in a
/// row. It begins and ends with a separator where the name does.
pub proof fn lemma_normal_shape(name: Seq<char>)
    ensures
        forall|i: int|
            0 <= i < record::normal_name(name).len() ==> {
                let c = #[trigger] record::normal_name(name)[i];
                record::lower_char(c) == c && (record::is_name_separator()(c) ==> c == '-')
            },
        forall|i: int|
            0 < i < record::normal_name(name).len() && #[trigger] record::normal_name(name)[i]
                == '-' ==> record::normal_name(name)[i - 1] != '-',
        record::starts_with_separator(record::normal_name(name)) == record::starts_with_separator(
            name,
        ),
        record::ends_in_separator(record::normal_name(name)) == record::ends_in_separator(name),
        record::normal_name(name).len() == 0 <==> name.len() == 0,
    decreases name.len(),
{
    if name.len() > 0 {
        let n = name.drop_last();
        lemma_normal_shape(n);
        let before = record::normal_name(n);
        let after = record::normal_name(name);
        if n.len() > 0 {
            assert(n[0] == name[0]);
            assert(after[0] == before[0]);
            assert(before.last() == before[before.len() - 1]);
        }
        assert forall|i: int| 0 <= i < after.len() implies {
            let c = #[trigger] after[i];
            record::lower_char(c) == c && (record::is_name_separator()(c) ==> c == '-')
        } by {
            if i < before.len() {
                assert(after[i] == before[i]);
            }
        }
        assert forall|i: int| 0 < i < after.len() && #[trigger] after[i] == '-' implies after[i
            - 1] != '-' by {
            if i < before.len() {
                assert(after[i] == before[i]);
            }
        }
    }
}

/// A name of lower-case letters, digits and single dashes is its own normal form.
pub proof fn lemma_plain_name(name: Seq<char>)
    requires
        forall|i: int|
            0 <= i < name.len() ==> !('A' <= #[trigger] name[i] <= 'Z') && name[i] != '_' && name[i]
                != '.',
        forall|i: int| 0 < i < name.len() && #[trigger] name[i] == '-' ==> name[i - 1] != '-',
    ensures
        record::normal_name(name) == name,
{
    lemma_normal_fixed(name);
}

proof fn lemma_normal_fixed(name: Seq<char>)
    requires
        forall|i: int|
            0 <= i < name.len() ==> record::lower_char(#[trigger] name[i]) == name[i] && (
            record::is_name_separator()(name[i]) ==> name[i] == '-'),
        forall|i: int| 0 < i < name.len() && #[trigger] name[i] == '-' ==> name[i - 1] != '-',
    ensures
        record::normal_name(name) == name,
    decreases name.len(),
{
    if name.len() > 0 {
        let n = name.drop_last();
        assert forall|i: int| 0 <= i < n.len() implies record::lower_char(#[trigger] n[i]) == n[i]
            && (record::is_name_separator()(n[i]) ==> n[i] == '-') by {
            assert(n[i] == name[i]);
        }
        assert forall|i: int| 0 < i < n.len() && #[trigger] n[i] == '-' implies n[i - 1] != '-' by {
            assert(n[i] == name[i]);
        }
        lemma_normal_fixed(n);
        assert(name[name.len() - 1] == name.last());
        assert(n.push(name.last()) =~= name);
    }
}

/// A normal form holds no upper-case letter, no `_`, no `.`, and no two `-` in a row.
pub proof fn lemma_normal_letters(name: Seq<char>, i: int)
    requires
        0 <= i < record::normal_name(name).len(),
    ensures
        !('A' <= record::normal_name(name)[i] <= 'Z'),
        record::normal_name(name)[i] != '_',
        record::normal_name(name)[i] != '.',
        i > 0 && record::normal_name(name)[i] == '-' ==> record::normal_name(name)[i - 1] != '-',
{
    lemma_normal_shape(name);
    let c = record::normal_name(name)[i];
    if 'A' <= c <= 'Z' {
        assert(record::lower_char(c) == c);
    }
}

/// Whether characters are the same to a distribution name: they are equal, or both are
/// one of `-`, `_` and `.`, or they are a letter in upper and in lower case.
pub open spec fn alike(a: char, b: char) -> bool {
    ||| a == b
    ||| (a == '-' || a == '_' || a == '.') && (b == '-' || b == '_' || b == '.')
    ||| 'A' <= a <= 'Z' && b as int == a as int + 32
    ||| 'A' <= b <= 'Z' && a as int == b as int + 32
}

/// Names that differ only in the kind of their separators and in the case of their
/// letters are one name.
pub proof fn lemma_alike_names(a: Seq<char>, b: Seq<char>)
    requires
        a.len() == b.len(),
        forall|i: int| 0 <= i < a.len() ==> alike(#[trigger] a[i], b[i]),
    ensures
        record::normal_name(a) == record::normal_name(b),
    decreases a.len(),
{
    if a.len() > 0 {
        let x = a.drop_last();
        let y = b.drop_last();
        assert forall|i: int| 0 <= i < x.len() implies alike(#[trigger] x[i], y[i]) by {
            assert(x[i] == a[i] && y[i] == b[i]);
        }
        lemma_alike_names(x, y);
        assert(alike(a[a.len() - 1], b[b.len() - 1]));
        if x.len() > 0 {
            assert(alike(x[x.len() - 1], y[y.len() - 1]));
        }
    }
}

/// A separator more in a row makes no difference.
pub proof fn lemma_separator_runs(a: Seq<char>, c: char, d: char, b: Seq<char>)
    requires
        c == '-' || c == '_' || c == '.',
        d == '-' || d == '_' || d == '.',
    ensures
        record::normal_name(a.push(c).push(d) + b) == record::normal_name(a.push(c) + b),
    decreases b.len(),
{
    let x = a.push(c).push(d) + b;
    let y = a.push(c) + b;
    if b.len() == 0 {
        assert(x =~= a.push(c).push(d));
        assert(y =~= a.push(c));
        assert(x.drop_last() =~= y);
    } else {
        lemma_separator_runs(a, c, d, b.drop_last());
        assert(x.drop_last() =~= a.push(c).push(d) + b.drop_last());
        assert(y.drop_last() =~= a.push(c) + b.drop_last());
        if b.drop_last().len() == 0 {
            assert(x.drop_last().last() == d);
            assert(y.drop_last().last() == c);
        } else {
            assert(x.drop_last().last() == y.drop_last().last());
        }
    }
}

/// The normal form of a name is its own normal form.
pub proof fn lemma_normal_name_idempotent(name: Seq<char>)
    ensures
        record::normal_name(record::normal_name(name)) == record::normal_name(name),
{
    lemma_normal_shape(name);
    lemma_normal_fixed(record::normal_name(name));
}

/// The words of a name are those of its normal form.
pub proof fn lemma_normal_words(name: Seq<char>)
    ensures
        name_words(record::normal_name(name)) == name_words(name),
    decreases name.len(),
{
    if name.len() > 0 {
        let n = name.drop_last();
        let c = name.last();
        let before = record::normal_name(n);
        lemma_normal_words(n);
        lemma_normal_shape(n);
        assert(n.push(c) =~= name);
        lemma_words_step(n, c);
        lemma_words_step(before, '-');
        lemma_words_step(before, record::lower_char(c));
    }
}

/// Names have one normal form if and only if they have the same words, and separators
/// at the same ends.
pub proof fn lemma_same_name(a: Seq<char>, b: Seq<char>)
    ensures
        record::normal_name(a) == record::normal_name(b) <==> {
            &&& name_words(a) == name_words(b)
            &&& record::starts_with_separator(a) == record::starts_with_separator(b)
            &&& record::ends_in_separator(a) == record::ends_in_separator(b)
        },
{
    lemma_normal_words(a);
    lemma_normal_words(b);
    lemma_normal_shape(a);
    lemma_normal_shape(b);
    lemma_normal_form(a);
    lemma_normal_form(b);
}

// -------------------------------------------------------------------- fields

/// A text with each quote doubled.
pub open spec fn doubled_quotes(s: Seq<char>) -> Seq<char>
    decreases s.len(),
{
    if s.len() == 0 {
        Seq::empty()
    } else if s[0] == '"' {
        seq!['"', '"'] + doubled_quotes(s.skip(1))
    } else {
        seq![s[0]] + doubled_quotes(s.skip(1))
    }
}

/// A quoted field stands for the text that was quoted, whatever follows it.
pub proof fn lemma_quoted_field(s: Seq<char>, rest: Seq<char>)
    requires
        rest.len() > 0 ==> rest[0] != '"',
    ensures
        record::first_field(seq!['"'] + doubled_quotes(s) + seq!['"'] + rest) == s,
{
    let line = seq!['"'] + doubled_quotes(s) + seq!['"'] + rest;
    assert(line.skip(1) =~= doubled_quotes(s) + seq!['"'] + rest);
    lemma_doubled_quotes(s, rest);
}

proof fn lemma_doubled_quotes(s: Seq<char>, rest: Seq<char>)
    requires
        rest.len() > 0 ==> rest[0] != '"',
    ensures
        record::quoted_field(doubled_quotes(s) + seq!['"'] + rest) == s,
    decreases s.len(),
{
    let line = doubled_quotes(s) + seq!['"'] + rest;
    if s.len() == 0 {
        assert(line =~= seq!['"'] + rest);
        assert(line[0] == '"');
        if rest.len() > 0 {
            assert(line[1] == rest[0]);
        }
        assert(record::quoted_field(line) =~= s);
    } else {
        let next = s.skip(1);
        lemma_doubled_quotes(next, rest);
        assert(s =~= seq![s[0]] + next);
        if s[0] == '"' {
            assert(line.skip(2) =~= doubled_quotes(next) + seq!['"'] + rest);
            assert(line[0] == '"' && line[1] == '"');
        } else {
            assert(line.skip(1) =~= doubled_quotes(next) + seq!['"'] + rest);
            assert(line[0] == s[0]);
        }
    }
}

/// A field without quotes ends at the first comma.
pub proof fn lemma_plain_field(s: Seq<char>, rest: Seq<char>)
    requires
        s.len() > 0 ==> s[0] != '"',
        !s.contains(','),
    ensures
        record::first_field(s) == s,
        record::first_field(s.push(',') + rest) == s,
{
    let comma = seq![','];
    assert forall|i: int| !text::matches_at(s, comma, i) by {
        if text::matches_at(s, comma, i) {
            assert(s.subrange(i, i + 1)[0] == ',');
            assert(s[i] == ',');
        }
    }
    let line = s.push(',') + rest;
    assert(line.subrange(s.len() as int, s.len() as int + 1) =~= comma);
    assert forall|i: int| 0 <= i < s.len() implies !text::matches_at(line, comma, i) by {
        if text::matches_at(line, comma, i) {
            assert(line.subrange(i, i + 1)[0] == ',');
            assert(s[i] == ',');
        }
    }
    text::lemma_first_match(line, comma, s.len() as int);
    assert(line.take(s.len() as int) =~= s);
    if s.len() > 0 {
        assert(line[0] == s[0]);
    } else {
        assert(line[0] == ',');
    }
}

// --------------------------------------------------------------------- lines

/// Texts with a separator between them come apart into the pieces of both.
proof fn lemma_split_both(a: Seq<char>, c: char, b: Seq<char>, sep: spec_fn(char) -> bool)
    requires
        sep(c),
    ensures
        text::split_on(a.push(c) + b, sep) == text::split_on(a, sep) + text::split_on(b, sep),
    decreases b.len(),
{
    let s = a.push(c) + b;
    text::lemma_split_pieces(b, sep);
    if b.len() == 0 {
        assert(s =~= a.push(c));
        assert(s.drop_last() =~= a);
        assert(text::split_on(s, sep) =~= text::split_on(a, sep) + text::split_on(b, sep));
    } else {
        let front = b.drop_last();
        lemma_split_both(a, c, front, sep);
        text::lemma_split_pieces(front, sep);
        assert(s.drop_last() =~= a.push(c) + front);
        assert(text::split_on(s, sep) =~= text::split_on(a, sep) + text::split_on(b, sep));
    }
}

/// A `RECORD` is read line by line: what its first line lists, if it lists anything,
/// then what the rest lists.
pub proof fn lemma_record_line(line: Seq<char>, rest: Seq<char>)
    requires
        !line.contains('\n'),
    ensures
        ({
            let field = record::first_field(text::without_return()(line));
            record::record_paths(line.push('\n') + rest) == if field.len() > 0 {
                seq![field] + record::record_paths(rest)
            } else {
                record::record_paths(rest)
            }
        }),
{
    let sep = text::is_newline();
    let all = line.push('\n') + rest;
    assert forall|j: int| 0 <= j < line.len() implies !sep(#[trigger] line[j]) by {
        assert(line.contains(line[j]));
    }
    text::lemma_split_none(line, sep);
    lemma_split_both(line, '\n', rest, sep);
    text::lemma_split_pieces(rest, sep);
    let pieces = text::split_on(rest, sep);
    let whole = text::split_on(all, sep);
    assert(whole =~= seq![line] + pieces);
    let first = text::without_return()(line);
    assert(text::lines(all) =~= seq![first] + text::lines(rest)) by {
        assert(whole.last() == pieces.last());
        assert(whole.drop_last() =~= seq![line] + pieces.drop_last());
    }
    let field = record::first_field(first);
    let fields = text::lines(rest).map_values(record::first_field_of());
    assert(text::lines(all).map_values(record::first_field_of()) =~= seq![field] + fields);
    Seq::filter_distributes_over_add(seq![field], fields, text::not_empty());
    reveal_with_fuel(Seq::filter, 2);
    assert(seq![field].drop_last() =~= Seq::<Seq<char>>::empty());
    if field.len() > 0 {
        assert(seq![field].filter(text::not_empty()) =~= seq![field]);
    } else {
        assert(seq![field].filter(text::not_empty()) =~= Seq::<Seq<char>>::empty());
        assert(record::record_paths(all) =~= record::record_paths(rest));
    }
}

/// What a text lists is what its parts list, where they are parted at the end of a
/// line.
pub proof fn lemma_record_parts(a: Seq<char>, b: Seq<char>)
    requires
        a.len() > 0 ==> a.last() != '\r',
    ensures
        record::record_paths(a.push('\n') + b) == record::record_paths(a) + record::record_paths(b),
{
    let sep = text::is_newline();
    let all = a.push('\n') + b;
    let f = record::first_field_of();
    let keep = text::not_empty();
    lemma_split_both(a, '\n', b, sep);
    text::lemma_split_pieces(a, sep);
    text::lemma_split_pieces(b, sep);
    let pa = text::split_on(a, sep);
    let pb = text::split_on(b, sep);
    let whole = text::split_on(all, sep);
    let ended = pa.map_values(text::without_return());
    assert(text::lines(all) =~= ended + text::lines(b)) by {
        assert(whole.last() == pb.last());
        assert(whole.drop_last() =~= pa + pb.drop_last());
    }
    // the last line of the first part is kept as it is
    let last = pa.last();
    assert(last.len() > 0 ==> a.len() > 0 && last.last() == a.last());
    assert(text::without_return()(last) == last);
    let fields = ended.map_values(f);
    let front = pa.drop_last().map_values(text::without_return()).map_values(f);
    assert(fields =~= front.push(record::first_field(last)));
    text::lemma_keep_push(front, record::first_field(last));
    if last.len() > 0 {
        assert(text::lines(a).map_values(f) =~= fields);
    } else {
        lemma_plain_field(last, last);
        assert(text::lines(a).map_values(f) =~= front);
    }
    assert(text::lines(all).map_values(f) =~= fields + text::lines(b).map_values(f));
    Seq::filter_distributes_over_add(fields, text::lines(b).map_values(f), keep);
}

/// A blank line lists nothing.
pub proof fn lemma_blank_line(rest: Seq<char>)
    ensures
        record::record_paths(seq!['\n'] + rest) == record::record_paths(rest),
        record::record_paths(seq!['\r', '\n'] + rest) == record::record_paths(rest),
{
    let none = Seq::<char>::empty();
    let ret = seq!['\r'];
    assert(record::first_field(none) == none) by {
        lemma_plain_field(none, none);
    }
    assert(record::record_paths(seq!['\n'] + rest) == record::record_paths(rest)) by {
        assert(none.push('\n') + rest =~= seq!['\n'] + rest);
        assert(text::without_return()(none) =~= none);
        lemma_record_line(none, rest);
    }
    assert(record::record_paths(seq!['\r', '\n'] + rest) == record::record_paths(rest)) by {
        assert(ret.push('\n') + rest =~= seq!['\r', '\n'] + rest);
        assert(text::without_return()(ret) =~= none);
        lemma_record_line(ret, rest);
    }
}

// --------------------------------------------------------------------- paths

proof fn lemma_without_suffix(stem: Seq<char>, suffix: Seq<char>)
    ensures
        text::without_suffix(stem + suffix, suffix) == Some(stem),
{
    let s = stem + suffix;
    let n = stem.len() as int;
    assert(s.subrange(n, n + suffix.len()) =~= suffix);
    assert(s.take(n) =~= stem);
    assert(s.subrange(n, s.len() as int) =~= suffix);
}

/// The `RECORD` in the dist-info directory of a name and a version is that of the
/// distribution of that name.
pub proof fn lemma_record_of(site: Seq<Comp>, name: Seq<char>, version: Seq<char>)
    requires
        name.len() > 0,
        !name.contains('-'),
    ensures
        ({
            let dir = Comp::Normal(name.push('-') + version + record::DIST_INFO_SUFFIX@);
            record::record_of(site.push(dir).push(Comp::Normal(record::RECORD_FILENAME@))) == Some(
                (site.push(dir), record::normal_name(name)),
            )
        }),
{
    let stem = name.push('-') + version;
    let dash = seq!['-'];
    lemma_without_suffix(stem, record::DIST_INFO_SUFFIX@);
    lemma_first_dash(name, version);
    assert(stem.take(name.len() as int) =~= name);
    let dir = Comp::Normal(stem + record::DIST_INFO_SUFFIX@);
    let p = site.push(dir).push(Comp::Normal(record::RECORD_FILENAME@));
    assert(p.drop_last() =~= site.push(dir));
    assert(p[p.len() - 2] == dir);
}

proof fn lemma_first_dash(name: Seq<char>, version: Seq<char>)
    requires
        !name.contains('-'),
    ensures
        text::before_first(name.push('-') + version, seq!['-']) == Some(
            (name.push('-') + version).take(name.len() as int),
        ),
{
    let dash = seq!['-'];
    let stem = name.push('-') + version;
    let n = name.len() as int;
    assert(stem.subrange(n, n + 1) =~= dash);
    assert forall|j: int| 0 <= j < n implies !text::matches_at(stem, dash, j) by {
        if text::matches_at(stem, dash, j) {
            assert(stem.subrange(j, j + 1)[0] == '-');
            assert(name[j] == '-');
        }
    }
    text::lemma_first_match(stem, dash, n);
}

proof fn lemma_last_dot(module: Seq<char>, tag: Seq<char>)
    requires
        !tag.contains('.'),
    ensures
        text::before_last(module.push('.') + tag, seq!['.']) == Some(module),
{
    let dot = seq!['.'];
    let s = module.push('.') + tag;
    let n = module.len() as int;
    assert(s.subrange(n, n + 1) =~= dot);
    assert forall|j: int| n < j implies !text::matches_at(s, dot, j) by {
        if text::matches_at(s, dot, j) {
            assert(s.subrange(j, j + 1)[0] == '.');
            assert(s[j] == tag[j - n - 1]);
        }
    }
    text::lemma_last_match(s, dot, n);
    assert(s.take(n) =~= module);
}

/// What a dotted part with an optimization level begins with.
pub const OPT_START: &'static str = "opt-";

/// Bytecode of a module, with or without an optimization level, comes from the source
/// file of that module, next to the directory of the bytecode.
pub proof fn lemma_source_of(
    dir: Seq<Comp>,
    module: Seq<char>,
    tag: Seq<char>,
    level: Option<Seq<char>>,
)
    requires
        module.len() > 0,
        !tag.contains('.'),
        match level {
            None => !OPT_START@.is_prefix_of(tag),
            Some(level) => !level.contains('.'),
        },
    ensures
        ({
            let tagged = module.push('.') + tag;
            let stem = match level {
                None => tagged,
                Some(level) => tagged + record::OPT_TAG@ + level,
            };
            let file = Comp::Normal(stem + record::PYC_SUFFIX@);
            record::source_of(dir.push(Comp::Normal(record::PYCACHE_DIR@)).push(file)) == Some(
                dir.push(Comp::Normal(module + record::PY_SUFFIX@)),
            )
        }),
{
    let tagged = module.push('.') + tag;
    let stem = match level {
        None => tagged,
        Some(level) => tagged + record::OPT_TAG@ + level,
    };
    lemma_without_suffix(stem, record::PYC_SUFFIX@);
    lemma_last_dot(module, tag);
    match level {
        None => {
            lemma_no_level(module, tag);
        },
        Some(level) => {
            lemma_last_opt(tagged, level);
            assert(stem.skip((tagged.len() + record::OPT_TAG@.len()) as int) =~= level);
        },
    }
    let file = Comp::Normal(stem + record::PYC_SUFFIX@);
    let p = dir.push(Comp::Normal(record::PYCACHE_DIR@)).push(file);
    assert(p.take(p.len() - 2) =~= dir);
    assert(p[p.len() - 2] == Comp::Normal(record::PYCACHE_DIR@));
}

proof fn lemma_no_level(module: Seq<char>, tag: Seq<char>)
    requires
        !OPT_START@.is_prefix_of(tag),
        !tag.contains('.'),
    ensures
        record::without_level(module.push('.') + tag) == module.push('.') + tag,
{
    let opt = record::OPT_TAG@;
    reveal_strlit(".opt-");
    reveal_strlit("opt-");
    let stem = module.push('.') + tag;
    let n = module.len() as int;
    if let Some(front) = text::before_last(stem, opt) {
        let i = choose|i: int| text::last_match(stem, opt, i);
        assert(text::last_match(stem, opt, i));
        assert(front =~= stem.take(i));
        assert forall|k: int| 0 <= k < 5 implies stem[i + k] == #[trigger] opt[k] by {
            assert(stem.subrange(i, i + opt.len())[k] == stem[i + k]);
        }
        assert(opt[0] == '.' && opt[1] == 'o' && opt[2] == 'p' && opt[3] == 't' && opt[4] == '-');
        assert(stem[n] == '.');
        if i + 5 <= n {
            assert(stem.skip(i + 5)[n - i - 5] == '.');
        } else if i == n {
            assert(tag.subrange(0, 4) =~= OPT_START@) by {
                assert(tag[0] == stem[n + 1] && tag[1] == stem[n + 2]);
                assert(tag[2] == stem[n + 3] && tag[3] == stem[n + 4]);
            }
        } else if i < n {
            assert(stem[i + (n - i)] == opt[n - i]);
        } else {
            // a match within the tag begins with a dot
            assert(tag[i - n - 1] == '.');
        }
    }
}

proof fn lemma_last_opt(tagged: Seq<char>, level: Seq<char>)
    requires
        !level.contains('.'),
    ensures
        text::before_last(tagged + record::OPT_TAG@ + level, record::OPT_TAG@) == Some(tagged),
{
    let opt = record::OPT_TAG@;
    reveal_strlit(".opt-");
    let s = tagged + opt + level;
    let n = tagged.len() as int;
    assert(s.subrange(n, n + opt.len()) =~= opt);
    assert forall|j: int| n < j implies !text::matches_at(s, opt, j) by {
        if text::matches_at(s, opt, j) {
            assert(s.subrange(j, j + opt.len())[0] == '.');
            assert(s[j] == '.');
            if j < n + opt.len() {
                assert(s[j] == opt[j - n]);
            } else {
                assert(s[j] == level[j - n - opt.len()]);
                assert(level.contains('.'));
            }
        }
    }
    text::lemma_last_match(s, opt, n);
    assert(s.take(n) =~= tagged);
}

proof fn lemma_with_suffix(s: Seq<char>, suffix: Seq<char>)
    requires
        text::without_suffix(s, suffix) is Some,
    ensures
        s == text::without_suffix(s, suffix)->Some_0 + suffix,
{
    let stem = text::without_suffix(s, suffix)->Some_0;
    assert(s =~= stem + s.subrange(stem.len() as int, s.len() as int));
}

/// Nothing else is the `RECORD` of a distribution: its name is `RECORD`, and that of its
/// directory is a name without `-`, then `-`, a version and `.dist-info`.
pub proof fn lemma_record_of_only(r: Seq<Comp>)
    requires
        record::record_of(r) is Some,
    ensures
        exists|name: Seq<char>, version: Seq<char>| {
            let dir = Comp::Normal(#[trigger] (name.push('-') + version) + ".dist-info"@);
            &&& name.len() > 0
            &&& !name.contains('-')
            &&& r == r.take(r.len() - 2).push(dir).push(Comp::Normal("RECORD"@))
            &&& record::record_of(r) == Some(
                (r.drop_last(), record::normal_name(name)),
            )
        },
{
    let dash = seq!['-'];
    let dir = r[r.len() - 2]->Normal_0;
    let stem = text::without_suffix(dir, ".dist-info"@)->Some_0;
    lemma_with_suffix(dir, ".dist-info"@);
    let i = choose|i: int| text::first_match(stem, dash, i);
    assert(text::first_match(stem, dash, i));
    let name = stem.take(i);
    let version = stem.skip(i + 1);
    assert(stem.subrange(i, i + 1)[0] == '-');
    assert(stem =~= name.push('-') + version);
    if name.contains('-') {
        let j = name.index_of('-');
        assert(stem.subrange(j, j + 1) =~= dash);
        assert(text::matches_at(stem, dash, j));
    }
    assert(r =~= r.take(r.len() - 2).push(
        Comp::Normal((name.push('-') + version) + ".dist-info"@),
    ).push(Comp::Normal("RECORD"@)));
}

/// Nothing else is bytecode: the file is in `__pycache__`, and its name is a module, a tag
/// and perhaps an optimization level, each behind a dot, and `.pyc`. The source is the
/// module with `.py`, next to `__pycache__`.
pub proof fn lemma_source_of_only(p: Seq<Comp>)
    requires
        record::source_of(p) is Some,
    ensures
        p.len() >= 2,
        p[p.len() - 2] == Comp::Normal("__pycache__"@),
        exists|module: Seq<char>, tag: Seq<char>, level: Option<Seq<char>>| {
            let tagged = #[trigger] (module.push('.') + tag);
            let stem = tagged + #[trigger] opt_part(level);
            &&& module.len() > 0
            &&& !tag.contains('.')
            &&& (level matches Some(n) ==> !n.contains('.'))
            &&& p.last() == Comp::Normal(stem + ".pyc"@)
            &&& record::source_of(p) == Some(
                p.take(p.len() - 2).push(Comp::Normal(module + ".py"@)),
            )
        },
{
    let file = p.last()->Normal_0;
    let stem = text::without_suffix(file, ".pyc"@)->Some_0;
    lemma_with_suffix(file, ".pyc"@);
    let opt = ".opt-"@;
    let tagged = record::without_level(stem);
    let level: Option<Seq<char>> = match text::before_last(stem, opt) {
        Some(front) => if stem.skip((front.len() + opt.len()) as int).contains('.') {
            None
        } else {
            Some(stem.skip((front.len() + opt.len()) as int))
        },
        None => None,
    };
    assert(stem =~= tagged + opt_part(level)) by {
        if level is Some {
            let i = choose|i: int| text::last_match(stem, opt, i);
            assert(text::last_match(stem, opt, i));
            assert(tagged =~= stem.take(i));
            assert(stem =~= stem.take(i) + stem.subrange(i, i + opt.len()) + stem.skip(
                i + opt.len(),
            ));
        }
    }
    let dot = seq!['.'];
    let i = choose|i: int| text::last_match(tagged, dot, i);
    assert(text::last_match(tagged, dot, i));
    let module = tagged.take(i);
    let tag = tagged.skip(i + 1);
    assert(tagged.subrange(i, i + 1)[0] == '.');
    assert(tagged =~= module.push('.') + tag);
    if tag.contains('.') {
        let j = tag.index_of('.');
        assert(tagged.subrange(i + 1 + j, i + 2 + j) =~= dot);
        assert(text::matches_at(tagged, dot, i + 1 + j));
    }
}

/// The part of the name of a bytecode file that has the optimization level, if any.
pub open spec fn opt_part(level: Option<Seq<char>>) -> Seq<char> {
    match level {
        Some(n) => ".opt-"@ + n,
        None => Seq::empty(),
    }
}

/// A quote that is not closed holds the rest of the line.
pub proof fn lemma_open_quote(s: Seq<char>)
    requires
        !s.contains('"'),
    ensures
        record::first_field(seq!['"'] + s) == s,
{
    assert((seq!['"'] + s).skip(1) =~= s);
    lemma_no_quote(s);
}

proof fn lemma_no_quote(s: Seq<char>)
    requires
        !s.contains('"'),
    ensures
        record::quoted_field(s) == s,
    decreases s.len(),
{
    if s.len() > 0 {
        let next = s.skip(1);
        assert(s.contains(s[0]));
        if next.contains('"') {
            let i = next.index_of('"');
            assert(s[i + 1] == '"');
        }
        lemma_no_quote(next);
        assert(s =~= seq![s[0]] + next);
    } else {
        assert(record::quoted_field(s) =~= s);
    }
}

/// A last line that has no end is taken as it is, with a carriage return if it has one.
pub proof fn lemma_last_line(line: Seq<char>)
    requires
        line.len() > 0,
        !line.contains('\n'),
    ensures
        text::lines(line) == seq![line],
{
    let sep = text::is_newline();
    assert forall|j: int| 0 <= j < line.len() implies !sep(#[trigger] line[j]) by {
        assert(line.contains(line[j]));
    }
    text::lemma_split_none(line, sep);
    assert(text::lines(line) =~= seq![line]);
}

} // verus!

//! Text as a sequence of characters: splitting and searching.
use vstd::prelude::*;

verus! {

/// `String::push` appends the character that it is given.
pub assume_specification[ String::push ](s: &mut String, ch: char)
    ensures
        final(s)@ == old(s)@.push(ch),
;

/// The pieces of `s` between the characters that satisfy `sep`. There is one
/// piece more than there are such characters.
pub open spec fn split_on(s: Seq<char>, sep: spec_fn(char) -> bool) -> Seq<Seq<char>>
    decreases s.len(),
{
    if s.len() == 0 {
        seq![Seq::<char>::empty()]
    } else {
        let before = split_on(s.drop_last(), sep);
        if sep(s.last()) {
            before.push(Seq::<char>::empty())
        } else {
            before.drop_last().push(before.last().push(s.last()))
        }
    }
}

/// No piece holds a separator, and there is at least one piece.
pub proof fn lemma_split_pieces(s: Seq<char>, sep: spec_fn(char) -> bool)
    ensures
        split_on(s, sep).len() >= 1,
        forall|k: int, j: int|
            0 <= k < split_on(s, sep).len() && 0 <= j < split_on(s, sep)[k].len() ==> !sep(
                #[trigger] split_on(s, sep)[k][j],
            ),
    decreases s.len(),
{
    if s.len() > 0 {
        lemma_split_pieces(s.drop_last(), sep);
        let before = split_on(s.drop_last(), sep);
        let after = split_on(s, sep);
        assert forall|k: int, j: int| 0 <= k < after.len() && 0 <= j < after[k].len() implies !sep(
            #[trigger] after[k][j],
        ) by {
            if k < after.len() - 1 {
                assert(after[k] == before[k]);
            } else if !sep(s.last()) && j < before.last().len() {
                assert(after[k][j] == before[before.len() - 1][j]);
            }
        }
    }
}

/// A text without a separator is one piece.
pub proof fn lemma_split_none(s: Seq<char>, sep: spec_fn(char) -> bool)
    requires
        forall|j: int| 0 <= j < s.len() ==> !sep(#[trigger] s[j]),
    ensures
        split_on(s, sep) == seq![s],
    decreases s.len(),
{
    if s.len() > 0 {
        assert forall|j: int| 0 <= j < s.drop_last().len() implies !sep(
            #[trigger] s.drop_last()[j],
        ) by {
            assert(s.drop_last()[j] == s[j]);
        }
        lemma_split_none(s.drop_last(), sep);
        assert(!sep(s[s.len() - 1]));
        assert(s.drop_last().push(s.last()) =~= s);
        assert(split_on(s, sep) =~= seq![s]);
    } else {
        assert(s =~= Seq::<char>::empty());
    }
}

/// The pieces joined to one text, with `sep` between them.
pub open spec fn join_with(pieces: Seq<Seq<char>>, sep: char) -> Seq<char>
    decreases pieces.len(),
{
    if pieces.len() == 0 {
        Seq::empty()
    } else if pieces.len() == 1 {
        pieces[0]
    } else {
        join_with(pieces.drop_last(), sep).push(sep) + pieces.last()
    }
}

pub open spec fn not_empty() -> spec_fn(Seq<char>) -> bool {
    |s: Seq<char>| s.len() > 0
}

/// An empty piece at the end is left out, any other is kept.
pub proof fn lemma_keep_push(pieces: Seq<Seq<char>>, last: Seq<char>)
    ensures
        pieces.push(last).filter(not_empty()) == if last.len() > 0 {
            pieces.filter(not_empty()).push(last)
        } else {
            pieces.filter(not_empty())
        },
{
    reveal(Seq::filter);
    assert(pieces.push(last).drop_last() =~= pieces);
}

/// Whether `pat` occurs in `s` at `i`.
pub open spec fn matches_at(s: Seq<char>, pat: Seq<char>, i: int) -> bool {
    0 <= i && i + pat.len() <= s.len() && s.subrange(i, i + pat.len()) == pat
}

/// Whether the first occurrence of `pat` in `s` is at `i`.
pub open spec fn first_match(s: Seq<char>, pat: Seq<char>, i: int) -> bool {
    matches_at(s, pat, i) && forall|j: int| 0 <= j < i ==> !#[trigger] matches_at(s, pat, j)
}

/// Whether the last occurrence of `pat` in `s` is at `i`.
pub open spec fn last_match(s: Seq<char>, pat: Seq<char>, i: int) -> bool {
    matches_at(s, pat, i) && forall|j: int| i < j ==> !#[trigger] matches_at(s, pat, j)
}

/// The part of `s` before the first occurrence of `pat`.
pub open spec fn before_first(s: Seq<char>, pat: Seq<char>) -> Option<Seq<char>> {
    if exists|i: int| first_match(s, pat, i) {
        Some(s.take(choose|i: int| first_match(s, pat, i)))
    } else {
        None
    }
}

/// The part of `s` before the last occurrence of `pat`.
pub open spec fn before_last(s: Seq<char>, pat: Seq<char>) -> Option<Seq<char>> {
    if exists|i: int| last_match(s, pat, i) {
        Some(s.take(choose|i: int| last_match(s, pat, i)))
    } else {
        None
    }
}

/// `s` without `suffix` at its end.
pub open spec fn without_suffix(s: Seq<char>, suffix: Seq<char>) -> Option<Seq<char>> {
    if suffix.is_suffix_of(s) {
        Some(s.take(s.len() - suffix.len()))
    } else {
        None
    }
}

/// `s` without `prefix` at its start.
pub open spec fn without_prefix(s: Seq<char>, prefix: Seq<char>) -> Option<Seq<char>> {
    if prefix.is_prefix_of(s) {
        Some(s.skip(prefix.len() as int))
    } else {
        None
    }
}

/// Whether `pat` occurs in `s` at `i`.
pub fn occurs_at(s: &Vec<char>, pat: &Vec<char>, i: usize) -> (r: bool)
    ensures
        r == matches_at(s@, pat@, i as int),
{
    if i > s.len() || pat.len() > s.len() - i {
        return false;
    }
    let mut j: usize = 0;
    while j < pat.len()
        invariant
            j <= pat@.len(),
            i + pat@.len() <= s.len(),
            forall|k: int| 0 <= k < j ==> s@[i + k] == pat@[k],
        decreases pat@.len() - j,
    {
        if s[i + j] != pat[j] {
            assert(s@.subrange(i as int, i + pat@.len())[j as int] != pat@[j as int]);
            return false;
        }
        j += 1;
    }
    assert(s@.subrange(i as int, i + pat@.len()) =~= pat@);
    true
}

/// The length of the part of `s` before the first occurrence of `pat`.
pub fn find_first(s: &Vec<char>, pat: &Vec<char>) -> (r: Option<usize>)
    ensures
        match r {
            Some(i) => first_match(s@, pat@, i as int) && before_first(s@, pat@) == Some(
                s@.take(i as int),
            ),
            None => before_first(s@, pat@) is None,
        },
{
    let mut i: usize = 0;
    while i < s.len()
        invariant
            i <= s@.len(),
            forall|j: int| 0 <= j < i ==> !#[trigger] matches_at(s@, pat@, j),
        decreases s@.len() - i,
    {
        if occurs_at(s, pat, i) {
            proof {
                lemma_first_match(s@, pat@, i as int);
            }
            return Some(i);
        }
        i += 1;
    }
    if occurs_at(s, pat, i) {
        proof {
            lemma_first_match(s@, pat@, i as int);
        }
        return Some(i);
    }
    None
}

/// The length of the part of `s` before the last occurrence of `pat`.
pub fn find_last(s: &Vec<char>, pat: &Vec<char>) -> (r: Option<usize>)
    ensures
        match r {
            Some(i) => last_match(s@, pat@, i as int) && before_last(s@, pat@) == Some(
                s@.take(i as int),
            ),
            None => before_last(s@, pat@) is None,
        },
{
    let mut i: usize = s.len();
    if occurs_at(s, pat, i) {
        proof {
            lemma_last_match(s@, pat@, i as int);
        }
        return Some(i);
    }
    while i > 0
        invariant
            i <= s@.len(),
            forall|j: int| i <= j ==> !#[trigger] matches_at(s@, pat@, j),
        decreases i,
    {
        i -= 1;
        if occurs_at(s, pat, i) {
            proof {
                lemma_last_match(s@, pat@, i as int);
            }
            return Some(i);
        }
    }
    None
}

/// There is one first occurrence.
pub proof fn lemma_first_match(s: Seq<char>, pat: Seq<char>, i: int)
    requires
        first_match(s, pat, i),
    ensures
        before_first(s, pat) == Some(s.take(i)),
{
    let k = choose|k: int| first_match(s, pat, k);
    assert(first_match(s, pat, k));
    assert(!(k < i) && !(i < k));
}

/// There is one last occurrence.
pub proof fn lemma_last_match(s: Seq<char>, pat: Seq<char>, i: int)
    requires
        last_match(s, pat, i),
    ensures
        before_last(s, pat) == Some(s.take(i)),
{
    let k = choose|k: int| last_match(s, pat, k);
    assert(last_match(s, pat, k));
    assert(!(k < i) && !(i < k));
}

/// The length of `s` without `suffix`, where it ends in it.
pub fn strip_suffix(s: &Vec<char>, suffix: &Vec<char>) -> (r: Option<usize>)
    ensures
        match r {
            Some(i) => i <= s@.len() && without_suffix(s@, suffix@) == Some(s@.take(i as int)),
            None => without_suffix(s@, suffix@) is None,
        },
{
    if suffix.len() > s.len() {
        return None;
    }
    let i: usize = s.len() - suffix.len();
    if occurs_at(s, suffix, i) {
        Some(i)
    } else {
        None
    }
}

/// The characters of `s`.
pub fn to_chars(s: &str) -> (r: Vec<char>)
    ensures
        r@ == s@,
{
    let mut r: Vec<char> = Vec::new();
    for c in it: s.chars()
        invariant
            it.seq() == s@,
            r@ == s@.take(it.index() as int),
    {
        r.push(c);
        assert(s@.take(it.index() as int).push(c) =~= s@.take(it.index() + 1));
    }
    assert(s@.take(s@.len() as int) =~= s@);
    r
}

/// The characters of `v` from `from` up to `to`.
pub fn chars_of(v: &Vec<char>, from: usize, to: usize) -> (r: Vec<char>)
    requires
        from <= to <= v@.len(),
    ensures
        r@ == v@.subrange(from as int, to as int),
{
    let mut r: Vec<char> = Vec::new();
    let mut i: usize = from;
    while i < to
        invariant
            from <= i <= to <= v@.len(),
            r@ == v@.subrange(from as int, i as int),
        decreases to - i,
    {
        r.push(v[i]);
        i += 1;
        assert(v@.subrange(from as int, i - 1).push(v@[i - 1]) =~= v@.subrange(from as int, i as int));
    }
    r
}

/// The characters of `v` from `from` up to `to`, as a string.
pub fn text_of(v: &Vec<char>, from: usize, to: usize) -> (r: String)
    requires
        from <= to <= v@.len(),
    ensures
        r@ == v@.subrange(from as int, to as int),
{
    let mut r: String = String::new();
    let mut i: usize = from;
    while i < to
        invariant
            from <= i <= to <= v@.len(),
            r@ == v@.subrange(from as int, i as int),
        decreases to - i,
    {
        r.push(v[i]);
        i += 1;
        assert(v@.subrange(from as int, i - 1).push(v@[i - 1]) =~= v@.subrange(from as int, i as int));
    }
    r
}

pub open spec fn is_newline() -> spec_fn(char) -> bool {
    |c: char| c == '\n'
}

/// A line without the carriage return at its end.
pub open spec fn without_return() -> spec_fn(Seq<char>) -> Seq<char> {
    |s: Seq<char>| if s.len() > 0 && s.last() == '\r' { s.drop_last() } else { s }
}

/// The lines of `s`. A line ends in a line feed or in a carriage return and a
/// line feed, which are not part of it; the last one may end without.
pub open spec fn lines(s: Seq<char>) -> Seq<Seq<char>> {
    let pieces = split_on(s, is_newline());
    let ended = pieces.drop_last().map_values(without_return());
    if pieces.last().len() > 0 {
        ended.push(pieces.last())
    } else {
        ended
    }
}

/// The views of a list of strings.
pub open spec fn string_views(list: Seq<String>) -> Seq<Seq<char>> {
    list.map_values(|s: String| s@)
}

/// The lines of `s`, as `str::lines` gives them.
pub fn split_lines(s: &str) -> (r: Vec<String>)
    ensures
        string_views(r@) == lines(s@),
{
    let chars: Vec<char> = to_chars(s);
    let mut r: Vec<String> = Vec::new();
    // where the current line begins
    let mut start: usize = 0;
    let mut i: usize = 0;
    let ghost sep = is_newline();
    assert(chars@.take(0) =~= Seq::<char>::empty());
    assert(split_on(chars@.take(0), sep).drop_last() =~= Seq::<Seq<char>>::empty());
    assert(string_views(r@) =~= Seq::<Seq<char>>::empty());
    assert(chars@.subrange(0, 0) =~= Seq::<char>::empty());
    while i < chars.len()
        invariant
            start <= i <= chars@.len(),
            chars@ == s@,
            sep == is_newline(),
            split_on(chars@.take(i as int), sep).len() >= 1,
            split_on(chars@.take(i as int), sep).last() == chars@.subrange(start as int, i as int),
            string_views(r@) == split_on(chars@.take(i as int), sep).drop_last().map_values(
                without_return(),
            ),
        decreases chars@.len() - i,
    {
        let ghost before = split_on(chars@.take(i as int), sep);
        let ghost after = split_on(chars@.take(i + 1), sep);
        proof {
            assert(chars@.take(i + 1).drop_last() =~= chars@.take(i as int));
        }
        if chars[i] == '\n' {
            let end: usize = if start < i && chars[i - 1] == '\r' {
                i - 1
            } else {
                i
            };
            let line: String = text_of(&chars, start, end);
            proof {
                assert(sep(chars@[i as int]));
                let piece = chars@.subrange(start as int, i as int);
                assert(line@ =~= without_return()(piece));
                assert(after.drop_last() =~= before);
                assert(before =~= before.drop_last().push(piece));
                assert(before.map_values(without_return()) =~= before.drop_last().map_values(
                    without_return(),
                ).push(line@));
                assert(string_views(r@.push(line)) =~= string_views(r@).push(line@));
                assert(chars@.subrange(i + 1, i + 1) =~= Seq::<char>::empty());
            }
            r.push(line);
            start = i + 1;
        } else {
            proof {
                assert(!sep(chars@[i as int]));
                assert(after.drop_last() =~= before.drop_last());
                assert(after.last() =~= chars@.subrange(start as int, i + 1));
            }
        }
        i += 1;
    }
    assert(chars@.take(i as int) =~= s@);
    if start < i {
        let line: String = text_of(&chars, start, i);
        assert(string_views(r@.push(line)) =~= string_views(r@).push(line@));
        r.push(line);
    }
    r
}

/// Whether the two texts are the same.
pub fn same_text(a: &str, b: &str) -> (r: bool)
    ensures
        r == (a@ == b@),
{
    let x: Vec<char> = to_chars(a);
    let y: Vec<char> = to_chars(b);
    if x.len() != y.len() {
        return false;
    }
    let mut i: usize = 0;
    while i < x.len()
        invariant
            i <= x@.len(),
            x@.len() == y@.len(),
            x@ == a@,
            y@ == b@,
            forall|j: int| 0 <= j < i ==> x@[j] == y@[j],
        decreases x@.len() - i,
    {
        if x[i] != y[i] {
            return false;
        }
        i += 1;
    }
    assert(a@ =~= b@);
    true
}

} // verus!

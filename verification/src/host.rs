//! What is known of the running system: its memory use and its architecture.
use vstd::prelude::*;

use crate::number;
use crate::text;

verus! {

// -------------------------------------------------------------- architecture

/// The OCI/Go name of an architecture. An architecture without another name keeps
/// its own.
pub open spec fn goarch(arch: Seq<char>) -> Seq<char> {
    if arch == "x86_64"@ {
        "amd64"@
    } else if arch == "aarch64"@ {
        "arm64"@
    } else if arch == "powerpc64"@ {
        "ppc64le"@
    } else {
        arch
    }
}

/// Returns the OCI/Go architecture string.
///
/// If `arch` is provided, translates it to OCI format. Otherwise, uses the current
/// system architecture `host`.
pub fn get_goarch<'a>(arch: Option<&'a str>, host: &'a str) -> (r: &'a str)
    ensures
        r@ == goarch(
            match arch {
                Some(arch) => arch@,
                None => host@,
            },
        ),
{
    let arch: &'a str = match arch {
        Some(arch) => arch,
        None => host,
    };
    if text::same_text(arch, "x86_64") {
        "amd64"
    } else if text::same_text(arch, "aarch64") {
        "arm64"
    } else if text::same_text(arch, "powerpc64") {
        "ppc64le"
    } else {
        arch
    }
}

/// A name in OCI format is passed through.
pub proof fn lemma_goarch_idempotent(arch: Seq<char>)
    ensures
        goarch(goarch(arch)) == goarch(arch),
{
    reveal_strlit("x86_64");
    reveal_strlit("aarch64");
    reveal_strlit("powerpc64");
    reveal_strlit("amd64");
    reveal_strlit("arm64");
    reveal_strlit("ppc64le");
    assert("amd64"@.len() == 5 && "arm64"@.len() == 5 && "ppc64le"@.len() == 7);
    assert("x86_64"@.len() == 6 && "aarch64"@.len() == 7 && "powerpc64"@.len() == 9);
    assert("ppc64le"@[0] == 'p' && "aarch64"@[0] == 'a');
}

// -------------------------------------------------------------------- memory

pub const PEAK_RSS_KEY: &'static str = "VmHWM:";

pub const PEAK_RSS_UNIT: &'static str = "kB";

/// The characters with the Unicode property `White_Space`.
pub open spec fn is_white_space() -> spec_fn(char) -> bool {
    |c: char|
        {
            let n = c as u32;
            ||| 0x9 <= n <= 0xd
            ||| n == 0x20
            ||| n == 0x85
            ||| n == 0xa0
            ||| n == 0x1680
            ||| 0x2000 <= n <= 0x200a
            ||| n == 0x2028
            ||| n == 0x2029
            ||| n == 0x202f
            ||| n == 0x205f
            ||| n == 0x3000
        }
}

/// The words of a text, which stand between white space.
pub open spec fn words(s: Seq<char>) -> Seq<Seq<char>> {
    text::split_on(s, is_white_space()).filter(text::not_empty())
}

/// Why the peak resident set size is not known.
#[derive(Debug)]
pub enum PeakRssError {
    /// The line has no value.
    Malformed { line: String },
    /// The value is not a number and its unit.
    UnexpectedFormat { value: String },
    /// The number cannot be read.
    Number { text: String },
    /// There is no such line.
    NotFound,
}

/// The view of a [`PeakRssError`].
pub enum PeakRssFailure {
    Malformed { line: Seq<char> },
    UnexpectedFormat { value: Seq<char> },
    Number { text: Seq<char> },
    NotFound,
}

impl View for PeakRssError {
    type V = PeakRssFailure;

    open spec fn view(&self) -> PeakRssFailure {
        match self {
            PeakRssError::Malformed { line } => PeakRssFailure::Malformed { line: line@ },
            PeakRssError::UnexpectedFormat { value } => PeakRssFailure::UnexpectedFormat {
                value: value@,
            },
            PeakRssError::Number { text } => PeakRssFailure::Number { text: text@ },
            PeakRssError::NotFound => PeakRssFailure::NotFound,
        }
    }
}

pub open spec fn kb_view(r: Result<u64, PeakRssError>) -> Result<u64, PeakRssFailure> {
    match r {
        Ok(kb) => Ok(kb),
        Err(e) => Err(e@),
    }
}

/// What a line says of the peak resident set size, in kilobytes, if it is about it.
pub open spec fn line_kb(line: Seq<char>) -> Option<Result<u64, PeakRssFailure>> {
    match text::without_prefix(line, PEAK_RSS_KEY@) {
        None => None,
        Some(value) => {
            let words = words(value);
            if words.len() == 0 {
                Some(Err(PeakRssFailure::Malformed { line }))
            } else if words.len() != 2 || words[1] != PEAK_RSS_UNIT@ {
                Some(Err(PeakRssFailure::UnexpectedFormat { value }))
            } else {
                match number::parsed(words[0]) {
                    Some(kb) => Some(Ok(kb)),
                    None => Some(Err(PeakRssFailure::Number { text: words[0] })),
                }
            }
        },
    }
}

/// What the first line about the peak resident set size says of it.
pub open spec fn lines_kb(lines: Seq<Seq<char>>) -> Result<u64, PeakRssFailure>
    decreases lines.len(),
{
    if lines.len() == 0 {
        Err(PeakRssFailure::NotFound)
    } else {
        match line_kb(lines[0]) {
            Some(r) => r,
            None => lines_kb(lines.skip(1)),
        }
    }
}

/// What a process status says of the peak resident set size, in kilobytes.
pub open spec fn status_kb(status: Seq<char>) -> Result<u64, PeakRssFailure> {
    lines_kb(text::lines(status))
}

fn white_space(c: char) -> (r: bool)
    ensures
        r == is_white_space()(c),
{
    let n: u32 = c as u32;
    (0x9 <= n && n <= 0xd) || n == 0x20 || n == 0x85 || n == 0xa0 || n == 0x1680 || (0x2000 <= n && n
        <= 0x200a) || n == 0x2028 || n == 0x2029 || n == 0x202f || n == 0x205f || n == 0x3000
}

/// The words of a text, as `str::split_whitespace` gives them.
pub fn split_words(s: &str) -> (r: Vec<String>)
    ensures
        text::string_views(r@) == words(s@),
{
    let chars: Vec<char> = text::to_chars(s);
    let ghost sep = is_white_space();
    let mut r: Vec<String> = Vec::new();
    // where the current word begins
    let mut start: usize = 0;
    let mut i: usize = 0;
    proof {
        assert(chars@.take(0) =~= Seq::<char>::empty());
        assert(chars@.subrange(0, 0) =~= Seq::<char>::empty());
        reveal(Seq::filter);
        assert(text::split_on(chars@.take(0), sep).drop_last() =~= Seq::<Seq<char>>::empty());
        assert(text::string_views(r@) =~= Seq::<Seq<char>>::empty());
    }
    while i < chars.len()
        invariant
            start <= i <= chars@.len(),
            chars@ == s@,
            sep == is_white_space(),
            text::split_on(chars@.take(i as int), sep).len() >= 1,
            text::split_on(chars@.take(i as int), sep).last() == chars@.subrange(
                start as int,
                i as int,
            ),
            text::string_views(r@) == text::split_on(
                chars@.take(i as int),
                sep,
            ).drop_last().filter(text::not_empty()),
        decreases chars@.len() - i,
    {
        let ghost before = text::split_on(chars@.take(i as int), sep);
        let ghost after = text::split_on(chars@.take(i + 1), sep);
        proof {
            assert(chars@.take(i + 1).drop_last() =~= chars@.take(i as int));
            assert(before =~= before.drop_last().push(before.last()));
            text::lemma_keep_push(before.drop_last(), before.last());
        }
        if white_space(chars[i]) {
            if start < i {
                let ghost list = r@;
                r.push(text::text_of(&chars, start, i));
                assert(text::string_views(r@) =~= text::string_views(list).push(before.last()));
            }
            start = i + 1;
            assert(after.drop_last() =~= before);
            assert(chars@.subrange(start as int, i + 1) =~= Seq::<char>::empty());
        } else {
            assert(chars@.subrange(start as int, i as int).push(chars@[i as int])
                =~= chars@.subrange(start as int, i + 1));
            assert(after.drop_last() =~= before.drop_last());
        }
        i += 1;
    }
    proof {
        assert(chars@.take(i as int) =~= s@);
        let pieces = text::split_on(s@, sep);
        assert(pieces =~= pieces.drop_last().push(pieces.last()));
        text::lemma_keep_push(pieces.drop_last(), pieces.last());
    }
    if start < chars.len() {
        let ghost list = r@;
        r.push(text::text_of(&chars, start, chars.len()));
        assert(text::string_views(r@) =~= text::string_views(list).push(
            chars@.subrange(start as int, chars@.len() as int),
        ));
    }
    r
}

fn read_line_kb(line: &str) -> (r: Option<Result<u64, PeakRssError>>)
    ensures
        match r {
            Some(kb) => line_kb(line@) == Some(kb_view(kb)),
            None => line_kb(line@) is None,
        },
{
    let chars: Vec<char> = text::to_chars(line);
    let key: Vec<char> = text::to_chars(PEAK_RSS_KEY);
    if !text::occurs_at(&chars, &key, 0) {
        return None;
    }
    let value: String = text::text_of(&chars, key.len(), chars.len());
    assert(value@ =~= line@.skip(PEAK_RSS_KEY@.len() as int));
    let words: Vec<String> = split_words(value.as_str());
    assert(words@.len() == text::string_views(words@).len());
    if words.len() == 0 {
        return Some(Err(PeakRssError::Malformed { line: line.to_owned() }));
    }
    assert(text::string_views(words@)[0] == words@[0]@);
    if words.len() != 2 {
        return Some(Err(PeakRssError::UnexpectedFormat { value }));
    }
    assert(text::string_views(words@)[1] == words@[1]@);
    if !text::same_text(words[1].as_str(), PEAK_RSS_UNIT) {
        return Some(Err(PeakRssError::UnexpectedFormat { value }));
    }
    match number::parse_u64(words[0].as_str()) {
        Some(kb) => Some(Ok(kb)),
        None => Some(Err(PeakRssError::Number { text: words[0].as_str().to_owned() })),
    }
}

/// Reads the peak resident set size (VmHWM) in kilobytes from the status of a
/// process.
pub fn peak_rss_kb(status: &str) -> (r: Result<u64, PeakRssError>)
    ensures
        kb_view(r) == status_kb(status@),
{
    let lines: Vec<String> = text::split_lines(status);
    let ghost all = text::string_views(lines@);
    let mut i: usize = 0;
    assert(all.skip(0) =~= all);
    while i < lines.len()
        invariant
            i <= lines@.len(),
            all == text::string_views(lines@),
            all == text::lines(status@),
            lines_kb(all) == lines_kb(all.skip(i as int)),
        decreases lines@.len() - i,
    {
        proof {
            assert(all.skip(i as int)[0] == lines@[i as int]@);
            assert(all.skip(i as int).skip(1) =~= all.skip(i + 1));
        }
        match read_line_kb(lines[i].as_str()) {
            Some(r) => {
                return r;
            },
            None => {},
        }
        i += 1;
    }
    Err(PeakRssError::NotFound)
}

/// Returns the peak resident set size (VmHWM) in bytes, as the status of the process
/// says.
pub fn get_peak_rss(status: &str) -> (r: Result<u64, PeakRssError>)
    requires
        status_kb(status@) matches Ok(kb) ==> kb * 1024 <= u64::MAX,
    ensures
        match (status_kb(status@), r) {
            (Ok(kb), Ok(bytes)) => bytes == kb * 1024,
            (Err(failure), Err(e)) => e@ == failure,
            _ => false,
        },
{
    match peak_rss_kb(status) {
        Ok(kb) => Ok(kb * 1024),
        Err(e) => Err(e),
    }
}

// ---------------------------------------------------------------------- laws

/// An architecture other than the three that have another name keeps its own, and these
/// three have those.
pub proof fn lemma_goarch_names(arch: Seq<char>)
    ensures
        arch != "x86_64"@ && arch != "aarch64"@ && arch != "powerpc64"@ ==> goarch(arch) == arch,
        goarch("x86_64"@) == "amd64"@,
        goarch("aarch64"@) == "arm64"@,
        goarch("powerpc64"@) == "ppc64le"@,
{
    reveal_strlit("x86_64");
    reveal_strlit("aarch64");
    reveal_strlit("powerpc64");
    assert("x86_64"@.len() == 6 && "aarch64"@.len() == 7 && "powerpc64"@.len() == 9);
}

/// How the words of a text grow with its last character.
proof fn lemma_words_step(s: Seq<char>, c: char)
    ensures
        words(s.push(c)) == if is_white_space()(c) {
            words(s)
        } else if s.len() == 0 || is_white_space()(s.last()) {
            words(s).push(seq![c])
        } else {
            words(s).drop_last().push(words(s).last().push(c))
        },
        s.len() > 0 && !is_white_space()(s.last()) ==> words(s).len() > 0,
        s.len() == 0 ==> words(s).len() == 0,
{
    let sep = is_white_space();
    let pieces = text::split_on(s, sep);
    let front = pieces.drop_last();
    let last = pieces.last();
    text::lemma_split_pieces(s, sep);
    assert(s.push(c).drop_last() =~= s);
    assert(last.len() > 0 <==> s.len() > 0 && !sep(s.last()));
    assert(front.push(last) =~= pieces);
    text::lemma_keep_push(front, last);
    if s.len() == 0 {
        reveal(Seq::filter);
        assert(front =~= Seq::<Seq<char>>::empty());
    }
    if sep(c) {
        text::lemma_keep_push(pieces, Seq::empty());
    } else {
        text::lemma_keep_push(front, last.push(c));
        if last.len() > 0 {
            assert(words(s).drop_last() =~= front.filter(text::not_empty()));
        } else {
            assert(last.push(c) =~= seq![c]);
        }
    }
}

proof fn lemma_words_blanks(s: Seq<char>, blanks: Seq<char>)
    requires
        forall|i: int| 0 <= i < blanks.len() ==> is_white_space()(#[trigger] blanks[i]),
    ensures
        words(s + blanks) == words(s),
    decreases blanks.len(),
{
    if blanks.len() == 0 {
        assert(s + blanks =~= s);
    } else {
        let front = blanks.drop_last();
        assert forall|i: int| 0 <= i < front.len() implies is_white_space()(
            #[trigger] front[i],
        ) by {
            assert(front[i] == blanks[i]);
        }
        lemma_words_blanks(s, front);
        assert(is_white_space()(blanks[blanks.len() - 1]));
        lemma_words_step(s + front, blanks.last());
        assert((s + front).push(blanks.last()) =~= s + blanks);
    }
}

proof fn lemma_words_word(s: Seq<char>, word: Seq<char>)
    requires
        s.len() == 0 || is_white_space()(s.last()),
        word.len() > 0,
        forall|i: int| 0 <= i < word.len() ==> !is_white_space()(#[trigger] word[i]),
    ensures
        words(s + word) == words(s).push(word),
    decreases word.len(),
{
    let front = word.drop_last();
    let c = word.last();
    assert(!is_white_space()(word[word.len() - 1]));
    assert((s + front).push(c) =~= s + word);
    lemma_words_step(s + front, c);
    if front.len() == 0 {
        assert(s + front =~= s);
        assert(word =~= seq![c]);
    } else {
        assert forall|i: int| 0 <= i < front.len() implies !is_white_space()(
            #[trigger] front[i],
        ) by {
            assert(front[i] == word[i]);
        }
        lemma_words_word(s, front);
        assert((s + front).last() == front[front.len() - 1]);
        assert(words(s).push(front).drop_last() =~= words(s));
        assert(front.push(c) =~= word);
    }
}

/// Words are what stands between white space: two words with white space before, between
/// and behind them are these two.
pub proof fn lemma_two_words(
    a: Seq<char>,
    x: Seq<char>,
    b: Seq<char>,
    y: Seq<char>,
    c: Seq<char>,
)
    requires
        forall|i: int| 0 <= i < a.len() ==> is_white_space()(#[trigger] a[i]),
        forall|i: int| 0 <= i < b.len() ==> is_white_space()(#[trigger] b[i]),
        forall|i: int| 0 <= i < c.len() ==> is_white_space()(#[trigger] c[i]),
        b.len() > 0,
        x.len() > 0,
        y.len() > 0,
        forall|i: int| 0 <= i < x.len() ==> !is_white_space()(#[trigger] x[i]),
        forall|i: int| 0 <= i < y.len() ==> !is_white_space()(#[trigger] y[i]),
    ensures
        words(a + x + b + y + c) == seq![x, y],
{
    let none = Seq::<char>::empty();
    lemma_words_step(none, 'a');
    lemma_words_blanks(none, a);
    assert(none + a =~= a);
    if a.len() > 0 {
        assert(is_white_space()(a[a.len() - 1]));
    }
    lemma_words_word(a, x);
    lemma_words_blanks(a + x, b);
    assert((a + x + b).last() == b[b.len() - 1]);
    lemma_words_word(a + x + b, y);
    lemma_words_blanks(a + x + b + y, c);
    assert(words(a + x + b + y + c) =~= seq![x, y]);
}

/// The line `VmHWM:`, a number and `kB`, with white space between them, gives the number.
pub proof fn lemma_peak_line(n: u64, a: Seq<char>, b: Seq<char>, c: Seq<char>)
    requires
        forall|i: int| 0 <= i < a.len() ==> is_white_space()(#[trigger] a[i]),
        forall|i: int| 0 <= i < b.len() ==> is_white_space()(#[trigger] b[i]),
        forall|i: int| 0 <= i < c.len() ==> is_white_space()(#[trigger] c[i]),
        b.len() > 0,
    ensures
        line_kb("VmHWM:"@ + (a + number::decimal(n as nat) + b + "kB"@ + c)) == Some(
            Ok::<u64, PeakRssFailure>(n),
        ),
{
    reveal_strlit("kB");
    let key = "VmHWM:"@;
    let x = number::decimal(n as nat);
    let value = a + x + b + "kB"@ + c;
    let line = key + value;
    number::lemma_decimal_digits(n as nat);
    number::lemma_decimal_parsed(n);
    assert forall|i: int| 0 <= i < x.len() implies !is_white_space()(#[trigger] x[i]) by {
        assert(number::is_digit(x[i]));
    }
    lemma_two_words(a, x, b, "kB"@, c);
    assert(line.subrange(0, key.len() as int) =~= key);
    assert(line.skip(key.len() as int) =~= value);
    assert(words(value)[0] == x && words(value)[1] == "kB"@);
}

/// The first line that begins with `VmHWM:` counts, and lines that do not begin so are
/// passed over.
pub proof fn lemma_first_peak_line(others: Seq<Seq<char>>, line: Seq<char>, rest: Seq<Seq<char>>)
    requires
        forall|i: int|
            0 <= i < others.len() ==> !"VmHWM:"@.is_prefix_of(#[trigger] others[i]),
        "VmHWM:"@.is_prefix_of(line),
    ensures
        line_kb(line) == Some(lines_kb(others + seq![line] + rest)),
        lines_kb(others) == Err::<u64, _>(PeakRssFailure::NotFound),
    decreases others.len(),
{
    let all = others + seq![line] + rest;
    if others.len() == 0 {
        assert(all[0] == line);
    } else {
        assert(all[0] == others[0]);
        let next = others.skip(1);
        assert forall|i: int| 0 <= i < next.len() implies !"VmHWM:"@.is_prefix_of(
            #[trigger] next[i],
        ) by {
            assert(next[i] == others[i + 1]);
        }
        lemma_first_peak_line(next, line, rest);
        assert(all.skip(1) =~= next + seq![line] + rest);
    }
}

/// A line gives a number only where `VmHWM:` is followed by two words, the number and `kB`;
/// where nothing but white space follows, the line is what is wrong, and where other words
/// do, what follows is.
pub proof fn lemma_peak_line_only(value: Seq<char>, n: u64)
    ensures
        ({
            let line = "VmHWM:"@ + value;
            &&& line_kb(line) == Some(Ok::<_, PeakRssFailure>(n)) <==> {
                &&& words(value).len() == 2
                &&& number::parsed(words(value)[0]) == Some(n)
                &&& words(value)[1] == "kB"@
            }
            &&& line_kb(line) == Some(Err::<u64, _>(PeakRssFailure::Malformed { line })) <==> words(
                value,
            ) == Seq::<Seq<char>>::empty()
            &&& line_kb(line) == Some(Err::<u64, _>(PeakRssFailure::UnexpectedFormat { value }))
                ==> words(value) != Seq::<Seq<char>>::empty()
            &&& line_kb(line) matches Some(Err(PeakRssFailure::Number { text }))
                ==> number::parsed(text) is None && words(value) == seq![text, "kB"@]
        }),
{
    let key = "VmHWM:"@;
    let line = key + value;
    assert(line.subrange(0, key.len() as int) =~= key);
    assert(line.skip(key.len() as int) =~= value);
    if words(value).len() == 0 {
        assert(words(value) =~= Seq::<Seq<char>>::empty());
    }
    if words(value).len() == 2 {
        assert(words(value) =~= seq![words(value)[0], words(value)[1]]);
    }
}

/// A kilobyte of the status is 1024 bytes.
pub proof fn lemma_peak_in_bytes(status: &str, kb: u64, r: Result<u64, PeakRssError>)
    requires
        status_kb(status@) == Ok::<_, PeakRssFailure>(kb),
        call_ensures(get_peak_rss, (status,), r),
    ensures
        r is Ok,
        r->Ok_0 / 1024 == kb,
        r->Ok_0 % 1024 == 0,
{
}

} // verus!

//! The library's data: books, chapters, chapter ranges, and file names.
use vstd::prelude::*;
use crate::text::{
    all_digits, chars_of, copy_range, decimal, digit_char, digit_value, digits_value, find,
    is_digit, is_ws, lemma_find_unique, pad_zeros, parse_u64, parse_unsigned, push_decimal,
    push_padded, push_str, replace, replace_chars, split_once, split_once_chars, string_of, trim,
    trim_end, trim_start, trim_str,
};

verus! {

/// A book as the search service lists it.
pub struct Book {
    pub book_id: String,
    pub title: String,
    pub author: String,
    pub score: String,
    pub category: String,
    pub abstract_: String,
    pub status: i64,
}

/// A book as mathematical values.
pub struct BookView {
    pub book_id: Seq<char>,
    pub title: Seq<char>,
    pub author: Seq<char>,
    pub score: Seq<char>,
    pub category: Seq<char>,
    pub abstract_: Seq<char>,
    pub status: i64,
}

impl View for Book {
    type V = BookView;

    open spec fn view(&self) -> BookView {
        BookView {
            book_id: self.book_id@,
            title: self.title@,
            author: self.author@,
            score: self.score@,
            category: self.category@,
            abstract_: self.abstract_@,
            status: self.status,
        }
    }
}

impl Book {
    /// "完结" (finished) for status 1, "连载" (ongoing) otherwise.
    pub fn status_text(&self) -> (res: &str)
        ensures
            res@ == (if self.status == 1 {
                "完结"@
            } else {
                "连载"@
            }),
    {
        if self.status == 1 {
            "完结"
        } else {
            "连载"
        }
    }
}

/// A chapter of a book: its number (counted from 1), the id under which
/// its content is fetched, and its title.
pub struct Chapter {
    pub index: usize,
    pub item_id: String,
    pub title: String,
}

/// A chapter as mathematical values.
pub struct ChapterView {
    pub index: usize,
    pub item_id: Seq<char>,
    pub title: Seq<char>,
}

impl View for Chapter {
    type V = ChapterView;

    open spec fn view(&self) -> ChapterView {
        ChapterView { index: self.index, item_id: self.item_id@, title: self.title@ }
    }
}

/// The views of a list of books.
pub open spec fn book_views(v: Seq<Book>) -> Seq<BookView> {
    v.map_values(|b: Book| b@)
}

/// The views of a list of chapters.
pub open spec fn chapter_views(v: Seq<Chapter>) -> Seq<ChapterView> {
    v.map_values(|c: Chapter| c@)
}

impl Chapter {
    /// A copy of this chapter.
    pub fn copy(&self) -> (res: Chapter)
        ensures
            res == *self,
    {
        Chapter { index: self.index, item_id: self.item_id.clone(), title: self.title.clone() }
    }
}

/// A range of chapter numbers, both ends included.
#[derive(Clone, Copy)]
pub struct ChapterRange {
    pub start: usize,
    pub end: usize,
}

/// The number that `s` writes as a `usize`, if it is one.
pub open spec fn usize_of(s: Seq<char>) -> Option<usize> {
    match parse_unsigned(s, usize::MAX as nat) {
        Some(v) => Some(v as usize),
        None => None,
    }
}

/// The range that the text `s` describes, after trimming: `"-N"` is
/// chapters 1 to N, `"N-"` is chapter N onwards, `"A-B"` is A to B, and
/// `"N"` is chapter N alone; anything else describes no range.
pub open spec fn range_of(s: Seq<char>) -> Option<ChapterRange> {
    let t = trim(s);
    if t.len() == 0 {
        None
    } else if t[0] == '-' {
        match usize_of(t.drop_first()) {
            Some(e) => Some(ChapterRange { start: 1, end: e }),
            None => None,
        }
    } else if t.last() == '-' {
        match usize_of(t.drop_last()) {
            Some(b) => Some(ChapterRange { start: b, end: usize::MAX }),
            None => None,
        }
    } else {
        match split_once(t, '-') {
            Some((a, b)) => match (usize_of(a), usize_of(b)) {
                (Some(x), Some(y)) => Some(ChapterRange { start: x, end: y }),
                _ => None,
            },
            None => match usize_of(t) {
                Some(n) => Some(ChapterRange { start: n, end: n }),
                None => None,
            },
        }
    }
}

/// The number written in `s`, as a `usize`.
pub fn parse_usize(s: &Vec<char>) -> (res: Option<usize>)
    ensures
        res == usize_of(s@),
{
    match parse_u64(s, usize::MAX as u64) {
        Some(v) => Some(v as usize),
        None => None,
    }
}

impl ChapterRange {
    /// The range that `s` describes (see `range_of`).
    pub fn parse(s: &str) -> (res: Option<ChapterRange>)
        ensures
            res == range_of(s@),
    {
        let t = trim_str(s);
        let n = t.len();
        if n == 0 {
            return None;
        }
        if t[0] == '-' {
            let rest = copy_range(&t, 1, n);
            proof {
                assert(rest@ =~= t@.drop_first());
            }
            match parse_usize(&rest) {
                Some(e) => Some(ChapterRange { start: 1, end: e }),
                None => None,
            }
        } else if t[n - 1] == '-' {
            let prefix = copy_range(&t, 0, n - 1);
            proof {
                assert(prefix@ =~= t@.drop_last());
            }
            match parse_usize(&prefix) {
                Some(b) => Some(ChapterRange { start: b, end: usize::MAX }),
                None => None,
            }
        } else {
            match split_once_chars(&t, '-') {
                Some((a, b)) => match (parse_usize(&a), parse_usize(&b)) {
                    (Some(x), Some(y)) => Some(ChapterRange { start: x, end: y }),
                    _ => None,
                },
                None => match parse_usize(&t) {
                    Some(v) => Some(ChapterRange { start: v, end: v }),
                    None => None,
                },
            }
        }
    }

    /// Whether chapter `i` lies in the range.
    pub fn contains(&self, i: usize) -> (res: bool)
        ensures
            res == (self.start <= i && i <= self.end),
    {
        i >= self.start && i <= self.end
    }
}

/// The program's settings.  Paths are kept as text.
pub struct Config {
    pub concurrent: usize,
    pub format: String,
    pub output_dir: String,
    pub filename_template: String,
    pub verbose: bool,
    pub cache_enabled: bool,
    pub cache_dir: String,
    pub cache_ttl: u64,
    pub bookmark_file: String,
    pub search_urls: Vec<String>,
    pub catalog_url: String,
    pub content_urls: Vec<String>,
}

/// The settings as mathematical values.
pub struct ConfigView {
    pub concurrent: usize,
    pub format: Seq<char>,
    pub output_dir: Seq<char>,
    pub filename_template: Seq<char>,
    pub verbose: bool,
    pub cache_enabled: bool,
    pub cache_dir: Seq<char>,
    pub cache_ttl: u64,
    pub bookmark_file: Seq<char>,
    pub search_urls: Seq<Seq<char>>,
    pub catalog_url: Seq<char>,
    pub content_urls: Seq<Seq<char>>,
}

/// The texts held by a list of strings.
pub open spec fn texts(v: Seq<String>) -> Seq<Seq<char>> {
    v.map_values(|s: String| s@)
}

impl View for Config {
    type V = ConfigView;

    open spec fn view(&self) -> ConfigView {
        ConfigView {
            concurrent: self.concurrent,
            format: self.format@,
            output_dir: self.output_dir@,
            filename_template: self.filename_template@,
            verbose: self.verbose,
            cache_enabled: self.cache_enabled,
            cache_dir: self.cache_dir@,
            cache_ttl: self.cache_ttl,
            bookmark_file: self.bookmark_file@,
            search_urls: texts(self.search_urls@),
            catalog_url: self.catalog_url@,
            content_urls: texts(self.content_urls@),
        }
    }
}

/// A character that file names may not hold.
pub open spec fn is_reserved(c: char) -> bool {
    c == '/' || c == '\\' || c == ':' || c == '*' || c == '?' || c == '"' || c == '<' || c
        == '>' || c == '|'
}

/// `s` with every reserved character replaced by `'_'`.
pub open spec fn sanitized(s: Seq<char>) -> Seq<char> {
    Seq::new(s.len(), |i: int| if is_reserved(s[i]) { '_' } else { s[i] })
}

/// `s` made safe as a file name: each of `/ \ : * ? " < > |` becomes `_`.
pub fn sanitize_filename(s: &str) -> (res: String)
    ensures
        res@ == sanitized(s@),
{
    let v = chars_of(s);
    let out = sanitize_chars(&v);
    string_of(&out)
}

/// `v` with every reserved character replaced by `'_'`.
pub fn sanitize_chars(v: &Vec<char>) -> (out: Vec<char>)
    ensures
        out@ == sanitized(v@),
{
    let mut out: Vec<char> = Vec::new();
    let n = v.len();
    let mut i: usize = 0;
    while i < n
        invariant
            n == v.len(),
            i <= n,
            out@ == sanitized(v@.take(i as int)),
        decreases n - i,
    {
        let c = v[i];
        let r = if c == '/' || c == '\\' || c == ':' || c == '*' || c == '?' || c == '"' || c
            == '<' || c == '>' || c == '|' {
            '_'
        } else {
            c
        };
        out.push(r);
        proof {
            assert(out@ =~= sanitized(v@.take(i + 1)));
        }
        i += 1;
    }
    proof {
        assert(v@.take(n as int) =~= v@);
    }
    out
}

/// Whether a chapter title already says which chapter it is: it begins
/// with `第` or with an ASCII digit.
pub open spec fn has_chapter_number(title: Seq<char>) -> bool {
    title.len() > 0 && (title[0] == '第' || is_digit(title[0]))
}

/// The heading of chapter `index` titled `title`: the title itself when it
/// already numbers the chapter, else `第{index}章 {title}`.
pub open spec fn heading(index: usize, title: Seq<char>) -> Seq<char> {
    if has_chapter_number(title) {
        title
    } else {
        "第"@ + decimal(index as nat) + "章 "@ + title
    }
}

/// Whether `title` begins with `第` or an ASCII digit.
pub fn has_chapter_prefix(title: &str) -> (res: bool)
    ensures
        res == has_chapter_number(title@),
{
    let v = chars_of(title);
    v.len() > 0 && (v[0] == '第' || ('0' <= v[0] && v[0] <= '9'))
}

impl Chapter {
    /// The chapter's heading (see `heading`).
    pub fn heading(&self) -> (res: Vec<char>)
        ensures
            res@ == heading(self.index, self.title@),
    {
        if has_chapter_prefix(self.title.as_str()) {
            chars_of(self.title.as_str())
        } else {
            let mut v = chars_of("第");
            push_decimal(&mut v, self.index as u64);
            push_str(&mut v, "章 ");
            push_str(&mut v, self.title.as_str());
            v
        }
    }
}

/// The file name (without extension) that the template `ft` gives
/// chapter `index` titled `title`: `{idx04}` becomes the number padded to
/// four digits, then `{idx}` the number, then `{title}` the sanitized
/// title.
pub open spec fn file_stem(ft: Seq<char>, index: usize, title: Seq<char>) -> Seq<char> {
    replace(
        replace(
            replace(ft, "{idx04}"@, pad_zeros(decimal(index as nat), 4)),
            "{idx}"@,
            decimal(index as nat),
        ),
        "{title}"@,
        sanitized(title),
    )
}

/// The file name (without extension) that the template `ft` gives `ch`.
pub fn chapter_file_stem(ft: &str, ch: &Chapter) -> (res: Vec<char>)
    ensures
        res@ == file_stem(ft@, ch.index, ch.title@),
{
    let p1 = chars_of("{idx04}");
    let p2 = chars_of("{idx}");
    let p3 = chars_of("{title}");
    proof {
        reveal_strlit("{idx04}");
        reveal_strlit("{idx}");
        reveal_strlit("{title}");
    }
    let mut padded: Vec<char> = Vec::new();
    push_padded(&mut padded, ch.index as u64, 4);
    let mut plain: Vec<char> = Vec::new();
    push_decimal(&mut plain, ch.index as u64);
    let title = sanitize_chars(&chars_of(ch.title.as_str()));
    proof {
        assert(padded@ =~= pad_zeros(decimal(ch.index as nat), 4));
        assert(plain@ =~= decimal(ch.index as nat));
    }
    let a = replace_chars(&chars_of(ft), &p1, &padded);
    let b = replace_chars(&a, &p2, &plain);
    replace_chars(&b, &p3, &title)
}

/// A digit is worth its value.
proof fn lemma_digit_roundtrip(d: nat)
    requires
        d < 10,
    ensures
        digit_value(digit_char(d)) == d,
        is_digit(digit_char(d)),
{
    assert(('0' as u32 + d) as char as int == '0' as int + d);
}

/// A decimal numeral is a non-empty run of digits worth its number.
pub proof fn lemma_decimal_numeral(n: nat)
    ensures
        decimal(n).len() > 0,
        all_digits(decimal(n)),
        digits_value(decimal(n)) == n,
    decreases n,
{
    lemma_digit_roundtrip(n % 10);
    if n >= 10 {
        lemma_decimal_numeral(n / 10);
        let d = decimal(n);
        assert(d.drop_last() =~= decimal(n / 10));
        assert(d.last() == digit_char(n % 10));
        assert(digits_value(d) == digits_value(decimal(n / 10)) * 10 + digit_value(d.last()));
        assert((n / 10) * 10 + n % 10 == n);
        assert(digits_value(d) == n);
        assert forall|i: int| 0 <= i < d.len() implies is_digit(#[trigger] d[i]) by {
            if i < d.len() - 1 {
                assert(d[i] == decimal(n / 10)[i]);
            }
        }
    } else {
        assert(seq![digit_char(n)].drop_last() =~= Seq::<char>::empty());
        assert(n % 10 == n);
        assert(decimal(n) == seq![digit_char(n)]);
        assert(digits_value(decimal(n)) == digits_value(Seq::<char>::empty()) * 10 + digit_value(digit_char(n)));
        assert(digits_value(decimal(n)) == n);
    }
}

/// A numeral of a `usize` reads back as that number.
pub proof fn lemma_usize_of_decimal(n: usize)
    ensures
        usize_of(decimal(n as nat)) == Some(n),
        trim(decimal(n as nat)) == decimal(n as nat),
        !is_ws(decimal(n as nat)[0]),
        !is_ws(decimal(n as nat).last()),
        decimal(n as nat)[0] != '-',
        decimal(n as nat).last() != '-',
        forall|i: int| 0 <= i < decimal(n as nat).len() ==> #[trigger] decimal(n as nat)[i] != '-',
{
    let d = decimal(n as nat);
    lemma_decimal_numeral(n as nat);
    assert(is_digit(d[0]));
    assert(is_digit(d[d.len() - 1]));
    assert forall|i: int| 0 <= i < d.len() implies #[trigger] d[i] != '-' by {
        assert(is_digit(d[i]));
    }
    assert(trim_start(d) == d);
    assert(trim_end(d) == d);
}

/// The range forms of the command line mean what they say: `N` is chapter
/// N alone, `-N` chapters 1 to N, `N-` chapter N onwards, and `A-B`
/// chapters A to B.
pub proof fn range_forms(a: usize, b: usize)
    ensures
        range_of(decimal(a as nat)) == Some(ChapterRange { start: a, end: a }),
        range_of(seq!['-'] + decimal(b as nat)) == Some(ChapterRange { start: 1, end: b }),
        range_of(decimal(a as nat) + seq!['-']) == Some(
            ChapterRange { start: a, end: usize::MAX },
        ),
        range_of(decimal(a as nat) + seq!['-'] + decimal(b as nat)) == Some(
            ChapterRange { start: a, end: b },
        ),
{
    let da = decimal(a as nat);
    let db = decimal(b as nat);
    lemma_usize_of_decimal(a);
    lemma_usize_of_decimal(b);
    // "N"
    lemma_find_unique_absent(da);
    // "-N"
    let s2 = seq!['-'] + db;
    assert(trim_start(s2) == s2);
    assert(s2.last() == db.last());
    assert(trim_end(s2) == s2);
    assert(s2.drop_first() =~= db);
    // "N-"
    let s3 = da + seq!['-'];
    assert(s3[0] == da[0]);
    assert(trim_start(s3) == s3);
    assert(trim_end(s3) == s3);
    assert(s3.drop_last() =~= da);
    // "A-B"
    let s4 = da + seq!['-'] + db;
    assert(s4[0] == da[0]);
    assert(s4.last() == db.last());
    assert(trim_start(s4) == s4);
    assert(trim_end(s4) == s4);
    assert(s4[da.len() as int] == '-');
    assert forall|j: int| 0 <= j < da.len() implies s4[j] != '-' by {
        assert(s4[j] == da[j]);
    }
    lemma_find_unique(s4, '-', da.len() as int);
    assert(s4.take(da.len() as int) =~= da);
    assert(s4.skip(da.len() as int + 1) =~= db);
}

/// A numeral holds no `-`.
proof fn lemma_find_unique_absent(d: Seq<char>)
    requires
        forall|i: int| 0 <= i < d.len() ==> #[trigger] d[i] != '-',
    ensures
        find(d, '-') is None,
    decreases d.len(),
{
    if d.len() > 0 {
        assert forall|i: int| 0 <= i < d.drop_first().len() implies #[trigger] d.drop_first()[i]
            != '-' by {
            assert(d.drop_first()[i] == d[i + 1]);
        }
        lemma_find_unique_absent(d.drop_first());
    }
}

/// Sanitizing keeps the length, leaves no reserved character, changes
/// nothing in a name that has none, and so changes nothing the second
/// time.
pub proof fn sanitize_laws(s: Seq<char>)
    ensures
        sanitized(s).len() == s.len(),
        forall|i: int| 0 <= i < s.len() ==> !is_reserved(#[trigger] sanitized(s)[i]),
        (forall|i: int| 0 <= i < s.len() ==> !is_reserved(#[trigger] s[i])) ==> sanitized(s)
            == s,
        sanitized(sanitized(s)) == sanitized(s),
{
    assert(sanitized(sanitized(s)) =~= sanitized(s));
    if forall|i: int| 0 <= i < s.len() ==> !is_reserved(#[trigger] s[i]) {
        assert(sanitized(s) =~= s);
    }
}

} // verus!

//! Downloading a book's text: the file of each chapter and the
//! `info.list` index that records a download.
use vstd::prelude::*;
use crate::api::{json_error, Client};
use crate::config::{join_path, join_path_str};
use crate::json::{has_member_where, json_of, lemma_member_where, parse_json, JsonNumber, JsonValue};
use crate::text::{chars_of, decimal, push_all, push_decimal, push_str, string_of};
use crate::types::{chapter_file_stem, file_stem, heading, Chapter};

verus! {

/// The settings of one book's download.
pub struct Downloader {
    pub api: Client,
    pub out_dir: String,
    pub format: String,
    pub ft: String,
    pub verbose: bool,
    pub book_id: String,
    pub book_title: String,
}

/// `s` escaped for a JSON string: `\` and `"` get a `\` in front.
pub open spec fn json_escaped(s: Seq<char>) -> Seq<char>
    decreases s.len(),
{
    if s.len() == 0 {
        seq![]
    } else {
        json_escaped(s.drop_last()) + if s.last() == '\\' || s.last() == '"' {
            seq!['\\', s.last()]
        } else {
            seq![s.last()]
        }
    }
}

/// `s` escaped for a JSON string.
pub fn json_esc(s: &str) -> (res: String)
    ensures
        res@ == json_escaped(s@),
{
    let v = chars_of(s);
    let mut out: Vec<char> = Vec::new();
    push_json_escaped(&mut out, &v);
    string_of(&out)
}

/// Appends `v` escaped for a JSON string.
fn push_json_escaped(out: &mut Vec<char>, v: &Vec<char>)
    ensures
        final(out)@ == old(out)@ + json_escaped(v@),
{
    let ghost start = out@;
    let n = v.len();
    let mut i: usize = 0;
    proof {
        assert(v@.take(0) =~= Seq::<char>::empty());
        assert(start + json_escaped(v@.take(0)) =~= start);
    }
    while i < n
        invariant
            n == v.len(),
            i <= n,
            out@ == start + json_escaped(v@.take(i as int)),
        decreases n - i,
    {
        let c = v[i];
        if c == '\\' || c == '"' {
            out.push('\\');
        }
        out.push(c);
        proof {
            assert(v@.take(i + 1).drop_last() =~= v@.take(i as int));
            assert(v@.take(i + 1).last() == c);
            assert(out@ =~= start + json_escaped(v@.take(i + 1)));
        }
        i += 1;
    }
    proof {
        assert(v@.take(n as int) =~= v@);
    }
}

/// The items joined with `sep` between them.
pub open spec fn joined(items: Seq<Seq<char>>, sep: Seq<char>) -> Seq<char>
    decreases items.len(),
{
    if items.len() == 0 {
        seq![]
    } else if items.len() == 1 {
        items[0]
    } else {
        joined(items.drop_last(), sep) + sep + items.last()
    }
}

/// The text of a chapter's file: its heading, a blank line, the content,
/// and a final line break.
pub open spec fn chapter_text(index: usize, title: Seq<char>, content: Seq<char>) -> Seq<char> {
    heading(index, title) + "\n\n"@ + content + "\n"@
}

/// The line that records one chapter in `info.list`.
pub open spec fn info_entry(ft: Seq<char>, index: usize, title: Seq<char>) -> Seq<char> {
    "    {\"idx\":"@ + decimal(index as nat) + ", \"title\":\""@ + json_escaped(title)
        + "\", \"file\":\""@ + json_escaped(file_stem(ft, index, title)) + "\"}"@
}

/// The lines that record the chapters `chs`.
pub open spec fn info_entries(ft: Seq<char>, chs: Seq<Chapter>) -> Seq<Seq<char>> {
    Seq::new(chs.len(), |k: int| info_entry(ft, chs[k].index, chs[k].title@))
}

/// The text of `info.list` for a download of book `id` titled `title` in
/// format `format`, with the chapters `chs`.
pub open spec fn info_list(
    id: Seq<char>,
    title: Seq<char>,
    format: Seq<char>,
    ft: Seq<char>,
    chs: Seq<Chapter>,
) -> Seq<char> {
    "{\n  \"book_id\": \""@ + json_escaped(id) + "\",\n  \"book_title\": \""@ + json_escaped(title)
        + "\",\n  \"format\": \""@ + format + "\",\n  \"chapters\": [\n"@ + joined(
        info_entries(ft, chs),
        ",\n"@,
    ) + "\n  ]\n}\n"@
}

impl Downloader {
    /// A download of book `book_id` titled `book_title` into `out_dir`, in
    /// format `format`, naming files with the template `ft`.
    pub fn new(
        api: Client,
        out_dir: String,
        format: &str,
        ft: &str,
        verbose: bool,
        book_id: &str,
        book_title: &str,
    ) -> (res: Self)
        ensures
            res.api == api,
            res.out_dir == out_dir,
            res.format@ == format@,
            res.ft@ == ft@,
            res.verbose == verbose,
            res.book_id@ == book_id@,
            res.book_title@ == book_title@,
    {
        Downloader {
            api,
            out_dir,
            format: format.to_owned(),
            ft: ft.to_owned(),
            verbose,
            book_id: book_id.to_owned(),
            book_title: book_title.to_owned(),
        }
    }

    /// The file name (without extension) of chapter `ch`.
    pub fn fname(&self, ch: &Chapter) -> (res: String)
        ensures
            res@ == file_stem(self.ft@, ch.index, ch.title@),
    {
        string_of(&chapter_file_stem(self.ft.as_str(), ch))
    }

    /// The path of the text file of chapter `ch`.
    pub fn chapter_path(&self, ch: &Chapter) -> (res: String)
        ensures
            res@ == join_path(self.out_dir@, file_stem(self.ft@, ch.index, ch.title@) + ".txt"@),
    {
        let mut name = chapter_file_stem(self.ft.as_str(), ch);
        push_str(&mut name, ".txt");
        let name = string_of(&name);
        join_path_str(self.out_dir.as_str(), name.as_str())
    }

    /// The path of the book's EPUB file.
    pub fn epub_path(&self) -> (res: String)
        ensures
            res@ == join_path(
                self.out_dir@,
                crate::types::sanitized(self.book_title@) + ".epub"@,
            ),
    {
        let mut name = crate::types::sanitize_chars(&chars_of(self.book_title.as_str()));
        push_str(&mut name, ".epub");
        let name = string_of(&name);
        join_path_str(self.out_dir.as_str(), name.as_str())
    }

    /// The path of the book's `info.list`.
    pub fn info_list_path(&self) -> (res: String)
        ensures
            res@ == join_path(self.out_dir@, "info.list"@),
    {
        join_path_str(self.out_dir.as_str(), "info.list")
    }

    /// The text of `info.list` recording the chapters `chapters`.
    pub fn info_list_text(&self, chapters: &Vec<Chapter>) -> (res: String)
        ensures
            res@ == info_list(
                self.book_id@,
                self.book_title@,
                self.format@,
                self.ft@,
                chapters@,
            ),
    {
        let mut out = chars_of("{\n  \"book_id\": \"");
        push_json_escaped(&mut out, &chars_of(self.book_id.as_str()));
        push_str(&mut out, "\",\n  \"book_title\": \"");
        push_json_escaped(&mut out, &chars_of(self.book_title.as_str()));
        push_str(&mut out, "\",\n  \"format\": \"");
        push_str(&mut out, self.format.as_str());
        push_str(&mut out, "\",\n  \"chapters\": [\n");
        let ghost head = out@;
        let ghost entries = info_entries(self.ft@, chapters@);
        let n = chapters.len();
        let mut i: usize = 0;
        proof {
            assert(entries.take(0) =~= Seq::<Seq<char>>::empty());
            assert(out@ =~= head + joined(entries.take(0), ",\n"@));
        }
        while i < n
            invariant
                n == chapters@.len() == entries.len(),
                entries == info_entries(self.ft@, chapters@),
                i <= n,
                out@ == head + joined(entries.take(i as int), ",\n"@),
            decreases n - i,
        {
            let ghost before = out@;
            if i > 0 {
                push_str(&mut out, ",\n");
            }
            let ch = &chapters[i];
            push_str(&mut out, "    {\"idx\":");
            push_decimal(&mut out, ch.index as u64);
            push_str(&mut out, ", \"title\":\"");
            push_json_escaped(&mut out, &chars_of(ch.title.as_str()));
            push_str(&mut out, "\", \"file\":\"");
            push_json_escaped(&mut out, &chapter_file_stem(self.ft.as_str(), ch));
            push_str(&mut out, "\"}");
            proof {
                assert(entries.take(i + 1).drop_last() =~= entries.take(i as int));
                assert(entries.take(i + 1).last() == entries[i as int]);
                if i == 0 {
                    assert(entries.take(1) =~= seq![entries[0]]);
                    assert(out@ =~= head + joined(entries.take(i + 1), ",\n"@));
                } else {
                    assert(out@ =~= head + joined(entries.take(i + 1), ",\n"@));
                }
            }
            i += 1;
        }
        push_str(&mut out, "\n  ]\n}\n");
        proof {
            assert(entries.take(n as int) =~= entries);
            assert(out@ =~= info_list(
                self.book_id@,
                self.book_title@,
                self.format@,
                self.ft@,
                chapters@,
            ));
        }
        string_of(&out)
    }
}

/// The text of the file of chapter `ch` with content `content`.
pub fn chapter_file_text(ch: &Chapter, content: &str) -> (res: String)
    ensures
        res@ == chapter_text(ch.index, ch.title@, content@),
{
    let mut out = ch.heading();
    push_str(&mut out, "\n\n");
    push_str(&mut out, content);
    push_str(&mut out, "\n");
    string_of(&out)
}

/// A download as `info.list` records it: book id, title, format, and the
/// chapters as (number, title, file name).
pub struct InfoListView {
    pub book_id: Seq<char>,
    pub book_title: Seq<char>,
    pub format: Seq<char>,
    pub chapters: Seq<(usize, Seq<char>, Seq<char>)>,
}

/// A chapter as an entry of `info.list` records it: a missing number reads
/// 0, missing texts are empty.
pub open spec fn info_chapter(item: JsonValue) -> (usize, Seq<char>, Seq<char>) {
    (
        match item.field("idx"@) {
            Some(v) => match v.uint64() {
                Some(u) => u as usize,
                None => 0,
            },
            None => 0,
        },
        item.text_or("title"@, ""@),
        item.text_or("file"@, ""@),
    )
}

/// The elements of the array that is member `key` of `root`, or none.
pub open spec fn array_at(root: JsonValue, key: Seq<char>) -> Seq<JsonValue> {
    match root.field(key) {
        Some(a) => match a.elements() {
            Some(items) => items,
            None => seq![],
        },
        None => seq![],
    }
}

/// The chapters that the entries `items` record.
pub open spec fn info_chapters(items: Seq<JsonValue>) -> Seq<(usize, Seq<char>, Seq<char>)> {
    Seq::new(items.len(), |k: int| info_chapter(items[k]))
}

/// What a parsed `info.list` records; an error when it is not JSON or has
/// no book id.
pub open spec fn info_list_reply(parsed: Result<JsonValue, String>) -> Result<
    InfoListView,
    Seq<char>,
> {
    match parsed {
        Err(e) => Err(json_error(e@)),
        Ok(root) => {
            let id = root.text_or("book_id"@, ""@);
            if id.len() == 0 {
                Err("info.list 缺少 book_id"@)
            } else {
                Ok(
                    InfoListView {
                        book_id: id,
                        book_title: root.text_or("book_title"@, ""@),
                        format: root.text_or("format"@, "txt"@),
                        chapters: info_chapters(array_at(root, "chapters"@)),
                    },
                )
            }
        },
    }
}

/// The view of what `read_info_list` and `info_list_of_json` return.
pub open spec fn info_view(r: (String, String, String, Vec<(usize, String, String)>)) -> InfoListView {
    InfoListView {
        book_id: r.0@,
        book_title: r.1@,
        format: r.2@,
        chapters: r.3@.map_values(|c: (usize, String, String)| (c.0, c.1@, c.2@)),
    }
}

/// What a parsed `info.list` records (see `info_list_reply`).
pub fn info_list_of_json(parsed: &Result<JsonValue, String>) -> (res: Result<
    (String, String, String, Vec<(usize, String, String)>),
    String,
>)
    ensures
        match res {
            Ok(r) => info_list_reply(*parsed) == Ok::<InfoListView, Seq<char>>(info_view(r)),
            Err(e) => info_list_reply(*parsed) == Err::<InfoListView, Seq<char>>(e@),
        },
{
    let root = match parsed {
        Err(e) => {
            let mut v = chars_of("JSON: ");
            push_all(&mut v, &chars_of(e.as_str()));
            return Err(string_of(&v));
        },
        Ok(root) => root,
    };
    let book_id = root.text_or_default("book_id", "");
    let book_title = root.text_or_default("book_title", "");
    let format = root.text_or_default("format", "txt");
    let mut chapters: Vec<(usize, String, String)> = Vec::new();
    let ghost items: Seq<JsonValue> = array_at(*root, "chapters"@);
    let arr: Option<&Vec<JsonValue>> = match root.get("chapters") {
        Some(a) => a.as_array(),
        None => None,
    };
    proof {
        match arr {
            Some(a) => assert(a@ == items),
            None => assert(items =~= Seq::<JsonValue>::empty()),
        }
    }
    if let Some(arr) = arr {
        let n = arr.len();
        let mut i: usize = 0;
        while i < n
            invariant
                n == arr@.len(),
                arr@ == items,
                i <= n,
                chapters@.len() == i,
                forall|k: int|
                    0 <= k < i ==> (#[trigger] chapters@[k].0, chapters@[k].1@, chapters@[k].2@)
                        == info_chapter(items[k]),
            decreases n - i,
        {
            let it = &arr[i];
            let idx: usize = match it.get("idx") {
                Some(v) => match v.as_u64() {
                    Some(u) => u as usize,
                    None => 0,
                },
                None => 0,
            };
            let title = it.text_or_default("title", "");
            let file = it.text_or_default("file", "");
            chapters.push((idx, title, file));
            i += 1;
        }
    }
    assert(chapters@.len() == items.len());
    assert(forall|k: int|
        0 <= k < items.len() ==> (#[trigger] chapters@[k].0, chapters@[k].1@, chapters@[k].2@)
            == info_chapter(items[k]));
    if book_id.as_str().is_empty() {
        return Err("info.list 缺少 book_id".to_owned());
    }
    let res = (book_id, book_title, format, chapters);
    proof {
        assert(info_view(res).chapters =~= info_chapters(items));
    }
    Ok(res)
}

/// What the `info.list` text `text` records, read as serde_json reads it
/// (see `info_list_reply`).
pub fn read_info_list(text: &str) -> (res: Result<
    (String, String, String, Vec<(usize, String, String)>),
    String,
>)
    ensures
        match res {
            Ok(r) => info_list_reply(json_of(text@)) == Ok::<InfoListView, Seq<char>>(info_view(r)),
            Err(e) => info_list_reply(json_of(text@)) == Err::<InfoListView, Seq<char>>(e@),
        },
{
    info_list_of_json(&parse_json(text))
}

/// The entries that `info.list` records for `chapters` downloaded with the
/// file-name template `ft`: number, title and file name of each.
pub open spec fn index_entries(ft: Seq<char>, chapters: Seq<Chapter>) -> Seq<
    (usize, Seq<char>, Seq<char>),
> {
    Seq::new(
        chapters.len(),
        |k: int|
            (
                chapters[k].index,
                chapters[k].title@,
                file_stem(ft, chapters[k].index, chapters[k].title@),
            ),
    )
}

/// The test for the string value `t`.
pub open spec fn is_text(t: Seq<char>) -> spec_fn(JsonValue) -> bool {
    |v: JsonValue| v.text() == Some(t)
}

/// Whether `v` is the JSON object that `info.list` writes for the entry
/// `e`: the members `idx`, `title` and `file`, each once, in any order.
pub open spec fn is_index_entry(v: JsonValue, e: (usize, Seq<char>, Seq<char>)) -> bool {
    match v {
        JsonValue::Object(m) => {
            &&& m@.len() == 3
            &&& has_member_where(
                m@,
                "idx"@,
                |x: JsonValue| x == JsonValue::Number(JsonNumber::PosInt(e.0 as u64)),
            )
            &&& has_member_where(m@, "title"@, is_text(e.1))
            &&& has_member_where(m@, "file"@, is_text(e.2))
        },
        _ => false,
    }
}

/// Whether `v` is the JSON object that `info_list_text` writes: the members
/// `book_id`, `book_title`, `format` and `chapters` (an array of the
/// entries `es`), each once, in any order.
pub open spec fn is_index(
    v: JsonValue,
    book_id: Seq<char>,
    book_title: Seq<char>,
    format: Seq<char>,
    es: Seq<(usize, Seq<char>, Seq<char>)>,
) -> bool {
    match v {
        JsonValue::Object(m) => {
            &&& m@.len() == 4
            &&& has_member_where(m@, "book_id"@, is_text(book_id))
            &&& has_member_where(m@, "book_title"@, is_text(book_title))
            &&& has_member_where(m@, "format"@, is_text(format))
            &&& has_member_where(
                m@,
                "chapters"@,
                |x: JsonValue|
                    x.elements() matches Some(items) && items.len() == es.len() && forall|k: int|
                        0 <= k < items.len() ==> is_index_entry(#[trigger] items[k], es[k]),
            )
        },
        _ => false,
    }
}

/// Reading back the JSON object of an `info.list` gives what was written:
/// the book id (when not empty), title and format, and each chapter's
/// number, title and file name, in order.
pub proof fn written_index_reads_back(
    root: JsonValue,
    book_id: Seq<char>,
    book_title: Seq<char>,
    format: Seq<char>,
    ft: Seq<char>,
    chapters: Seq<Chapter>,
)
    requires
        book_id.len() > 0,
        is_index(root, book_id, book_title, format, index_entries(ft, chapters)),
    ensures
        info_list_reply(Ok(root)) == Ok::<InfoListView, Seq<char>>(
            InfoListView {
                book_id,
                book_title,
                format,
                chapters: index_entries(ft, chapters),
            },
        ),
{
    let es = index_entries(ft, chapters);
    let m = root->Object_0;
    lemma_member_where(m@, "book_id"@, is_text(book_id));
    lemma_member_where(m@, "book_title"@, is_text(book_title));
    lemma_member_where(m@, "format"@, is_text(format));
    let pc = |x: JsonValue|
        x.elements() matches Some(items) && items.len() == es.len() && forall|k: int|
            0 <= k < items.len() ==> is_index_entry(#[trigger] items[k], es[k]);
    lemma_member_where(m@, "chapters"@, pc);
    let items = array_at(root, "chapters"@);
    assert(items.len() == es.len());
    assert forall|k: int| 0 <= k < items.len() implies #[trigger] info_chapter(items[k]) == es[k] by {
        let e = es[k];
        assert(is_index_entry(items[k], e));
        let im = items[k]->Object_0;
        lemma_member_where(
            im@,
            "idx"@,
            |x: JsonValue| x == JsonValue::Number(JsonNumber::PosInt(e.0 as u64)),
        );
        lemma_member_where(im@, "title"@, is_text(e.1));
        lemma_member_where(im@, "file"@, is_text(e.2));
    }
    assert(info_chapters(items) =~= es);
}

} // verus!

//! The files of an EPUB book: the package document, the table of contents
//! and one page per chapter, first as placeholders and then with the
//! chapter's text; and the modification time they record.
use vstd::prelude::*;
use crate::text::{
    chars_of, decimal, lines, pad_zeros, push_all, push_padded, push_str, split_lines, string_of,
    trim, trim_chars,
};
use crate::api::{
    ascii_lower, entity_char, html_text, is_ascii_ws, scan, scan_start, scan_step, tag_output,
    HtmlScan,
};
use crate::types::{heading, Chapter};

verus! {

// ---------------------------------------------------------------------------
// Escaping and page bodies
// ---------------------------------------------------------------------------

/// How the character `c` is written in XML text.
pub open spec fn xml_char(c: char) -> Seq<char> {
    if c == '&' {
        "&amp;"@
    } else if c == '<' {
        "&lt;"@
    } else if c == '>' {
        "&gt;"@
    } else if c == '"' {
        "&quot;"@
    } else if c == '\'' {
        "&apos;"@
    } else {
        seq![c]
    }
}

/// `s` escaped for XML: `& < > " '` become entities, one character at a
/// time.
pub open spec fn xml_escaped(s: Seq<char>) -> Seq<char>
    decreases s.len(),
{
    if s.len() == 0 {
        seq![]
    } else {
        xml_escaped(s.drop_last()) + xml_char(s.last())
    }
}

/// Appends `v` escaped for XML.
fn push_xml_escaped(out: &mut Vec<char>, v: &Vec<char>)
    ensures
        final(out)@ == old(out)@ + xml_escaped(v@),
{
    let ghost start = out@;
    let n = v.len();
    let mut i: usize = 0;
    proof {
        assert(v@.take(0) =~= Seq::<char>::empty());
        assert(start + xml_escaped(v@.take(0)) =~= start);
    }
    while i < n
        invariant
            n == v.len(),
            i <= n,
            out@ == start + xml_escaped(v@.take(i as int)),
        decreases n - i,
    {
        let c = v[i];
        let ghost before = out@;
        if c == '&' {
            push_str(out, "&amp;");
        } else if c == '<' {
            push_str(out, "&lt;");
        } else if c == '>' {
            push_str(out, "&gt;");
        } else if c == '"' {
            push_str(out, "&quot;");
        } else if c == '\'' {
            push_str(out, "&apos;");
        } else {
            out.push(c);
            proof {
                assert(out@ =~= before + seq![c]);
            }
        }
        proof {
            assert(v@.take(i + 1).drop_last() =~= v@.take(i as int));
            assert(v@.take(i + 1).last() == c);
            assert(out@ =~= start + xml_escaped(v@.take(i + 1)));
        }
        i += 1;
    }
    proof {
        assert(v@.take(n as int) =~= v@);
    }
}

/// `s` escaped for XML.
pub fn xml_esc(s: &str) -> (res: String)
    ensures
        res@ == xml_escaped(s@),
{
    let mut out: Vec<char> = Vec::new();
    push_xml_escaped(&mut out, &chars_of(s));
    string_of(&out)
}

/// The HTML of one line of a chapter's text: a line break for a blank
/// line, else a paragraph holding the trimmed, escaped line.
pub open spec fn line_html(line: Seq<char>) -> Seq<char> {
    let t = trim(line);
    if t.len() == 0 {
        "<br/>\n"@
    } else {
        "<p>"@ + xml_escaped(t) + "</p>\n"@
    }
}

/// The HTML of the lines `ls`, one after the other.
pub open spec fn lines_html(ls: Seq<Seq<char>>) -> Seq<char>
    decreases ls.len(),
{
    if ls.len() == 0 {
        seq![]
    } else {
        lines_html(ls.drop_last()) + line_html(ls.last())
    }
}

/// The HTML body of the chapter text `s`, line by line.
pub open spec fn text_html(s: Seq<char>) -> Seq<char> {
    lines_html(lines(s))
}

/// The HTML body of the chapter text `s`.
pub fn content_to_html(s: &str) -> (res: String)
    ensures
        res@ == text_html(s@),
{
    let ls = split_lines(&chars_of(s));
    let ghost lv = lines(s@);
    let mut out: Vec<char> = Vec::new();
    let n = ls.len();
    let mut i: usize = 0;
    proof {
        assert(lv.take(0) =~= Seq::<Seq<char>>::empty());
    }
    while i < n
        invariant
            n == ls@.len() == lv.len(),
            forall|k: int| 0 <= k < n ==> #[trigger] ls@[k]@ == lv[k],
            i <= n,
            out@ == lines_html(lv.take(i as int)),
        decreases n - i,
    {
        let t = trim_chars(&ls[i]);
        let ghost before = out@;
        if t.len() == 0 {
            push_str(&mut out, "<br/>\n");
        } else {
            push_str(&mut out, "<p>");
            push_xml_escaped(&mut out, &t);
            push_str(&mut out, "</p>\n");
        }
        proof {
            assert(lv.take(i + 1).drop_last() =~= lv.take(i as int));
            assert(lv.take(i + 1).last() == lv[i as int]);
            assert(out@ =~= before + line_html(lv[i as int]));
        }
        i += 1;
    }
    proof {
        assert(lv.take(n as int) =~= lv);
    }
    string_of(&out)
}

// ---------------------------------------------------------------------------
// The files of the book
// ---------------------------------------------------------------------------

/// A file of the book: its name in the archive, whether it is stored
/// uncompressed, and its text.
pub struct EpubEntry {
    pub name: String,
    pub stored: bool,
    pub data: String,
}

/// A file of the book as mathematical values.
pub struct EntryView {
    pub name: Seq<char>,
    pub stored: bool,
    pub data: Seq<char>,
}

impl View for EpubEntry {
    type V = EntryView;

    open spec fn view(&self) -> EntryView {
        EntryView { name: self.name@, stored: self.stored, data: self.data@ }
    }
}

/// The text of the `mimetype` file.
pub const MIMETYPE: &'static str = "application/epub+zip";

/// The text of `META-INF/container.xml`.
pub const CONTAINER_XML: &'static str = "<?xml version=\"1.0\" encoding=\"UTF-8\"?><container version=\"1.0\" xmlns=\"urn:oasis:names:tc:opendocument:xmlns:container\"><rootfiles><rootfile full-path=\"OEBPS/content.opf\" media-type=\"application/oebps-package+xml\"/></rootfiles></container>";

/// The start of the package document, up to the identifier.
pub const OPF_HEAD: &'static str = "<?xml version=\"1.0\" encoding=\"UTF-8\"?>\n<package xmlns=\"http://www.idpf.org/2007/opf\" version=\"3.0\" unique-identifier=\"bid\">\n<metadata>\n<dc:identifier id=\"bid\">urn:uuid:";

/// What follows the identifier, up to the title.
pub const OPF_TITLE: &'static str = "</dc:identifier>\n<dc:title>";

/// What follows the title, up to the modification time.
pub const OPF_MODIFIED: &'static str = "</dc:title>\n<dc:language>zh-CN</dc:language>\n<meta property=\"dcterms:modified\">";

/// What follows the modification time, up to the chapters' manifest items.
pub const OPF_MANIFEST: &'static str = "</meta>\n</metadata>\n<manifest>\n<item id=\"toc\" href=\"toc.xhtml\" media-type=\"application/xhtml+xml\" properties=\"nav\"/>";

/// What follows the manifest items, up to the chapters' spine items.
pub const OPF_SPINE: &'static str = "\n</manifest>\n<spine>\n<itemref idref=\"toc\"/>";

/// The end of the package document.
pub const OPF_END: &'static str = "\n</spine>\n</package>";

/// The start of a page, up to the title.
pub const PAGE_HEAD: &'static str = "<?xml version=\"1.0\" encoding=\"UTF-8\"?>\n<!DOCTYPE html>\n<html xmlns=\"http://www.w3.org/1999/xhtml\">\n<head><title>";

/// The start of the table of contents, up to the title.
pub const TOC_HEAD: &'static str = "<?xml version=\"1.0\" encoding=\"UTF-8\"?>\n<!DOCTYPE html>\n<html xmlns=\"http://www.w3.org/1999/xhtml\" xmlns:epub=\"http://www.idpf.org/2007/ops\">\n<head><title>";

/// The chapter number padded to four digits.
pub open spec fn num4(index: usize) -> Seq<char> {
    pad_zeros(decimal(index as nat), 4)
}

/// The manifest item of chapter `index`.
pub open spec fn manifest_item(index: usize) -> Seq<char> {
    "\n<item id=\"ch"@ + num4(index) + "\" href=\"ch"@ + num4(index)
        + ".xhtml\" media-type=\"application/xhtml+xml\"/>"@
}

/// The spine item of chapter `index`.
pub open spec fn spine_item(index: usize) -> Seq<char> {
    "\n<itemref idref=\"ch"@ + num4(index) + "\"/>"@
}

/// The table-of-contents entry of chapter `ch`.
pub open spec fn toc_item(ch: Chapter) -> Seq<char> {
    "\n<li><a href=\"ch"@ + num4(ch.index) + ".xhtml\">"@ + xml_escaped(
        heading(ch.index, ch.title@),
    ) + "</a></li>"@
}

/// The manifest items of the chapters, in order.
pub open spec fn manifest_items(chs: Seq<Chapter>) -> Seq<char>
    decreases chs.len(),
{
    if chs.len() == 0 {
        seq![]
    } else {
        manifest_items(chs.drop_last()) + manifest_item(chs.last().index)
    }
}

/// The spine items of the chapters, in order.
pub open spec fn spine_items(chs: Seq<Chapter>) -> Seq<char>
    decreases chs.len(),
{
    if chs.len() == 0 {
        seq![]
    } else {
        spine_items(chs.drop_last()) + spine_item(chs.last().index)
    }
}

/// The table-of-contents entries of the chapters, in order.
pub open spec fn toc_items(chs: Seq<Chapter>) -> Seq<char>
    decreases chs.len(),
{
    if chs.len() == 0 {
        seq![]
    } else {
        toc_items(chs.drop_last()) + toc_item(chs.last())
    }
}

/// The package document of the book titled `title` with identifier `uuid`,
/// modified at `now`, listing the chapters `chs`.
pub open spec fn opf_text(title: Seq<char>, uuid: Seq<char>, now: Seq<char>, chs: Seq<Chapter>) -> Seq<
    char,
> {
    OPF_HEAD@ + uuid + OPF_TITLE@ + xml_escaped(title) + OPF_MODIFIED@ + now + OPF_MANIFEST@
        + manifest_items(chs) + OPF_SPINE@ + spine_items(chs) + OPF_END@
}

/// The table of contents of the book titled `title` with chapters `chs`.
pub open spec fn toc_text(title: Seq<char>, chs: Seq<Chapter>) -> Seq<char> {
    TOC_HEAD@ + xml_escaped(title) + "</title></head>\n<body><nav epub:type=\"toc\"><h1>"@
        + xml_escaped(title) + "</h1><ol>"@ + toc_items(chs) + "\n</ol></nav></body></html>"@
}

/// The name in the archive of the page of chapter `index`.
pub open spec fn page_name(index: usize) -> Seq<char> {
    "OEBPS/ch"@ + num4(index) + ".xhtml"@
}

/// The page of chapter `ch` before its text is known.
pub open spec fn placeholder_page(ch: Chapter) -> Seq<char> {
    let t = xml_escaped(heading(ch.index, ch.title@));
    PAGE_HEAD@ + t + "</title></head>\n<body><h1>"@ + t + "</h1><p>待下载</p></body>\n</html>"@
}

/// The page of chapter `ch` with the text `content`.
pub open spec fn chapter_page(ch: Chapter, content: Seq<char>) -> Seq<char> {
    let t = xml_escaped(heading(ch.index, ch.title@));
    PAGE_HEAD@ + t + "</title></head>\n<body><h1>"@ + t + "</h1>\n"@ + text_html(content)
        + "</body>\n</html>"@
}

/// The files of a new book, in the order they are written: `mimetype`
/// (stored), the container, the package document, the table of contents,
/// then a placeholder page per chapter.
pub open spec fn book_entries(title: Seq<char>, uuid: Seq<char>, now: Seq<char>, chs: Seq<Chapter>) -> Seq<
    EntryView,
> {
    seq![
        EntryView { name: "mimetype"@, stored: true, data: MIMETYPE@ },
        EntryView { name: "META-INF/container.xml"@, stored: false, data: CONTAINER_XML@ },
        EntryView { name: "OEBPS/content.opf"@, stored: false, data: opf_text(title, uuid, now, chs) },
        EntryView { name: "OEBPS/toc.xhtml"@, stored: false, data: toc_text(title, chs) },
    ] + Seq::new(
        chs.len(),
        |k: int|
            EntryView {
                name: page_name(chs[k].index),
                stored: false,
                data: placeholder_page(chs[k]),
            },
    )
}

/// The views of a list of files.
pub open spec fn entry_views(v: Seq<EpubEntry>) -> Seq<EntryView> {
    v.map_values(|e: EpubEntry| e@)
}

fn owned(s: &str) -> (res: String)
    ensures
        res@ == s@,
{
    s.to_owned()
}

/// The escaped heading of chapter `ch`.
fn escaped_heading(ch: &Chapter) -> (res: Vec<char>)
    ensures
        res@ == xml_escaped(heading(ch.index, ch.title@)),
{
    let mut out: Vec<char> = Vec::new();
    push_xml_escaped(&mut out, &ch.heading());
    out
}

/// The name in the archive of the page of chapter `ch`.
pub fn chapter_page_name(ch: &Chapter) -> (res: String)
    ensures
        res@ == page_name(ch.index),
{
    let mut v = chars_of("OEBPS/ch");
    push_padded(&mut v, ch.index as u64, 4);
    push_str(&mut v, ".xhtml");
    string_of(&v)
}

/// The package document.
fn opf(title: &str, uuid: &str, now: &str, chapters: &Vec<Chapter>) -> (res: String)
    ensures
        res@ == opf_text(title@, uuid@, now@, chapters@),
{
    let mut out = chars_of(OPF_HEAD);
    push_str(&mut out, uuid);
    push_str(&mut out, OPF_TITLE);
    push_xml_escaped(&mut out, &chars_of(title));
    push_str(&mut out, OPF_MODIFIED);
    push_str(&mut out, now);
    push_str(&mut out, OPF_MANIFEST);
    let ghost head = out@;
    let n = chapters.len();
    let mut i: usize = 0;
    proof {
        assert(chapters@.take(0) =~= Seq::<Chapter>::empty());
        assert(out@ =~= head + manifest_items(chapters@.take(0)));
    }
    while i < n
        invariant
            n == chapters@.len(),
            i <= n,
            out@ == head + manifest_items(chapters@.take(i as int)),
        decreases n - i,
    {
        let ghost before = out@;
        let idx = chapters[i].index;
        push_str(&mut out, "\n<item id=\"ch");
        push_padded(&mut out, idx as u64, 4);
        push_str(&mut out, "\" href=\"ch");
        push_padded(&mut out, idx as u64, 4);
        push_str(&mut out, ".xhtml\" media-type=\"application/xhtml+xml\"/>");
        proof {
            assert(chapters@.take(i + 1).drop_last() =~= chapters@.take(i as int));
            assert(chapters@.take(i + 1).last() == chapters@[i as int]);
            assert(out@ =~= before + manifest_item(idx));
        }
        i += 1;
    }
    proof {
        assert(chapters@.take(n as int) =~= chapters@);
    }
    push_str(&mut out, OPF_SPINE);
    let ghost mid = out@;
    i = 0;
    proof {
        assert(out@ =~= mid + spine_items(chapters@.take(0)));
    }
    while i < n
        invariant
            n == chapters@.len(),
            i <= n,
            out@ == mid + spine_items(chapters@.take(i as int)),
        decreases n - i,
    {
        let ghost before = out@;
        let idx = chapters[i].index;
        push_str(&mut out, "\n<itemref idref=\"ch");
        push_padded(&mut out, idx as u64, 4);
        push_str(&mut out, "\"/>");
        proof {
            assert(chapters@.take(i + 1).drop_last() =~= chapters@.take(i as int));
            assert(chapters@.take(i + 1).last() == chapters@[i as int]);
            assert(out@ =~= before + spine_item(idx));
        }
        i += 1;
    }
    push_str(&mut out, OPF_END);
    proof {
        assert(chapters@.take(n as int) =~= chapters@);
        assert(out@ =~= opf_text(title@, uuid@, now@, chapters@));
    }
    string_of(&out)
}

/// The table of contents.
fn toc(title: &str, chapters: &Vec<Chapter>) -> (res: String)
    ensures
        res@ == toc_text(title@, chapters@),
{
    let t = chars_of(title);
    let mut out = chars_of(TOC_HEAD);
    push_xml_escaped(&mut out, &t);
    push_str(&mut out, "</title></head>\n<body><nav epub:type=\"toc\"><h1>");
    push_xml_escaped(&mut out, &t);
    push_str(&mut out, "</h1><ol>");
    let ghost head = out@;
    let n = chapters.len();
    let mut i: usize = 0;
    proof {
        assert(chapters@.take(0) =~= Seq::<Chapter>::empty());
        assert(out@ =~= head + toc_items(chapters@.take(0)));
    }
    while i < n
        invariant
            n == chapters@.len(),
            i <= n,
            out@ == head + toc_items(chapters@.take(i as int)),
        decreases n - i,
    {
        let ghost before = out@;
        let ch = &chapters[i];
        push_str(&mut out, "\n<li><a href=\"ch");
        push_padded(&mut out, ch.index as u64, 4);
        push_str(&mut out, ".xhtml\">");
        push_all(&mut out, &escaped_heading(ch));
        push_str(&mut out, "</a></li>");
        proof {
            assert(chapters@.take(i + 1).drop_last() =~= chapters@.take(i as int));
            assert(chapters@.take(i + 1).last() == chapters@[i as int]);
            assert(out@ =~= before + toc_item(*ch));
        }
        i += 1;
    }
    push_str(&mut out, "\n</ol></nav></body></html>");
    proof {
        assert(chapters@.take(n as int) =~= chapters@);
        assert(out@ =~= toc_text(title@, chapters@));
    }
    string_of(&out)
}

/// The page of chapter `ch` before its text is known.
fn placeholder(ch: &Chapter) -> (res: String)
    ensures
        res@ == placeholder_page(*ch),
{
    let t = escaped_heading(ch);
    let mut out = chars_of(PAGE_HEAD);
    push_all(&mut out, &t);
    push_str(&mut out, "</title></head>\n<body><h1>");
    push_all(&mut out, &t);
    push_str(&mut out, "</h1><p>待下载</p></body>\n</html>");
    proof {
        assert(out@ =~= placeholder_page(*ch));
    }
    string_of(&out)
}

/// The files of a new book titled `title` with identifier `uuid`, modified
/// at `now` (see `book_entries`).
pub fn generate(title: &str, chapters: &Vec<Chapter>, uuid: &str, now: &str) -> (res: Vec<
    EpubEntry,
>)
    ensures
        entry_views(res@) == book_entries(title@, uuid@, now@, chapters@),
{
    let mut out: Vec<EpubEntry> = Vec::new();
    out.push(EpubEntry { name: owned("mimetype"), stored: true, data: owned(MIMETYPE) });
    out.push(
        EpubEntry {
            name: owned("META-INF/container.xml"),
            stored: false,
            data: owned(CONTAINER_XML),
        },
    );
    out.push(
        EpubEntry {
            name: owned("OEBPS/content.opf"),
            stored: false,
            data: opf(title, uuid, now, chapters),
        },
    );
    out.push(
        EpubEntry { name: owned("OEBPS/toc.xhtml"), stored: false, data: toc(title, chapters) },
    );
    let ghost all = book_entries(title@, uuid@, now@, chapters@);
    let n = chapters.len();
    let mut i: usize = 0;
    proof {
        assert(entry_views(out@) =~= all.take(4));
    }
    while i < n
        invariant
            n == chapters@.len(),
            all == book_entries(title@, uuid@, now@, chapters@),
            all.len() == 4 + n,
            i <= n,
            entry_views(out@) == all.take(4 + i),
        decreases n - i,
    {
        let ch = &chapters[i];
        let e = EpubEntry { name: chapter_page_name(ch), stored: false, data: placeholder(ch) };
        let ghost before = out@;
        out.push(e);
        proof {
            assert(all[4 + i] == e@);
            assert(entry_views(out@) =~= entry_views(before).push(e@));
            assert(all.take(4 + i + 1) =~= all.take(4 + i).push(all[4 + i]));
        }
        i += 1;
    }
    proof {
        assert(all.take(4 + n) =~= all);
    }
    out
}

/// The page of chapter `ch` filled with the text `content`, under the
/// name that replaces its placeholder.
pub fn update_chapter(ch: &Chapter, content: &str) -> (res: EpubEntry)
    ensures
        res@ == (EntryView {
            name: page_name(ch.index),
            stored: false,
            data: chapter_page(*ch, content@),
        }),
{
    let t = escaped_heading(ch);
    let mut out = chars_of(PAGE_HEAD);
    push_all(&mut out, &t);
    push_str(&mut out, "</title></head>\n<body><h1>");
    push_all(&mut out, &t);
    push_str(&mut out, "</h1>\n");
    push_all(&mut out, &chars_of(content_to_html(content).as_str()));
    push_str(&mut out, "</body>\n</html>");
    proof {
        assert(out@ =~= chapter_page(*ch, content@));
    }
    EpubEntry { name: chapter_page_name(ch), stored: false, data: string_of(&out) }
}

/// The files of a book after the page `page` is written over the file of
/// the same name: every file keeps its name, its place and whether it is
/// stored; only the data of the file named like `page` changes.
pub open spec fn page_replaced(es: Seq<EntryView>, page: EntryView) -> Seq<EntryView> {
    Seq::new(
        es.len(),
        |k: int|
            if es[k].name == page.name {
                EntryView { data: page.data, ..es[k] }
            } else {
                es[k]
            },
    )
}

/// A copy of the file `e`.
fn copy_entry(e: &EpubEntry) -> (res: EpubEntry)
    ensures
        res@ == e@,
{
    EpubEntry { name: e.name.clone(), stored: e.stored, data: e.data.clone() }
}

/// The files `entries` with the data of `page` written over the file of
/// the same name (see `page_replaced`).
pub fn replace_page(entries: &Vec<EpubEntry>, page: &EpubEntry) -> (res: Vec<EpubEntry>)
    ensures
        entry_views(res@) == page_replaced(entry_views(entries@), page@),
{
    let ghost target = page_replaced(entry_views(entries@), page@);
    let mut out: Vec<EpubEntry> = Vec::new();
    let n = entries.len();
    let mut i: usize = 0;
    let name = chars_of(page.name.as_str());
    while i < n
        invariant
            n == entries@.len(),
            i <= n,
            name@ == page.name@,
            target == page_replaced(entry_views(entries@), page@),
            entry_views(out@) == target.take(i as int),
        decreases n - i,
    {
        let e = &entries[i];
        let ghost before = out@;
        if crate::text::chars_eq(&chars_of(e.name.as_str()), &name) {
            out.push(EpubEntry { name: e.name.clone(), stored: e.stored, data: page.data.clone() });
        } else {
            out.push(copy_entry(e));
        }
        proof {
            assert(entry_views(out@) =~= entry_views(before).push(out@[i as int]@));
            assert(target.take(i + 1) =~= target.take(i as int).push(target[i as int]));
        }
        i += 1;
    }
    proof {
        assert(target.take(n as int) =~= target);
    }
    out
}

/// Writing a page over the files of a book keeps their number and order,
/// each file's name and whether it is stored, and the data of every file
/// but the one named like the page, whose data becomes the page's.
pub proof fn page_replacement_keeps_other_files(es: Seq<EntryView>, page: EntryView)
    ensures
        page_replaced(es, page).len() == es.len(),
        forall|k: int|
            0 <= k < es.len() ==> {
                let r = #[trigger] page_replaced(es, page)[k];
                &&& r.name == es[k].name
                &&& r.stored == es[k].stored
                &&& r.data == (if es[k].name == page.name {
                    page.data
                } else {
                    es[k].data
                })
            },
{
}

/// Whether a file of the archive is stored uncompressed: only `mimetype`.
pub fn entry_is_stored(name: &str) -> (res: bool)
    ensures
        res == (name@ == "mimetype"@),
{
    crate::text::chars_eq_str(&chars_of(name), "mimetype")
}

// ---------------------------------------------------------------------------
// Dates and identifiers
// ---------------------------------------------------------------------------

/// Whether `y` is a leap year of the Gregorian calendar.
pub open spec fn is_leap(y: int) -> bool {
    (y % 4 == 0 && y % 100 != 0) || y % 400 == 0
}

/// The number of days of year `y`.
pub open spec fn year_len(y: int) -> nat {
    if is_leap(y) {
        366
    } else {
        365
    }
}

/// The number of days from 1970-01-01 to the first day of year `y`.
pub open spec fn days_before_year(y: int) -> nat
    decreases y - 1970,
{
    if y <= 1970 {
        0
    } else {
        days_before_year(y - 1) + year_len(y - 1)
    }
}

/// The number of days of month `m` (1 to 12) of year `y`.
pub open spec fn month_len(y: int, m: int) -> nat {
    if m == 2 {
        if is_leap(y) {
            29
        } else {
            28
        }
    } else if m == 4 || m == 6 || m == 9 || m == 11 {
        30
    } else {
        31
    }
}

/// The number of days of year `y` before the first day of month `m`.
pub open spec fn days_before_month(y: int, m: int) -> nat
    decreases m,
{
    if m <= 1 {
        0
    } else {
        days_before_month(y, m - 1) + month_len(y, m - 1)
    }
}

/// Whether day `d` of month `m` of year `y` is the day that lies `n` days
/// after 1970-01-01.
pub open spec fn is_date_of(n: nat, y: int, m: int, d: int) -> bool {
    &&& y >= 1970
    &&& 1 <= m <= 12
    &&& 1 <= d <= month_len(y, m)
    &&& days_before_year(y) + days_before_month(y, m) + d - 1 == n
}

/// Whether `y` is a leap year.
pub fn lp(y: u64) -> (res: bool)
    ensures
        res == is_leap(y as int),
{
    (y % 4 == 0 && y % 100 != 0) || y % 400 == 0
}

/// The twelve months make up the year.
proof fn lemma_months_fill_year(y: int)
    ensures
        days_before_month(y, 13) == year_len(y),
        forall|m: int| 1 <= m <= 12 ==> #[trigger] days_before_month(y, m) + month_len(y, m)
            <= year_len(y),
{
    reveal_with_fuel(days_before_month, 13);
    assert forall|m: int| 1 <= m <= 12 implies #[trigger] days_before_month(y, m) + month_len(
        y,
        m,
    ) <= year_len(y) by {
        reveal_with_fuel(days_before_month, 13);
    }
}

/// Each year adds at least one day.
proof fn lemma_days_before_year_grows(y: int)
    requires
        y >= 1970,
    ensures
        days_before_year(y) >= 365 * (y - 1970),
    decreases y - 1970,
{
    if y > 1970 {
        lemma_days_before_year_grows(y - 1);
    }
}

/// Later years start later.
proof fn lemma_days_before_year_monotone(a: int, b: int)
    requires
        1970 <= a < b,
    ensures
        days_before_year(a) + year_len(a) <= days_before_year(b),
    decreases b - a,
{
    if b > a + 1 {
        lemma_days_before_year_monotone(a, b - 1);
    }
}

/// Later months start later.
proof fn lemma_days_before_month_monotone(y: int, a: int, b: int)
    requires
        1 <= a < b,
    ensures
        days_before_month(y, a) + month_len(y, a) <= days_before_month(y, b),
    decreases b - a,
{
    if b > a + 1 {
        lemma_days_before_month_monotone(y, a, b - 1);
    }
}

/// A day count names exactly one calendar date.
pub proof fn date_is_unique(n: nat, y1: int, m1: int, d1: int, y2: int, m2: int, d2: int)
    requires
        is_date_of(n, y1, m1, d1),
        is_date_of(n, y2, m2, d2),
    ensures
        y1 == y2 && m1 == m2 && d1 == d2,
{
    lemma_months_fill_year(y1);
    lemma_months_fill_year(y2);
    assert(days_before_month(y1, m1) + month_len(y1, m1) <= year_len(y1));
    assert(days_before_month(y2, m2) + month_len(y2, m2) <= year_len(y2));
    if y1 < y2 {
        lemma_days_before_year_monotone(y1, y2);
    } else if y2 < y1 {
        lemma_days_before_year_monotone(y2, y1);
    } else {
        if m1 < m2 {
            lemma_days_before_month_monotone(y1, m1, m2);
        } else if m2 < m1 {
            lemma_days_before_month_monotone(y1, m2, m1);
        }
    }
}

/// The calendar date (year, month, day) `days` days after 1970-01-01.
pub fn civil_from_days(days: u64) -> (res: (u64, u64, u64))
    ensures
        is_date_of(days as nat, res.0 as int, res.1 as int, res.2 as int),
{
    let mut y: u64 = 1970;
    let mut d: u64 = days;
    loop
        invariant
            y >= 1970,
            days_before_year(y as int) + d == days,
        ensures
            y >= 1970,
            days_before_year(y as int) + d == days,
            d < year_len(y as int),
        decreases d,
    {
        let dy: u64 = if lp(y) {
            366
        } else {
            365
        };
        if d < dy {
            break ;
        }
        proof {
            lemma_days_before_year_grows(y as int);
        }
        d = d - dy;
        y = y + 1;
    }
    proof {
        lemma_months_fill_year(y as int);
    }
    let mut m: u64 = 1;
    loop
        invariant
            y >= 1970,
            1 <= m <= 12,
            days_before_month(y as int, m as int) + d < year_len(y as int),
            days_before_year(y as int) + days_before_month(y as int, m as int) + d == days,
            days_before_month(y as int, 13) == year_len(y as int),
            forall|k: int| 1 <= k <= 12 ==> #[trigger] days_before_month(y as int, k)
                + month_len(y as int, k) <= year_len(y as int),
        ensures
            y >= 1970,
            1 <= m <= 12,
            d < month_len(y as int, m as int),
            days_before_year(y as int) + days_before_month(y as int, m as int) + d == days,
        decreases d,
    {
        let leap = lp(y);
        let ml: u64 = if m == 2 {
            if leap {
                29
            } else {
                28
            }
        } else if m == 4 || m == 6 || m == 9 || m == 11 {
            30
        } else {
            31
        };
        if d < ml {
            break ;
        }
        proof {
            assert(ml == month_len(y as int, m as int));
            assert(days_before_month(y as int, m as int + 1) == days_before_month(y as int, m as int)
                + month_len(y as int, m as int));
        }
        d = d - ml;
        m = m + 1;
    }
    (y, m, d + 1)
}

/// Two digits, zero-padded.
pub open spec fn num2(n: nat) -> Seq<char> {
    pad_zeros(decimal(n), 2)
}

/// A moment written as `YYYY-MM-DDTHH:MM:SSZ`.
pub open spec fn iso_text(y: nat, m: nat, d: nat, h: nat, mi: nat, s: nat) -> Seq<char> {
    pad_zeros(decimal(y), 4) + seq!['-'] + num2(m) + seq!['-'] + num2(d) + seq!['T'] + num2(h)
        + seq![':'] + num2(mi) + seq![':'] + num2(s) + seq!['Z']
}

/// The moment `secs` seconds after 1970-01-01T00:00:00Z, written in ISO
/// form (UTC).
pub fn now_iso(secs: u64) -> (res: String)
    ensures
        exists|y: nat, m: nat, d: nat|
            #[trigger] is_date_of(secs as nat / 86400, y as int, m as int, d as int) && res@ == iso_text(
                y,
                m,
                d,
                (secs as nat % 86400) / 3600,
                (secs as nat % 3600) / 60,
                secs as nat % 60,
            ),
{
    let days = secs / 86400;
    let ts = secs % 86400;
    let h = ts / 3600;
    let mi = (ts % 3600) / 60;
    let sec = ts % 60;
    let (y, m, d) = civil_from_days(days);
    let mut out: Vec<char> = Vec::new();
    push_padded(&mut out, y, 4);
    out.push('-');
    push_padded(&mut out, m, 2);
    out.push('-');
    push_padded(&mut out, d, 2);
    out.push('T');
    push_padded(&mut out, h, 2);
    out.push(':');
    push_padded(&mut out, mi, 2);
    out.push(':');
    push_padded(&mut out, sec, 2);
    out.push('Z');
    proof {
        assert((secs as nat % 86400) % 3600 == secs as nat % 3600) by (nonlinear_arith);
        assert((secs as nat % 86400) % 60 == secs as nat % 60) by (nonlinear_arith);
        assert(is_date_of(secs as nat / 86400, y as nat as int, m as nat as int, d as nat as int));
        assert(out@ =~= iso_text(
            y as nat,
            m as nat,
            d as nat,
            (secs as nat % 86400) / 3600,
            (secs as nat % 3600) / 60,
            secs as nat % 60,
        ));
    }
    string_of(&out)
}

/// The lower-case hexadecimal digit whose value is `d`.
pub open spec fn hex_lower(d: nat) -> char {
    if d < 10 {
        crate::text::digit_char(d)
    } else {
        ((0x61 + d - 10) as u32) as char
    }
}

/// `n` in lower-case hexadecimal, without leading zeros (`{:x}`).
pub open spec fn hex_digits(n: nat) -> Seq<char>
    decreases n,
{
    if n < 16 {
        seq![hex_lower(n)]
    } else {
        hex_digits(n / 16).push(hex_lower(n % 16))
    }
}

fn hex_lower_char(d: u32) -> (c: char)
    requires
        d < 16,
    ensures
        c == hex_lower(d as nat),
{
    if d < 10 {
        crate::text::char_from_digit(d)
    } else if d == 10 {
        'a'
    } else if d == 11 {
        'b'
    } else if d == 12 {
        'c'
    } else if d == 13 {
        'd'
    } else if d == 14 {
        'e'
    } else {
        'f'
    }
}

fn push_hex(out: &mut Vec<char>, n: u128)
    ensures
        final(out)@ == old(out)@ + hex_digits(n as nat),
    decreases n,
{
    if n >= 16 {
        push_hex(out, n / 16);
    }
    let c = hex_lower_char((n % 16) as u32);
    out.push(c);
    proof {
        if n >= 16 {
            assert(old(out)@ + hex_digits(n as nat) =~= old(out)@ + hex_digits((n / 16) as nat)
                + seq![c]);
        } else {
            assert(old(out)@ + hex_digits(n as nat) =~= old(out)@ + seq![c]);
        }
    }
}

/// The book identifier made from a count of nanoseconds: the count in
/// lower-case hexadecimal.
pub fn uuid_from_nanos(nanos: u128) -> (res: String)
    ensures
        res@ == hex_digits(nanos as nat),
{
    let mut out: Vec<char> = Vec::new();
    push_hex(&mut out, nanos);
    proof {
        assert(out@ =~= hex_digits(nanos as nat));
    }
    string_of(&out)
}

/// Whether `c` must not appear in XML text as it is.
pub open spec fn is_xml_special(c: char) -> bool {
    c == '<' || c == '>' || c == '"' || c == '\''
}

/// Escaped text holds none of `< > " '`.
pub proof fn xml_escaped_is_safe(s: Seq<char>)
    ensures
        forall|i: int| 0 <= i < xml_escaped(s).len() ==> !is_xml_special(#[trigger] xml_escaped(s)[i]),
    decreases s.len(),
{
    if s.len() > 0 {
        xml_escaped_is_safe(s.drop_last());
        let p = xml_escaped(s.drop_last());
        let q = xml_char(s.last());
        reveal_strlit("&amp;");
        reveal_strlit("&lt;");
        reveal_strlit("&gt;");
        reveal_strlit("&quot;");
        reveal_strlit("&apos;");
        assert forall|j: int| 0 <= j < q.len() implies !is_xml_special(#[trigger] q[j]) by {}
        assert forall|i: int| 0 <= i < xml_escaped(s).len() implies !is_xml_special(
            #[trigger] xml_escaped(s)[i],
        ) by {
            if i < p.len() {
                assert(xml_escaped(s)[i] == p[i]);
            } else {
                assert(xml_escaped(s)[i] == q[i - p.len()]);
            }
        }
    }
}

/// The page that `update_chapter` writes for a chapter of the book
/// replaces that chapter's placeholder: a new book holds a compressed
/// file of the same name at the chapter's place.
pub proof fn filled_page_replaces_placeholder(
    title: Seq<char>,
    uuid: Seq<char>,
    now: Seq<char>,
    chs: Seq<Chapter>,
    k: int,
)
    requires
        0 <= k < chs.len(),
    ensures
        book_entries(title, uuid, now, chs)[4 + k].name == page_name(chs[k].index),
        !book_entries(title, uuid, now, chs)[4 + k].stored,
        book_entries(title, uuid, now, chs)[4 + k].data == placeholder_page(chs[k]),
{
}

/// The scan of HTML text outside any tag or entity, having produced `o`.
pub open spec fn scan_at_text(o: Seq<char>) -> HtmlScan {
    HtmlScan { out: o, ..scan_start() }
}

/// One more character continues the scan by one step.
proof fn lemma_scan_push(a: Seq<char>, c: char)
    ensures
        scan(a.push(c)) == scan_step(scan(a), c),
{
    assert(a.push(c).drop_last() =~= a);
}

/// Inside an entity, characters other than `;` extend its name.
proof fn lemma_scan_entity_name(p: Seq<char>, e: Seq<char>, o: Seq<char>, b: Seq<char>)
    requires
        scan(p) == (HtmlScan { in_entity: true, entity: e, ..scan_at_text(o) }),
        forall|i: int| 0 <= i < b.len() ==> #[trigger] b[i] != ';',
    ensures
        scan(p + b) == (HtmlScan { in_entity: true, entity: e + b, ..scan_at_text(o) }),
    decreases b.len(),
{
    if b.len() == 0 {
        assert(p + b =~= p);
        assert(e + b =~= e);
    } else {
        let init = b.drop_last();
        assert forall|i: int| 0 <= i < init.len() implies #[trigger] init[i] != ';' by {
            assert(init[i] == b[i]);
        }
        lemma_scan_entity_name(p, e, o, init);
        assert(b[b.len() - 1] != ';');
        assert((p + init).push(b.last()) =~= p + b);
        lemma_scan_push(p + init, b.last());
        assert((e + init).push(b.last()) =~= e + b);
    }
}

/// An entity `&name;` that stands for `x` produces `x`.
proof fn lemma_scan_entity(a: Seq<char>, o: Seq<char>, name: Seq<char>, x: char)
    requires
        scan(a) == scan_at_text(o),
        forall|i: int| 0 <= i < name.len() ==> #[trigger] name[i] != ';',
        entity_char(name) == Some(x),
    ensures
        scan(a + (seq!['&'] + name + seq![';'])) == scan_at_text(o.push(x)),
{
    lemma_scan_push(a, '&');
    lemma_scan_entity_name(a.push('&'), seq![], o, name);
    assert(Seq::<char>::empty() + name =~= name);
    lemma_scan_push(a.push('&') + name, ';');
    assert((a.push('&') + name).push(';') =~= a + (seq!['&'] + name + seq![';']));
}

/// One escaped character, other than `'`, scans back to itself.
proof fn lemma_scan_xml_char(a: Seq<char>, o: Seq<char>, c: char)
    requires
        scan(a) == scan_at_text(o),
        c != '\'',
    ensures
        scan(a + xml_char(c)) == scan_at_text(o.push(c)),
{
    reveal_strlit("&amp;");
    reveal_strlit("&lt;");
    reveal_strlit("&gt;");
    reveal_strlit("&quot;");
    if c == '&' {
        assert(xml_char(c) =~= seq!['&'] + seq!['a', 'm', 'p'] + seq![';']);
        lemma_scan_entity(a, o, seq!['a', 'm', 'p'], '&');
    } else if c == '<' {
        assert(xml_char(c) =~= seq!['&'] + seq!['l', 't'] + seq![';']);
        lemma_scan_entity(a, o, seq!['l', 't'], '<');
    } else if c == '>' {
        assert(xml_char(c) =~= seq!['&'] + seq!['g', 't'] + seq![';']);
        lemma_scan_entity(a, o, seq!['g', 't'], '>');
    } else if c == '"' {
        assert(xml_char(c) =~= seq!['&'] + seq!['q', 'u', 'o', 't'] + seq![';']);
        lemma_scan_entity(a, o, seq!['q', 'u', 'o', 't'], '"');
    } else {
        assert(a + xml_char(c) =~= a.push(c));
        lemma_scan_push(a, c);
    }
}

/// The scan of escaped text without `'` has produced that text.
proof fn lemma_scan_xml_escaped(s: Seq<char>)
    requires
        forall|i: int| 0 <= i < s.len() ==> #[trigger] s[i] != '\'',
    ensures
        scan(xml_escaped(s)) == scan_at_text(s),
    decreases s.len(),
{
    if s.len() == 0 {
        assert(s =~= Seq::<char>::empty());
        assert(scan_at_text(s) == scan_start());
    } else {
        let init = s.drop_last();
        assert forall|i: int| 0 <= i < init.len() implies #[trigger] init[i] != '\'' by {
            assert(init[i] == s[i]);
        }
        lemma_scan_xml_escaped(init);
        assert(s[s.len() - 1] != '\'');
        lemma_scan_xml_char(xml_escaped(init), init, s.last());
        assert(init.push(s.last()) =~= s);
    }
}

/// The plain text of escaped text is the text again, when it holds no
/// `'`: `strip_html` undoes `xml_esc` (`&apos;` is the one entity that
/// `strip_html` does not decode).
pub proof fn strip_html_undoes_xml_escape(s: Seq<char>)
    requires
        forall|i: int| 0 <= i < s.len() ==> #[trigger] s[i] != '\'',
    ensures
        html_text(xml_escaped(s)) == s,
{
    lemma_scan_xml_escaped(s);
}

/// Inside a tag, characters of a plain lower-case name extend the name.
proof fn lemma_scan_tag_name(p: Seq<char>, t: Seq<char>, closing: bool, o: Seq<char>, b: Seq<char>)
    requires
        scan(p) == (HtmlScan { in_tag: true, tag_name: t, closing, ..scan_at_text(o) }),
        forall|i: int|
            0 <= i < b.len() ==> #[trigger] b[i] != '>' && b[i] != '/' && !is_ascii_ws(b[i]) && !(
            'A' <= b[i] && b[i] <= 'Z'),
    ensures
        scan(p + b) == (HtmlScan { in_tag: true, tag_name: t + b, closing, ..scan_at_text(o) }),
    decreases b.len(),
{
    if b.len() == 0 {
        assert(p + b =~= p);
        assert(t + b =~= t);
    } else {
        let init = b.drop_last();
        assert forall|i: int| 0 <= i < init.len() implies #[trigger] init[i] != '>' && init[i] != '/'
            && !is_ascii_ws(init[i]) && !('A' <= init[i] && init[i] <= 'Z') by {
            assert(init[i] == b[i]);
        }
        lemma_scan_tag_name(p, t, closing, o, init);
        let c = b.last();
        assert(b[b.len() - 1] == c);
        assert((p + init).push(c) =~= p + b);
        lemma_scan_push(p + init, c);
        assert(ascii_lower(c) == c);
        assert((t + init).push(c) =~= t + b);
    }
}

/// A tag `<name>`, or `</name>` when `closing`, produces what its end
/// produces and leaves the scan outside any tag.
proof fn lemma_scan_tag(a: Seq<char>, o: Seq<char>, name: Seq<char>, closing: bool)
    requires
        scan(a) == scan_at_text(o),
        forall|i: int|
            0 <= i < name.len() ==> #[trigger] name[i] != '>' && name[i] != '/' && !is_ascii_ws(
                name[i],
            ) && !('A' <= name[i] && name[i] <= 'Z'),
    ensures
        scan(
            a + (seq!['<'] + (if closing {
                seq!['/']
            } else {
                seq![]
            }) + name + seq!['>']),
        ) == scan_at_text(o + tag_output(name, closing)),
{
    lemma_scan_push(a, '<');
    let p = if closing {
        a.push('<').push('/')
    } else {
        a.push('<')
    };
    if closing {
        lemma_scan_push(a.push('<'), '/');
    }
    assert(scan(p) == (HtmlScan { in_tag: true, tag_name: seq![], closing, ..scan_at_text(o) }));
    lemma_scan_tag_name(p, seq![], closing, o, name);
    assert(Seq::<char>::empty() + name =~= name);
    lemma_scan_push(p + name, '>');
    assert((p + name).push('>') =~= a + (seq!['<'] + (if closing {
        seq!['/']
    } else {
        seq![]
    }) + name + seq!['>']));
}

/// The end of a paragraph, division or heading (`</p>`, `</div>`,
/// `</h1>`, `</h2>`, `</h3>`) becomes a blank line, `<br>` a line break,
/// and the opening tags add nothing, after text that ends outside any tag
/// or entity.
pub proof fn block_tags_break_lines(a: Seq<char>)
    requires
        scan(a) == scan_at_text(html_text(a)),
    ensures
        html_text(a + "</p>"@) == html_text(a) + "\n\n"@,
        html_text(a + "</div>"@) == html_text(a) + "\n\n"@,
        html_text(a + "</h1>"@) == html_text(a) + "\n\n"@,
        html_text(a + "</h2>"@) == html_text(a) + "\n\n"@,
        html_text(a + "</h3>"@) == html_text(a) + "\n\n"@,
        html_text(a + "<br>"@) == html_text(a) + "\n"@,
        html_text(a + "<p>"@) == html_text(a),
        html_text(a + "<h1>"@) == html_text(a),
{
    let o = html_text(a);
    reveal_strlit("</p>");
    reveal_strlit("</div>");
    reveal_strlit("</h1>");
    reveal_strlit("</h2>");
    reveal_strlit("</h3>");
    reveal_strlit("<br>");
    reveal_strlit("<p>");
    reveal_strlit("<h1>");
    reveal_strlit("\n\n");
    reveal_strlit("\n");
    lemma_scan_tag(a, o, seq!['p'], true);
    lemma_scan_tag(a, o, seq!['d', 'i', 'v'], true);
    lemma_scan_tag(a, o, seq!['h', '1'], true);
    lemma_scan_tag(a, o, seq!['h', '2'], true);
    lemma_scan_tag(a, o, seq!['h', '3'], true);
    lemma_scan_tag(a, o, seq!['b', 'r'], false);
    lemma_scan_tag(a, o, seq!['p'], false);
    lemma_scan_tag(a, o, seq!['h', '1'], false);
    assert("</p>"@ =~= seq!['<'] + seq!['/'] + seq!['p'] + seq!['>']);
    assert("</div>"@ =~= seq!['<'] + seq!['/'] + seq!['d', 'i', 'v'] + seq!['>']);
    assert("</h1>"@ =~= seq!['<'] + seq!['/'] + seq!['h', '1'] + seq!['>']);
    assert("</h2>"@ =~= seq!['<'] + seq!['/'] + seq!['h', '2'] + seq!['>']);
    assert("</h3>"@ =~= seq!['<'] + seq!['/'] + seq!['h', '3'] + seq!['>']);
    assert("<br>"@ =~= seq!['<'] + Seq::<char>::empty() + seq!['b', 'r'] + seq!['>']);
    assert("<p>"@ =~= seq!['<'] + Seq::<char>::empty() + seq!['p'] + seq!['>']);
    assert("<h1>"@ =~= seq!['<'] + Seq::<char>::empty() + seq!['h', '1'] + seq!['>']);
    assert(tag_output(seq!['p'], true) =~= "\n\n"@);
    assert(tag_output(seq!['d', 'i', 'v'], true) =~= "\n\n"@);
    assert(tag_output(seq!['h', '1'], true) =~= "\n\n"@);
    assert(tag_output(seq!['h', '2'], true) =~= "\n\n"@);
    assert(tag_output(seq!['h', '3'], true) =~= "\n\n"@);
    assert(tag_output(seq!['b', 'r'], false) =~= "\n"@);
    assert(tag_output(seq!['p'], false) =~= Seq::<char>::empty());
    assert(tag_output(seq!['h', '1'], false) =~= Seq::<char>::empty());
    assert(o + Seq::<char>::empty() =~= o);
}

/// Whether `part` occurs in `s`.
pub open spec fn occurs(s: Seq<char>, part: Seq<char>) -> bool {
    exists|i: int| 0 <= i && i + part.len() <= s.len() && #[trigger] s.subrange(i, i + part.len()) == part
}

/// The manifest items of two runs of chapters follow each other.
proof fn lemma_manifest_items_concat(a: Seq<Chapter>, b: Seq<Chapter>)
    ensures
        manifest_items(a + b) == manifest_items(a) + manifest_items(b),
    decreases b.len(),
{
    if b.len() == 0 {
        assert(a + b =~= a);
        assert(manifest_items(a) + manifest_items(b) =~= manifest_items(a));
    } else {
        lemma_manifest_items_concat(a, b.drop_last());
        assert((a + b).drop_last() =~= a + b.drop_last());
        assert((a + b).last() == b.last());
        assert(manifest_items(a + b) =~= manifest_items(a) + manifest_items(b));
    }
}

/// The spine items of two runs of chapters follow each other.
proof fn lemma_spine_items_concat(a: Seq<Chapter>, b: Seq<Chapter>)
    ensures
        spine_items(a + b) == spine_items(a) + spine_items(b),
    decreases b.len(),
{
    if b.len() == 0 {
        assert(a + b =~= a);
        assert(spine_items(a) + spine_items(b) =~= spine_items(a));
    } else {
        lemma_spine_items_concat(a, b.drop_last());
        assert((a + b).drop_last() =~= a + b.drop_last());
        assert((a + b).last() == b.last());
        assert(spine_items(a + b) =~= spine_items(a) + spine_items(b));
    }
}

/// `x` occurs in `p + x + q`.
proof fn lemma_occurs_between(p: Seq<char>, x: Seq<char>, q: Seq<char>)
    ensures
        occurs(p + x + q, x),
{
    let s = p + x + q;
    assert(s.subrange(p.len() as int, (p.len() + x.len()) as int) =~= x);
}

/// Every chapter of a book has its page in the package document's
/// manifest, as an XHTML item named after its number, and its place in
/// the spine.
pub proof fn every_chapter_is_in_manifest_and_spine(
    title: Seq<char>,
    uuid: Seq<char>,
    now: Seq<char>,
    chs: Seq<Chapter>,
    k: int,
)
    requires
        0 <= k < chs.len(),
    ensures
        occurs(
            opf_text(title, uuid, now, chs),
            "\n<item id=\"ch"@ + pad_zeros(decimal(chs[k].index as nat), 4) + "\" href=\"ch"@
                + pad_zeros(decimal(chs[k].index as nat), 4)
                + ".xhtml\" media-type=\"application/xhtml+xml\"/>"@,
        ),
        occurs(
            opf_text(title, uuid, now, chs),
            "\n<itemref idref=\"ch"@ + pad_zeros(decimal(chs[k].index as nat), 4) + "\"/>"@,
        ),
{
    let c = chs[k];
    let a = chs.take(k);
    let rest = chs.skip(k + 1);
    assert(chs =~= a + (seq![c] + rest));
    lemma_manifest_items_concat(a, seq![c] + rest);
    lemma_manifest_items_concat(seq![c], rest);
    lemma_spine_items_concat(a, seq![c] + rest);
    lemma_spine_items_concat(seq![c], rest);
    assert(seq![c].drop_last() =~= Seq::<Chapter>::empty());
    assert(seq![c].last() == c);
    assert(manifest_items(Seq::<Chapter>::empty()) == Seq::<char>::empty());
    assert(spine_items(Seq::<Chapter>::empty()) == Seq::<char>::empty());
    assert(manifest_items(seq![c]) == manifest_items(seq![c].drop_last()) + manifest_item(c.index));
    assert(spine_items(seq![c]) == spine_items(seq![c].drop_last()) + spine_item(c.index));
    assert(manifest_items(seq![c]) =~= manifest_item(c.index));
    assert(spine_items(seq![c]) =~= spine_item(c.index));
    let head = OPF_HEAD@ + uuid + OPF_TITLE@ + xml_escaped(title) + OPF_MODIFIED@ + now
        + OPF_MANIFEST@;
    let m = manifest_item(c.index);
    let sp = spine_item(c.index);
    let opf = opf_text(title, uuid, now, chs);
    assert(opf =~= (head + manifest_items(a)) + m + (manifest_items(rest) + OPF_SPINE@
        + spine_items(chs) + OPF_END@));
    lemma_occurs_between(
        head + manifest_items(a),
        m,
        manifest_items(rest) + OPF_SPINE@ + spine_items(chs) + OPF_END@,
    );
    assert(opf =~= (head + manifest_items(chs) + OPF_SPINE@ + spine_items(a)) + sp + (spine_items(
        rest,
    ) + OPF_END@));
    lemma_occurs_between(
        head + manifest_items(chs) + OPF_SPINE@ + spine_items(a),
        sp,
        spine_items(rest) + OPF_END@,
    );
}

/// After text that ends outside any tag or entity, the entities `&lt;`,
/// `&gt;`, `&amp;`, `&quot;` and `&nbsp;` each add the character they
/// stand for, and an unknown entity such as `&apos;` adds nothing.
pub proof fn entities_decode(a: Seq<char>)
    requires
        scan(a) == scan_at_text(html_text(a)),
    ensures
        html_text(a + "&lt;"@) == html_text(a).push('<'),
        html_text(a + "&gt;"@) == html_text(a).push('>'),
        html_text(a + "&amp;"@) == html_text(a).push('&'),
        html_text(a + "&quot;"@) == html_text(a).push('"'),
        html_text(a + "&nbsp;"@) == html_text(a).push(' '),
        html_text(a + "&apos;"@) == html_text(a),
{
    let o = html_text(a);
    reveal_strlit("&lt;");
    reveal_strlit("&gt;");
    reveal_strlit("&amp;");
    reveal_strlit("&quot;");
    reveal_strlit("&nbsp;");
    reveal_strlit("&apos;");
    assert("&lt;"@ =~= seq!['&'] + seq!['l', 't'] + seq![';']);
    assert("&gt;"@ =~= seq!['&'] + seq!['g', 't'] + seq![';']);
    assert("&amp;"@ =~= seq!['&'] + seq!['a', 'm', 'p'] + seq![';']);
    assert("&quot;"@ =~= seq!['&'] + seq!['q', 'u', 'o', 't'] + seq![';']);
    assert("&nbsp;"@ =~= seq!['&'] + seq!['n', 'b', 's', 'p'] + seq![';']);
    lemma_scan_entity(a, o, seq!['l', 't'], '<');
    lemma_scan_entity(a, o, seq!['g', 't'], '>');
    lemma_scan_entity(a, o, seq!['a', 'm', 'p'], '&');
    lemma_scan_entity(a, o, seq!['q', 'u', 'o', 't'], '"');
    lemma_scan_entity(a, o, seq!['n', 'b', 's', 'p'], ' ');
    let name = seq!['a', 'p', 'o', 's'];
    assert("&apos;"@ =~= seq!['&'] + name + seq![';']);
    lemma_scan_push(a, '&');
    lemma_scan_entity_name(a.push('&'), seq![], o, name);
    assert(Seq::<char>::empty() + name =~= name);
    assert(entity_char(name) is None);
    lemma_scan_push(a.push('&') + name, ';');
    assert((a.push('&') + name).push(';') =~= a + "&apos;"@);
}

} // verus!

//! The content service's client: building request URLs, reading its replies,
//! and turning the HTML of a chapter into plain text.
use vstd::prelude::*;
use vstd::string::StringSliceAdditionalSpecFns;
use crate::config::{join_path, join_path_str};
use crate::json::{json_of, parse_json, JsonValue};
use crate::text::{
    char_from_digit, chars_of, decimal, digit_char, push_all, push_decimal, replace_first,
    replace_first_chars, string_of,
};
use crate::types::{book_views, chapter_views, texts, Book, BookView, Chapter, ChapterView};

verus! {

// ---------------------------------------------------------------------------
// The client and its requests
// ---------------------------------------------------------------------------

/// A client of the search, catalog and content services: the cache
/// settings and the address templates, in which `{}` stands for the
/// values of a request.
pub struct Client {
    pub cache_dir: String,
    pub cache_enabled: bool,
    pub cache_ttl: u64,
    pub search_urls: Vec<String>,
    pub catalog_url: String,
    pub content_urls: Vec<String>,
    pub verbose: bool,
}

/// The next thing to do in a run through a list of service addresses:
/// request the address, or stop with the run's result.
pub enum Attempt<T> {
    Request(String),
    Done(Result<T, String>),
}

/// The placeholder for a value in an address template.
pub open spec fn placeholder() -> Seq<char> {
    seq!['{', '}']
}

fn placeholder_chars() -> (r: Vec<char>)
    ensures
        r@ == placeholder(),
{
    let mut r: Vec<char> = Vec::new();
    r.push('{');
    r.push('}');
    proof {
        assert(r@ =~= placeholder());
    }
    r
}

/// The address template `t` with its first placeholder filled with `v`.
pub open spec fn fill(t: Seq<char>, v: Seq<char>) -> Seq<char> {
    replace_first(t, placeholder(), v)
}

/// The address template `template` with its first placeholder filled
/// with `value`, as it is.
pub fn fill_placeholder(template: &str, value: &str) -> (res: String)
    ensures
        res@ == fill(template@, value@),
{
    string_of(&fill_chars(&chars_of(template), &chars_of(value)))
}

fn fill_chars(t: &Vec<char>, v: &Vec<char>) -> (r: Vec<char>)
    ensures
        r@ == fill(t@, v@),
{
    let p = placeholder_chars();
    replace_first_chars(t, &p, v)
}

/// Whether the byte `b` stands for itself in an address: an ASCII letter
/// or digit, or one of `- _ . ~`.
pub open spec fn is_unreserved(b: u8) -> bool {
    ||| 0x41 <= b <= 0x5A
    ||| 0x61 <= b <= 0x7A
    ||| 0x30 <= b <= 0x39
    ||| b == 0x2D
    ||| b == 0x5F
    ||| b == 0x2E
    ||| b == 0x7E
}

/// The upper-case hexadecimal digit whose value is `d`.
pub open spec fn hex_upper(d: nat) -> char {
    if d < 10 {
        digit_char(d)
    } else {
        ((0x41 + d - 10) as u32) as char
    }
}

/// How the byte `b` is written in an address: itself when unreserved,
/// `%20` for a space, `%` and two upper-case hexadecimal digits otherwise.
pub open spec fn encode_byte(b: u8) -> Seq<char> {
    if is_unreserved(b) {
        seq![b as char]
    } else if b == 0x20 {
        seq!['%', '2', '0']
    } else {
        seq!['%', hex_upper((b / 16) as nat), hex_upper((b % 16) as nat)]
    }
}

/// The bytes `bs` written for an address, byte by byte.
pub open spec fn percent_encoded(bs: Seq<u8>) -> Seq<char>
    decreases bs.len(),
{
    if bs.len() == 0 {
        seq![]
    } else {
        percent_encoded(bs.drop_last()) + encode_byte(bs.last())
    }
}

/// The value of an upper-case hexadecimal digit.
pub open spec fn hex_value(c: char) -> int {
    if '0' <= c && c <= '9' {
        c as int - '0' as int
    } else {
        c as int - 'A' as int + 10
    }
}

/// Encoding a text byte by byte: the encoding of two pieces one after the
/// other is the two encodings one after the other.
pub proof fn encoding_is_bytewise(a: Seq<u8>, b: Seq<u8>)
    ensures
        percent_encoded(a + b) == percent_encoded(a) + percent_encoded(b),
    decreases b.len(),
{
    if b.len() == 0 {
        assert(a + b =~= a);
        assert(percent_encoded(a) + percent_encoded(b) =~= percent_encoded(a));
    } else {
        encoding_is_bytewise(a, b.drop_last());
        assert((a + b).drop_last() =~= a + b.drop_last());
        assert((a + b).last() == b.last());
        assert(percent_encoded(a + b) =~= percent_encoded(a) + percent_encoded(b));
    }
}

/// How one byte is encoded: a letter, digit, `-`, `_`, `.` or `~` stands
/// for itself; a space is `%20`; any other byte is `%` and two upper-case
/// hexadecimal digits whose value is the byte.
pub proof fn byte_encoding(b: u8)
    ensures
        is_unreserved(b) ==> encode_byte(b) == seq![b as char],
        !is_unreserved(b) ==> {
            let e = encode_byte(b);
            &&& e.len() == 3
            &&& e[0] == '%'
            &&& hex_value(e[1]) * 16 + hex_value(e[2]) == b
            &&& ('0' <= e[1] <= '9' || 'A' <= e[1] <= 'F')
            &&& ('0' <= e[2] <= '9' || 'A' <= e[2] <= 'F')
        },
{
    if !is_unreserved(b) && b != 0x20 {
        let hi = (b / 16) as nat;
        let lo = (b % 16) as nat;
        assert(hi < 16 && lo < 16);
        assert(hex_value(hex_upper(hi)) == hi);
        assert(hex_value(hex_upper(lo)) == lo);
        assert(hi * 16 + lo == b);
    }
}

fn hex_upper_char(d: u8) -> (c: char)
    requires
        d < 16,
    ensures
        c == hex_upper(d as nat),
{
    if d < 10 {
        char_from_digit(d as u32)
    } else if d == 10 {
        'A'
    } else if d == 11 {
        'B'
    } else if d == 12 {
        'C'
    } else if d == 13 {
        'D'
    } else if d == 14 {
        'E'
    } else {
        'F'
    }
}

fn byte_char(b: u8) -> (c: char)
    requires
        b < 0x80,
    ensures
        c == b as char,
{
    b as char
}

/// `s` encoded for an address: its UTF-8 bytes, each as `encode_byte`
/// writes it.
pub fn urlencode(s: &str) -> (res: String)
    ensures
        res@ == percent_encoded(s.spec_bytes()),
{
    let bytes = s.as_bytes();
    let mut out: Vec<char> = Vec::new();
    let n = bytes.len();
    let mut i: usize = 0;
    proof {
        assert(bytes@.take(0) =~= Seq::<u8>::empty());
    }
    while i < n
        invariant
            n == bytes@.len(),
            bytes@ == s.spec_bytes(),
            i <= n,
            out@ == percent_encoded(bytes@.take(i as int)),
        decreases n - i,
    {
        let b = bytes[i];
        let ghost before = out@;
        if (0x41 <= b && b <= 0x5A) || (0x61 <= b && b <= 0x7A) || (0x30 <= b && b <= 0x39) || b
            == 0x2D || b == 0x5F || b == 0x2E || b == 0x7E {
            out.push(byte_char(b));
        } else if b == 0x20 {
            out.push('%');
            out.push('2');
            out.push('0');
        } else {
            out.push('%');
            out.push(hex_upper_char(b / 16));
            out.push(hex_upper_char(b % 16));
        }
        proof {
            assert(bytes@.take(i + 1).drop_last() =~= bytes@.take(i as int));
            assert(bytes@.take(i + 1).last() == b);
            assert(out@ =~= before + encode_byte(b));
        }
        i += 1;
    }
    proof {
        assert(bytes@.take(n as int) =~= bytes@);
    }
    string_of(&out)
}

/// The offset of the first result on page `page` (pages counted from 1;
/// page 0 is taken as page 1).
pub open spec fn page_offset(page: usize) -> nat {
    (if page == 0 {
        0
    } else {
        page - 1
    }) as nat * 10
}

/// The search address made from template `t`: the encoded keyword, then
/// the offset of the page.
pub open spec fn search_address(t: Seq<char>, keyword: &str, page: usize) -> Seq<char> {
    fill(fill(t, percent_encoded(keyword.spec_bytes())), decimal(page_offset(page)))
}

impl Client {
    /// A client with the given settings.
    pub fn new(
        cache_dir: String,
        cache_enabled: bool,
        cache_ttl: u64,
        search_urls: Vec<String>,
        catalog_url: String,
        content_urls: Vec<String>,
        verbose: bool,
    ) -> (res: Self)
        ensures
            res == (Client {
                cache_dir,
                cache_enabled,
                cache_ttl,
                search_urls,
                catalog_url,
                content_urls,
                verbose,
            }),
    {
        Client {
            cache_dir,
            cache_enabled,
            cache_ttl,
            search_urls,
            catalog_url,
            content_urls,
            verbose,
        }
    }

    /// The search address for `keyword` and `page` from the `i`-th search
    /// template.
    pub fn search_request_url(&self, i: usize, keyword: &str, page: usize) -> (res: String)
        requires
            i < self.search_urls@.len(),
            page_offset(page) <= usize::MAX,
        ensures
            res@ == search_address(self.search_urls@[i as int]@, keyword, page),
    {
        let offset: usize = if page == 0 {
            0
        } else {
            page - 1
        } * 10;
        let kw = chars_of(urlencode(keyword).as_str());
        let t = chars_of(self.search_urls[i].as_str());
        let first = fill_chars(&t, &kw);
        let mut off: Vec<char> = Vec::new();
        push_decimal(&mut off, offset as u64);
        proof {
            assert(off@ =~= decimal(page_offset(page)));
        }
        string_of(&fill_chars(&first, &off))
    }

    /// The catalog address of the book `book_id`.
    pub fn catalog_request_url(&self, book_id: &str) -> (res: String)
        ensures
            res@ == fill(self.catalog_url@, book_id@),
    {
        let t = chars_of(self.catalog_url.as_str());
        string_of(&fill_chars(&t, &chars_of(book_id)))
    }

    /// The content address of the chapter `item_id` from the `i`-th
    /// content template.
    pub fn content_request_url(&self, i: usize, item_id: &str) -> (res: String)
        requires
            i < self.content_urls@.len(),
        ensures
            res@ == fill(self.content_urls@[i as int]@, item_id@),
    {
        let t = chars_of(self.content_urls[i].as_str());
        string_of(&fill_chars(&t, &chars_of(item_id)))
    }

    /// The cache file of the catalog of `book_id`.
    pub fn catalog_cache_path(&self, book_id: &str) -> (res: String)
        ensures
            res@ == join_path(self.cache_dir@, "cat_"@ + book_id@ + ".json"@),
    {
        let mut name: Vec<char> = chars_of("cat_");
        push_all(&mut name, &chars_of(book_id));
        push_all(&mut name, &chars_of(".json"));
        let name = string_of(&name);
        join_path_str(self.cache_dir.as_str(), name.as_str())
    }

    /// The cache file of the content of `item_id`.
    pub fn content_cache_path(&self, item_id: &str) -> (res: String)
        ensures
            res@ == join_path(self.cache_dir@, "c_"@ + item_id@ + ".json"@),
    {
        let mut name: Vec<char> = chars_of("c_");
        push_all(&mut name, &chars_of(item_id));
        push_all(&mut name, &chars_of(".json"));
        let name = string_of(&name);
        join_path_str(self.cache_dir.as_str(), name.as_str())
    }

    /// Whether a cached catalog written `age` seconds ago is still used.
    pub fn cache_is_fresh(&self, age: u64) -> (res: bool)
        ensures
            res == (age < self.cache_ttl),
    {
        age < self.cache_ttl
    }
}

/// Where the scan of an HTML text stands: the text produced so far, and
/// whether it is inside a tag (with the tag's lower-case name so far and
/// whether it is a closing tag) or inside an entity (with its name so far).
pub struct HtmlScan {
    pub out: Seq<char>,
    pub in_tag: bool,
    pub tag_name: Seq<char>,
    pub closing: bool,
    pub in_entity: bool,
    pub entity: Seq<char>,
}

/// Whitespace in the ASCII sense of `char::is_ascii_whitespace`.
pub open spec fn is_ascii_ws(c: char) -> bool {
    c == ' ' || c == '\t' || c == '\n' || c == '\x0C' || c == '\r'
}

/// `c` with an ASCII capital turned into its small letter.
pub open spec fn ascii_lower(c: char) -> char {
    if 'A' <= c && c <= 'Z' {
        ((c as u32) + 32) as char
    } else {
        c
    }
}

/// The tags whose closing tag ends a paragraph.
pub open spec fn is_block_tag(name: Seq<char>) -> bool {
    ||| name == seq!['p']
    ||| name == seq!['d', 'i', 'v']
    ||| name == seq!['h', '1']
    ||| name == seq!['h', '2']
    ||| name == seq!['h', '3']
}

/// The character that a named entity stands for, among those recognised.
pub open spec fn entity_char(name: Seq<char>) -> Option<char> {
    if name == seq!['l', 't'] {
        Some('<')
    } else if name == seq!['g', 't'] {
        Some('>')
    } else if name == seq!['a', 'm', 'p'] {
        Some('&')
    } else if name == seq!['n', 'b', 's', 'p'] {
        Some(' ')
    } else if name == seq!['q', 'u', 'o', 't'] {
        Some('"')
    } else {
        None
    }
}

/// The text that the end of a tag produces: a blank line after a closing
/// block tag, a line break for `br`, nothing otherwise.
pub open spec fn tag_output(name: Seq<char>, closing: bool) -> Seq<char> {
    (if closing && is_block_tag(name) {
        seq!['\n', '\n']
    } else {
        seq![]
    }) + (if name == seq!['b', 'r'] {
        seq!['\n']
    } else {
        seq![]
    })
}

/// The scan before any character.
pub open spec fn scan_start() -> HtmlScan {
    HtmlScan {
        out: seq![],
        in_tag: false,
        tag_name: seq![],
        closing: false,
        in_entity: false,
        entity: seq![],
    }
}

/// The scan after one more character `c`.
pub open spec fn scan_step(st: HtmlScan, c: char) -> HtmlScan {
    if st.in_tag {
        if c == '>' {
            HtmlScan {
                out: st.out + tag_output(st.tag_name, st.closing),
                in_tag: false,
                tag_name: seq![],
                closing: false,
                ..st
            }
        } else if c == '/' && st.tag_name.len() == 0 {
            HtmlScan { closing: true, ..st }
        } else if !is_ascii_ws(c) {
            HtmlScan { tag_name: st.tag_name.push(ascii_lower(c)), ..st }
        } else {
            st
        }
    } else if st.in_entity {
        if c == ';' {
            HtmlScan {
                out: match entity_char(st.entity) {
                    Some(x) => st.out.push(x),
                    None => st.out,
                },
                in_entity: false,
                entity: seq![],
                ..st
            }
        } else {
            HtmlScan { entity: st.entity.push(c), ..st }
        }
    } else if c == '<' {
        HtmlScan { in_tag: true, tag_name: seq![], closing: false, ..st }
    } else if c == '&' {
        HtmlScan { in_entity: true, entity: seq![], ..st }
    } else {
        HtmlScan { out: st.out.push(c), ..st }
    }
}

/// The scan after all of `s`.
pub open spec fn scan(s: Seq<char>) -> HtmlScan
    decreases s.len(),
{
    if s.len() == 0 {
        scan_start()
    } else {
        scan_step(scan(s.drop_last()), s.last())
    }
}

/// The plain text of the HTML `s`: tags dropped (a closing `p`, `div`,
/// `h1`, `h2` or `h3` becomes a blank line, `br` a line break), the
/// entities `lt`, `gt`, `amp`, `nbsp` and `quot` decoded, other entities
/// dropped, all other characters kept.
pub open spec fn html_text(s: Seq<char>) -> Seq<char> {
    scan(s).out
}

fn is_ascii_whitespace(c: char) -> (res: bool)
    ensures
        res == is_ascii_ws(c),
{
    c == ' ' || c == '\t' || c == '\n' || c == '\x0C' || c == '\r'
}

fn to_ascii_lower(c: char) -> (res: char)
    ensures
        res == ascii_lower(c),
{
    if 'A' <= c && c <= 'Z' {
        let u = (c as u32) + 32;
        // the small letters 'a'..='z' are 0x61..=0x7A
        if u == 0x61 { 'a' } else if u == 0x62 { 'b' } else if u == 0x63 { 'c' } else if u
            == 0x64 { 'd' } else if u == 0x65 { 'e' } else if u == 0x66 { 'f' } else if u
            == 0x67 { 'g' } else if u == 0x68 { 'h' } else if u == 0x69 { 'i' } else if u
            == 0x6A { 'j' } else if u == 0x6B { 'k' } else if u == 0x6C { 'l' } else if u
            == 0x6D { 'm' } else if u == 0x6E { 'n' } else if u == 0x6F { 'o' } else if u
            == 0x70 { 'p' } else if u == 0x71 { 'q' } else if u == 0x72 { 'r' } else if u
            == 0x73 { 's' } else if u == 0x74 { 't' } else if u == 0x75 { 'u' } else if u
            == 0x76 { 'v' } else if u == 0x77 { 'w' } else if u == 0x78 { 'x' } else if u
            == 0x79 { 'y' } else { 'z' }
    } else {
        c
    }
}

fn seq_is(v: &Vec<char>, a: char, b: char, c: char, d: char, len: usize) -> (res: bool)
    requires
        1 <= len <= 4,
    ensures
        res == (v@ == seq![a, b, c, d].take(len as int)),
{
    if v.len() != len {
        return false;
    }
    let r = v[0] == a && (len < 2 || v[1] == b) && (len < 3 || v[2] == c) && (len < 4 || v[3]
        == d);
    proof {
        if r {
            assert(v@ =~= seq![a, b, c, d].take(len as int));
        } else {
            if v@ == seq![a, b, c, d].take(len as int) {
                assert(v@[0] == a);
                if len >= 2 {
                    assert(v@[1] == b);
                }
                if len >= 3 {
                    assert(v@[2] == c);
                }
                if len >= 4 {
                    assert(v@[3] == d);
                }
            }
        }
    }
    r
}

fn emitted_by_tag(name: &Vec<char>, closing: bool, out: &mut Vec<char>)
    ensures
        final(out)@ == old(out)@ + tag_output(name@, closing),
{
    let block = seq_is(name, 'p', ' ', ' ', ' ', 1) || seq_is(name, 'd', 'i', 'v', ' ', 3)
        || seq_is(name, 'h', '1', ' ', ' ', 2) || seq_is(name, 'h', '2', ' ', ' ', 2) || seq_is(
        name,
        'h',
        '3',
        ' ',
        ' ',
        2,
    );
    proof {
        assert(seq!['p', ' ', ' ', ' '].take(1) =~= seq!['p']);
        assert(seq!['d', 'i', 'v', ' '].take(3) =~= seq!['d', 'i', 'v']);
        assert(seq!['h', '1', ' ', ' '].take(2) =~= seq!['h', '1']);
        assert(seq!['h', '2', ' ', ' '].take(2) =~= seq!['h', '2']);
        assert(seq!['h', '3', ' ', ' '].take(2) =~= seq!['h', '3']);
        assert(seq!['b', 'r', ' ', ' '].take(2) =~= seq!['b', 'r']);
    }
    let ghost start = out@;
    if closing && block {
        out.push('\n');
        out.push('\n');
    }
    if seq_is(name, 'b', 'r', ' ', ' ', 2) {
        out.push('\n');
    }
    proof {
        assert(final(out)@ =~= start + tag_output(name@, closing));
    }
}

fn entity_of(name: &Vec<char>) -> (res: Option<char>)
    ensures
        res == entity_char(name@),
{
    proof {
        assert(seq!['l', 't', ' ', ' '].take(2) =~= seq!['l', 't']);
        assert(seq!['g', 't', ' ', ' '].take(2) =~= seq!['g', 't']);
        assert(seq!['a', 'm', 'p', ' '].take(3) =~= seq!['a', 'm', 'p']);
        assert(seq!['n', 'b', 's', 'p'].take(4) =~= seq!['n', 'b', 's', 'p']);
        assert(seq!['q', 'u', 'o', 't'].take(4) =~= seq!['q', 'u', 'o', 't']);
    }
    if seq_is(name, 'l', 't', ' ', ' ', 2) {
        Some('<')
    } else if seq_is(name, 'g', 't', ' ', ' ', 2) {
        Some('>')
    } else if seq_is(name, 'a', 'm', 'p', ' ', 3) {
        Some('&')
    } else if seq_is(name, 'n', 'b', 's', 'p', 4) {
        Some(' ')
    } else if seq_is(name, 'q', 'u', 'o', 't', 4) {
        Some('"')
    } else {
        None
    }
}

/// The plain text of a chapter's HTML.
pub fn strip_html(s: &str) -> (res: String)
    ensures
        res@ == html_text(s@),
{
    let input = chars_of(s);
    let mut out: Vec<char> = Vec::new();
    let mut in_tag = false;
    let mut tag_name: Vec<char> = Vec::new();
    let mut closing = false;
    let mut in_entity = false;
    let mut entity: Vec<char> = Vec::new();
    let n = input.len();
    let mut i: usize = 0;
    proof {
        assert(input@.take(0) =~= Seq::<char>::empty());
    }
    while i < n
        invariant
            n == input.len(),
            input@ == s@,
            i <= n,
            scan(input@.take(i as int)) == (HtmlScan {
                out: out@,
                in_tag,
                tag_name: tag_name@,
                closing,
                in_entity,
                entity: entity@,
            }),
        decreases n - i,
    {
        let c = input[i];
        proof {
            assert(input@.take(i + 1).drop_last() =~= input@.take(i as int));
            assert(input@.take(i + 1).last() == c);
        }
        if in_tag {
            if c == '>' {
                emitted_by_tag(&tag_name, closing, &mut out);
                in_tag = false;
                tag_name = Vec::new();
                closing = false;
            } else if c == '/' && tag_name.len() == 0 {
                closing = true;
            } else if !is_ascii_whitespace(c) {
                tag_name.push(to_ascii_lower(c));
            }
        } else if in_entity {
            if c == ';' {
                match entity_of(&entity) {
                    Some(x) => out.push(x),
                    None => {},
                }
                in_entity = false;
                entity = Vec::new();
            } else {
                entity.push(c);
            }
        } else if c == '<' {
            in_tag = true;
            tag_name = Vec::new();
            closing = false;
        } else if c == '&' {
            in_entity = true;
            entity = Vec::new();
        } else {
            out.push(c);
        }
        proof {
            assert(scan(input@.take(i + 1)) =~= (HtmlScan {
                out: out@,
                in_tag,
                tag_name: tag_name@,
                closing,
                in_entity,
                entity: entity@,
            }));
        }
        i += 1;
    }
    proof {
        assert(input@.take(n as int) =~= s@);
    }
    string_of(&out)
}

// ---------------------------------------------------------------------------
// Runs through a list of addresses
// ---------------------------------------------------------------------------

/// The error that ends a run through the addresses when none succeeded:
/// the last failure, or nothing when no address was tried.
pub open spec fn last_error<T>(outcome: Option<Result<T, String>>) -> Seq<char> {
    match outcome {
        Some(Err(e)) => e@,
        _ => Seq::empty(),
    }
}

pub(crate) fn last_error_of<T>(outcome: Option<Result<T, String>>) -> (res: String)
    requires
        !(outcome matches Some(Ok(_))),
    ensures
        res@ == last_error(outcome),
{
    match outcome {
        Some(Err(e)) => e,
        _ => String::new(),
    }
}

impl Client {
    /// One step of a search for `keyword` on page `page`: given the result
    /// of the previous request (none before the first), either the search
    /// is done, with the first list of books found or else the last
    /// failure, or the next search address (number `next`) is requested.
    pub fn search(
        &self,
        keyword: &str,
        page: usize,
        next: usize,
        outcome: Option<Result<Vec<Book>, String>>,
    ) -> (res: Attempt<Vec<Book>>)
        requires
            page_offset(page) <= usize::MAX,
        ensures
            match outcome {
                Some(Ok(v)) => res == Attempt::Done(Ok::<Vec<Book>, String>(v)),
                _ => if next < self.search_urls@.len() {
                    res matches Attempt::Request(u) && u@ == search_address(
                        self.search_urls@[next as int]@,
                        keyword,
                        page,
                    )
                } else {
                    res matches Attempt::Done(Err(e)) && e@ == last_error(outcome)
                },
            },
    {
        if let Some(Ok(v)) = outcome {
            return Attempt::Done(Ok(v));
        }
        if next < self.search_urls.len() {
            Attempt::Request(self.search_request_url(next, keyword, page))
        } else {
            Attempt::Done(Err(last_error_of(outcome)))
        }
    }

    /// One step of fetching the content of chapter `item_id`: given the
    /// result of the previous request (none before the first), either the
    /// fetch is done, with the first text obtained or else the last
    /// failure, or the next content address (number `next`) is requested.
    pub fn fetch_content(
        &self,
        item_id: &str,
        next: usize,
        outcome: Option<Result<String, String>>,
    ) -> (res: Attempt<String>)
        ensures
            match outcome {
                Some(Ok(t)) => res == Attempt::Done(Ok::<String, String>(t)),
                _ => if next < self.content_urls@.len() {
                    res matches Attempt::Request(u) && u@ == fill(
                        self.content_urls@[next as int]@,
                        item_id@,
                    )
                } else {
                    res matches Attempt::Done(Err(e)) && e@ == last_error(outcome)
                },
            },
    {
        if let Some(Ok(t)) = outcome {
            return Attempt::Done(Ok(t));
        }
        if next < self.content_urls.len() {
            Attempt::Request(self.content_request_url(next, item_id))
        } else {
            Attempt::Done(Err(last_error_of(outcome)))
        }
    }
}

// ---------------------------------------------------------------------------
// Reading the services' replies
// ---------------------------------------------------------------------------

/// `"JSON: "` followed by `detail`.
pub open spec fn json_error(detail: Seq<char>) -> Seq<char> {
    "JSON: "@ + detail
}

fn json_error_of(detail: &str) -> (res: String)
    ensures
        res@ == json_error(detail@),
{
    let mut v = chars_of("JSON: ");
    push_all(&mut v, &chars_of(detail));
    string_of(&v)
}

/// The book that an item of a search reply describes; missing texts are
/// empty (the score `-`), a missing status is 0.
pub open spec fn book_of_item(item: JsonValue) -> BookView {
    BookView {
        book_id: item.text_or("book_id"@, ""@),
        title: item.text_or("title"@, ""@),
        author: item.text_or("author"@, ""@),
        score: item.text_or("score"@, "-"@),
        category: item.text_or("category"@, ""@),
        abstract_: item.text_or("abstract"@, ""@),
        status: match item.field("creation_status"@) {
            Some(v) => match v.int64() {
                Some(i) => i,
                None => 0,
            },
            None => 0,
        },
    }
}

/// The books that the items describe, those without an id left out.
pub open spec fn books_of_items(items: Seq<JsonValue>) -> Seq<BookView>
    decreases items.len(),
{
    if items.len() == 0 {
        seq![]
    } else {
        let b = book_of_item(items.last());
        if b.book_id.len() > 0 {
            books_of_items(items.drop_last()).push(b)
        } else {
            books_of_items(items.drop_last())
        }
    }
}

/// The elements of the array at `data.key` in `root`, or none.
pub open spec fn data_array(root: JsonValue, key: Seq<char>) -> Seq<JsonValue> {
    match root.field("data"@) {
        Some(d) => match d.field(key) {
            Some(a) => match a.elements() {
                Some(v) => v,
                None => seq![],
            },
            None => seq![],
        },
        None => seq![],
    }
}

/// What a search reply yields: the books of `data.ret_data`, or an error
/// when the reply was not JSON (`parsed` holds the parser's message) or
/// lists no book.
pub open spec fn search_reply(parsed: Result<JsonValue, String>) -> Result<Seq<BookView>, Seq<char>> {
    match parsed {
        Err(e) => Err(json_error(e@)),
        Ok(root) => {
            let bs = books_of_items(data_array(root, "ret_data"@));
            if bs.len() == 0 {
                Err("无结果"@)
            } else {
                Ok(bs)
            }
        },
    }
}

/// The elements of the array at `data.key` in `root`.
fn data_array_of<'a>(root: &'a JsonValue, key: &str) -> (res: Option<&'a Vec<JsonValue>>)
    ensures
        match res {
            Some(v) => data_array(*root, key@) == v@,
            None => data_array(*root, key@) == Seq::<JsonValue>::empty(),
        },
{
    match root.get("data") {
        Some(d) => match d.get(key) {
            Some(a) => a.as_array(),
            None => None,
        },
        None => None,
    }
}

/// The book that a search item describes.
fn book_of(item: &JsonValue) -> (res: Book)
    ensures
        res@ == book_of_item(*item),
{
    let status = match item.get("creation_status") {
        Some(v) => match v.as_i64() {
            Some(i) => i,
            None => 0,
        },
        None => 0,
    };
    Book {
        book_id: item.text_or_default("book_id", ""),
        title: item.text_or_default("title", ""),
        author: item.text_or_default("author", ""),
        score: item.text_or_default("score", "-"),
        category: item.text_or_default("category", ""),
        abstract_: item.text_or_default("abstract", ""),
        status,
    }
}

/// The books in a parsed search reply (see `search_reply`).
pub fn search_results_of_json(parsed: &Result<JsonValue, String>) -> (res: Result<
    Vec<Book>,
    String,
>)
    ensures
        match res {
            Ok(v) => search_reply(*parsed) == Ok::<Seq<BookView>, Seq<char>>(book_views(v@)),
            Err(e) => search_reply(*parsed) == Err::<Seq<BookView>, Seq<char>>(e@),
        },
{
    let root = match parsed {
        Err(e) => return Err(json_error_of(e.as_str())),
        Ok(root) => root,
    };
    let mut books: Vec<Book> = Vec::new();
    match data_array_of(root, "ret_data") {
        Some(items) => {
            let n = items.len();
            let mut i: usize = 0;
            proof {
                assert(items@.take(0) =~= Seq::<JsonValue>::empty());
                assert(book_views(books@) =~= Seq::<BookView>::empty());
            }
            while i < n
                invariant
                    n == items@.len(),
                    i <= n,
                    book_views(books@) == books_of_items(items@.take(i as int)),
                decreases n - i,
            {
                let b = book_of(&items[i]);
                proof {
                    assert(items@.take(i + 1).drop_last() =~= items@.take(i as int));
                    assert(items@.take(i + 1).last() == items@[i as int]);
                }
                if !b.book_id.as_str().is_empty() {
                    let ghost before = books@;
                    books.push(b);
                    proof {
                        assert(book_views(books@) =~= book_views(before).push(b@));
                    }
                }
                i += 1;
            }
            proof {
                assert(items@.take(n as int) =~= items@);
            }
        },
        None => {
            proof {
                assert(book_views(books@) =~= Seq::<BookView>::empty());
            }
        },
    }
    if books.len() == 0 {
        Err("无结果".to_owned())
    } else {
        Ok(books)
    }
}

/// The books in the search reply `text` (see `search_reply`), read as
/// serde_json reads it.
pub fn parse_search_results(text: &str) -> (res: Result<Vec<Book>, String>)
    ensures
        match res {
            Ok(v) => search_reply(json_of(text@)) == Ok::<Seq<BookView>, Seq<char>>(book_views(v@)),
            Err(e) => search_reply(json_of(text@)) == Err::<Seq<BookView>, Seq<char>>(e@),
        },
{
    search_results_of_json(&parse_json(text))
}

/// The (item id, title) pairs of the catalog items with an id, in order;
/// a missing title reads `未知章节`.
pub open spec fn item_entries(items: Seq<JsonValue>) -> Seq<(Seq<char>, Seq<char>)>
    decreases items.len(),
{
    if items.len() == 0 {
        seq![]
    } else {
        let it = items.last();
        let id = it.text_or("itemId"@, ""@);
        if id.len() > 0 {
            item_entries(items.drop_last()).push((id, it.text_or("title"@, "未知章节"@)))
        } else {
            item_entries(items.drop_last())
        }
    }
}

/// The entries of each volume in turn; a volume that is not an array has
/// none.
pub open spec fn volume_entries(vols: Seq<JsonValue>) -> Seq<(Seq<char>, Seq<char>)>
    decreases vols.len(),
{
    if vols.len() == 0 {
        seq![]
    } else {
        volume_entries(vols.drop_last()) + match vols.last().elements() {
            Some(items) => item_entries(items),
            None => seq![],
        }
    }
}

/// The entries of a catalog reply.
pub open spec fn catalog_entries(root: JsonValue) -> Seq<(Seq<char>, Seq<char>)> {
    volume_entries(data_array(root, "chapterListWithVolume"@))
}

/// The entries numbered from 1 as chapters.
pub open spec fn numbered(es: Seq<(Seq<char>, Seq<char>)>) -> Seq<ChapterView> {
    Seq::new(
        es.len(),
        |k: int| ChapterView { index: (k + 1) as usize, item_id: es[k].0, title: es[k].1 },
    )
}

/// What a catalog reply yields: its chapters numbered from 1, or an error
/// when the reply was not JSON or lists no chapter.
pub open spec fn catalog_reply(parsed: Result<JsonValue, String>) -> Result<
    Seq<ChapterView>,
    Seq<char>,
> {
    match parsed {
        Err(e) => Err(json_error(e@)),
        Ok(root) => {
            let es = catalog_entries(root);
            if es.len() == 0 {
                Err("未获取到章节"@)
            } else {
                Ok(numbered(es))
            }
        },
    }
}

/// The chapters in a parsed catalog reply (see `catalog_reply`).  The
/// number of chapters must leave room for their numbers in a `usize`.
pub fn catalog_of_json(parsed: &Result<JsonValue, String>) -> (res: Result<Vec<Chapter>, String>)
    requires
        *parsed matches Ok(root) ==> catalog_entries(root).len() < usize::MAX,
    ensures
        match res {
            Ok(v) => catalog_reply(*parsed) == Ok::<Seq<ChapterView>, Seq<char>>(
                chapter_views(v@),
            ),
            Err(e) => catalog_reply(*parsed) == Err::<Seq<ChapterView>, Seq<char>>(e@),
        },
{
    let root = match parsed {
        Err(e) => return Err(json_error_of(e.as_str())),
        Ok(root) => root,
    };
    let mut chapters: Vec<Chapter> = Vec::new();
    let ghost total = catalog_entries(*root);
    match data_array_of(root, "chapterListWithVolume") {
        Some(vols) => {
            let nv = vols.len();
            let mut i: usize = 0;
            proof {
                assert(vols@.take(0) =~= Seq::<JsonValue>::empty());
                assert(chapter_views(chapters@) =~= numbered(volume_entries(vols@.take(0))));
            }
            while i < nv
                invariant
                    nv == vols@.len(),
                    i <= nv,
                    total == volume_entries(vols@),
                    total.len() < usize::MAX,
                    chapter_views(chapters@) == numbered(volume_entries(vols@.take(i as int))),
                decreases nv - i,
            {
                proof {
                    assert(vols@.take(i + 1).drop_last() =~= vols@.take(i as int));
                    assert(vols@.take(i + 1).last() == vols@[i as int]);
                    lemma_volume_entries_prefix(vols@, i + 1);
                }
                let ghost done = volume_entries(vols@.take(i as int));
                match vols[i].as_array() {
                    Some(items) => {
                        let ni = items.len();
                        let mut j: usize = 0;
                        proof {
                            assert(items@.take(0) =~= Seq::<JsonValue>::empty());
                            assert(done + item_entries(items@.take(0)) =~= done);
                        }
                        while j < ni
                            invariant
                                ni == items@.len(),
                                j <= ni,
                                done + item_entries(items@) == volume_entries(
                                    vols@.take(i + 1),
                                ),
                                volume_entries(vols@.take(i + 1)).len() <= total.len(),
                                total.len() < usize::MAX,
                                chapter_views(chapters@) == numbered(
                                    done + item_entries(items@.take(j as int)),
                                ),
                            decreases ni - j,
                        {
                            let it = &items[j];
                            let id = it.text_or_default("itemId", "");
                            proof {
                                assert(items@.take(j + 1).drop_last() =~= items@.take(j as int));
                                assert(items@.take(j + 1).last() == items@[j as int]);
                                lemma_item_entries_prefix(items@, j + 1);
                            }
                            if !id.as_str().is_empty() {
                                let title = it.text_or_default("title", "未知章节");
                                proof {
                                    lemma_item_entries_prefix(items@, j as int);
                                    assert(chapters@.len() == chapter_views(chapters@).len());
                                }
                                let index = chapters.len() + 1;
                                let ghost before = chapters@;
                                let ghost prev = done + item_entries(items@.take(j as int));
                                let ch = Chapter { index, item_id: id, title };
                                chapters.push(ch);
                                proof {
                                    assert(item_entries(items@.take(j + 1)) == item_entries(
                                        items@.take(j as int),
                                    ).push((ch.item_id@, ch.title@)));
                                    assert(done + item_entries(items@.take(j + 1)) =~= prev.push(
                                        (ch.item_id@, ch.title@),
                                    ));
                                    assert(chapter_views(chapters@) =~= chapter_views(before).push(
                                        ch@,
                                    ));
                                    assert(chapter_views(chapters@) =~= numbered(
                                        prev.push((ch.item_id@, ch.title@)),
                                    ));
                                }
                            }
                            j += 1;
                        }
                        proof {
                            assert(items@.take(ni as int) =~= items@);
                        }
                    },
                    None => {
                        proof {
                            assert(done + Seq::<(Seq<char>, Seq<char>)>::empty() =~= done);
                        }
                    },
                }
                i += 1;
            }
            proof {
                assert(vols@.take(nv as int) =~= vols@);
            }
        },
        None => {
            proof {
                assert(chapter_views(chapters@) =~= numbered(total));
            }
        },
    }
    if chapters.len() == 0 {
        Err("未获取到章节".to_owned())
    } else {
        Ok(chapters)
    }
}

/// The number of entries in a catalog reply, when it is below
/// `usize::MAX`.
fn catalog_entry_count(root: &JsonValue) -> (res: Option<usize>)
    ensures
        match res {
            Some(n) => n == catalog_entries(*root).len() && n < usize::MAX,
            None => catalog_entries(*root).len() >= usize::MAX,
        },
{
    let mut count: usize = 0;
    match data_array_of(root, "chapterListWithVolume") {
        Some(vols) => {
            let nv = vols.len();
            let mut i: usize = 0;
            proof {
                assert(vols@.take(0) =~= Seq::<JsonValue>::empty());
            }
            while i < nv
                invariant
                    nv == vols@.len(),
                    i <= nv,
                    catalog_entries(*root) == volume_entries(vols@),
                    count == volume_entries(vols@.take(i as int)).len(),
                    count < usize::MAX,
                decreases nv - i,
            {
                proof {
                    assert(vols@.take(i + 1).drop_last() =~= vols@.take(i as int));
                    assert(vols@.take(i + 1).last() == vols@[i as int]);
                    lemma_volume_entries_prefix(vols@, i + 1);
                }
                let ghost done = volume_entries(vols@.take(i as int));
                match vols[i].as_array() {
                    Some(items) => {
                        let ni = items.len();
                        let mut j: usize = 0;
                        proof {
                            assert(items@.take(0) =~= Seq::<JsonValue>::empty());
                        }
                        while j < ni
                            invariant
                                ni == items@.len(),
                                j <= ni,
                                done + item_entries(items@) == volume_entries(vols@.take(i + 1)),
                                volume_entries(vols@.take(i + 1)).len() <= catalog_entries(
                                    *root,
                                ).len(),
                                count == done.len() + item_entries(items@.take(j as int)).len(),
                                count < usize::MAX,
                            decreases ni - j,
                        {
                            proof {
                                assert(items@.take(j + 1).drop_last() =~= items@.take(j as int));
                                assert(items@.take(j + 1).last() == items@[j as int]);
                                lemma_item_entries_prefix(items@, j + 1);
                            }
                            let id = items[j].text_or_default("itemId", "");
                            if !id.as_str().is_empty() {
                                if count == usize::MAX - 1 {
                                    return None;
                                }
                                count += 1;
                            }
                            j += 1;
                        }
                        proof {
                            assert(items@.take(ni as int) =~= items@);
                        }
                    },
                    None => {
                        proof {
                            assert(done + Seq::<(Seq<char>, Seq<char>)>::empty() =~= done);
                        }
                    },
                }
                i += 1;
            }
            proof {
                assert(vols@.take(nv as int) =~= vols@);
            }
        },
        None => {},
    }
    Some(count)
}

/// The chapters in the catalog reply `text`, read as serde_json reads it
/// (see `catalog_reply`); `None` when it lists so many chapters that their
/// numbers do not fit in a `usize`.
pub fn parse_catalog(text: &str) -> (res: Option<Result<Vec<Chapter>, String>>)
    ensures
        res is None <==> (json_of(text@) matches Ok(root) && catalog_entries(root).len()
            >= usize::MAX),
        match res {
            Some(Ok(v)) => catalog_reply(json_of(text@)) == Ok::<Seq<ChapterView>, Seq<char>>(
                chapter_views(v@),
            ),
            Some(Err(e)) => catalog_reply(json_of(text@)) == Err::<Seq<ChapterView>, Seq<char>>(
                e@,
            ),
            None => true,
        },
{
    let parsed = parse_json(text);
    if let Ok(root) = &parsed {
        if catalog_entry_count(root).is_none() {
            return None;
        }
    }
    Some(catalog_of_json(&parsed))
}

/// The entries of a prefix of the items are no more than those of all.
proof fn lemma_item_entries_prefix(items: Seq<JsonValue>, k: int)
    requires
        0 <= k <= items.len(),
    ensures
        item_entries(items.take(k)).len() <= item_entries(items).len(),
    decreases items.len() - k,
{
    if k < items.len() {
        lemma_item_entries_prefix(items, k + 1);
        assert(items.take(k + 1).drop_last() =~= items.take(k));
    } else {
        assert(items.take(k) =~= items);
    }
}

/// The entries of a prefix of the volumes are no more than those of all.
proof fn lemma_volume_entries_prefix(vols: Seq<JsonValue>, k: int)
    requires
        0 <= k <= vols.len(),
    ensures
        volume_entries(vols.take(k)).len() <= volume_entries(vols).len(),
    decreases vols.len() - k,
{
    if k < vols.len() {
        lemma_volume_entries_prefix(vols, k + 1);
        assert(vols.take(k + 1).drop_last() =~= vols.take(k));
    } else {
        assert(vols.take(k) =~= vols);
    }
}

/// A search reply whose items all carry a book id lists one book per item,
/// in order, each made of the item's members of the same names: id,
/// title, author, score (`-` when missing), category and abstract, and
/// its `creation_status` as the status when it is an integer (else 0).
pub proof fn search_lists_each_book_from_its_item(root: JsonValue)
    requires
        data_array(root, "ret_data"@).len() > 0,
        forall|k: int|
            0 <= k < data_array(root, "ret_data"@).len() ==> (#[trigger] data_array(
                root,
                "ret_data"@,
            )[k]).text_or("book_id"@, ""@).len() > 0,
    ensures
        search_reply(Ok(root)) is Ok,
        ({
            let items = data_array(root, "ret_data"@);
            let bs = search_reply(Ok(root))->Ok_0;
            &&& bs.len() == items.len()
            &&& forall|k: int|
                0 <= k < items.len() ==> {
                    let b = #[trigger] bs[k];
                    &&& b.book_id == items[k].text_or("book_id"@, ""@)
                    &&& b.title == items[k].text_or("title"@, ""@)
                    &&& b.author == items[k].text_or("author"@, ""@)
                    &&& b.score == items[k].text_or("score"@, "-"@)
                    &&& b.category == items[k].text_or("category"@, ""@)
                    &&& b.abstract_ == items[k].text_or("abstract"@, ""@)
                    &&& b.status == match items[k].field("creation_status"@) {
                        Some(v) => match v.int64() {
                            Some(i) => i,
                            None => 0,
                        },
                        None => 0,
                    }
                }
        }),
{
    lemma_books_of_identified_items(data_array(root, "ret_data"@));
}

/// Items that all carry a book id give one book each, from its members.
proof fn lemma_books_of_identified_items(items: Seq<JsonValue>)
    requires
        forall|k: int| 0 <= k < items.len() ==> (#[trigger] items[k]).text_or("book_id"@, ""@).len() > 0,
    ensures
        books_of_items(items).len() == items.len(),
        forall|k: int|
            0 <= k < items.len() ==> {
                let b = #[trigger] books_of_items(items)[k];
                &&& b.book_id == items[k].text_or("book_id"@, ""@)
                &&& b.title == items[k].text_or("title"@, ""@)
                &&& b.author == items[k].text_or("author"@, ""@)
                &&& b.score == items[k].text_or("score"@, "-"@)
                &&& b.category == items[k].text_or("category"@, ""@)
                &&& b.abstract_ == items[k].text_or("abstract"@, ""@)
                &&& b.status == match items[k].field("creation_status"@) {
                    Some(v) => match v.int64() {
                        Some(i) => i,
                        None => 0,
                    },
                    None => 0,
                }
            },
    decreases items.len(),
{
    if items.len() > 0 {
        let init = items.drop_last();
        assert forall|k: int| 0 <= k < init.len() implies (#[trigger] init[k]).text_or(
            "book_id"@,
            ""@,
        ).len() > 0 by {
            assert(init[k] == items[k]);
        }
        lemma_books_of_identified_items(init);
        assert(items[items.len() - 1] == items.last());
        assert forall|k: int| 0 <= k < items.len() implies {
            let b = #[trigger] books_of_items(items)[k];
            &&& b.book_id == items[k].text_or("book_id"@, ""@)
            &&& b.title == items[k].text_or("title"@, ""@)
            &&& b.author == items[k].text_or("author"@, ""@)
            &&& b.score == items[k].text_or("score"@, "-"@)
            &&& b.category == items[k].text_or("category"@, ""@)
            &&& b.abstract_ == items[k].text_or("abstract"@, ""@)
            &&& b.status == match items[k].field("creation_status"@) {
                Some(v) => match v.int64() {
                    Some(i) => i,
                    None => 0,
                },
                None => 0,
            }
        } by {
            if k < init.len() {
                assert(init[k] == items[k]);
            }
        }
    }
}

/// A volume whose items all carry an item id yields one chapter entry per
/// item, in order: its id and its title (`未知章节` when it has none).
pub proof fn volume_keeps_every_identified_item(items: Seq<JsonValue>)
    requires
        forall|k: int| 0 <= k < items.len() ==> (#[trigger] items[k]).text_or("itemId"@, ""@).len() > 0,
    ensures
        item_entries(items).len() == items.len(),
        forall|k: int|
            0 <= k < items.len() ==> #[trigger] item_entries(items)[k] == (
                items[k].text_or("itemId"@, ""@),
                items[k].text_or("title"@, "未知章节"@),
            ),
    decreases items.len(),
{
    if items.len() > 0 {
        let init = items.drop_last();
        assert forall|k: int| 0 <= k < init.len() implies (#[trigger] init[k]).text_or(
            "itemId"@,
            ""@,
        ).len() > 0 by {
            assert(init[k] == items[k]);
        }
        volume_keeps_every_identified_item(init);
        assert(items[items.len() - 1] == items.last());
        assert forall|k: int| 0 <= k < items.len() implies #[trigger] item_entries(items)[k] == (
            items[k].text_or("itemId"@, ""@),
            items[k].text_or("title"@, "未知章节"@),
        ) by {
            if k < init.len() {
                assert(init[k] == items[k]);
            }
        }
    }
}

/// An item without an item id yields no chapter: the entries stay those
/// of the items before it.
pub proof fn item_without_id_is_skipped(items: Seq<JsonValue>, it: JsonValue)
    requires
        it.text_or("itemId"@, ""@).len() == 0,
    ensures
        item_entries(items.push(it)) == item_entries(items),
{
    assert(items.push(it).drop_last() =~= items);
}

/// A further volume adds its chapters after those of the volumes before
/// it; a volume that is not an array adds none.
pub proof fn volume_adds_its_chapters(vols: Seq<JsonValue>, v: JsonValue)
    ensures
        volume_entries(vols.push(v)) == volume_entries(vols) + match v.elements() {
            Some(items) => item_entries(items),
            None => Seq::empty(),
        },
{
    assert(vols.push(v).drop_last() =~= vols);
}

/// The chapters of a catalog reply are its entries numbered 1, 2, ... in
/// order: chapter `k` has number `k + 1` and the id and title of entry
/// `k`; a reply with no entry is an error.  (The numbers must fit in a
/// `usize`.)
pub proof fn catalog_numbers_entries_from_one(root: JsonValue)
    requires
        catalog_entries(root).len() < usize::MAX,
    ensures
        catalog_entries(root).len() == 0 ==> catalog_reply(Ok(root)) is Err,
        catalog_entries(root).len() > 0 ==> catalog_reply(Ok(root)) is Ok && {
            let cs = catalog_reply(Ok(root))->Ok_0;
            &&& cs.len() == catalog_entries(root).len()
            &&& forall|k: int|
                0 <= k < cs.len() ==> #[trigger] cs[k].index == k + 1 && cs[k].item_id
                    == catalog_entries(root)[k].0 && cs[k].title == catalog_entries(root)[k].1
        },
{
}

/// What a content reply yields: the plain text of the HTML at
/// `data.content` (empty when missing), or an error naming the chapter
/// when the reply was not JSON.
pub open spec fn content_reply(item_id: Seq<char>, parsed: Result<JsonValue, String>) -> Result<
    Seq<char>,
    Seq<char>,
> {
    match parsed {
        Err(_) => Err(json_error(item_id)),
        Ok(root) => Ok(
            html_text(
                match root.field("data"@) {
                    Some(d) => d.text_or("content"@, ""@),
                    None => ""@,
                },
            ),
        ),
    }
}

/// The text of a parsed content reply for chapter `item_id` (see
/// `content_reply`).
pub fn content_of_json(item_id: &str, parsed: &Result<JsonValue, String>) -> (res: Result<
    String,
    String,
>)
    ensures
        match res {
            Ok(t) => content_reply(item_id@, *parsed) == Ok::<Seq<char>, Seq<char>>(t@),
            Err(e) => content_reply(item_id@, *parsed) == Err::<Seq<char>, Seq<char>>(e@),
        },
{
    match parsed {
        Err(_) => Err(json_error_of(item_id)),
        Ok(root) => {
            let html = match root.get("data") {
                Some(d) => d.text_or_default("content", ""),
                None => "".to_owned(),
            };
            Ok(strip_html(html.as_str()))
        },
    }
}

/// The text of the content reply `text` for chapter `item_id`, read as
/// serde_json reads it (see `content_reply`).
pub fn parse_content(item_id: &str, text: &str) -> (res: Result<String, String>)
    ensures
        match res {
            Ok(t) => content_reply(item_id@, json_of(text@)) == Ok::<Seq<char>, Seq<char>>(t@),
            Err(e) => content_reply(item_id@, json_of(text@)) == Err::<Seq<char>, Seq<char>>(e@),
        },
{
    content_of_json(item_id, &parse_json(text))
}

/// The scan of text without markup has copied all of it.
proof fn lemma_scan_plain(s: Seq<char>)
    requires
        forall|i: int| 0 <= i < s.len() ==> #[trigger] s[i] != '<' && s[i] != '&',
    ensures
        scan(s) == (HtmlScan { out: s, ..scan_start() }),
    decreases s.len(),
{
    if s.len() > 0 {
        assert forall|i: int| 0 <= i < s.drop_last().len() implies #[trigger] s.drop_last()[i]
            != '<' && s.drop_last()[i] != '&' by {
            assert(s.drop_last()[i] == s[i]);
        }
        lemma_scan_plain(s.drop_last());
        assert(s.drop_last().push(s.last()) =~= s);
    } else {
        assert(s =~= Seq::<char>::empty());
    }
}

/// Text without `<` and `&` holds no markup: its plain text is itself.
pub proof fn strip_html_keeps_plain_text(s: Seq<char>)
    requires
        forall|i: int| 0 <= i < s.len() ==> #[trigger] s[i] != '<' && s[i] != '&',
    ensures
        html_text(s) == s,
{
    lemma_scan_plain(s);
}

} // verus!

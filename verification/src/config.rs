//! Settings (defaults, the `config.ini` file, command-line overrides) and
//! the bookshelf file, each read from and written to text.
use vstd::prelude::*;
use crate::text::{
    chars_eq_str, chars_of, comma_list, comma_list_of, decimal, digit_value, digits_value, find,
    is_digit, is_ws,
    lacks, lemma_comma_pair, lemma_find, lemma_find_unique, lemma_lines_concat,
    lemma_lines_lack_newline, lemma_lines_of_text, lemma_single_line, lemma_trim_after_trim_end,
    lemma_trim_drop_ws_last, lemma_trim_end_concat, lemma_trim_idempotent, lemma_trim_lacks,
    lemma_trim_start_concat, lemma_trim_start_head, lines, parse_u64, parse_unsigned, push_all,
    push_str, split_lines, split_once, split_once_chars, string_of, strip_cr, text_of_lines, trim,
    trim_chars, trim_end, trim_start,
};
use crate::types::{
    lemma_decimal_numeral, lemma_usize_of_decimal, parse_usize, texts, usize_of, Config, ConfigView,
};

verus! {

/// The first search service; `{}` stands for the keyword, then the offset.
pub const SEARCH_URL_PRIMARY: &'static str =
    "https://novel.snssdk.com/api/novel/channel/homepage/search/search/v1/?aid=1967&q={}&offset={}";

/// The second search service.
pub const SEARCH_URL_MIRROR: &'static str = "http://101.35.133.34:5000/api/search?key={}&offset={}";

/// The catalog service; `{}` stands for the book id.
pub const CATALOG_URL: &'static str = "https://fanqienovel.com/api/reader/directory/detail?bookId={}";

/// The first content service; `{}` stands for the chapter's item id.
pub const CONTENT_URL_PRIMARY: &'static str = "https://tt.sjmyzq.cn/api/raw_full?item_id={}";

/// The second content service.
pub const CONTENT_URL_MIRROR: &'static str = "http://101.35.133.34:5000/api/raw_full?item_id={}";

/// The relative path `rel` under the directory `base`, as `Path::join`
/// forms it: a separator is put between them unless `base` is empty or
/// already ends with one; an absolute `rel` stands alone.
pub open spec fn join_path(base: Seq<char>, rel: Seq<char>) -> Seq<char> {
    if rel.len() > 0 && rel[0] == '/' {
        rel
    } else if base.len() == 0 || base.last() == '/' {
        base + rel
    } else {
        base + seq!['/'] + rel
    }
}

/// `rel` under the directory `base`.
pub fn join_path_str(base: &str, rel: &str) -> (res: String)
    ensures
        res@ == join_path(base@, rel@),
{
    let b = chars_of(base);
    let r = chars_of(rel);
    let mut out: Vec<char> = Vec::new();
    if r.len() > 0 && r[0] == '/' {
        push_all(&mut out, &r);
    } else {
        push_all(&mut out, &b);
        if !(b.len() == 0 || b[b.len() - 1] == '/') {
            out.push('/');
        }
        push_all(&mut out, &r);
    }
    proof {
        assert(out@ =~= join_path(base@, rel@));
    }
    string_of(&out)
}

/// The default settings for the home directory `home`.
pub open spec fn default_config(home: Seq<char>) -> ConfigView {
    ConfigView {
        concurrent: 4,
        format: "txt"@,
        output_dir: "."@,
        filename_template: "{idx04}_{title}"@,
        verbose: false,
        cache_enabled: true,
        cache_dir: join_path(home, ".config/fqdt/cache"@),
        cache_ttl: 86400,
        bookmark_file: join_path(home, ".config/fqdt/books.txt"@),
        search_urls: seq![SEARCH_URL_PRIMARY@, SEARCH_URL_MIRROR@],
        catalog_url: CATALOG_URL@,
        content_urls: seq![CONTENT_URL_PRIMARY@, CONTENT_URL_MIRROR@],
    }
}

/// The settings after one `key = value` line whose trimmed key is `k` and
/// trimmed value is `v`; unknown keys change nothing.
pub open spec fn apply_setting(cfg: ConfigView, k: Seq<char>, v: Seq<char>) -> ConfigView {
    if k == "concurrent"@ {
        ConfigView {
            concurrent: match usize_of(v) {
                Some(n) => n,
                None => 4,
            },
            ..cfg
        }
    } else if k == "format"@ {
        ConfigView { format: v, ..cfg }
    } else if k == "output_dir"@ {
        ConfigView { output_dir: v, ..cfg }
    } else if k == "filename_template"@ {
        ConfigView { filename_template: v, ..cfg }
    } else if k == "verbose"@ {
        ConfigView { verbose: v == "true"@, ..cfg }
    } else if k == "cache_enabled"@ {
        ConfigView { cache_enabled: v != "false"@, ..cfg }
    } else if k == "cache_ttl"@ {
        ConfigView {
            cache_ttl: match parse_unsigned(v, u64::MAX as nat) {
                Some(n) => n as u64,
                None => 86400,
            },
            ..cfg
        }
    } else if k == "search_url"@ {
        ConfigView { search_urls: comma_list(v), ..cfg }
    } else if k == "catalog_url"@ {
        ConfigView { catalog_url: v, ..cfg }
    } else if k == "content_url"@ {
        ConfigView { content_urls: comma_list(v), ..cfg }
    } else {
        cfg
    }
}

/// The settings after one line of `config.ini`: blank lines, section
/// headers (`[`...) and comments (`#`...) change nothing, nor do lines
/// without `=`; other lines are split at their first `=`.
pub open spec fn apply_ini_line(cfg: ConfigView, line: Seq<char>) -> ConfigView {
    let t = trim(line);
    if t.len() == 0 || t[0] == '[' || t[0] == '#' {
        cfg
    } else {
        match split_once(t, '=') {
            Some((k, v)) => apply_setting(cfg, trim(k), trim(v)),
            None => cfg,
        }
    }
}

/// The settings after the lines `ls`, in order.
pub open spec fn apply_ini_lines(cfg: ConfigView, ls: Seq<Seq<char>>) -> ConfigView
    decreases ls.len(),
{
    if ls.len() == 0 {
        cfg
    } else {
        apply_ini_line(apply_ini_lines(cfg, ls.drop_last()), ls.last())
    }
}

/// The settings for home directory `home` and the text of `config.ini`,
/// when there is one: the defaults, then each line of the file in turn.
pub open spec fn loaded_config(home: Seq<char>, ini: Option<Seq<char>>) -> ConfigView {
    match ini {
        Some(text) => apply_ini_lines(default_config(home), lines(text)),
        None => default_config(home),
    }
}

/// The line `k = v` of `config.ini`.
pub open spec fn setting_line(k: Seq<char>, v: Seq<char>) -> Seq<char> {
    k + " = "@ + v
}

/// The lines of the `config.ini` that is written when there is none: the
/// defaults, under section headers and comments.
pub open spec fn default_ini_lines() -> Seq<Seq<char>> {
    seq![
        "# 番茄小说下载器配置"@,
        "[download]"@,
        setting_line("concurrent"@, "4"@),
        setting_line("format"@, "txt"@),
        setting_line("output_dir"@, "."@),
        setting_line("filename_template"@, "{idx04}_{title}"@),
        setting_line("verbose"@, "false"@),
        seq![],
        "[cache]"@,
        setting_line("cache_enabled"@, "true"@),
        setting_line("cache_ttl"@, "86400"@),
        seq![],
        "[api]"@,
        "# 搜索API(逗号分隔,从前往后尝试,{}会被关键词和页码替换)"@,
        setting_line("search_url"@, SEARCH_URL_PRIMARY@ + ","@ + SEARCH_URL_MIRROR@),
        "# 目录API"@,
        setting_line("catalog_url"@, CATALOG_URL@),
        "# 内容API(逗号分隔)"@,
        setting_line("content_url"@, CONTENT_URL_PRIMARY@ + ","@ + CONTENT_URL_MIRROR@),
    ]
}

/// The line `k = v`.
fn setting_chars(k: &str, v: &Vec<char>) -> (res: Vec<char>)
    ensures
        res@ == setting_line(k@, v@),
{
    let mut out = chars_of(k);
    push_str(&mut out, " = ");
    push_all(&mut out, v);
    out
}

/// The two addresses `a` and `b` as a comma-separated list.
fn address_pair(a: &str, b: &str) -> (res: Vec<char>)
    ensures
        res@ == a@ + ","@ + b@,
{
    let mut out = chars_of(a);
    push_str(&mut out, ",");
    push_str(&mut out, b);
    out
}

/// The lines `ls`, each followed by a line break.
fn text_of(ls: &Vec<Vec<char>>) -> (res: Vec<char>)
    ensures
        res@ == text_of_lines(ls@.map_values(|l: Vec<char>| l@)),
{
    let ghost lv = ls@.map_values(|l: Vec<char>| l@);
    let mut out: Vec<char> = Vec::new();
    let n = ls.len();
    let mut i: usize = 0;
    proof {
        assert(lv.take(0) =~= Seq::<Seq<char>>::empty());
    }
    while i < n
        invariant
            n == ls@.len() == lv.len(),
            lv == ls@.map_values(|l: Vec<char>| l@),
            i <= n,
            out@ == text_of_lines(lv.take(i as int)),
        decreases n - i,
    {
        proof {
            assert(lv.take(i + 1).drop_last() =~= lv.take(i as int));
            assert(lv.take(i + 1).last() == ls@[i as int]@);
        }
        push_all(&mut out, &ls[i]);
        out.push('\n');
        i += 1;
    }
    proof {
        assert(lv.take(n as int) =~= lv);
    }
    out
}

/// The text of the `config.ini` that is written when there is none (see
/// `default_ini_lines`).
pub fn default_ini() -> (res: String)
    ensures
        res@ == text_of_lines(default_ini_lines()),
{
    let mut ls: Vec<Vec<char>> = Vec::new();
    ls.push(chars_of("# 番茄小说下载器配置"));
    ls.push(chars_of("[download]"));
    ls.push(setting_chars("concurrent", &chars_of("4")));
    ls.push(setting_chars("format", &chars_of("txt")));
    ls.push(setting_chars("output_dir", &chars_of(".")));
    ls.push(setting_chars("filename_template", &chars_of("{idx04}_{title}")));
    ls.push(setting_chars("verbose", &chars_of("false")));
    ls.push(Vec::new());
    ls.push(chars_of("[cache]"));
    ls.push(setting_chars("cache_enabled", &chars_of("true")));
    ls.push(setting_chars("cache_ttl", &chars_of("86400")));
    ls.push(Vec::new());
    ls.push(chars_of("[api]"));
    ls.push(chars_of("# 搜索API(逗号分隔,从前往后尝试,{}会被关键词和页码替换)"));
    ls.push(setting_chars("search_url", &address_pair(SEARCH_URL_PRIMARY, SEARCH_URL_MIRROR)));
    ls.push(chars_of("# 目录API"));
    ls.push(setting_chars("catalog_url", &chars_of(CATALOG_URL)));
    ls.push(chars_of("# 内容API(逗号分隔)"));
    ls.push(setting_chars("content_url", &address_pair(CONTENT_URL_PRIMARY, CONTENT_URL_MIRROR)));
    proof {
        assert(ls@.map_values(|l: Vec<char>| l@) =~= default_ini_lines());
    }
    string_of(&text_of(&ls))
}

/// A service address as it stands in the settings: not empty, without
/// commas, and with no whitespace at either end.
spec fn plain_address(a: Seq<char>) -> bool {
    &&& a.len() > 0
    &&& lacks(a, ',')
    &&& lacks(a, '\n')
    &&& a.last() != '\r'
    &&& !is_ws(a[0])
    &&& !is_ws(a.last())
}

/// Text that starts and ends with no whitespace is its own trim.
proof fn lemma_trim_plain(s: Seq<char>)
    requires
        s.len() > 0,
        !is_ws(s[0]),
        !is_ws(s.last()),
    ensures
        trim(s) == s,
{
    assert(trim_start(s) == s);
}

/// The default addresses are plain.
proof fn lemma_default_addresses()
    ensures
        plain_address(SEARCH_URL_PRIMARY@),
        plain_address(SEARCH_URL_MIRROR@),
        plain_address(CATALOG_URL@),
        plain_address(CONTENT_URL_PRIMARY@),
        plain_address(CONTENT_URL_MIRROR@),
{
    reveal_strlit(
        "https://novel.snssdk.com/api/novel/channel/homepage/search/search/v1/?aid=1967&q={}&offset={}",
    );
    reveal_strlit("http://101.35.133.34:5000/api/search?key={}&offset={}");
    reveal_strlit("https://fanqienovel.com/api/reader/directory/detail?bookId={}");
    reveal_strlit("https://tt.sjmyzq.cn/api/raw_full?item_id={}");
    reveal_strlit("http://101.35.133.34:5000/api/raw_full?item_id={}");
}

/// A section header or a comment line changes no setting.
proof fn lemma_neutral_line(cfg: ConfigView, l: Seq<char>)
    requires
        l.len() > 0,
        l[0] == '[' || l[0] == '#',
        !is_ws(l.last()),
    ensures
        apply_ini_line(cfg, l) == cfg,
{
    lemma_trim_plain(l);
}

/// A line `k = v` applies the setting `k` with the value `v`.
proof fn lemma_setting_line(cfg: ConfigView, k: Seq<char>, v: Seq<char>)
    requires
        k.len() > 0,
        v.len() > 0,
        !is_ws(k[0]),
        !is_ws(k.last()),
        !is_ws(v[0]),
        !is_ws(v.last()),
        lacks(k, '='),
        k[0] != '[',
        k[0] != '#',
    ensures
        apply_ini_line(cfg, setting_line(k, v)) == apply_setting(cfg, k, v),
{
    reveal_strlit(" = ");
    let l = setting_line(k, v);
    let n = k.len() as int;
    assert(l[0] == k[0]);
    assert(l.last() == v.last());
    lemma_trim_plain(l);
    assert(l[n] == ' ' && l[n + 1] == '=' && l[n + 2] == ' ');
    assert forall|j: int| 0 <= j < n + 1 implies l[j] != '=' by {
        if j < n {
            assert(l[j] == k[j]);
        }
    }
    lemma_find_unique(l, '=', n + 1);
    let a = k.push(' ');
    let b = seq![' '] + v;
    assert(l.take(n + 1) =~= a);
    assert(l.skip(n + 2) =~= b);
    lemma_trim_plain(k);
    lemma_trim_plain(v);
    assert(a.drop_last() =~= k);
    assert(trim_start(a) == a);
    assert(trim_end(a) == trim_end(k));
    assert(b.drop_first() =~= v);
    assert(trim_start(b) == trim_start(v));
}

/// What tells the setting names apart.
proof fn lemma_setting_names()
    ensures
        "concurrent"@.len() == 10 && "concurrent"@[0] == 'c',
        "format"@.len() == 6,
        "output_dir"@.len() == 10 && "output_dir"@[0] == 'o',
        "filename_template"@.len() == 17,
        "verbose"@.len() == 7,
        "cache_enabled"@.len() == 13,
        "cache_ttl"@.len() == 9,
        "search_url"@.len() == 10 && "search_url"@[0] == 's',
        "catalog_url"@.len() == 11 && "catalog_url"@[1] == 'a',
        "content_url"@.len() == 11 && "content_url"@[1] == 'o',
{
    reveal_strlit("concurrent");
    reveal_strlit("format");
    reveal_strlit("output_dir");
    reveal_strlit("filename_template");
    reveal_strlit("verbose");
    reveal_strlit("cache_enabled");
    reveal_strlit("cache_ttl");
    reveal_strlit("search_url");
    reveal_strlit("catalog_url");
    reveal_strlit("content_url");
}

/// Each setting line of the default `config.ini` restates a default.
proof fn lemma_default_settings_keep(home: Seq<char>)
    ensures
        apply_ini_line(default_config(home), setting_line("concurrent"@, "4"@)) == default_config(home),
        apply_ini_line(default_config(home), setting_line("format"@, "txt"@)) == default_config(home),
        apply_ini_line(default_config(home), setting_line("output_dir"@, "."@)) == default_config(home),
        apply_ini_line(default_config(home), setting_line("filename_template"@, "{idx04}_{title}"@))
            == default_config(home),
        apply_ini_line(default_config(home), setting_line("verbose"@, "false"@)) == default_config(home),
        apply_ini_line(default_config(home), setting_line("cache_enabled"@, "true"@)) == default_config(home),
        apply_ini_line(default_config(home), setting_line("cache_ttl"@, "86400"@)) == default_config(home),
{
    let d = default_config(home);
    lemma_setting_names();
    reveal_strlit("concurrent");
    reveal_strlit("format");
    reveal_strlit("output_dir");
    reveal_strlit("filename_template");
    reveal_strlit("verbose");
    reveal_strlit("cache_enabled");
    reveal_strlit("cache_ttl");
    reveal_strlit("4");
    reveal_strlit("txt");
    reveal_strlit(".");
    reveal_strlit("{idx04}_{title}");
    reveal_strlit("false");
    reveal_strlit("true");
    reveal_strlit("86400");
    lemma_setting_line(d, "concurrent"@, "4"@);
    lemma_setting_line(d, "format"@, "txt"@);
    lemma_setting_line(d, "output_dir"@, "."@);
    lemma_setting_line(d, "filename_template"@, "{idx04}_{title}"@);
    lemma_setting_line(d, "verbose"@, "false"@);
    lemma_setting_line(d, "cache_enabled"@, "true"@);
    lemma_setting_line(d, "cache_ttl"@, "86400"@);
    assert(digits_value(Seq::<char>::empty()) == 0);
    assert("4"@.drop_last() =~= Seq::<char>::empty());
    assert("4"@.last() == '4');
    assert(digit_value('4') == 4);
    assert(digits_value("4"@) == 4);
    let t = "86400"@;
    assert(t.drop_last().drop_last().drop_last().drop_last().drop_last() =~= Seq::<char>::empty());
    assert(digits_value(t.drop_last().drop_last().drop_last().drop_last()) == 8);
    assert(digits_value(t.drop_last().drop_last().drop_last()) == 86);
    assert(digits_value(t.drop_last().drop_last()) == 864);
    assert(digits_value(t.drop_last()) == 8640);
    assert(digits_value(t) == 86400);
    assert("false"@ != "true"@);
}

/// The address lines of the default `config.ini` restate the default
/// addresses.
proof fn lemma_default_addresses_keep(home: Seq<char>)
    ensures
        apply_ini_line(
            default_config(home),
            setting_line("search_url"@, SEARCH_URL_PRIMARY@ + ","@ + SEARCH_URL_MIRROR@),
        ) == default_config(home),
        apply_ini_line(default_config(home), setting_line("catalog_url"@, CATALOG_URL@))
            == default_config(home),
        apply_ini_line(
            default_config(home),
            setting_line("content_url"@, CONTENT_URL_PRIMARY@ + ","@ + CONTENT_URL_MIRROR@),
        ) == default_config(home),
{
    let d = default_config(home);
    lemma_setting_names();
    lemma_default_addresses();
    reveal_strlit("search_url");
    reveal_strlit("catalog_url");
    reveal_strlit("content_url");
    reveal_strlit(",");
    assert(","@ =~= seq![',']);
    let sv = SEARCH_URL_PRIMARY@ + ","@ + SEARCH_URL_MIRROR@;
    let cv = CONTENT_URL_PRIMARY@ + ","@ + CONTENT_URL_MIRROR@;
    assert(sv[0] == SEARCH_URL_PRIMARY@[0]);
    assert(sv.last() == SEARCH_URL_MIRROR@.last());
    assert(cv[0] == CONTENT_URL_PRIMARY@[0]);
    assert(cv.last() == CONTENT_URL_MIRROR@.last());
    lemma_trim_plain(SEARCH_URL_PRIMARY@);
    lemma_trim_plain(SEARCH_URL_MIRROR@);
    lemma_trim_plain(CONTENT_URL_PRIMARY@);
    lemma_trim_plain(CONTENT_URL_MIRROR@);
    lemma_setting_line(d, "search_url"@, sv);
    lemma_setting_line(d, "catalog_url"@, CATALOG_URL@);
    lemma_setting_line(d, "content_url"@, cv);
    lemma_comma_pair(SEARCH_URL_PRIMARY@, SEARCH_URL_MIRROR@);
    lemma_comma_pair(CONTENT_URL_PRIMARY@, CONTENT_URL_MIRROR@);
}

/// Each line of the default `config.ini` leaves the default settings as
/// they are.
proof fn lemma_default_lines_keep(home: Seq<char>)
    ensures
        forall|k: int|
            0 <= k < default_ini_lines().len() ==> apply_ini_line(
                default_config(home),
                #[trigger] default_ini_lines()[k],
            ) == default_config(home),
{
    let d = default_config(home);
    let ls = default_ini_lines();
    lemma_default_settings_keep(home);
    lemma_default_addresses_keep(home);
    reveal_strlit("# 番茄小说下载器配置");
    reveal_strlit("[download]");
    reveal_strlit("[cache]");
    reveal_strlit("[api]");
    reveal_strlit("# 搜索API(逗号分隔,从前往后尝试,{}会被关键词和页码替换)");
    reveal_strlit("# 目录API");
    reveal_strlit("# 内容API(逗号分隔)");
    lemma_neutral_line(d, "# 番茄小说下载器配置"@);
    lemma_neutral_line(d, "[download]"@);
    lemma_neutral_line(d, "[cache]"@);
    lemma_neutral_line(d, "[api]"@);
    lemma_neutral_line(d, "# 搜索API(逗号分隔,从前往后尝试,{}会被关键词和页码替换)"@);
    lemma_neutral_line(d, "# 目录API"@);
    lemma_neutral_line(d, "# 内容API(逗号分隔)"@);
    assert(trim(Seq::<char>::empty()) =~= Seq::<char>::empty());
    assert forall|k: int| 0 <= k < ls.len() implies apply_ini_line(d, #[trigger] ls[k]) == d by {
        if k == 7 || k == 11 {
            assert(ls[k] =~= Seq::<char>::empty());
        }
    }
}

/// No line of the default `config.ini` holds a line break or ends with
/// `'\r'`.
proof fn lemma_default_lines_plain()
    ensures
        forall|k: int|
            0 <= k < default_ini_lines().len() ==> lacks(#[trigger] default_ini_lines()[k], '\n')
                && strip_cr(default_ini_lines()[k]) == default_ini_lines()[k],
{
    let ls = default_ini_lines();
    lemma_default_addresses();
    lemma_setting_names();
    reveal_strlit("# 番茄小说下载器配置");
    reveal_strlit("[download]");
    reveal_strlit("[cache]");
    reveal_strlit("[api]");
    reveal_strlit("# 搜索API(逗号分隔,从前往后尝试,{}会被关键词和页码替换)");
    reveal_strlit("# 目录API");
    reveal_strlit("# 内容API(逗号分隔)");
    reveal_strlit("concurrent");
    reveal_strlit("format");
    reveal_strlit("output_dir");
    reveal_strlit("filename_template");
    reveal_strlit("verbose");
    reveal_strlit("cache_enabled");
    reveal_strlit("cache_ttl");
    reveal_strlit("search_url");
    reveal_strlit("catalog_url");
    reveal_strlit("content_url");
    reveal_strlit("4");
    reveal_strlit("txt");
    reveal_strlit(".");
    reveal_strlit("{idx04}_{title}");
    reveal_strlit("false");
    reveal_strlit("true");
    reveal_strlit("86400");
    reveal_strlit(",");
    reveal_strlit(" = ");
    assert forall|k: int| 0 <= k < ls.len() implies lacks(#[trigger] ls[k], '\n') && strip_cr(ls[k])
        == ls[k] by {
        let l = ls[k];
        assert forall|i: int| 0 <= i < l.len() implies #[trigger] l[i] != '\n' by {
            if k == 14 {
                let a = SEARCH_URL_PRIMARY@;
                let b = SEARCH_URL_MIRROR@;
                let n = "search_url"@.len() + 3;
                if i >= n && i < n + a.len() {
                    assert(l[i] == a[i - n]);
                } else if i >= n + a.len() + 1 {
                    assert(l[i] == b[i - n - a.len() - 1]);
                }
            } else if k == 16 {
                let n = "catalog_url"@.len() + 3;
                if i >= n {
                    assert(l[i] == CATALOG_URL@[i - n]);
                }
            } else if k == 18 {
                let a = CONTENT_URL_PRIMARY@;
                let b = CONTENT_URL_MIRROR@;
                let n = "content_url"@.len() + 3;
                if i >= n && i < n + a.len() {
                    assert(l[i] == a[i - n]);
                } else if i >= n + a.len() + 1 {
                    assert(l[i] == b[i - n - a.len() - 1]);
                }
            }
        }
    }
}

/// Lines that each leave the settings as they are leave them so all
/// together.
proof fn lemma_lines_keep(cfg: ConfigView, ls: Seq<Seq<char>>)
    requires
        forall|k: int| 0 <= k < ls.len() ==> apply_ini_line(cfg, #[trigger] ls[k]) == cfg,
    ensures
        apply_ini_lines(cfg, ls) == cfg,
    decreases ls.len(),
{
    if ls.len() > 0 {
        assert forall|k: int| 0 <= k < ls.drop_last().len() implies apply_ini_line(
            cfg,
            #[trigger] ls.drop_last()[k],
        ) == cfg by {
            assert(ls.drop_last()[k] == ls[k]);
        }
        lemma_lines_keep(cfg, ls.drop_last());
        assert(apply_ini_line(cfg, ls[ls.len() - 1]) == cfg);
    }
}

/// Loading the `config.ini` that is written when there is none gives the
/// default settings: each of its lines restates a default.
pub proof fn default_ini_loads_as_defaults(home: Seq<char>)
    ensures
        loaded_config(home, Some(text_of_lines(default_ini_lines()))) == default_config(home),
{
    let ls = default_ini_lines();
    lemma_default_lines_plain();
    lemma_lines_of_text(ls);
    lemma_default_lines_keep(home);
    lemma_lines_keep(default_config(home), ls);
}

/// A setting's value as it can stand in a `key = value` line: not empty,
/// with no whitespace at either end and no line break.
pub open spec fn plain_value(v: Seq<char>) -> bool {
    &&& v.len() > 0
    &&& !is_ws(v[0])
    &&& !is_ws(v.last())
    &&& lacks(v, '\n')
}

/// A setting name that a `key = value` line can hold.
spec fn plain_key(k: Seq<char>) -> bool {
    &&& k.len() > 0
    &&& !is_ws(k[0])
    &&& !is_ws(k.last())
    &&& lacks(k, '=')
    &&& lacks(k, '\n')
    &&& k[0] != '['
    &&& k[0] != '#'
}

/// A `config.ini` of the one line `k = v` applies that setting to the
/// defaults.
proof fn lemma_one_line(home: Seq<char>, k: Seq<char>, v: Seq<char>)
    requires
        plain_key(k),
        plain_value(v),
    ensures
        loaded_config(home, Some(text_of_lines(seq![setting_line(k, v)]))) == apply_setting(
            default_config(home),
            k,
            v,
        ),
{
    reveal_strlit(" = ");
    let l = setting_line(k, v);
    assert(lacks(l, '\n')) by {
        assert forall|i: int| 0 <= i < l.len() implies #[trigger] l[i] != '\n' by {
            if i < k.len() {
                assert(l[i] == k[i]);
            } else if i >= k.len() + 3 {
                assert(l[i] == v[i - k.len() - 3]);
            }
        }
    }
    assert(l.last() == v.last());
    assert(v.last() != '\r');
    assert(strip_cr(l) == l);
    assert(seq![l][0] == l);
    lemma_lines_of_text(seq![l]);
    lemma_setting_line(default_config(home), k, v);
    let d = default_config(home);
    assert(seq![l].drop_last() =~= Seq::<Seq<char>>::empty());
    assert(seq![l].last() == l);
    assert(apply_ini_lines(d, Seq::<Seq<char>>::empty()) == d);
    assert(apply_ini_lines(d, seq![l]) == apply_ini_line(d, l));
    assert(lines(text_of_lines(seq![l])) == seq![l]);
}

/// The setting names are names a line can hold.
proof fn lemma_setting_names_plain()
    ensures
        plain_key("concurrent"@),
        plain_key("format"@),
        plain_key("output_dir"@),
        plain_key("filename_template"@),
        plain_key("verbose"@),
        plain_key("cache_enabled"@),
        plain_key("cache_ttl"@),
        plain_key("search_url"@),
        plain_key("catalog_url"@),
        plain_key("content_url"@),
{
    reveal_strlit("concurrent");
    reveal_strlit("format");
    reveal_strlit("output_dir");
    reveal_strlit("filename_template");
    reveal_strlit("verbose");
    reveal_strlit("cache_enabled");
    reveal_strlit("cache_ttl");
    reveal_strlit("search_url");
    reveal_strlit("catalog_url");
    reveal_strlit("content_url");
}

/// A line `k = v` for a text setting sets that setting to `v`, whatever
/// `v` is, and changes no other: the format, the output directory, the
/// file-name template and the catalog address take `v` itself, the search
/// and content addresses the comma-separated list in `v`.
pub proof fn text_setting_line_sets_it(home: Seq<char>, v: Seq<char>)
    requires
        plain_value(v),
    ensures
        loaded_config(home, Some(text_of_lines(seq![setting_line("format"@, v)])))
            == (ConfigView { format: v, ..default_config(home) }),
        loaded_config(home, Some(text_of_lines(seq![setting_line("output_dir"@, v)])))
            == (ConfigView { output_dir: v, ..default_config(home) }),
        loaded_config(home, Some(text_of_lines(seq![setting_line("filename_template"@, v)])))
            == (ConfigView { filename_template: v, ..default_config(home) }),
        loaded_config(home, Some(text_of_lines(seq![setting_line("catalog_url"@, v)])))
            == (ConfigView { catalog_url: v, ..default_config(home) }),
        loaded_config(home, Some(text_of_lines(seq![setting_line("search_url"@, v)])))
            == (ConfigView { search_urls: comma_list(v), ..default_config(home) }),
        loaded_config(home, Some(text_of_lines(seq![setting_line("content_url"@, v)])))
            == (ConfigView { content_urls: comma_list(v), ..default_config(home) }),
{
    lemma_setting_names_plain();
    lemma_setting_names();
    lemma_one_line(home, "format"@, v);
    lemma_one_line(home, "output_dir"@, v);
    lemma_one_line(home, "filename_template"@, v);
    lemma_one_line(home, "catalog_url"@, v);
    lemma_one_line(home, "search_url"@, v);
    lemma_one_line(home, "content_url"@, v);
}

/// A line giving the number of concurrent downloads or the cache's
/// lifetime in decimal sets it to that number, and changes no other
/// setting.
pub proof fn number_setting_line_sets_it(home: Seq<char>, n: usize, ttl: u64)
    ensures
        loaded_config(home, Some(text_of_lines(seq![setting_line("concurrent"@, decimal(n as nat))])))
            == (ConfigView { concurrent: n, ..default_config(home) }),
        loaded_config(home, Some(text_of_lines(seq![setting_line("cache_ttl"@, decimal(ttl as nat))])))
            == (ConfigView { cache_ttl: ttl, ..default_config(home) }),
{
    lemma_setting_names_plain();
    lemma_setting_names();
    lemma_usize_of_decimal(n);
    lemma_usize_of_decimal(ttl as usize);
    lemma_decimal_numeral(n as nat);
    lemma_decimal_numeral(ttl as nat);
    let dn = decimal(n as nat);
    let dt = decimal(ttl as nat);
    assert(lacks(dn, '\n')) by {
        assert forall|i: int| 0 <= i < dn.len() implies #[trigger] dn[i] != '\n' by {
            assert(is_digit(dn[i]));
        }
    }
    assert(lacks(dt, '\n')) by {
        assert forall|i: int| 0 <= i < dt.len() implies #[trigger] dt[i] != '\n' by {
            assert(is_digit(dt[i]));
        }
    }
    assert(is_digit(dt[0]) && is_digit(dt[dt.len() - 1]));
    assert(!is_ws(dt[0]) && !is_ws(dt.last()));
    assert(dt[0] != '+');
    lemma_one_line(home, "concurrent"@, dn);
    lemma_one_line(home, "cache_ttl"@, dt);
}

/// `verbose = true` turns on detailed output and `cache_enabled = false`
/// turns off the cache, each changing no other setting.
pub proof fn switch_setting_lines_set_them(home: Seq<char>)
    ensures
        loaded_config(home, Some(text_of_lines(seq![setting_line("verbose"@, "true"@)])))
            == (ConfigView { verbose: true, ..default_config(home) }),
        loaded_config(home, Some(text_of_lines(seq![setting_line("cache_enabled"@, "false"@)])))
            == (ConfigView { cache_enabled: false, ..default_config(home) }),
{
    lemma_setting_names_plain();
    lemma_setting_names();
    reveal_strlit("true");
    reveal_strlit("false");
    assert(lacks("true"@, '\n'));
    assert(lacks("false"@, '\n'));
    lemma_one_line(home, "verbose"@, "true"@);
    lemma_one_line(home, "cache_enabled"@, "false"@);
}

/// The directory of the settings and the bookshelf, under `home`.
pub fn config_dir(home: &str) -> (res: String)
    ensures
        res@ == join_path(home@, ".config/fqdt"@),
{
    join_path_str(home, ".config/fqdt")
}

/// The path of `config.ini` under `home`.
pub fn config_path(home: &str) -> (res: String)
    ensures
        res@ == join_path(home@, ".config/fqdt/config.ini"@),
{
    join_path_str(home, ".config/fqdt/config.ini")
}

/// The path of the bookshelf file under `home`.
pub fn bookmarks_path(home: &str) -> (res: String)
    ensures
        res@ == join_path(home@, ".config/fqdt/books.txt"@),
{
    join_path_str(home, ".config/fqdt/books.txt")
}

/// A `String` with the characters of `s`.
fn owned(s: &str) -> (res: String)
    ensures
        res@ == s@,
{
    s.to_owned()
}

impl Config {
    /// The default settings for the home directory `home`.
    pub fn default_with_home(home: &str) -> (res: Config)
        ensures
            res@ == default_config(home@),
    {
        let search_urls = vec![owned(SEARCH_URL_PRIMARY), owned(SEARCH_URL_MIRROR)];
        let content_urls = vec![owned(CONTENT_URL_PRIMARY), owned(CONTENT_URL_MIRROR)];
        let res = Config {
            concurrent: 4,
            format: owned("txt"),
            output_dir: owned("."),
            filename_template: owned("{idx04}_{title}"),
            verbose: false,
            cache_enabled: true,
            cache_dir: join_path_str(home, ".config/fqdt/cache"),
            cache_ttl: 86400,
            bookmark_file: join_path_str(home, ".config/fqdt/books.txt"),
            search_urls,
            catalog_url: owned(CATALOG_URL),
            content_urls,
        };
        proof {
            assert(texts(res.search_urls@) =~= seq![SEARCH_URL_PRIMARY@, SEARCH_URL_MIRROR@]);
            assert(texts(res.content_urls@) =~= seq![CONTENT_URL_PRIMARY@, CONTENT_URL_MIRROR@]);
        }
        res
    }

    /// Applies one setting with trimmed key `k` and trimmed value `v`.
    fn apply_setting(&mut self, k: &Vec<char>, v: &Vec<char>)
        ensures
            final(self)@ == apply_setting(old(self)@, k@, v@),
    {
        if chars_eq_str(k, "concurrent") {
            self.concurrent = match parse_usize(v) {
                Some(n) => n,
                None => 4,
            };
        } else if chars_eq_str(k, "format") {
            self.format = string_of(v);
        } else if chars_eq_str(k, "output_dir") {
            self.output_dir = string_of(v);
        } else if chars_eq_str(k, "filename_template") {
            self.filename_template = string_of(v);
        } else if chars_eq_str(k, "verbose") {
            self.verbose = chars_eq_str(v, "true");
        } else if chars_eq_str(k, "cache_enabled") {
            self.cache_enabled = !chars_eq_str(v, "false");
        } else if chars_eq_str(k, "cache_ttl") {
            self.cache_ttl = match parse_u64(v, u64::MAX) {
                Some(n) => n,
                None => 86400,
            };
        } else if chars_eq_str(k, "search_url") {
            let list = comma_list_of(v);
            proof {
                assert(texts(list@) =~= comma_list(v@));
            }
            self.search_urls = list;
        } else if chars_eq_str(k, "catalog_url") {
            self.catalog_url = string_of(v);
        } else if chars_eq_str(k, "content_url") {
            let list = comma_list_of(v);
            proof {
                assert(texts(list@) =~= comma_list(v@));
            }
            self.content_urls = list;
        }
    }

    /// Applies one line of `config.ini`.
    fn apply_ini_line(&mut self, line: &Vec<char>)
        ensures
            final(self)@ == apply_ini_line(old(self)@, line@),
    {
        let t = trim_chars(line);
        if t.len() == 0 || t[0] == '[' || t[0] == '#' {
            return;
        }
        match split_once_chars(&t, '=') {
            Some((k, v)) => {
                let kt = trim_chars(&k);
                let vt = trim_chars(&v);
                self.apply_setting(&kt, &vt);
            },
            None => {},
        }
    }

    /// The settings for the home directory `home`, given the text of
    /// `config.ini` when it could be read.
    pub fn load(home: &str, ini: Option<&str>) -> (res: Config)
        ensures
            res@ == loaded_config(
                home@,
                match ini {
                    Some(t) => Some(t@),
                    None => None,
                },
            ),
    {
        let mut cfg = Config::default_with_home(home);
        match ini {
            None => cfg,
            Some(text) => {
                let chars = chars_of(text);
                let ls = split_lines(&chars);
                let ghost lv = lines(chars@);
                let n = ls.len();
                let mut i: usize = 0;
                proof {
                    assert(lv.take(0) =~= Seq::<Seq<char>>::empty());
                }
                while i < n
                    invariant
                        n == ls@.len() == lv.len(),
                        lv == lines(text@),
                        forall|k: int| 0 <= k < n ==> #[trigger] ls@[k]@ == lv[k],
                        i <= n,
                        cfg@ == apply_ini_lines(default_config(home@), lv.take(i as int)),
                    decreases n - i,
                {
                    cfg.apply_ini_line(&ls[i]);
                    proof {
                        assert(lv.take(i + 1).drop_last() =~= lv.take(i as int));
                        assert(lv.take(i + 1).last() == lv[i as int]);
                    }
                    i += 1;
                }
                proof {
                    assert(lv.take(n as int) =~= lv);
                }
                cfg
            },
        }
    }

    /// Overrides the service addresses given on the command line: the
    /// search and content addresses are comma-separated lists.
    pub fn apply_cli_overrides(
        &mut self,
        search_url: Option<&str>,
        catalog_url: Option<&str>,
        content_url: Option<&str>,
    )
        ensures
            final(self)@ == (ConfigView {
                search_urls: match search_url {
                    Some(v) => comma_list(v@),
                    None => old(self)@.search_urls,
                },
                catalog_url: match catalog_url {
                    Some(v) => v@,
                    None => old(self)@.catalog_url,
                },
                content_urls: match content_url {
                    Some(v) => comma_list(v@),
                    None => old(self)@.content_urls,
                },
                ..old(self)@
            }),
    {
        if let Some(v) = search_url {
            let list = comma_list_of(&chars_of(v));
            proof {
                assert(texts(list@) =~= comma_list(v@));
            }
            self.search_urls = list;
        }
        if let Some(v) = catalog_url {
            self.catalog_url = owned(v);
        }
        if let Some(v) = content_url {
            let list = comma_list_of(&chars_of(v));
            proof {
                assert(texts(list@) =~= comma_list(v@));
            }
            self.content_urls = list;
        }
    }
}

// ---------------------------------------------------------------------------
// The bookshelf: one `id:title` line per book
// ---------------------------------------------------------------------------

/// The book that a line of the bookshelf file names, if any: a line that
/// is not blank, split at its first `:` into id and title, both trimmed.
pub open spec fn bookmark_of_line(line: Seq<char>) -> Option<(Seq<char>, Seq<char>)> {
    let t = trim(line);
    if t.len() == 0 {
        None
    } else {
        match split_once(t, ':') {
            Some((a, b)) => Some((trim(a), trim(b))),
            None => None,
        }
    }
}

/// The books that the lines `ls` name, in order.
pub open spec fn bookmarks_in(ls: Seq<Seq<char>>) -> Seq<(Seq<char>, Seq<char>)>
    decreases ls.len(),
{
    if ls.len() == 0 {
        seq![]
    } else {
        match bookmark_of_line(ls.last()) {
            Some(b) => bookmarks_in(ls.drop_last()).push(b),
            None => bookmarks_in(ls.drop_last()),
        }
    }
}

/// The books on a bookshelf file with text `text`.
pub open spec fn bookmarks(text: Seq<char>) -> Seq<(Seq<char>, Seq<char>)> {
    bookmarks_in(lines(text))
}

/// The line that records the book `id` with title `title`.
pub open spec fn bookmark_line(id: Seq<char>, title: Seq<char>) -> Seq<char> {
    id + seq![':'] + title + seq!['\n']
}

/// The bookshelf file that records the books `bs`, in order.
pub open spec fn bookmarks_text(bs: Seq<(Seq<char>, Seq<char>)>) -> Seq<char>
    decreases bs.len(),
{
    if bs.len() == 0 {
        seq![]
    } else {
        bookmarks_text(bs.drop_last()) + bookmark_line(bs.last().0, bs.last().1)
    }
}

/// The texts of a list of (id, title) pairs.
pub open spec fn pair_texts(v: Seq<(String, String)>) -> Seq<(Seq<char>, Seq<char>)> {
    v.map_values(|p: (String, String)| (p.0@, p.1@))
}

/// The books (id, title) on the bookshelf file whose text is `text`.
pub fn load_bookmarks(text: &str) -> (res: Vec<(String, String)>)
    ensures
        pair_texts(res@) == bookmarks(text@),
{
    let chars = chars_of(text);
    let ls = split_lines(&chars);
    let ghost lv = lines(chars@);
    let mut out: Vec<(String, String)> = Vec::new();
    let n = ls.len();
    let mut i: usize = 0;
    proof {
        assert(lv.take(0) =~= Seq::<Seq<char>>::empty());
        assert(pair_texts(out@) =~= Seq::<(Seq<char>, Seq<char>)>::empty());
    }
    while i < n
        invariant
            n == ls@.len() == lv.len(),
            lv == lines(text@),
            forall|k: int| 0 <= k < n ==> #[trigger] ls@[k]@ == lv[k],
            i <= n,
            pair_texts(out@) == bookmarks_in(lv.take(i as int)),
        decreases n - i,
    {
        let t = trim_chars(&ls[i]);
        proof {
            assert(lv.take(i + 1).drop_last() =~= lv.take(i as int));
            assert(lv.take(i + 1).last() == lv[i as int]);
        }
        if t.len() > 0 {
            match split_once_chars(&t, ':') {
                Some((a, b)) => {
                    let id = string_of(&trim_chars(&a));
                    let title = string_of(&trim_chars(&b));
                    let ghost before = out@;
                    out.push((id, title));
                    proof {
                        assert(pair_texts(out@) =~= pair_texts(before).push((id@, title@)));
                    }
                },
                None => {},
            }
        }
        i += 1;
    }
    proof {
        assert(lv.take(n as int) =~= lv);
    }
    out
}

/// The bookshelf text `text` with the book `id` titled `title` recorded
/// at its end.
pub fn add_bookmark(text: &str, id: &str, title: &str) -> (res: String)
    ensures
        res@ == text@ + bookmark_line(id@, title@),
{
    let mut out = chars_of(text);
    push_str(&mut out, id);
    out.push(':');
    push_str(&mut out, title);
    out.push('\n');
    proof {
        assert(out@ =~= text@ + bookmark_line(id@, title@));
    }
    string_of(&out)
}

/// Appends the line of book `b` to `out`.
fn push_bookmark_line(out: &mut Vec<char>, b: &(String, String))
    ensures
        final(out)@ == old(out)@ + bookmark_line(b.0@, b.1@),
{
    let ghost start = out@;
    push_all(out, &chars_of(b.0.as_str()));
    out.push(':');
    push_all(out, &chars_of(b.1.as_str()));
    out.push('\n');
    proof {
        assert(final(out)@ =~= start + bookmark_line(b.0@, b.1@));
    }
}

/// The bookshelf text `text` without its `idx`-th book (counted from 1),
/// written anew; an error when there is no such book.
pub fn remove_bookmark(text: &str, idx: usize) -> (res: Result<String, String>)
    ensures
        ({
            let bs = bookmarks(text@);
            if idx == 0 || idx > bs.len() {
                res matches Err(e) && e@ == "无效编号"@
            } else {
                res matches Ok(t) && t@ == bookmarks_text(bs.remove(idx - 1))
            }
        }),
{
    let books = load_bookmarks(text);
    let ghost bs = bookmarks(text@);
    let n = books.len();
    if idx == 0 || idx > n {
        return Err(owned("无效编号"));
    }
    let k = idx - 1;
    let ghost kept = bs.remove(k as int);
    let mut out: Vec<char> = Vec::new();
    let mut i: usize = 0;
    proof {
        assert(kept.take(0) =~= Seq::<(Seq<char>, Seq<char>)>::empty());
    }
    while i < k
        invariant
            n == books@.len() == bs.len(),
            pair_texts(books@) == bs,
            k < n,
            kept == bs.remove(k as int),
            i <= k,
            out@ == bookmarks_text(kept.take(i as int)),
        decreases k - i,
    {
        push_bookmark_line(&mut out, &books[i]);
        proof {
            assert(kept.take(i + 1).drop_last() =~= kept.take(i as int));
            assert(kept[i as int] == bs[i as int]);
            assert(bs[i as int] == (books@[i as int].0@, books@[i as int].1@));
        }
        i += 1;
    }
    i = k + 1;
    while i < n
        invariant
            n == books@.len() == bs.len(),
            pair_texts(books@) == bs,
            k < n,
            kept == bs.remove(k as int),
            k + 1 <= i <= n,
            out@ == bookmarks_text(kept.take(i - 1)),
        decreases n - i,
    {
        push_bookmark_line(&mut out, &books[i]);
        proof {
            assert(kept.take(i as int).drop_last() =~= kept.take(i - 1));
            assert(kept[i - 1] == bs[i as int]);
            assert(bs[i as int] == (books@[i as int].0@, books@[i as int].1@));
        }
        i += 1;
    }
    proof {
        assert(kept.take(n - 1) =~= kept);
    }
    Ok(string_of(&out))
}

/// The book that the argument `arg` of adding to the shelf names: id and
/// title, split at the first `:`.
pub fn book_of_argument(arg: &str) -> (res: Option<(String, String)>)
    ensures
        match res {
            Some((id, title)) => split_once(arg@, ':') == Some((id@, title@)),
            None => split_once(arg@, ':') is None,
        },
{
    match split_once_chars(&chars_of(arg), ':') {
        Some((a, b)) => Some((string_of(&a), string_of(&b))),
        None => None,
    }
}

/// Whether the shelf file can record the book `id` titled `title` on a
/// line of its own: no line break in either, no `:` in the id.
pub open spec fn recordable(id: Seq<char>, title: Seq<char>) -> bool {
    lacks(id, ':') && lacks(id, '\n') && lacks(title, '\n')
}

/// Whether `(id, title)` is as the shelf file gives books back: recordable
/// and already trimmed.
pub open spec fn shelf_entry(b: (Seq<char>, Seq<char>)) -> bool {
    recordable(b.0, b.1) && trim(b.0) == b.0 && trim(b.1) == b.1
}

/// The line of a book reads back as that book, trimmed.
proof fn lemma_bookmark_line(id: Seq<char>, title: Seq<char>)
    requires
        recordable(id, title),
    ensures
        lines(bookmark_line(id, title)) == seq![strip_cr(id + seq![':'] + title)],
        bookmark_of_line(strip_cr(id + seq![':'] + title)) == Some((trim(id), trim(title))),
{
    let x = id + seq![':'] + title;
    assert(lacks(x, '\n')) by {
        assert forall|i: int| 0 <= i < x.len() implies #[trigger] x[i] != '\n' by {
            if i < id.len() {
                assert(x[i] == id[i]);
            } else if i > id.len() {
                assert(x[i] == title[i - id.len() - 1]);
            }
        }
    }
    assert(bookmark_line(id, title) =~= x.push('\n'));
    lemma_single_line(x, seq![]);
    assert(Seq::<char>::empty() + x =~= x);
    let t2 = if title.len() > 0 && title.last() == '\r' {
        title.drop_last()
    } else {
        title
    };
    assert(strip_cr(x) =~= id + seq![':'] + t2);
    if title.len() > 0 && title.last() == '\r' {
        lemma_trim_drop_ws_last(title);
    }
    assert(trim(t2) == trim(title));
    let ts = trim_start(id);
    let tail = seq![':'] + t2;
    assert(id + seq![':'] + t2 =~= id + tail);
    lemma_trim_start_concat(id, tail);
    assert(ts + tail =~= (ts + seq![':']) + t2);
    lemma_trim_end_concat(ts + seq![':'], t2);
    let w = (ts + seq![':']) + trim_end(t2);
    assert(trim(strip_cr(x)) == w);
    lemma_trim_lacks(id, ':');
    assert(w[ts.len() as int] == ':');
    assert forall|j: int| 0 <= j < ts.len() implies w[j] != ':' by {
        assert(w[j] == ts[j]);
    }
    lemma_find_unique(w, ':', ts.len() as int);
    assert(w.take(ts.len() as int) =~= ts);
    assert(w.skip(ts.len() as int + 1) =~= trim_end(t2));
    lemma_trim_start_head(id);
    lemma_trim_after_trim_end(t2);
}

/// The books read back from a shelf file are recorded as they can be
/// written again.
#[verifier::spinoff_prover]
proof fn lemma_read_books_are_entries(ls: Seq<Seq<char>>)
    requires
        forall|k: int| 0 <= k < ls.len() ==> lacks(#[trigger] ls[k], '\n'),
    ensures
        forall|k: int| 0 <= k < bookmarks_in(ls).len() ==> shelf_entry(#[trigger] bookmarks_in(ls)[k]),
    decreases ls.len(),
{
    if ls.len() > 0 {
        let line = ls.last();
        assert(lacks(line, '\n'));
        assert forall|k: int| 0 <= k < ls.drop_last().len() implies lacks(
            #[trigger] ls.drop_last()[k],
            '\n',
        ) by {
            assert(ls.drop_last()[k] == ls[k]);
        }
        lemma_read_books_are_entries(ls.drop_last());
        let t = trim(line);
        match bookmark_of_line(line) {
            Some(b) => {
                lemma_trim_lacks(line, '\n');
                lemma_find(t, ':');
                let k = find(t, ':')->0;
                let a = t.take(k);
                let c = t.skip(k + 1);
                assert(lacks(a, ':')) by {
                    assert forall|j: int| 0 <= j < a.len() implies #[trigger] a[j] != ':' by {
                        assert(a[j] == t[j]);
                    }
                }
                assert(lacks(a, '\n')) by {
                    assert forall|j: int| 0 <= j < a.len() implies #[trigger] a[j] != '\n' by {
                        assert(a[j] == t[j]);
                    }
                }
                assert(lacks(c, '\n')) by {
                    assert forall|j: int| 0 <= j < c.len() implies #[trigger] c[j] != '\n' by {
                        assert(c[j] == t[j + k + 1]);
                    }
                }
                lemma_trim_lacks(a, ':');
                lemma_trim_lacks(a, '\n');
                lemma_trim_lacks(c, '\n');
                lemma_trim_idempotent(a);
                lemma_trim_idempotent(c);
                assert(b == (trim(a), trim(c)));
                assert(shelf_entry(b));
                let prev = bookmarks_in(ls.drop_last());
                assert(bookmarks_in(ls) == prev.push(b));
                assert forall|j: int| 0 <= j < bookmarks_in(ls).len() implies shelf_entry(
                    #[trigger] bookmarks_in(ls)[j],
                ) by {
                    if j < prev.len() {
                        assert(bookmarks_in(ls)[j] == prev[j]);
                    }
                }
            },
            None => {
                assert(bookmarks_in(ls) == bookmarks_in(ls.drop_last()));
            },
        }
    }
}

/// Adding a book at the end of a shelf file, then reading the file, gives
/// the books read before followed by the new one (trimmed), whenever the
/// file was empty or ended its last line and the book can be recorded.
pub proof fn shelf_add_then_load(text: Seq<char>, id: Seq<char>, title: Seq<char>)
    requires
        text.len() == 0 || text.last() == '\n',
        recordable(id, title),
    ensures
        bookmarks(text + bookmark_line(id, title)) == bookmarks(text).push((trim(id), trim(title))),
{
    let l = bookmark_line(id, title);
    lemma_bookmark_line(id, title);
    let ls = lines(text);
    if text.len() == 0 {
        assert(text + l =~= l);
        assert(ls =~= Seq::<Seq<char>>::empty());
        assert(lines(text + l) =~= ls + lines(l));
    } else {
        lemma_lines_concat(text, l, seq![]);
    }
    let all = ls + lines(l);
    assert(all =~= ls.push(strip_cr(id + seq![':'] + title)));
    assert(all.drop_last() =~= ls);
}

/// The shelf file written for some books ends its last line.
proof fn lemma_shelf_text_ends(cs: Seq<(Seq<char>, Seq<char>)>)
    ensures
        bookmarks_text(cs).len() == 0 || bookmarks_text(cs).last() == '\n',
{
    if cs.len() > 0 {
        let l = bookmark_line(cs.last().0, cs.last().1);
        assert((bookmarks_text(cs.drop_last()) + l).last() == l.last());
    }
}

/// Writing books that are shelf entries and reading them back gives the
/// same books.
pub proof fn shelf_write_then_load(cs: Seq<(Seq<char>, Seq<char>)>)
    requires
        forall|k: int| 0 <= k < cs.len() ==> shelf_entry(#[trigger] cs[k]),
    ensures
        bookmarks(bookmarks_text(cs)) == cs,
    decreases cs.len(),
{
    if cs.len() == 0 {
        assert(lines(Seq::<char>::empty()) =~= Seq::<Seq<char>>::empty());
    } else {
        let init = cs.drop_last();
        assert forall|k: int| 0 <= k < init.len() implies shelf_entry(#[trigger] init[k]) by {
            assert(init[k] == cs[k]);
        }
        shelf_write_then_load(init);
        lemma_shelf_text_ends(init);
        let b = cs.last();
        assert(shelf_entry(cs[cs.len() - 1]));
        shelf_add_then_load(bookmarks_text(init), b.0, b.1);
        assert(init.push(b) =~= cs);
    }
}

/// Removing book number `idx` (counted from 1) rewrites the shelf so that
/// it reads back as the other books, in their order.
pub proof fn shelf_remove_then_load(text: Seq<char>, idx: int)
    requires
        1 <= idx <= bookmarks(text).len(),
    ensures
        bookmarks(bookmarks_text(bookmarks(text).remove(idx - 1))) == bookmarks(text).remove(
            idx - 1,
        ),
{
    let bs = bookmarks(text);
    lemma_lines_lack_newline(text, seq![]);
    lemma_read_books_are_entries(lines(text));
    let kept = bs.remove(idx - 1);
    assert forall|k: int| 0 <= k < kept.len() implies shelf_entry(#[trigger] kept[k]) by {
        if k < idx - 1 {
            assert(kept[k] == bs[k]);
        } else {
            assert(kept[k] == bs[k + 1]);
        }
    }
    shelf_write_then_load(kept);
}

} // verus!

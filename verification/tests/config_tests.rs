use fqdt::config::{
    add_bookmark, book_of_argument, bookmarks_path, config_path, default_ini, join_path_str,
    load_bookmarks, remove_bookmark,
};
use fqdt::types::Config;

fn same(a: &Config, b: &Config) -> bool {
    a.concurrent == b.concurrent
        && a.format == b.format
        && a.output_dir == b.output_dir
        && a.filename_template == b.filename_template
        && a.verbose == b.verbose
        && a.cache_enabled == b.cache_enabled
        && a.cache_dir == b.cache_dir
        && a.cache_ttl == b.cache_ttl
        && a.bookmark_file == b.bookmark_file
        && a.search_urls == b.search_urls
        && a.catalog_url == b.catalog_url
        && a.content_urls == b.content_urls
}

#[test]
fn defaults() {
    let c = Config::default_with_home("/home/u");
    assert_eq!(c.concurrent, 4);
    assert_eq!(c.format, "txt");
    assert_eq!(c.output_dir, ".");
    assert_eq!(c.filename_template, "{idx04}_{title}");
    assert!(!c.verbose);
    assert!(c.cache_enabled);
    assert_eq!(c.cache_dir, "/home/u/.config/fqdt/cache");
    assert_eq!(c.cache_ttl, 86400);
    assert_eq!(c.bookmark_file, "/home/u/.config/fqdt/books.txt");
    assert_eq!(c.search_urls.len(), 2);
    assert_eq!(c.content_urls.len(), 2);
    assert_eq!(c.catalog_url, "https://fanqienovel.com/api/reader/directory/detail?bookId={}");
}

#[test]
fn generated_ini_loads_as_the_defaults() {
    let loaded = Config::load("/h", Some(&default_ini()));
    assert!(same(&loaded, &Config::default_with_home("/h")));
}

#[test]
fn generated_ini_text() {
    let expected = "\
# 番茄小说下载器配置
[download]
concurrent = 4
format = txt
output_dir = .
filename_template = {idx04}_{title}
verbose = false

[cache]
cache_enabled = true
cache_ttl = 86400

[api]
# 搜索API(逗号分隔,从前往后尝试,{}会被关键词和页码替换)
search_url = https://novel.snssdk.com/api/novel/channel/homepage/search/search/v1/?aid=1967&q={}&offset={},http://101.35.133.34:5000/api/search?key={}&offset={}
# 目录API
catalog_url = https://fanqienovel.com/api/reader/directory/detail?bookId={}
# 内容API(逗号分隔)
content_url = https://tt.sjmyzq.cn/api/raw_full?item_id={},http://101.35.133.34:5000/api/raw_full?item_id={}
";
    assert_eq!(default_ini(), expected);
}

#[test]
fn missing_ini_gives_defaults() {
    assert!(same(&Config::load("/h", None), &Config::default_with_home("/h")));
}

#[test]
fn ini_settings_are_applied() {
    let ini = "[download]\n concurrent = 8 \nformat=epub\n# concurrent = 1\nverbose = true\n\
               cache_enabled = no\ncache_ttl = soon\nsearch_url = a , ,b,\nunknown = 1\nno equals sign\n\
               output_dir = /x = y\r\n";
    let c = Config::load("/h", Some(ini));
    assert_eq!(c.concurrent, 8);
    assert_eq!(c.format, "epub");
    assert!(c.verbose);
    assert!(c.cache_enabled);
    assert_eq!(c.cache_ttl, 86400);
    assert_eq!(c.search_urls, vec!["a".to_string(), "b".to_string()]);
    assert_eq!(c.output_dir, "/x = y");
    let c2 = Config::load("/h", Some("concurrent = lots\ncache_enabled = false\nverbose = yes"));
    assert_eq!(c2.concurrent, 4);
    assert!(!c2.cache_enabled);
    assert!(!c2.verbose);
}

#[test]
fn cli_overrides() {
    let mut c = Config::default_with_home("/h");
    c.apply_cli_overrides(Some("u1, u2"), None, Some(""));
    assert_eq!(c.search_urls, vec!["u1".to_string(), "u2".to_string()]);
    assert_eq!(c.catalog_url, Config::default_with_home("/h").catalog_url);
    assert!(c.content_urls.is_empty());
    c.apply_cli_overrides(None, Some("cat"), None);
    assert_eq!(c.catalog_url, "cat");
    assert_eq!(c.search_urls.len(), 2);
}

#[test]
fn paths() {
    assert_eq!(join_path_str("/a/", "b"), "/a/b");
    assert_eq!(join_path_str("", "b"), "b");
    assert_eq!(join_path_str("/a", "/b"), "/b");
    assert_eq!(config_path("/r"), "/r/.config/fqdt/config.ini");
    assert_eq!(bookmarks_path("/r"), "/r/.config/fqdt/books.txt");
}

#[test]
fn bookmarks_are_read_trimmed() {
    let text = "1:甲\n\n  2 : 乙 \nno colon\n3:a:b\r\n";
    let bs = load_bookmarks(text);
    assert_eq!(
        bs,
        vec![
            ("1".to_string(), "甲".to_string()),
            ("2".to_string(), "乙".to_string()),
            ("3".to_string(), "a:b".to_string())
        ]
    );
}

#[test]
fn add_then_load_appends() {
    let t = add_bookmark("1:甲\n", " 7 ", "七 ");
    assert_eq!(t, "1:甲\n 7 :七 \n");
    let bs = load_bookmarks(&t);
    assert_eq!(bs.last().unwrap(), &("7".to_string(), "七".to_string()));
    assert_eq!(bs.len(), 2);
}

#[test]
fn remove_keeps_the_others() {
    let t = "1:甲\n2:乙\n3:丙\n";
    let r = remove_bookmark(t, 2).unwrap();
    assert_eq!(r, "1:甲\n3:丙\n");
    assert_eq!(load_bookmarks(&r).len(), 2);
    assert_eq!(remove_bookmark(t, 0).err().unwrap(), "无效编号");
    assert_eq!(remove_bookmark(t, 4).err().unwrap(), "无效编号");
    assert_eq!(remove_bookmark(t, 3).unwrap(), "1:甲\n2:乙\n");
}

#[test]
fn shelf_argument_is_split_at_the_first_colon() {
    assert_eq!(book_of_argument("7:书:名"), Some(("7".to_string(), "书:名".to_string())));
    assert_eq!(book_of_argument(":x"), Some((String::new(), "x".to_string())));
    assert_eq!(book_of_argument("no colon"), None);
}

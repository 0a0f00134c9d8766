use fqdt::api::{
    catalog_of_json, content_of_json, parse_catalog, parse_content, parse_search_results,
    search_results_of_json, strip_html, urlencode, Attempt, Client,
};
use fqdt::json::{JsonNumber, JsonValue};

#[test]
fn test_strip_html_paragraphs() {
    let s = "<article><p idx=\"0\">第一段</p><p idx=\"1\">第二段</p></article>";
    let out = strip_html(s);
    assert_eq!(out, "第一段\n\n第二段\n\n");
}

#[test]
fn test_strip_html_br() {
    let s = "第一行<br>第二行";
    let out = strip_html(s);
    assert_eq!(out, "第一行\n第二行");
}

#[test]
fn test_strip_html_entities() {
    let s = "&lt;tag&gt; &amp; &quot;hello&quot;";
    let out = strip_html(s);
    assert_eq!(out, "<tag> & \"hello\"");
}

#[test]
fn test_strip_html_heading() {
    let s = "<h2>标题</h2><p>内容</p>";
    let out = strip_html(s);
    assert_eq!(out, "标题\n\n内容\n\n");
}

#[test]
fn strip_html_plain_text_unchanged() {
    assert_eq!(strip_html("就是一行字 plain text"), "就是一行字 plain text");
}

#[test]
fn strip_html_upper_case_tags_and_unknown_entities() {
    assert_eq!(strip_html("a</P>b<BR/>c&copy;d&nbsp;e</div >f</span>"), "a\n\nbcd e\n\nf");
}

fn s(v: &str) -> JsonValue {
    JsonValue::Str(v.to_string())
}

fn obj(members: Vec<(&str, JsonValue)>) -> JsonValue {
    JsonValue::Object(members.into_iter().map(|(k, v)| (k.to_string(), v)).collect())
}

fn client() -> Client {
    Client::new(
        "/tmp/cache".to_string(),
        true,
        86400,
        vec!["http://a/s?q={}&o={}".to_string(), "http://b/s?k={}&p={}".to_string()],
        "http://c/cat?id={}".to_string(),
        vec!["http://d/c?i={}".to_string(), "http://e/c?i={}".to_string()],
        false,
    )
}

#[test]
fn urlencode_examples() {
    assert_eq!(urlencode("凡人"), "%E5%87%A1%E4%BA%BA");
    assert_eq!(urlencode("a b-c_d.e~f"), "a%20b-c_d.e~f");
    assert_eq!(urlencode("x/y?"), "x%2Fy%3F");
}

#[test]
fn client_new_keeps_settings() {
    let c = client();
    assert_eq!(c.cache_dir, "/tmp/cache");
    assert!(c.cache_enabled);
    assert_eq!(c.cache_ttl, 86400);
    assert_eq!(c.search_urls.len(), 2);
    assert_eq!(c.catalog_url, "http://c/cat?id={}");
    assert!(!c.verbose);
}

#[test]
fn request_addresses() {
    let c = client();
    assert_eq!(c.search_request_url(0, "凡人", 2), "http://a/s?q=%E5%87%A1%E4%BA%BA&o=10");
    assert_eq!(c.search_request_url(1, "a", 0), "http://b/s?k=a&p=0");
    assert_eq!(c.catalog_request_url("123"), "http://c/cat?id=123");
    assert_eq!(c.content_request_url(1, "77"), "http://e/c?i=77");
    assert_eq!(c.catalog_cache_path("9"), "/tmp/cache/cat_9.json");
    assert_eq!(c.content_cache_path("8"), "/tmp/cache/c_8.json");
    assert!(c.cache_is_fresh(10));
    assert!(!c.cache_is_fresh(86400));
}

#[test]
fn fetch_content_tries_addresses_in_order() {
    let c = client();
    match c.fetch_content("5", 0, None) {
        Attempt::Request(u) => assert_eq!(u, "http://d/c?i=5"),
        _ => panic!("expected a request"),
    }
    match c.fetch_content("5", 1, Some(Err("bad".to_string()))) {
        Attempt::Request(u) => assert_eq!(u, "http://e/c?i=5"),
        _ => panic!("expected a request"),
    }
    match c.fetch_content("5", 2, Some(Err("worse".to_string()))) {
        Attempt::Done(Err(e)) => assert_eq!(e, "worse"),
        _ => panic!("expected the last error"),
    }
    match c.fetch_content("5", 1, Some(Ok("text".to_string()))) {
        Attempt::Done(Ok(t)) => assert_eq!(t, "text"),
        _ => panic!("expected the text"),
    }
}

#[test]
fn fetch_content_without_addresses_fails_empty() {
    let mut c = client();
    c.content_urls = vec![];
    match c.fetch_content("5", 0, None) {
        Attempt::Done(Err(e)) => assert_eq!(e, ""),
        _ => panic!("expected an empty error"),
    }
}

#[test]
fn search_steps() {
    let c = client();
    match c.search("书", 1, 0, None) {
        Attempt::Request(u) => assert_eq!(u, "http://a/s?q=%E4%B9%A6&o=0"),
        _ => panic!("expected a request"),
    }
    match c.search("书", 1, 2, Some(Err("无结果".to_string()))) {
        Attempt::Done(Err(e)) => assert_eq!(e, "无结果"),
        _ => panic!("expected the last error"),
    }
}

#[test]
fn search_results_are_read() {
    let item1 = obj(vec![
        ("book_id", s("11")),
        ("title", s("凡人修仙传")),
        ("author", s("忘语")),
        ("creation_status", JsonValue::Number(JsonNumber::PosInt(1))),
    ]);
    let item2 = obj(vec![("title", s("无编号"))]);
    let item3 = obj(vec![("book_id", s("12")), ("score", s("9.1")), ("abstract", s("简介"))]);
    let root = obj(vec![(
        "data",
        obj(vec![("ret_data", JsonValue::Array(vec![item1, item2, item3]))]),
    )]);
    let books = search_results_of_json(&Ok(root)).unwrap();
    assert_eq!(books.len(), 2);
    assert_eq!(books[0].book_id, "11");
    assert_eq!(books[0].title, "凡人修仙传");
    assert_eq!(books[0].author, "忘语");
    assert_eq!(books[0].score, "-");
    assert_eq!(books[0].status, 1);
    assert_eq!(books[0].status_text(), "完结");
    assert_eq!(books[1].book_id, "12");
    assert_eq!(books[1].score, "9.1");
    assert_eq!(books[1].abstract_, "简介");
    assert_eq!(books[1].status, 0);
    assert_eq!(books[1].status_text(), "连载");
}

#[test]
fn search_errors() {
    assert_eq!(
        search_results_of_json(&Err("expected value".to_string())).err().unwrap(),
        "JSON: expected value"
    );
    let empty = obj(vec![("data", obj(vec![]))]);
    assert_eq!(search_results_of_json(&Ok(empty)).err().unwrap(), "无结果");
}

#[test]
fn catalog_chapters_numbered_across_volumes() {
    let vol1 = JsonValue::Array(vec![
        obj(vec![("itemId", s("a1")), ("title", s("第1章 开始"))]),
        obj(vec![("itemId", s("")), ("title", s("空"))]),
    ]);
    let vol2 = JsonValue::Array(vec![obj(vec![("itemId", s("b2"))])]);
    let root = obj(vec![(
        "data",
        obj(vec![(
            "chapterListWithVolume",
            JsonValue::Array(vec![vol1, JsonValue::Null, vol2]),
        )]),
    )]);
    let chs = catalog_of_json(&Ok(root)).unwrap();
    assert_eq!(chs.len(), 2);
    assert_eq!((chs[0].index, chs[0].item_id.as_str(), chs[0].title.as_str()), (1, "a1", "第1章 开始"));
    assert_eq!((chs[1].index, chs[1].item_id.as_str(), chs[1].title.as_str()), (2, "b2", "未知章节"));
}

#[test]
fn catalog_errors() {
    assert_eq!(catalog_of_json(&Ok(JsonValue::Null)).err().unwrap(), "未获取到章节");
    assert_eq!(catalog_of_json(&Err("eof".to_string())).err().unwrap(), "JSON: eof");
}

#[test]
fn content_reply_is_stripped() {
    let root = obj(vec![("data", obj(vec![("content", s("<p>一</p><p>二</p>"))]))]);
    assert_eq!(content_of_json("9", &Ok(root)).unwrap(), "一\n\n二\n\n");
    assert_eq!(content_of_json("9", &Ok(JsonValue::Null)).unwrap(), "");
    assert_eq!(content_of_json("9", &Err("x".to_string())).err().unwrap(), "JSON: 9");
}

#[test]
fn search_reply_text_is_parsed() {
    let text = r#"{"data":{"ret_data":[{"book_id":"7","title":"书","creation_status":1},{"title":"x"}]}}"#;
    let books = parse_search_results(text).unwrap();
    assert_eq!(books.len(), 1);
    assert_eq!(books[0].book_id, "7");
    assert_eq!(books[0].title, "书");
    assert_eq!(books[0].status, 1);
    assert_eq!(parse_search_results(r#"{"data":{"ret_data":[]}}"#).err().unwrap(), "无结果");
    assert!(parse_search_results("not json").err().unwrap().starts_with("JSON: "));
}

#[test]
fn catalog_text_is_parsed() {
    let text = r#"{"data":{"chapterListWithVolume":[[{"itemId":"a","title":"一"},{"itemId":""}],[{"itemId":"b"}]]}}"#;
    let chs = parse_catalog(text).unwrap().unwrap();
    assert_eq!(chs.len(), 2);
    assert_eq!((chs[0].index, chs[0].item_id.as_str(), chs[0].title.as_str()), (1, "a", "一"));
    assert_eq!((chs[1].index, chs[1].item_id.as_str(), chs[1].title.as_str()), (2, "b", "未知章节"));
    assert_eq!(parse_catalog("{}").unwrap().err().unwrap(), "未获取到章节");
    assert!(parse_catalog("[1,").unwrap().err().unwrap().starts_with("JSON: "));
}

#[test]
fn content_text_is_parsed() {
    let text = r#"{"data":{"content":"<p>甲</p><p>乙&amp;丙</p>"}}"#;
    assert_eq!(parse_content("5", text).unwrap(), "甲\n\n乙&丙\n\n");
    assert_eq!(parse_content("5", "{}").unwrap(), "");
    assert_eq!(parse_content("5", "<html>").err().unwrap(), "JSON: 5");
}

use fqdt::api::Client;
use fqdt::api::strip_html;
use fqdt::audio::{
    audio_fname, audio_info_list_text, download_error, gen_lrc_text, lrc_outputs, post_command,
    tones_to_try, voice_step, VoiceAttempt,
};
use fqdt::download::{chapter_file_text, info_list_of_json, json_esc, read_info_list, Downloader};
use fqdt::epub::{
    chapter_page_name, civil_from_days, content_to_html, entry_is_stored, generate, lp, now_iso,
    replace_page, update_chapter, uuid_from_nanos, xml_esc, EpubEntry,
};
use fqdt::json::{JsonNumber, JsonValue};
use fqdt::types::Chapter;

fn ch(index: usize, title: &str) -> Chapter {
    Chapter { index, item_id: format!("id{}", index), title: title.to_string() }
}

fn downloader(dir: &str, title: &str) -> Downloader {
    let api = Client::new(String::new(), false, 0, vec![], String::new(), vec![], false);
    Downloader::new(api, dir.to_string(), "txt", "{idx04}_{title}", false, "42", title)
}

#[test]
fn downloader_settings_and_names() {
    let d = downloader("out", "书\"名");
    assert_eq!(d.out_dir, "out");
    assert_eq!(d.format, "txt");
    assert_eq!(d.book_id, "42");
    assert_eq!(d.fname(&ch(1, "第1章")), "0001_第1章");
    assert_eq!(d.chapter_path(&ch(12, "x?y")), "out/0012_x_y.txt");
    assert_eq!(d.epub_path(), "out/书_名.epub");
    assert_eq!(d.info_list_path(), "out/info.list");
}

#[test]
fn chapter_file_has_heading() {
    assert_eq!(chapter_file_text(&ch(2, "再会"), "正文"), "第2章 再会\n\n正文\n");
    assert_eq!(chapter_file_text(&ch(2, "第2章 再会"), "正文"), "第2章 再会\n\n正文\n");
}

#[test]
fn json_escaping() {
    assert_eq!(json_esc("a\"b\\c"), "a\\\"b\\\\c");
    assert_eq!(json_esc("plain"), "plain");
}

#[test]
fn info_list_text() {
    let d = downloader(".", "T\"");
    let text = d.info_list_text(&vec![ch(1, "一"), ch(2, "二\"")]);
    assert_eq!(
        text,
        "{\n  \"book_id\": \"42\",\n  \"book_title\": \"T\\\"\",\n  \"format\": \"txt\",\n  \"chapters\": [\n    {\"idx\":1, \"title\":\"一\", \"file\":\"0001_一\"},\n    {\"idx\":2, \"title\":\"二\\\"\", \"file\":\"0002_二_\"}\n  ]\n}\n"
    );
    let empty = d.info_list_text(&vec![]);
    assert_eq!(empty, "{\n  \"book_id\": \"42\",\n  \"book_title\": \"T\\\"\",\n  \"format\": \"txt\",\n  \"chapters\": [\n\n  ]\n}\n");
}

#[test]
fn written_info_list_reads_back() {
    let d = downloader(".", "T\"");
    let text = d.info_list_text(&vec![ch(1, "一"), ch(2, "二\"")]);
    let (id, title, format, chs) = read_info_list(&text).unwrap();
    assert_eq!(id, "42");
    assert_eq!(title, "T\"");
    assert_eq!(format, "txt");
    assert_eq!(
        chs,
        vec![(1, "一".to_string(), "0001_一".to_string()), (2, "二\"".to_string(), "0002_二_".to_string())]
    );
    assert!(read_info_list("{").err().unwrap().starts_with("JSON: "));
    assert_eq!(read_info_list(r#"{"book_id":""}"#).err().unwrap(), "info.list 缺少 book_id");
}

fn obj(members: Vec<(&str, JsonValue)>) -> JsonValue {
    JsonValue::Object(members.into_iter().map(|(k, v)| (k.to_string(), v)).collect())
}

#[test]
fn info_list_is_read_back() {
    let root = obj(vec![
        ("book_id", JsonValue::Str("42".to_string())),
        ("book_title", JsonValue::Str("书".to_string())),
        (
            "chapters",
            JsonValue::Array(vec![
                obj(vec![
                    ("idx", JsonValue::Number(JsonNumber::PosInt(3))),
                    ("title", JsonValue::Str("三".to_string())),
                    ("file", JsonValue::Str("0003_三".to_string())),
                ]),
                obj(vec![("idx", JsonValue::Number(JsonNumber::NegInt(-1)))]),
            ]),
        ),
    ]);
    let (id, title, format, chs) = info_list_of_json(&Ok(root)).unwrap();
    assert_eq!(id, "42");
    assert_eq!(title, "书");
    assert_eq!(format, "txt");
    assert_eq!(chs, vec![(3, "三".to_string(), "0003_三".to_string()), (0, String::new(), String::new())]);
    assert_eq!(info_list_of_json(&Ok(obj(vec![]))).err().unwrap(), "info.list 缺少 book_id");
    assert_eq!(info_list_of_json(&Err("bad".to_string())).err().unwrap(), "JSON: bad");
}

#[test]
fn xml_escaping_and_paragraphs() {
    assert_eq!(xml_esc("<a & 'b' \"c\">"), "&lt;a &amp; &apos;b&apos; &quot;c&quot;&gt;");
    assert_eq!(content_to_html("第一段\n\n  <第二段>  \r\n"), "<p>第一段</p>\n<br/>\n<p>&lt;第二段&gt;</p>\n");
    assert_eq!(content_to_html(""), "");
}

#[test]
fn book_files() {
    let chs = vec![ch(1, "开始"), ch(2, "第二章 & 后")];
    let es = generate("书<名>", &chs, "abc", "2024-01-01T00:00:00Z");
    assert_eq!(es.len(), 6);
    assert_eq!(es[0].name, "mimetype");
    assert!(es[0].stored);
    assert_eq!(es[0].data, "application/epub+zip");
    assert_eq!(es[1].name, "META-INF/container.xml");
    assert!(!es[1].stored);
    assert_eq!(es[2].name, "OEBPS/content.opf");
    assert!(es[2].data.contains("<dc:identifier id=\"bid\">urn:uuid:abc</dc:identifier>"));
    assert!(es[2].data.contains("<dc:title>书&lt;名&gt;</dc:title>"));
    assert!(es[2].data.contains("<meta property=\"dcterms:modified\">2024-01-01T00:00:00Z</meta>"));
    assert!(es[2].data.contains("\n<item id=\"ch0002\" href=\"ch0002.xhtml\" media-type=\"application/xhtml+xml\"/>"));
    assert!(es[2].data.ends_with("\n<itemref idref=\"ch0001\"/>\n<itemref idref=\"ch0002\"/>\n</spine>\n</package>"));
    assert_eq!(es[3].name, "OEBPS/toc.xhtml");
    assert!(es[3].data.contains("\n<li><a href=\"ch0001.xhtml\">第1章 开始</a></li>"));
    assert!(es[3].data.contains("\n<li><a href=\"ch0002.xhtml\">第二章 &amp; 后</a></li>"));
    assert_eq!(es[4].name, "OEBPS/ch0001.xhtml");
    assert_eq!(
        es[4].data,
        "<?xml version=\"1.0\" encoding=\"UTF-8\"?>\n<!DOCTYPE html>\n<html xmlns=\"http://www.w3.org/1999/xhtml\">\n<head><title>第1章 开始</title></head>\n<body><h1>第1章 开始</h1><p>待下载</p></body>\n</html>"
    );
    assert_eq!(es[5].name, "OEBPS/ch0002.xhtml");
}

#[test]
fn filled_page() {
    let page = update_chapter(&ch(3, "三"), "甲\n乙");
    assert_eq!(page.name, "OEBPS/ch0003.xhtml");
    assert_eq!(
        page.data,
        "<?xml version=\"1.0\" encoding=\"UTF-8\"?>\n<!DOCTYPE html>\n<html xmlns=\"http://www.w3.org/1999/xhtml\">\n<head><title>第3章 三</title></head>\n<body><h1>第3章 三</h1>\n<p>甲</p>\n<p>乙</p>\n</body>\n</html>"
    );
    assert_eq!(chapter_page_name(&ch(10000, "x")), "OEBPS/ch10000.xhtml");
    assert!(entry_is_stored("mimetype"));
    assert!(!entry_is_stored("OEBPS/toc.xhtml"));
}

#[test]
fn dates() {
    assert_eq!(now_iso(0), "1970-01-01T00:00:00Z");
    assert_eq!(now_iso(951782400 + 3661), "2000-02-29T01:01:01Z");
    assert_eq!(now_iso(1704067199), "2023-12-31T23:59:59Z");
    assert_eq!(civil_from_days(365), (1971, 1, 1));
    assert!(lp(2000));
    assert!(!lp(1900));
    assert!(lp(2024));
    assert!(!lp(2023));
}

#[test]
fn identifiers() {
    assert_eq!(uuid_from_nanos(0), "0");
    assert_eq!(uuid_from_nanos(255), "ff");
    assert_eq!(uuid_from_nanos(0x1a2b3c), "1a2b3c");
}

#[test]
fn lyrics_and_audio_names() {
    assert_eq!(gen_lrc_text(&ch(5, "五")), "[00:00.00]第5章 五\n");
    assert_eq!(gen_lrc_text(&ch(5, "5 五")), "[00:00.00]5 五\n");
    assert_eq!(audio_fname("{idx04}_{title}", &ch(5, "五")), "0005_五.mp3");
    let o = lrc_outputs("both");
    assert!(o.external && o.embed);
    let o = lrc_outputs("external");
    assert!(o.external && !o.embed);
    let o = lrc_outputs("embed");
    assert!(!o.external && o.embed);
    let o = lrc_outputs("off");
    assert!(!o.external && !o.embed);
}

#[test]
fn voices_and_commands() {
    assert_eq!(tones_to_try(4, &vec![2, 4, 5, 6, 74, 91]), vec![4, 2, 5, 6, 74, 91]);
    assert_eq!(tones_to_try(1, &vec![]), vec![1]);
    assert_eq!(post_command("ffmpeg -i {input} {output} && echo {input}", "a.mp3", "b.mp3"), "ffmpeg -i a.mp3 b.mp3 && echo a.mp3");
}

#[test]
fn audio_info_list() {
    let t = audio_info_list_text(Some("书"), 4, "{idx04}_{title}", &vec![ch(1, "一"), ch(2, "二")]);
    assert_eq!(t, "{\n  \"book_title\": \"书\",\n  \"tone\": 4,\n  \"chapters\": [\n    {\"idx\":1, \"title\":\"一\", \"file\":\"0001_一.mp3\"},\n    {\"idx\":2, \"title\":\"二\", \"file\":\"0002_二.mp3\"}\n  ]\n}\n");
    let u = audio_info_list_text(None, 1, "{idx}", &vec![]);
    assert_eq!(u, "{\n  \"book_title\": \"未知\",\n  \"tone\": 1,\n  \"chapters\": [\n  ]\n}\n");
}

#[test]
fn page_replacement_keeps_the_other_files() {
    let chs = vec![ch(1, "开始"), ch(2, "后来")];
    let es = generate("书", &chs, "u", "2024-01-01T00:00:00Z");
    let page = update_chapter(&chs[1], "正文");
    let out = replace_page(&es, &page);
    assert_eq!(out.len(), es.len());
    for (a, b) in out.iter().zip(es.iter()) {
        assert_eq!(a.name, b.name);
        assert_eq!(a.stored, b.stored);
        if a.name == page.name {
            assert_eq!(a.data, page.data);
        } else {
            assert_eq!(a.data, b.data);
        }
    }
    assert_eq!(out[5].name, "OEBPS/ch0002.xhtml");
    assert_ne!(out[5].data, es[5].data);
    assert!(out[0].stored && out[0].name == "mimetype");
    let lone = EpubEntry { name: "x".into(), stored: false, data: "y".into() };
    let unchanged = replace_page(&vec![lone], &page);
    assert_eq!(unchanged[0].data, "y");
}

#[test]
fn stripping_undoes_escaping() {
    let s = "a<b> & \"c\" 第一章";
    assert_eq!(strip_html(&xml_esc(s)), s);
    assert_eq!(strip_html(&xml_esc("")), "");
    assert_eq!(strip_html(&xml_esc("it's")), "its");
}

#[test]
fn written_index_object_reads_back() {
    let entry = obj(vec![
        ("file", JsonValue::Str("0001_一".to_string())),
        ("idx", JsonValue::Number(JsonNumber::PosInt(1))),
        ("title", JsonValue::Str("一".to_string())),
    ]);
    let root = obj(vec![
        ("book_id", JsonValue::Str("42".to_string())),
        ("book_title", JsonValue::Str("T".to_string())),
        ("chapters", JsonValue::Array(vec![entry])),
        ("format", JsonValue::Str("epub".to_string())),
    ]);
    let (id, title, format, chs) = info_list_of_json(&Ok(root)).unwrap();
    assert_eq!((id.as_str(), title.as_str(), format.as_str()), ("42", "T", "epub"));
    assert_eq!(chs, vec![(1, "一".to_string(), "0001_一".to_string())]);
}

#[test]
fn voices_are_tried_in_turn() {
    let tones = vec![3, 2];
    assert!(matches!(voice_step(&tones, 0, None), VoiceAttempt::Try(3)));
    assert!(matches!(voice_step(&tones, 1, Some(Err("x".into()))), VoiceAttempt::Try(2)));
    match voice_step(&tones, 2, Some(Err("tone=2: bad".into()))) {
        VoiceAttempt::Done(Err(e)) => assert_eq!(e, "tone=2: bad"),
        _ => panic!("expected the last failure"),
    }
    assert!(matches!(voice_step(&tones, 1, Some(Ok(()))), VoiceAttempt::Done(Ok(()))));
    assert_eq!(download_error(74, "超时"), "tone=74: 超时");
}

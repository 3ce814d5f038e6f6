use sinorag::authority::{
    attr_val, extract_year, local_name, parse_persons, parse_places, persons_from_events, XmlEvent,
};

fn start(name: &str, attrs: &[(&str, &str)]) -> XmlEvent {
    XmlEvent::Start {
        name: name.as_bytes().to_vec(),
        attrs: attrs.iter().map(|(k, v)| (k.as_bytes().to_vec(), v.as_bytes().to_vec())).collect(),
        empty: false,
    }
}

fn end(name: &str) -> XmlEvent {
    XmlEvent::End { name: name.as_bytes().to_vec() }
}

fn text(t: &str) -> XmlEvent {
    XmlEvent::Text(t.as_bytes().to_vec())
}

#[test]
fn local_names() {
    assert_eq!(local_name(b"tei:person"), b"person");
    assert_eq!(local_name(b"a:b:c"), b"c");
    assert_eq!(local_name(b"person"), b"person");
    assert_eq!(local_name(b"x:"), b"");
}

#[test]
fn attribute_values() {
    let attrs = vec![
        (b"xml:id".to_vec(), b"A001".to_vec()),
        (b"type".to_vec(), b"alternative".to_vec()),
        (b"bad".to_vec(), vec![0xff, 0xfe]),
    ];
    assert_eq!(attr_val(&attrs, "id").as_deref(), Some("A001"));
    assert_eq!(attr_val(&attrs, "xml:id").as_deref(), Some("A001"));
    assert_eq!(attr_val(&attrs, "type").as_deref(), Some("alternative"));
    assert_eq!(attr_val(&attrs, "d"), None);
    assert_eq!(attr_val(&attrs, "bad"), None);
    assert_eq!(attr_val(&attrs, "missing"), None);
}

#[test]
fn years() {
    assert_eq!(extract_year("+0602-02-01 ~ +0603-02-18"), "0602");
    assert_eq!(extract_year("-0563"), "-0563");
    assert_eq!(extract_year("  1900  "), "1900");
    assert_eq!(extract_year("+12 c."), "12");
    assert_eq!(extract_year("-"), "-");
    assert_eq!(extract_year(""), "");
}

#[test]
fn persons_from_event_stream() {
    let ev = vec![
        start("person", &[("xml:id", "A000001")]),
        start("persName", &[("lang", "zh")]),
        text("  玄奘  "),
        end("persName"),
        start("persName", &[("type", "alternative")]),
        text("Xuanzang"),
        end("persName"),
        start("persName", &[("type", "alternative")]),
        text("唐三藏"),
        end("persName"),
        start("sex", &[("value", "1")]),
        start("birth", &[]),
        text("+0602-02-01"),
        end("birth"),
        start("note", &[("type", "concise")]),
        text("a"),
        text("b"),
        end("note"),
        start("relation", &[("type", "teacher"), ("n", "戒賢")]),
        start("idno", &[("type", "CBDB")]),
        text("123"),
        end("idno"),
        end("person"),
        start("person", &[("xml:id", "A000002")]),
        end("person"),
        XmlEvent::Eof,
        start("person", &[("xml:id", "A000003")]),
    ];
    let people = persons_from_events(&ev).unwrap();
    assert_eq!(people.len(), 1);
    let p = &people[0];
    assert_eq!(p.person_id, "A000001");
    assert_eq!(p.primary_name, "玄奘");
    assert_eq!(p.primary_name_lang, "zh");
    assert_eq!(p.alt_names, vec!["唐三藏".to_string()]);
    assert_eq!(p.gender.as_deref(), Some("male"));
    assert_eq!(p.birth_raw.as_deref(), Some("0602"));
    assert_eq!(p.concise_bio.as_deref(), Some("ab"));
    assert_eq!(p.teachers, vec!["戒賢".to_string()]);
    assert!(p.students.is_empty());
    assert_eq!(p.cbdb_id.as_deref(), Some("123"));
    assert_eq!(p.wikidata_id, None);
}

#[test]
fn reader_error_is_reported() {
    let ev = vec![start("person", &[]), XmlEvent::Error("bad".to_string())];
    assert_eq!(persons_from_events(&ev).err().as_deref(), Some("XML error: bad"));
}

#[test]
fn persons_from_xml() {
    let xml = r#"<?xml version="1.0"?>
<listPerson>
  <person xml:id="A1">
    <persName xml:lang="zh">龍樹</persName>
    <sex value="2"/>
    <death>-0250</death>
    <note type="dynasty">印度</note>
  </person>
  <person xml:id="A2"><persName>   </persName></person>
</listPerson>"#;
    let people = parse_persons(xml.as_bytes()).unwrap();
    assert_eq!(people.len(), 1);
    assert_eq!(people[0].person_id, "A1");
    assert_eq!(people[0].primary_name, "龍樹");
    assert_eq!(people[0].primary_name_lang, "zh");
    assert_eq!(people[0].gender.as_deref(), Some("female"));
    assert_eq!(people[0].death_raw.as_deref(), Some("-0250"));
    assert_eq!(people[0].dynasty.as_deref(), Some("印度"));
}

#[test]
fn places_from_xml() {
    let xml = r#"<listPlace>
  <place xml:id="PL000001">
    <placeName>長安</placeName>
    <placeName type="alternative">Chang'an</placeName>
    <placeName type="alternative">西京</placeName>
    <location><geo cert="high">108.9 34.2</geo><place key="PL000009"><placeName>關中</placeName></place></location>
    <district>京兆府</district>
    <note type="category">city</note>
    <note>capital of Tang</note>
    <place key="PL000010"/>
  </place>
  <place xml:id="X1"><placeName>ignored</placeName></place>
</listPlace>"#;
    let places = parse_places(xml.as_bytes()).unwrap();
    assert_eq!(places.len(), 1);
    let p = &places[0];
    assert_eq!(p.place_id, "PL000001");
    assert_eq!(p.primary_name, "長安");
    assert_eq!(p.alt_names, vec!["西京".to_string()]);
    assert_eq!(p.geo_texts, vec![("108.9 34.2".to_string(), Some("high".to_string()))]);
    assert_eq!(p.parent_place_id.as_deref(), Some("PL000009"));
    assert_eq!(p.district.as_deref(), Some("京兆府"));
    assert_eq!(p.category.as_deref(), Some("city"));
    assert_eq!(p.description.as_deref(), Some("capital of Tang"));
}

#[test]
fn malformed_xml_is_an_error() {
    let r = parse_persons(b"<a><b></a>");
    assert!(r.is_err());
    assert!(r.err().unwrap().starts_with("XML error: "));
}

use arborio::binel::{BinEl, BinElAttr, BinFile};
use arborio::binread::{
    take_elemattr, take_element, take_file, take_lookup, take_rle_char, take_rle_string, take_str,
    try_take_file, BinParseError,
};
use arborio::binwrite::{
    encode_rle_string, gen_lookup, put_element, put_file, put_string, put_tagged_bool,
    put_tagged_f32, put_tagged_int, put_tagged_str, BinWriteError,
};

fn strings(v: &[&str]) -> Vec<String> {
    v.iter().map(|s| s.to_string()).collect()
}

#[test]
fn put_header() {
    let mut buf = Vec::new();
    put_string(&mut buf, "CELESTE MAP");
    assert_eq!(&buf[..], b"\x0bCELESTE MAP");
}

#[test]
fn put_string_long_length_takes_two_bytes() {
    let s = "x".repeat(200);
    let mut buf = Vec::new();
    put_string(&mut buf, &s);
    assert_eq!(buf.len(), 202);
    assert_eq!(&buf[..2], &[0xc8, 0x01]);
    let (rest, back) = take_str(&buf).unwrap();
    assert!(rest.is_empty());
    assert_eq!(back, s);
}

#[test]
fn take_str_reads_header() {
    let header = b"\x0bCELESTE MAP";
    assert_eq!(take_str(&header[..]), Ok((&b""[..], "CELESTE MAP")));
}

#[test]
fn take_str_rejects_short_and_invalid() {
    assert_eq!(take_str(b"\x05abc"), Err(BinParseError));
    assert_eq!(take_str(b"\x02\xff\xfe"), Err(BinParseError));
    assert_eq!(take_str(b"\x80"), Err(BinParseError));
    assert_eq!(take_str(b""), Err(BinParseError));
}

#[test]
fn take_str_keeps_what_follows() {
    assert_eq!(take_str(b"\x02hiRest"), Ok((&b"Rest"[..], "hi")));
}

#[test]
fn tagged_bool_bytes() {
    let mut buf = Vec::new();
    put_tagged_bool(&mut buf, true);
    put_tagged_bool(&mut buf, false);
    assert_eq!(buf, vec![0, 1, 0, 0]);
}

#[test]
fn tagged_int_widths() {
    let mut buf = Vec::new();
    put_tagged_int(&mut buf, 5);
    assert_eq!(buf, vec![1, 5]);
    let mut buf = Vec::new();
    put_tagged_int(&mut buf, -1);
    assert_eq!(buf, vec![2, 0xff, 0xff]);
    let mut buf = Vec::new();
    put_tagged_int(&mut buf, 300);
    assert_eq!(buf, vec![2, 0x2c, 0x01]);
    let mut buf = Vec::new();
    put_tagged_int(&mut buf, 70000);
    assert_eq!(buf, vec![3, 0x70, 0x11, 0x01, 0x00]);
    let mut buf = Vec::new();
    put_tagged_int(&mut buf, i32::MIN);
    assert_eq!(buf, vec![3, 0, 0, 0, 0x80]);
}

#[test]
fn tagged_float_bits() {
    let mut buf = Vec::new();
    put_tagged_f32(&mut buf, 1.5f32.to_bits());
    assert_eq!(buf, vec![4, 0x00, 0x00, 0xc0, 0x3f]);
}

#[test]
fn rle_encoding_counts_runs() {
    assert_eq!(encode_rle_string("aaab"), vec![3, b'a', 1, b'b']);
    assert_eq!(encode_rle_string(""), Vec::<u8>::new());
    assert_eq!(encode_rle_string("abab"), vec![1, b'a', 1, b'b', 1, b'a', 1, b'b']);
    let long = "0".repeat(300);
    assert_eq!(encode_rle_string(&long), vec![44, b'0']);
}

#[test]
fn tagged_str_chooses_encoding() {
    let lookup = strings(&["name", "solid"]);
    let mut buf = Vec::new();
    put_tagged_str(&mut buf, &lookup, "solid");
    assert_eq!(buf, vec![5, 1, 0]);
    let mut buf = Vec::new();
    put_tagged_str(&mut buf, &lookup, "aaaaaaaa");
    assert_eq!(buf, vec![7, 2, 0, 8, b'a']);
    let mut buf = Vec::new();
    put_tagged_str(&mut buf, &lookup, "abc");
    assert_eq!(buf, vec![6, 3, b'a', b'b', b'c']);
}

#[test]
fn take_elemattr_doc_example() {
    assert_eq!(take_elemattr(b"\x01\x05", &[]), Ok((&b""[..], BinElAttr::Int(5))));
}

#[test]
fn take_elemattr_all_tags() {
    let lookup = strings(&["zero", "one"]);
    assert_eq!(take_elemattr(b"\x00\x07", &lookup), Ok((&b""[..], BinElAttr::Bool(true))));
    assert_eq!(take_elemattr(b"\x02\xfe\xff", &lookup), Ok((&b""[..], BinElAttr::Int(-2))));
    assert_eq!(take_elemattr(b"\x03\x00\x00\x00\x80", &lookup), Ok((&b""[..], BinElAttr::Int(i32::MIN))));
    assert_eq!(
        take_elemattr(b"\x04\x00\x00\xc0\x3f", &lookup),
        Ok((&b""[..], BinElAttr::Float(1.5f32.to_bits())))
    );
    assert_eq!(take_elemattr(b"\x05\x01\x00", &lookup), Ok((&b""[..], BinElAttr::Text("one".to_string()))));
    assert_eq!(take_elemattr(b"\x06\x02hi", &lookup), Ok((&b""[..], BinElAttr::Text("hi".to_string()))));
    assert_eq!(
        take_elemattr(b"\x07\x04\x00\x03a\x01b", &lookup),
        Ok((&b""[..], BinElAttr::Text("aaab".to_string())))
    );
    assert_eq!(take_elemattr(b"\x03\x00", &lookup), Err(BinParseError));
}

#[test]
fn take_lookup_reads_index() {
    let lookup = strings(&["a", "b", "c"]);
    assert_eq!(take_lookup(b"\x02\x00xyz", &lookup), Ok((&b"xyz"[..], "c")));
    assert_eq!(take_lookup(b"\x02", &lookup), Err(BinParseError));
}

#[test]
fn rle_readers() {
    assert_eq!(take_rle_char(b"\x03x!"), Ok((&b"!"[..], "xxx".to_string())));
    assert_eq!(take_rle_char(b"\x03"), Err(BinParseError));
    assert_eq!(take_rle_string(b"\x04\x00\x03a\x01bz"), Ok((&b"z"[..], "aaab".to_string())));
    assert_eq!(take_rle_string(b"\xfe\xff\x03a"), Err(BinParseError));
    assert_eq!(take_rle_string(b"\x04\x00\x03a"), Err(BinParseError));
}

fn sample_file() -> BinFile {
    let mut root = BinEl::new("Map");
    let mut levels = BinEl::new("levels");
    let mut level = BinEl::new("level");
    level.set_attr("name".to_string(), BinElAttr::Text("a-00".to_string()));
    level.set_attr("x".to_string(), BinElAttr::Int(-320));
    level.set_attr("music".to_string(), BinElAttr::Text("".to_string()));
    level.set_attr("dark".to_string(), BinElAttr::Bool(false));
    level.set_attr("alpha".to_string(), BinElAttr::Float(0.5f32.to_bits()));
    let mut solids = BinEl::new("solids");
    solids.set_attr("innerText".to_string(), BinElAttr::Text("0000000000\n1111111111".to_string()));
    level.insert(solids);
    let mut entities = BinEl::new("entities");
    let mut player = BinEl::new("player");
    player.set_attr("id".to_string(), BinElAttr::Int(70000));
    entities.insert(player);
    let mut spring = BinEl::new("spring");
    spring.set_attr("id".to_string(), BinElAttr::Int(2));
    entities.insert(spring);
    level.insert(entities);
    levels.insert(level);
    let mut level2 = BinEl::new("level");
    level2.set_attr("name".to_string(), BinElAttr::Text("a-01".to_string()));
    levels.insert(level2);
    root.insert(levels);
    root.insert(BinEl::new("Filler"));
    BinFile { package: "mymap".to_string(), root }
}

#[test]
fn file_roundtrip() {
    let file = sample_file();
    let mut buf = Vec::new();
    assert_eq!(put_file(&mut buf, &file), Ok(()));
    let (rest, back) = take_file(&buf).unwrap();
    assert!(rest.is_empty());
    assert_eq!(back, file);
}

#[test]
fn file_roundtrip_after_prefix() {
    let file = sample_file();
    let mut buf = vec![9, 9, 9];
    assert_eq!(put_file(&mut buf, &file), Ok(()));
    let (rest, back) = take_file(&buf[3..]).unwrap();
    assert!(rest.is_empty());
    assert_eq!(back, file);
}

#[test]
fn file_starts_with_header_and_package() {
    let file = sample_file();
    let mut buf = Vec::new();
    put_file(&mut buf, &file).unwrap();
    assert_eq!(&buf[..12], b"\x0bCELESTE MAP");
    assert_eq!(&buf[12..18], b"\x05mymap");
}

#[test]
fn take_file_rejects_bad_header() {
    assert_eq!(take_file(b"\x0bCELESTE MAQ\x00"), Err(BinParseError));
    assert_eq!(take_file(b""), Err(BinParseError));
}

#[test]
fn try_take_file_reports_unknown_tag() {
    // header, empty package, one lookup string "a", root "a" with one attribute a = tag 9
    let bytes = b"\x0bCELESTE MAP\x00\x01\x00\x01a\x00\x00\x01\x00\x00\x09";
    assert!(try_take_file(bytes).is_none());
    // a lookup index past the table
    let bytes = b"\x0bCELESTE MAP\x00\x01\x00\x01a\x05\x00";
    assert!(try_take_file(bytes).is_none());
}

#[test]
fn take_element_reads_children_in_groups() {
    let lookup = strings(&["root", "a", "b"]);
    // root, no attributes, three children: a, b, a
    let bytes = b"\x00\x00\x00\x03\x00\x01\x00\x00\x00\x00\x02\x00\x00\x00\x00\x01\x00\x00\x00\x00";
    let (rest, el) = take_element(bytes, &lookup).unwrap();
    assert!(rest.is_empty());
    assert_eq!(el.name, "root");
    assert_eq!(el.get("a").len(), 2);
    assert_eq!(el.get("b").len(), 1);
    let names: Vec<&str> = el.children().iter().map(|c| c.name.as_str()).collect();
    assert_eq!(names, vec!["a", "a", "b"]);
}

#[test]
fn take_element_later_attribute_wins() {
    let lookup = strings(&["e", "k"]);
    // element e with two attributes k = 1, k = 2, no children
    let bytes = b"\x00\x00\x02\x01\x00\x01\x01\x01\x00\x01\x02\x00\x00";
    let (_, el) = take_element(bytes, &lookup).unwrap();
    assert_eq!(el.attributes.len(), 1);
    assert_eq!(el.get_attr(&"k".to_string()), Some(&BinElAttr::Int(2)));
}

#[test]
fn put_element_reports_missing_names() {
    let lookup = strings(&["Map"]);
    let mut el = BinEl::new("Map");
    el.set_attr("x".to_string(), BinElAttr::Int(1));
    let mut buf = Vec::new();
    assert_eq!(
        put_element(&mut buf, &lookup, &el),
        Err(BinWriteError::MissingAttributeName("x".to_string()))
    );
    let mut buf = Vec::new();
    assert_eq!(
        put_element(&mut buf, &lookup, &BinEl::new("Other")),
        Err(BinWriteError::MissingElementName("Other".to_string()))
    );
}

#[test]
fn gen_lookup_orders_by_use() {
    let file = sample_file();
    let lookup = gen_lookup(&file.root);
    let mut sorted = lookup.clone();
    sorted.sort();
    sorted.dedup();
    assert_eq!(sorted.len(), lookup.len());
    assert_eq!(lookup[0], "level");
    assert!(lookup.contains(&"a-01".to_string()));
    assert!(lookup.contains(&"innerText".to_string()));
    assert!(!lookup.contains(&"0000000000\n1111111111".to_string()));
    assert!(!lookup.contains(&"mymap".to_string()));
}

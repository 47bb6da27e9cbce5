use random_word::Lang;
use random_word::WordDb;

fn compress(data: &[u8]) -> Vec<u8> {
    let mut out: Vec<u8> = Vec::new();
    {
        let mut w = brotli::CompressorWriter::new(&mut out, 4096, 5, 22);
        std::io::Write::write_all(&mut w, data).unwrap();
    }
    out
}

#[test]
fn blank_lines_and_carriage_returns_are_handled() {
    let db = WordDb::from_texts(vec![
        "a\n\nb\r\nc\n".to_string(),
        "one".to_string(),
        "two".to_string(),
    ])
    .unwrap();
    let words = db.all(Lang::Simple);
    assert_eq!(words, &vec!["a".to_string(), "b".to_string(), "c".to_string()]);
}

#[test]
fn table_order_is_source_order_and_repeats_are_kept() {
    let db = WordDb::from_texts(vec![
        "dog\ncat\ndog\nant".to_string(),
        "one".to_string(),
        "two".to_string(),
    ])
    .unwrap();
    let words = db.all(Lang::Simple);
    assert_eq!(
        words,
        &vec!["dog".to_string(), "cat".to_string(), "dog".to_string(), "ant".to_string()]
    );
    let bucket = db.all_len(3, Lang::Simple).unwrap();
    assert_eq!(bucket.len(), 4);
}

#[test]
fn empty_vocabulary_is_rejected() {
    assert!(WordDb::from_texts(vec![
        "".to_string(),
        "one".to_string(),
        "two".to_string(),
    ])
    .is_none());
    assert!(WordDb::from_texts(vec![
        "\n\r\n\n".to_string(),
        "one".to_string(),
        "two".to_string(),
    ])
    .is_none());
}

#[test]
fn wrong_vocabulary_count_is_rejected() {
    assert!(WordDb::from_texts(vec!["one".to_string(), "two".to_string()]).is_none());
    assert!(WordDb::from_texts(vec![]).is_none());
    assert!(WordDb::from_payloads(&vec![compress(b"one"), compress(b"two")]).is_none());
}

#[test]
fn lengths_count_characters_not_bytes() {
    let db = WordDb::from_texts(vec![
        "h\u{e9}llo\nna\u{ef}ve\nabc".to_string(),
        "one".to_string(),
        "two".to_string(),
    ])
    .unwrap();
    let bucket = db.all_len(5, Lang::Simple).unwrap();
    assert_eq!(bucket.len(), 2);
    assert!(bucket.contains(&"h\u{e9}llo".to_string()));
    assert!(bucket.contains(&"na\u{ef}ve".to_string()));
    assert!(db.all_len(6, Lang::Simple).is_none());
    let h = db.all_starts_with('h', Lang::Simple).unwrap();
    assert_eq!(h, &vec!["h\u{e9}llo".to_string()]);
}

#[test]
fn payload_roundtrip_matches_plain_construction() {
    let texts = ["cat\ncar\ndog", "alpha\nbeta\ngamma", "x\nyz\nxyzzy"];
    let payloads: Vec<Vec<u8>> = texts.iter().map(|t| compress(t.as_bytes())).collect();
    let from_payloads = WordDb::from_payloads(&payloads).unwrap();
    let from_texts =
        WordDb::from_texts(texts.iter().map(|t| t.to_string()).collect()).unwrap();
    for lang in [Lang::Simple, Lang::Full, Lang::Nerd] {
        assert_eq!(from_payloads.all(lang), from_texts.all(lang));
    }
    assert_eq!(
        from_payloads.all(Lang::Simple),
        &vec!["cat".to_string(), "car".to_string(), "dog".to_string()]
    );
}

#[test]
fn bare_trailing_carriage_return_is_kept_verbatim() {
    let db = WordDb::from_texts(vec![
        "a\r\nbaz\r".to_string(),
        "one".to_string(),
        "two".to_string(),
    ])
    .unwrap();
    let words = db.all(Lang::Simple);
    assert_eq!(words, &vec!["a".to_string(), "baz\r".to_string()]);
}

#[test]
fn corrupt_payload_is_rejected() {
    let good = compress(b"cat\ncar\ndog");
    let mut truncated = good.clone();
    truncated.truncate(truncated.len() / 2);
    assert!(WordDb::from_payloads(&vec![truncated, good.clone(), good.clone()]).is_none());
    let garbage = vec![0xffu8, 0xff, 0xff, 0xff, 0xff, 0xff, 0xff, 0xff];
    assert!(WordDb::from_payloads(&vec![garbage, good.clone(), good]).is_none());
}

#[test]
fn non_utf8_payload_is_rejected() {
    let good = compress(b"cat\ncar\ndog");
    let bad = compress(&[0xffu8, 0xfe, 0x61]);
    assert!(WordDb::from_payloads(&vec![bad, good.clone(), good]).is_none());
}

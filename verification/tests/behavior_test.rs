use i18n::i18n::I18n;
use i18n::i18n::MessageObject;
use i18n::order::sort_message_objects;
use i18n::text_map::MessageMap;

fn s(x: &str) -> String {
    x.to_string()
}

#[test]
fn fallback_to_default_language() {
    let mut i = I18n::new(s("zh-cn"), true, 2);
    i.register_message(&s("test"), &s("test"), &s("en"), &s("en-test"));
    i.register_message(&s("test"), &s("test"), &s("zh-cn"), &s("中文"));
    // "fr" was never set: the default language answers.
    assert_eq!(i.message(&s("test"), &s("test"), &s("fr")), Some(&s("中文")));
    // The exact match wins over the fallback.
    assert_eq!(i.message(&s("test"), &s("test"), &s("en")), Some(&s("en-test")));
}

#[test]
fn no_fallback_without_default_language() {
    let mut i = I18n::default();
    assert!(i.is_enable_change());
    i.register_message(&s("a"), &s("b"), &s("en"), &s("x"));
    assert_eq!(i.message(&s("a"), &s("b"), &s("fr")), None);
    i.set_default_language(s("en"));
    assert_eq!(i.message(&s("a"), &s("b"), &s("fr")), Some(&s("x")));
}

#[test]
fn empty_text_removes_and_prunes() {
    let mut i = I18n::new(s(""), true, 2);
    i.register_message(&s("test"), &s("test"), &s("en"), &s("x"));
    assert_eq!(i.message(&s("test"), &s("test"), &s("en")), Some(&s("x")));
    i.register_message(&s("test"), &s("test"), &s("en"), &s(""));
    assert_eq!(i.message(&s("test"), &s("test"), &s("en")), None);
    // The last text is gone, so no record is kept for (test, test) at all.
    assert_eq!(i.to_message_objects().len(), 0);
}

#[test]
fn removing_one_language_keeps_the_rest() {
    let mut i = I18n::new(s(""), true, 2);
    i.register_message(&s("test"), &s("test"), &s("en"), &s("x"));
    i.register_message(&s("test"), &s("test"), &s("de"), &s("y"));
    i.register_message(&s("test"), &s("test"), &s("en"), &s(""));
    assert_eq!(i.message(&s("test"), &s("test"), &s("en")), None);
    assert_eq!(i.message(&s("test"), &s("test"), &s("de")), Some(&s("y")));
    assert_eq!(i.to_message_objects().len(), 1);
}

#[test]
fn freeze_blocks_changes() {
    let mut i = I18n::new(s("en"), true, 2);
    i.register_message(&s("test"), &s("test"), &s("en"), &s("kept"));
    i.disable_change();
    assert!(!i.is_enable_change());
    i.register_message(&s("test"), &s("test"), &s("en"), &s("changed"));
    i.register_message(&s("other"), &s("other"), &s("en"), &s("new"));
    assert_eq!(i.message(&s("test"), &s("test"), &s("en")), Some(&s("kept")));
    assert_eq!(i.message(&s("other"), &s("other"), &s("en")), None);
    assert_eq!(i.to_message_objects().len(), 1);
}

#[test]
fn enable_change_reopens_the_store() {
    let mut i = I18n::new(s("en"), true, 2);
    i.disable_change();
    i.register_message(&s("a"), &s("b"), &s("en"), &s("x"));
    assert_eq!(i.message(&s("a"), &s("b"), &s("en")), None);
    i.enable_change();
    assert!(i.is_enable_change());
    i.register_message(&s("a"), &s("b"), &s("en"), &s("x"));
    assert_eq!(i.message(&s("a"), &s("b"), &s("en")), Some(&s("x")));
}

#[test]
fn later_registration_overwrites() {
    let mut i = I18n::new(s(""), true, 2);
    i.register_message(&s("a"), &s("b"), &s("en"), &s("first"));
    i.register_message(&s("a"), &s("b"), &s("en"), &s("second"));
    assert_eq!(i.message(&s("a"), &s("b"), &s("en")), Some(&s("second")));
    assert_eq!(i.to_message_objects().len(), 1);
}

#[test]
fn decode_without_header_yields_nothing() {
    let rows = vec![vec![s("none"), s("none")]];
    assert_eq!(MessageObject::from_strings(&rows).len(), 0);
}

#[test]
fn decode_skips_short_rows_and_extra_columns() {
    let rows = vec![
        vec![s("namespace"), s("code"), s("en"), s("zh-cn")],
        vec![s("test"), s("test"), s("v1"), s("v2"), s("v3")],
        vec![s("short")],
    ];
    let res = MessageObject::from_strings(&rows);
    assert_eq!(res.len(), 1);
    assert_eq!(res[0].namespace(), "test");
    assert_eq!(res[0].code(), "test");
    assert_eq!(res[0].message().len(), 2);
    assert_eq!(res[0].message().get(&s("en")), Some(&s("v1")));
    assert_eq!(res[0].message().get(&s("zh-cn")), Some(&s("v2")));
}

#[test]
fn decode_encode_round_trip_rows() {
    let rows = vec![
        vec![s("namespace"), s("code"), s("en"), s("zh-cn")],
        vec![s("test"), s("test"), s("en-test"), s("中文")],
        vec![s("test"), s("test2"), s(""), s("空")],
        vec![s("none"), s("none")],
    ];
    let records = MessageObject::from_strings(&rows);
    assert_eq!(records.len(), 2);
    let encoded = MessageObject::message_objects_to_strings(records);
    assert_eq!(encoded.len(), 3);
    let again = MessageObject::from_strings(&encoded);
    assert_eq!(again.len(), 2);
    for record in &again {
        if record.code() == "test" {
            assert_eq!(record.namespace(), "test");
            assert_eq!(record.message().get(&s("en")), Some(&s("en-test")));
            assert_eq!(record.message().get(&s("zh-cn")), Some(&s("中文")));
        } else {
            assert_eq!(record.namespace(), "test");
            assert_eq!(record.code(), "test2");
            assert_eq!(record.message().get(&s("en")), Some(&s("")));
            assert_eq!(record.message().get(&s("zh-cn")), Some(&s("空")));
        }
    }
}

#[test]
fn encode_nothing_for_no_records() {
    let rows = MessageObject::message_objects_to_strings(Vec::new());
    assert_eq!(rows.len(), 0);
}

#[test]
fn encode_exact_rows() {
    let mut i = I18n::new(s(""), true, 2);
    i.register_message(&s("test"), &s("test"), &s("en"), &s("en-test"));
    i.register_message(&s("test"), &s("test"), &s("zh-cn"), &s("中文"));
    let rows = MessageObject::message_objects_to_strings(i.to_message_objects());
    assert_eq!(
        rows,
        vec![
            vec![s("namespace"), s("code"), s("en"), s("zh-cn")],
            vec![s("test"), s("test"), s("en-test"), s("中文")],
        ]
    );
}

#[test]
fn encode_backfills_later_languages() {
    let mut i = I18n::new(s(""), true, 2);
    i.register_message(&s("a"), &s("a"), &s("en"), &s("1"));
    i.register_message(&s("b"), &s("b"), &s("fr"), &s("2"));
    let rows = MessageObject::message_objects_to_strings(i.to_message_objects());
    assert_eq!(
        rows,
        vec![
            vec![s("namespace"), s("code"), s("en"), s("fr")],
            vec![s("a"), s("a"), s("1"), s("")],
            vec![s("b"), s("b"), s(""), s("2")],
        ]
    );
}

#[test]
fn reimport_preserves_lookups() {
    let mut i = I18n::new(s("zh-cn"), true, 2);
    i.register_message(&s("test"), &s("test"), &s("en"), &s("en-test"));
    i.register_message(&s("test"), &s("test"), &s("zh-cn"), &s("中文"));
    i.register_message(&s("test"), &s("test2"), &s("zh-cn"), &s("空"));
    i.register_message(&s("other"), &s("x"), &s("en"), &s("only-en"));

    let rows = MessageObject::message_objects_to_strings(i.to_message_objects());
    let records = MessageObject::from_strings(&rows);
    let mut fresh = I18n::new(s("zh-cn"), true, 2);
    fresh.register_message_objects(records);

    for (ns, code, lang) in [
        ("test", "test", "en"),
        ("test", "test", "zh-cn"),
        ("test", "test", "fr"),
        ("test", "test2", "zh-cn"),
        ("test", "test2", "en"),
        ("other", "x", "en"),
        ("other", "x", "zh-cn"),
        ("missing", "missing", "en"),
    ] {
        assert_eq!(
            fresh.message(&s(ns), &s(code), &s(lang)),
            i.message(&s(ns), &s(code), &s(lang))
        );
    }
}

#[test]
fn sort_orders_by_namespace_then_code() {
    let mut i = I18n::new(s(""), true, 2);
    for (ns, code) in [
        ("test2", "test"),
        ("test", "test"),
        ("none", "none"),
        ("test2", "test2"),
        ("test", "test2"),
    ] {
        i.register_message(&s(ns), &s(code), &s("en"), &s("v"));
    }
    let sorted = sort_message_objects(i.to_message_objects());
    let keys: Vec<(String, String)> = sorted
        .iter()
        .map(|m| (m.namespace().to_string(), m.code().to_string()))
        .collect();
    assert_eq!(
        keys,
        vec![
            (s("none"), s("none")),
            (s("test"), s("test")),
            (s("test"), s("test2")),
            (s("test2"), s("test")),
            (s("test2"), s("test2")),
        ]
    );
}

#[test]
fn sort_handles_prefixes_and_ties() {
    let mut i = I18n::new(s(""), true, 2);
    for (ns, code) in [("ab", "z"), ("a", "b"), ("a", "ab"), ("", "x"), ("a", "a")] {
        i.register_message(&s(ns), &s(code), &s("en"), &s("v"));
    }
    let sorted = sort_message_objects(i.to_message_objects());
    let keys: Vec<(String, String)> = sorted
        .iter()
        .map(|m| (m.namespace().to_string(), m.code().to_string()))
        .collect();
    assert_eq!(
        keys,
        vec![
            (s(""), s("x")),
            (s("a"), s("a")),
            (s("a"), s("ab")),
            (s("a"), s("b")),
            (s("ab"), s("z")),
        ]
    );
}

#[test]
fn message_object_accessors() {
    let rows = vec![
        vec![s("namespace"), s("code"), s("en")],
        vec![s("ns"), s("cd"), s("text")],
    ];
    let mut records = MessageObject::from_strings(&rows);
    let mut record = records.remove(0);
    assert_eq!(record.namespace(), "ns");
    assert_eq!(record.code(), "cd");
    assert_eq!(record.message().get(&s("en")), Some(&s("text")));

    record.set_namespace(s("ns2"));
    record.set_code(s("cd2"));
    let mut texts = MessageMap::new();
    assert_eq!(texts.len(), 0);
    texts.insert(s("fr"), s("bonjour"));
    texts.insert(s("fr"), s("salut"));
    assert_eq!(texts.len(), 1);
    record.set_message(texts);
    assert_eq!(record.namespace(), "ns2");
    assert_eq!(record.code(), "cd2");
    assert_eq!(record.message().get(&s("fr")), Some(&s("salut")));
    assert_eq!(record.message().get(&s("en")), None);
}

#[test]
fn message_map_insert_get_remove() {
    let mut m = MessageMap::new();
    m.insert(s("en"), s("one"));
    m.insert(s("de"), s("eins"));
    assert_eq!(m.len(), 2);
    assert_eq!(m.get(&s("en")), Some(&s("one")));
    assert_eq!(m.get(&s("de")), Some(&s("eins")));
    m.remove(&s("en"));
    assert_eq!(m.get(&s("en")), None);
    assert_eq!(m.len(), 1);
    m.remove(&s("en"));
    assert_eq!(m.len(), 1);
}

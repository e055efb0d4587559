use tagcore::codec::ex_parse_tag_at;
use tagcore::codec::push_tag;
use tagcore::text::chars_of;
use tagcore::text::string_from_chars;
use tagcore::Tag;

fn tag_text(t: &Tag) -> String {
    let mut out: Vec<char> = Vec::new();
    push_tag(&mut out, t);
    string_from_chars(&out)
}

#[test]
fn serialize_from_tag_to_str() {
    let tag_single_str = format!("value = {}", tag_text(&Tag::Simple("TODO".to_string())));
    assert_eq!(tag_single_str.trim(), "value = \"TODO\"".to_string());

    let tag_kv_str = format!(
        "value = {}",
        tag_text(&Tag::KV("Due".to_string(), "Today".to_string()))
    );
    assert_eq!(tag_kv_str.trim(), "value = [\"Due\", \"Today\"]".to_string());
}

#[test]
fn deserialize_from_str_to_tag() {
    let simple_tag_str = "\"Phase\"";
    let cs = chars_of(simple_tag_str);
    let (tag, used) = ex_parse_tag_at(&cs, 0).unwrap();
    assert_eq!(used, cs.len());
    assert_eq!(tag, Tag::Simple("Phase".to_string()));

    let kv_tag_str = "[\"Duck\",\"Quack\"]";
    let cs = chars_of(kv_tag_str);
    let (tag, used) = ex_parse_tag_at(&cs, 0).unwrap();
    assert_eq!(used, cs.len());
    assert_eq!(tag, Tag::KV("Duck".to_string(), "Quack".to_string()));
}

#[test]
fn tag_equality_is_structural() {
    assert_eq!(Tag::Simple("a".to_string()), Tag::Simple("a".to_string()));
    assert_ne!(Tag::Simple("a".to_string()), Tag::Simple("b".to_string()));
    assert_ne!(
        Tag::Simple("a".to_string()),
        Tag::KV("a".to_string(), "a".to_string())
    );
    assert_eq!(
        Tag::KV("k".to_string(), "v".to_string()),
        Tag::KV("k".to_string(), "v".to_string())
    );
    assert_ne!(
        Tag::KV("k".to_string(), "v".to_string()),
        Tag::KV("v".to_string(), "k".to_string())
    );
}

#[test]
fn tag_accessors() {
    let s = Tag::simple("Draft".to_string());
    assert_eq!(s.kind(), "Simple");
    assert!(s.is_simple());
    assert!(!s.is_kv());
    assert_eq!(s.simple_value(), Some("Draft".to_string()));
    assert_eq!(s.kv_key(), None);
    assert_eq!(s.kv_value(), None);

    let kv = Tag::kv("Due".to_string(), "Friday".to_string());
    assert_eq!(kv.kind(), "KV");
    assert!(!kv.is_simple());
    assert!(kv.is_kv());
    assert_eq!(kv.simple_value(), None);
    assert_eq!(kv.kv_key(), Some("Due".to_string()));
    assert_eq!(kv.kv_value(), Some("Friday".to_string()));
}

#[test]
fn tag_rejects_wrong_list_shapes() {
    // One element only.
    let cs = chars_of("[\"Due\"]");
    assert!(ex_parse_tag_at(&cs, 0).is_none());
    // Three elements: rejected, as the format allows only pairs.
    let cs = chars_of("[\"a\", \"b\", \"c\"]");
    assert!(ex_parse_tag_at(&cs, 0).is_none());
    // A nested list is no string.
    let cs = chars_of("[[\"a\"], \"b\"]");
    assert!(ex_parse_tag_at(&cs, 0).is_none());
}

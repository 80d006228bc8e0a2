use pulse::json::to_object_line;

fn v(items: &[&str]) -> Vec<String> {
    items.iter().map(|s| s.to_string()).collect()
}

#[test]
fn objects_on_one_line() {
    assert_eq!(to_object_line(&v(&[]), &v(&[])), "{}");
    assert_eq!(to_object_line(&v(&["a"]), &v(&["1"])), r#"{"a":1}"#);
    assert_eq!(to_object_line(&v(&["a\"", "b"]), &v(&["\"x\"", "[]"])), r#"{"a\"":"x","b":[]}"#);
}

#[test]
fn object_lines_are_read_by_serde_json() {
    for code in 0..0x250u32 {
        let name = format!("k{}", char::from_u32(code).unwrap());
        let line = to_object_line(&[name.clone()], &v(&["true"]));
        assert!(line.chars().all(|c| c as u32 >= 32));
        let read: serde_json::Map<String, serde_json::Value> = serde_json::from_str(&line).unwrap();
        assert_eq!(read.keys().next().unwrap(), &name);
    }
}

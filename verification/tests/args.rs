use std::collections::HashMap;

use filterfs::args::parse_options;

#[test]
fn option_parsing() {
    // init
    let mut result = HashMap::new();
    let mut expected = HashMap::new();

    // setup
    let options = "key=value".to_string();
    expected.insert("key".to_string(), Some("value".to_string()));

    // execute
    parse_options(options, |key, value| {
        let _ = result.insert(key.to_string(), value.map(|v| v.to_string()));
        Ok(())
    })
    .unwrap();

    // verify
    assert_eq!(expected, result)
}

#[test]
fn option_parsing_multiple() {
    let mut result = HashMap::new();
    let mut expected = HashMap::new();

    let options = "key=value,key2,key3=value7".to_string();
    expected.insert("key".to_string(), Some("value".to_string()));
    expected.insert("key2".to_string(), None);
    expected.insert("key3".to_string(), Some("value7".to_string()));

    parse_options(options, |key, value| {
        let _ = result.insert(key.to_string(), value.map(|v| v.to_string()));
        Ok(())
    })
    .unwrap();

    assert_eq!(expected, result)
}

#[test]
fn option_parsing_handle_empty() {
    let mut result = HashMap::new();
    let mut expected = HashMap::new();

    let options = "key=value,,,key2,,key3=value7".to_string();
    expected.insert("key".to_string(), Some("value".to_string()));
    expected.insert("key2".to_string(), None);
    expected.insert("key3".to_string(), Some("value7".to_string()));

    parse_options(options, |key, value| {
        let _ = result.insert(key.to_string(), value.map(|v| v.to_string()));
        Ok(())
    })
    .unwrap();

    assert_eq!(expected, result)
}

#[test]
fn option_parsing_eq() {
    let mut result = HashMap::new();
    let mut expected = HashMap::new();

    let options = "key=value=3,key2,key3=value7=a=b=c".to_string();
    expected.insert("key".to_string(), Some("value=3".to_string()));
    expected.insert("key2".to_string(), None);
    expected.insert("key3".to_string(), Some("value7=a=b=c".to_string()));

    parse_options(options, |key, value| {
        let _ = result.insert(key.to_string(), value.map(|v| v.to_string()));
        Ok(())
    })
    .unwrap();

    assert_eq!(expected, result)
}

#[test]
fn option_parsing_keeps_order_and_stops_at_first_error() {
    let mut seen: Vec<(String, Option<String>)> = Vec::new();
    let r = parse_options("a=1,=skipped,b,c=3,d".to_string(), |key, value| {
        seen.push((key.to_string(), value.map(|v| v.to_string())));
        if key == "c" {
            Err(format!("{} refused", key))
        } else {
            Ok(())
        }
    });
    assert_eq!(r, Err("c refused".to_string()));
    assert_eq!(
        seen,
        vec![
            ("a".to_string(), Some("1".to_string())),
            ("b".to_string(), None),
            ("c".to_string(), Some("3".to_string())),
        ]
    );
}

#[test]
fn option_parsing_empty_text_and_empty_values() {
    let mut seen: Vec<(String, Option<String>)> = Vec::new();
    parse_options(String::new(), |key, value| {
        seen.push((key.to_string(), value.map(|v| v.to_string())));
        Ok(())
    })
    .unwrap();
    assert!(seen.is_empty());

    parse_options("k=,é=ü".to_string(), |key, value| {
        seen.push((key.to_string(), value.map(|v| v.to_string())));
        Ok(())
    })
    .unwrap();
    assert_eq!(
        seen,
        vec![
            ("k".to_string(), Some(String::new())),
            ("é".to_string(), Some("ü".to_string())),
        ]
    );
}

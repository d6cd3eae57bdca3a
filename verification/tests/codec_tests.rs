use cache_lru::cache::Cache;
use cache_lru::codec::{parse_line, parse_lines, render_line};

#[test]
fn test_render_line_format() {
    let line = render_line(&b"test".to_vec(), &b"123".to_vec());
    assert_eq!(line, b"test\t123".to_vec());
}

#[test]
fn test_parse_line_round_trip() {
    let line = render_line(&b"key".to_vec(), &b"value".to_vec());
    let parsed = parse_line(&line);
    assert_eq!(parsed, Some((b"key".to_vec(), b"value".to_vec())));
}

#[test]
fn test_parse_line_empty_fields() {
    assert_eq!(parse_line(&b"\t".to_vec()), Some((b"".to_vec(), b"".to_vec())));
    assert_eq!(parse_line(&b"k\t".to_vec()), Some((b"k".to_vec(), b"".to_vec())));
    assert_eq!(parse_line(&b"\tv".to_vec()), Some((b"".to_vec(), b"v".to_vec())));
}

#[test]
fn test_parse_line_malformed() {
    assert_eq!(parse_line(&b"".to_vec()), None);
    assert_eq!(parse_line(&b"no separator".to_vec()), None);
    assert_eq!(parse_line(&b"a\tb\tc".to_vec()), None);
}

#[test]
fn test_parse_lines_skips_malformed() {
    let lines = vec![
        b"one\t1".to_vec(),
        b"garbage".to_vec(),
        b"two\t2".to_vec(),
        b"a\tb\tc".to_vec(),
        b"three\t3".to_vec(),
    ];
    let entries = parse_lines(&lines);
    assert_eq!(
        entries,
        vec![
            (b"one".to_vec(), b"1".to_vec()),
            (b"two".to_vec(), b"2".to_vec()),
            (b"three".to_vec(), b"3".to_vec()),
        ]
    );
}

#[test]
fn test_save_load_round_trip() {
    // mirror an entire save/load cycle in memory, capacity 2
    let mut cache = Cache::<String, i32>::new(2);
    cache.put("test".to_string(), 123);
    cache.put("test2".to_string(), 456);

    let mut lines: Vec<Vec<u8>> = Vec::new();
    for i in 0..cache.len() {
        let entry = cache.entry_at(i);
        lines.push(render_line(
            &entry.0.as_bytes().to_vec(),
            &entry.1.to_string().into_bytes(),
        ));
    }

    let mut pairs: Vec<(String, i32)> = Vec::new();
    for (k, v) in parse_lines(&lines) {
        let key = String::from_utf8(k).unwrap();
        let value: i32 = String::from_utf8(v).unwrap().parse().unwrap();
        pairs.push((key, value));
    }
    let mut reloaded = Cache::<String, i32>::new_from_pairs(2, pairs);
    assert_eq!(reloaded.get(&"test".to_string()), Some(&123));
    assert_eq!(reloaded.get(&"test2".to_string()), Some(&456));
    assert_eq!(reloaded.len(), 2);
}

#[test]
fn test_load_truncates_to_capacity() {
    // replaying in file order keeps the last `capacity` distinct keys
    let lines = vec![b"a\t1".to_vec(), b"b\t2".to_vec(), b"c\t3".to_vec()];
    let mut pairs: Vec<(String, i32)> = Vec::new();
    for (k, v) in parse_lines(&lines) {
        pairs.push((
            String::from_utf8(k).unwrap(),
            String::from_utf8(v).unwrap().parse().unwrap(),
        ));
    }
    let mut cache = Cache::<String, i32>::new_from_pairs(2, pairs);
    assert_eq!(cache.get(&"a".to_string()), None);
    assert_eq!(cache.get(&"b".to_string()), Some(&2));
    assert_eq!(cache.get(&"c".to_string()), Some(&3));
}

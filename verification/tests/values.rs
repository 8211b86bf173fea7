use fstar_mcp::json::{self, Json};
use fstar_mcp::locations::{self, Style};
use fstar_mcp::order;
use fstar_mcp::paths;
use fstar_mcp::text;

fn strings(list: &[&str]) -> Vec<String> {
    list.iter().map(|item| item.to_string()).collect()
}

#[test]
fn whitespace_is_that_of_unicode() {
    for code in 0..=0x10ffffu32 {
        if let Some(ch) = char::from_u32(code) {
            assert_eq!(text::is_whitespace(ch), ch.is_whitespace());
        }
    }
}

#[test]
fn texts_are_cut_like_strings() {
    let samples = [
        "", " ", "a", " a b ", "a\nb\r\nc", "\n", "x\r", "é ü\u{2003}z", "a,b,,c", "open A;;",
    ];
    for sample in samples {
        assert_eq!(text::trim(sample), sample.trim());
        assert_eq!(text::trim_start(sample), sample.trim_start());
        assert_eq!(
            text::split_words(sample),
            sample.split_whitespace().collect::<Vec<_>>()
        );
        assert_eq!(
            text::first_word(sample).as_deref(),
            sample.split_whitespace().next()
        );
        assert_eq!(text::split_lines(sample), sample.lines().collect::<Vec<_>>());
        assert_eq!(
            text::split_char(sample, ','),
            sample.split(',').collect::<Vec<_>>()
        );
        assert_eq!(
            text::trim_end_of(sample, ';'),
            sample.trim_end_matches(';')
        );
        assert_eq!(text::replace_char(sample, 'a', '/'), sample.replace('a', "/"));
        for affix in ["", "a", " ", "open ", ";;"] {
            assert_eq!(text::starts_with(sample, affix), sample.starts_with(affix));
            assert_eq!(text::ends_with(sample, affix), sample.ends_with(affix));
            assert_eq!(
                text::strip_prefix(sample, affix).as_deref(),
                sample.strip_prefix(affix)
            );
        }
    }
}

#[test]
fn numbers_are_written_and_read() {
    assert_eq!(text::decimal(0), "0");
    assert_eq!(text::decimal(u64::MAX), "18446744073709551615");
    assert_eq!(text::integer(i64::MIN), "-9223372036854775808");
    assert_eq!(text::integer(17), "17");
    assert_eq!(text::parse_unsigned("+042", 100), Some(42));
    assert_eq!(text::parse_unsigned("101", 100), None);
    assert_eq!(text::parse_unsigned("", 100), None);
    assert_eq!(text::parse_unsigned("+", 100), None);
    assert_eq!(text::parse_unsigned("-1", 100), None);
    assert_eq!(text::parse_unsigned("99999999999999999999999", u64::MAX), None);
}

#[test]
fn paths_are_those_of_std() {
    let samples = [
        "/a/b.fst", "a/b", "a", "/", "", ".", "./a", "/a/./b/", "/a//b", "..", "a/..", "/a/b/.",
    ];
    for sample in samples {
        let path = std::path::Path::new(sample);
        assert_eq!(
            paths::parent(sample),
            path.parent().map(|parent| parent.to_string_lossy().into_owned())
        );
        assert_eq!(
            paths::file_name(sample),
            path.file_name().map(|name| name.to_string_lossy().into_owned())
        );
        assert_eq!(paths::is_absolute(sample), path.is_absolute());
        for other in samples {
            let right = std::path::Path::new(other);
            assert_eq!(
                paths::join(sample, other),
                path.join(right).to_string_lossy()
            );
            assert_eq!(locations::same_path(Style::Unix, sample, other), path == right);
            assert_eq!(order::is_before(Style::Unix, sample, other), path < right);
            assert_eq!(
                locations::is_inside(Style::Unix, sample, other),
                path.starts_with(right)
            );
        }
    }
}

#[test]
fn paths_are_sorted() {
    assert_eq!(
        order::sort(Style::Unix, strings(&["/b", "/a/c", "/a", "/b"])),
        strings(&["/a", "/a/c", "/b", "/b"])
    );
    let mixed = strings(&["/b", "/a/./c", "/a", "/a/c", "/b/", "/a//c"]);
    let mut sorted: Vec<std::path::PathBuf> =
        mixed.iter().map(|path| std::path::PathBuf::from(path)).collect();
    sorted.sort();
    assert_eq!(
        order::sort(Style::Unix, mixed),
        sorted
            .iter()
            .map(|path| path.to_string_lossy().into_owned())
            .collect::<Vec<_>>()
    );
}

#[test]
fn the_first_of_equal_paths_stays() {
    let mixed = strings(&["/b/", "/a/./c", "/b", "/a/c"]);
    let mut kept = std::collections::BTreeSet::new();
    for path in &mixed {
        kept.insert(std::path::PathBuf::from(path));
    }
    let distinct = order::sort_distinct(Style::Unix, mixed);
    assert_eq!(distinct, strings(&["/a/./c", "/b/"]));
    assert_eq!(
        distinct,
        kept.iter()
            .map(|path| path.to_string_lossy().into_owned())
            .collect::<Vec<_>>()
    );
}

#[test]
fn windows_paths_have_their_own_order() {
    let files = strings(&["C:\\dir-x\\b", "C:\\dir\\a"]);
    assert_eq!(
        order::sort(Style::Windows, files.clone()),
        strings(&["C:\\dir\\a", "C:\\dir-x\\b"])
    );
    assert_eq!(order::sort(Style::Unix, files.clone()), files);
    assert!(order::is_before(Style::Windows, "C:\\a", "C:/a/b"));
    assert_eq!(
        order::sort_distinct(
            Style::Windows,
            strings(&["C:\\a/b", "c:\\a\\b", "C:\\A\\b"])
        ),
        strings(&["C:\\A\\b", "C:\\a/b"])
    );
}

#[test]
fn letters_are_raised_like_ascii() {
    for code in 0..0x300u32 {
        if let Some(ch) = char::from_u32(code) {
            assert_eq!(text::to_upper(ch), ch.to_ascii_uppercase());
        }
    }
}

#[test]
fn setting_a_member_replaces_it() {
    let mut members = vec![
        ("a".to_string(), Json::Integer(1)),
        ("b".to_string(), Json::Integer(2)),
    ];
    json::set(&mut members, "a", Json::Null);
    json::set(&mut members, "c", Json::Bool(true));
    assert_eq!(
        json::to_text(json::object(members)),
        r#"{"a":null,"b":2,"c":true}"#
    );
}

#[test]
fn documents_are_read_and_written() {
    let source = r#"{"a":[1,-2,18446744073709551615],"b":{"c":null},"d":true,"e":1.5,"f":"x\ny"}"#;
    let value = json::parse(source).unwrap();
    assert_eq!(json::to_text(value.copy()), source);
    assert_eq!(json::to_bytes(value.copy()), source.as_bytes());
    assert_eq!(json::parse_bytes(source.as_bytes()), Some(value));
    assert!(json::parse("{").is_err());
    assert!(json::parse_bytes(b"{").is_none());
}

#[test]
fn repeated_names_keep_the_last_value() {
    let value = json::object(vec![
        ("a".to_string(), Json::Integer(1)),
        ("b".to_string(), Json::Null),
        ("a".to_string(), Json::Integer(3)),
    ]);
    assert_eq!(json::to_text(value), r#"{"a":3,"b":null}"#);
    assert_eq!(json::to_text(Json::Integer(1 << 100)), "null");
    let read = json::parse(r#"{"a":1,"a":2}"#).unwrap();
    assert_eq!(read.get("a"), Some(&Json::Integer(2)));
}

#[test]
fn members_are_found() {
    let value = json::parse(r#"{"a":"x","b":7}"#).unwrap();
    assert_eq!(value.string_member("a"), Some("x".to_string()));
    assert_eq!(value.string_member("b"), None);
    assert_eq!(value.string_member_or_empty("c"), "");
    assert!(json::parse("null").unwrap().is_null());
    assert_eq!(value.take("b"), Some(Json::Integer(7)));
}

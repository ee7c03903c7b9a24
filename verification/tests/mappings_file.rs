use sidecar::{parse_posts, parse_tag_mappings, MappingError};

#[test]
fn mapping_lines_are_parsed_and_applied() {
    let mappings = parse_tag_mappings("a,b\nc,\n").unwrap();
    let xml = "<posts><post id=\"1\">\
        <tag>a</tag><tag>c</tag><tag>d</tag>\
        </post></posts>";
    let posts = parse_posts(xml.as_bytes(), &mappings).unwrap();

    assert_eq!(posts[0].tags, vec!["b".to_string(), "d".to_string()]);
}

#[test]
fn mapping_fields_are_trimmed() {
    let mappings = parse_tag_mappings("  old tag  ,  new tag  ").unwrap();
    let xml = "<posts><post id=\"1\"><tag>old tag</tag></post></posts>";
    let posts = parse_posts(xml.as_bytes(), &mappings).unwrap();

    assert_eq!(posts[0].tags, vec!["new tag".to_string()]);
}

#[test]
fn later_mapping_overrides_earlier() {
    let mappings = parse_tag_mappings("a,b\na,z").unwrap();
    let xml = "<posts><post id=\"1\"><tag>a</tag></post></posts>";
    let posts = parse_posts(xml.as_bytes(), &mappings).unwrap();

    assert_eq!(posts[0].tags, vec!["z".to_string()]);
}

#[test]
fn line_without_two_fields_is_a_format_error() {
    let err = parse_tag_mappings("a,b\njust-one-field\nc,d").unwrap_err();

    assert_eq!(err, MappingError::Format { line: 1 });
}

#[test]
fn line_with_three_fields_is_a_format_error() {
    let err = parse_tag_mappings("a,b,c").unwrap_err();

    assert_eq!(err, MappingError::Format { line: 0 });
}

#[test]
fn empty_source_line_is_skipped() {
    let mappings = parse_tag_mappings(",ignored\na,b").unwrap();

    assert!(mappings.lookup("").is_none());
    assert_eq!(mappings.lookup("a").unwrap().unwrap(), "b");
}

#[test]
fn empty_text_has_no_mappings() {
    let mappings = parse_tag_mappings("").unwrap();
    let xml = "<posts><post id=\"1\"><tag>a</tag></post></posts>";
    let posts = parse_posts(xml.as_bytes(), &mappings).unwrap();

    assert_eq!(posts[0].tags, vec!["a".to_string()]);
}

#[test]
fn windows_line_endings_are_accepted() {
    let mappings = parse_tag_mappings("a,b\r\nc,d\r\n").unwrap();
    let xml = "<posts><post id=\"1\"><tag>c</tag></post></posts>";
    let posts = parse_posts(xml.as_bytes(), &mappings).unwrap();

    assert_eq!(posts[0].tags, vec!["d".to_string()]);
}

#[test]
fn blank_fields_make_no_mapping_but_no_error() {
    let mappings = parse_tag_mappings(" , ").unwrap();

    assert!(mappings.lookup("").is_none());
    assert!(mappings.lookup(" ").is_none());
}

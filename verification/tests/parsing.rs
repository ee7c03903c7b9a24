use sidecar::{count_tags, parse_posts, posts_from_events, Attr, Event, MediaType, ParseError, TagMappings};

fn no_mappings() -> TagMappings {
    TagMappings::new()
}

#[test]
fn well_formed_posts_parse_in_document_order() {
    let xml = "<posts>\
        <post id=\"11\"><tag>a</tag></post>\
        <post id=\"22\"></post>\
        <post id=\"33\"><tag>b</tag><tag>c</tag></post>\
        </posts>";
    let posts = parse_posts(xml.as_bytes(), &no_mappings()).unwrap();

    assert_eq!(posts.len(), 3);
    assert_eq!(posts[0].id, "11");
    assert_eq!(posts[1].id, "22");
    assert_eq!(posts[2].id, "33");
    assert_eq!(posts[0].tags, vec!["a".to_string()]);
    assert!(posts[1].tags.is_empty());
    assert_eq!(posts[2].tags, vec!["b".to_string(), "c".to_string()]);
}

#[test]
fn post_without_id_fails_at_any_position() {
    let first = "<posts><post><tag>a</tag></post></posts>";
    let err = parse_posts(first.as_bytes(), &no_mappings()).unwrap_err();
    assert_eq!(err, ParseError::MissingAttribute);

    let later = "<posts>\
        <post id=\"1\"></post>\
        <post><tag>a</tag></post>\
        <post id=\"3\"></post>\
        </posts>";
    let err = parse_posts(later.as_bytes(), &no_mappings()).unwrap_err();
    assert_eq!(err, ParseError::MissingAttribute);
}

#[test]
fn syntax_error_surfaces_as_malformed() {
    let xml = "<posts><post id=\"1\"></pos";
    let err = parse_posts(xml.as_bytes(), &no_mappings()).unwrap_err();
    assert!(matches!(err, ParseError::Malformed(_)));
}

#[test]
fn remapping_renames_and_drops_tags() {
    // mapping {a -> b, c -> (drop)}: tags [a, c, d] come out as [b, d]
    let mut mappings = TagMappings::new();
    mappings.insert("a".to_string(), Some("b".to_string()));
    mappings.insert("c".to_string(), None);
    let xml = "<posts><post id=\"1\">\
        <tag>a</tag><tag>c</tag><tag>d</tag>\
        </post></posts>";
    let posts = parse_posts(xml.as_bytes(), &mappings).unwrap();

    assert_eq!(posts[0].tags, vec!["b".to_string(), "d".to_string()]);
}

#[test]
fn counting_without_remap_sees_raw_tags() {
    let xml = "<posts><post id=\"1\">\
        <tag>a</tag><tag>c</tag><tag>d</tag>\
        </post></posts>";
    let posts = parse_posts(xml.as_bytes(), &no_mappings()).unwrap();
    let counter = count_tags(&posts);

    assert_eq!(counter.get("a").unwrap(), 1);
    assert_eq!(counter.get("c").unwrap(), 1);
    assert_eq!(counter.get("d").unwrap(), 1);
    assert!(counter.get("b").is_none());
}

#[test]
fn extension_inferred_from_first_photo_url() {
    let xml = "<posts><post id=\"1\">\
        <photo><photo-url>http://example.net/media/image123.jpg</photo-url></photo>\
        </post></posts>";
    let posts = parse_posts(xml.as_bytes(), &no_mappings()).unwrap();

    assert_eq!(posts[0].media_extension.as_deref(), Some("jpg"));
    assert_eq!(posts[0].url, "http://example.net/media/image123.jpg");
}

#[test]
fn url_without_dot_leaves_extension_unset() {
    let xml = "<posts><post id=\"1\">\
        <photo><photo-url>http://example/media/raw</photo-url></photo>\
        </post></posts>";
    let posts = parse_posts(xml.as_bytes(), &no_mappings()).unwrap();

    assert!(posts[0].media_extension.is_none());
}

#[test]
fn second_photo_url_never_overwrites_extension() {
    let xml = "<posts><post id=\"1\">\
        <photo><photo-url>http://example/a.jpg</photo-url></photo>\
        <photo><photo-url>http://example/b.png</photo-url></photo>\
        </post></posts>";
    let posts = parse_posts(xml.as_bytes(), &no_mappings()).unwrap();

    assert_eq!(posts[0].media_extension.as_deref(), Some("jpg"));
    assert_eq!(posts[0].image_count, 2);
    assert_eq!(posts[0].media_type, MediaType::Photo);
}

#[test]
fn text_post_stays_text_typed() {
    let xml = "<posts><post id=\"1\"><tag>a</tag></post></posts>";
    let posts = parse_posts(xml.as_bytes(), &no_mappings()).unwrap();

    assert_eq!(posts[0].media_type, MediaType::Text);
    assert_eq!(posts[0].image_count, 0);
}

#[test]
fn unrecognized_elements_are_ignored() {
    let xml = "<posts><post id=\"1\">\
        <title>not a tag</title>\
        <tag>real</tag>\
        </post></posts>";
    let posts = parse_posts(xml.as_bytes(), &no_mappings()).unwrap();

    assert_eq!(posts[0].tags, vec!["real".to_string()]);
}

#[test]
fn empty_id_counts_as_missing() {
    let xml = "<posts><post id=\"\"></post></posts>";
    let err = parse_posts(xml.as_bytes(), &no_mappings()).unwrap_err();
    assert_eq!(err, ParseError::MissingAttribute);
}

#[test]
fn stray_post_end_seals_nothing() {
    let events = vec![Event::End { name: "post".to_string() }];
    let posts = posts_from_events(&events, &TagMappings::new()).unwrap();

    assert!(posts.is_empty());
}

#[test]
fn unclosed_post_is_not_sealed() {
    let events = vec![
        Event::Start {
            name: "post".to_string(),
            attrs: vec![Attr { name: "id".to_string(), value: "1".to_string() }],
        },
        Event::Text { text: "loose".to_string() },
    ];
    let posts = posts_from_events(&events, &TagMappings::new()).unwrap();

    assert!(posts.is_empty());
}

use sidecar::{build_file_cache, parse_posts, plan_sidecars, report_missing_media, TagMappings};

fn names(list: &[&str]) -> Vec<String> {
    list.iter().map(|n| n.to_string()).collect()
}

#[test]
fn inventory_excludes_side_files() {
    let cache = build_file_cache(&names(&["a.jpg", "a.jpg.txt", "notes.txt", "plain"]));

    assert_eq!(cache, names(&["a.jpg", "plain"]));
}

#[test]
fn dotfile_named_like_the_extension_is_kept() {
    // a leading dot alone marks no extension, as the platform's path
    // handling has it, so ".txt" itself is still a media candidate
    let cache = build_file_cache(&names(&[".txt", ".hidden.txt"]));

    assert_eq!(cache, names(&[".txt"]));
}

#[test]
fn plan_matches_by_id_prefix_on_stems() {
    let xml = "<posts><post id=\"123\"><tag>a</tag><tag>b</tag></post></posts>";
    let posts = parse_posts(xml.as_bytes(), &TagMappings::new()).unwrap();
    let inventory = names(&["123_0.jpg", "1234.png", "99.gif"]);
    let plan = plan_sidecars(&posts, &inventory);

    assert_eq!(plan.len(), 2);
    assert_eq!(plan[0].path, "123_0.jpg.txt");
    assert_eq!(plan[0].contents, "a\nb\n");
    assert_eq!(plan[1].path, "1234.png.txt");
    assert_eq!(plan[1].contents, "a\nb\n");
}

#[test]
fn post_without_matches_plans_nothing() {
    let xml = "<posts><post id=\"777\"><tag>a</tag></post></posts>";
    let posts = parse_posts(xml.as_bytes(), &TagMappings::new()).unwrap();
    let plan = plan_sidecars(&posts, &names(&["1.jpg", "2.jpg"]));

    assert!(plan.is_empty());
}

#[test]
fn tagless_post_plans_empty_payload() {
    let xml = "<posts><post id=\"5\"></post></posts>";
    let posts = parse_posts(xml.as_bytes(), &TagMappings::new()).unwrap();
    let plan = plan_sidecars(&posts, &names(&["5.png"]));

    assert_eq!(plan.len(), 1);
    assert_eq!(plan[0].contents, "");
}

#[test]
fn regeneration_is_byte_identical() {
    // A second run sees the side-files the first run wrote; the scan
    // excludes them, so the second plan is identical, file for file.
    let xml = "<posts>\
        <post id=\"10\"><tag>one</tag></post>\
        <post id=\"20\"><tag>two</tag><tag>three</tag></post>\
        </posts>";
    let posts = parse_posts(xml.as_bytes(), &TagMappings::new()).unwrap();
    let disk_before = names(&["10.jpg", "20.gif", "20_1.gif"]);

    let inventory = build_file_cache(&disk_before);
    let first = plan_sidecars(&posts, &inventory);

    let mut disk_after = disk_before.clone();
    for f in &first {
        disk_after.push(f.path.clone());
    }
    let second = plan_sidecars(&posts, &build_file_cache(&disk_after));

    assert_eq!(first.len(), second.len());
    for (a, b) in first.iter().zip(second.iter()) {
        assert_eq!(a.path, b.path);
        assert_eq!(a.contents, b.contents);
    }
}

#[test]
fn missing_photo_post_reported_once_text_post_never() {
    let xml = "<posts>\
        <post id=\"1\"><photo><photo-url>http://x/a.jpg</photo-url></photo></post>\
        <post id=\"2\"><tag>text only</tag></post>\
        <post id=\"3\"><photo><photo-url>http://x/c.png</photo-url></photo></post>\
        </posts>";
    let posts = parse_posts(xml.as_bytes(), &TagMappings::new()).unwrap();
    let inventory = names(&["3_0.png"]);
    let report = report_missing_media(&posts, &inventory);

    assert_eq!(report.len(), 1);
    assert_eq!(report[0].id, "1");
    assert_eq!(report[0].url, "http://x/a.jpg");
}

#[test]
fn text_post_not_reported_even_with_empty_inventory() {
    let xml = "<posts><post id=\"9\"><tag>a</tag></post></posts>";
    let posts = parse_posts(xml.as_bytes(), &TagMappings::new()).unwrap();
    let report = report_missing_media(&posts, &Vec::new());

    assert!(report.is_empty());
}

#[test]
fn report_matches_on_full_file_name() {
    let xml = "<posts><post id=\"42\"><photo><photo-url>http://x/m.jpg</photo-url></photo></post></posts>";
    let posts = parse_posts(xml.as_bytes(), &TagMappings::new()).unwrap();

    let found = report_missing_media(&posts, &names(&["42abc.dat"]));
    assert!(found.is_empty());

    let missing = report_missing_media(&posts, &names(&["a42.dat"]));
    assert_eq!(missing.len(), 1);
}

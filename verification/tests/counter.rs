use sidecar::{Counter, TagCount};

#[test]
fn new_key_counted_once() {
    let mut counter = Counter::new();
    counter.increment("sidecar");

    assert_eq!(counter.get("sidecar").unwrap(), 1);
}

#[test]
fn existing_key_incremented_once() {
    let mut counter = Counter::new();
    counter.increment("sidecar");
    counter.increment("sidecar");

    assert_eq!(counter.get("sidecar").unwrap(), 2);
}

#[test]
fn from_counter_for_vec() {
    let mut counter = Counter::new();
    counter.increment("sidecar");
    let counts: Vec<TagCount> = counter.into_table();

    assert_eq!(counts[0].tag, "sidecar");
    assert_eq!(counts[0].count, 1);
}

#[test]
fn absent_key_reads_nothing() {
    let mut counter = Counter::new();
    counter.increment("present");

    assert!(counter.get("absent").is_none());
}

#[test]
fn table_keeps_first_occurrence_order() {
    let mut counter = Counter::new();
    counter.increment("b");
    counter.increment("a");
    counter.increment("b");
    let counts = counter.into_table();

    assert_eq!(counts.len(), 2);
    assert_eq!(counts[0].tag, "b");
    assert_eq!(counts[0].count, 2);
    assert_eq!(counts[1].tag, "a");
    assert_eq!(counts[1].count, 1);
}

#[test]
fn sorted_table_orders_by_count_then_tag() {
    // tags [x, x, y, y, z] sort to [(x, 2), (y, 2), (z, 1)]: equal counts
    // fall back to tag order, lower counts come later.
    let mut counter = Counter::new();
    for tag in ["x", "x", "y", "y", "z"] {
        counter.increment(tag);
    }
    let sorted = counter.into_sorted_table();

    assert_eq!(sorted.len(), 3);
    assert_eq!(sorted[0].tag, "x");
    assert_eq!(sorted[0].count, 2);
    assert_eq!(sorted[1].tag, "y");
    assert_eq!(sorted[1].count, 2);
    assert_eq!(sorted[2].tag, "z");
    assert_eq!(sorted[2].count, 1);
}

#[test]
fn tag_count_new_carries_fields() {
    let tc = TagCount::new(String::from("art"), 7);

    assert_eq!(tc.tag, "art");
    assert_eq!(tc.count, 7);
}

#[test]
fn equal_counts_sort_lexicographically() {
    let mut counter = Counter::new();
    for tag in ["b", "a", "ab", "ab"] {
        counter.increment(tag);
    }
    let sorted = counter.into_sorted_table();

    assert_eq!(sorted[0].tag, "ab");
    assert_eq!(sorted[0].count, 2);
    // "a" precedes "ab" precedes "b" in lexicographic order
    assert_eq!(sorted[1].tag, "a");
    assert_eq!(sorted[2].tag, "b");
}

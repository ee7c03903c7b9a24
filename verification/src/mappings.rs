//! The tag-remapping table: renames or drops specific tag texts before they
//! are recorded, and the parser for its plain-text file format.
use vstd::prelude::*;
use crate::text;

verus! {

/// One remapping: a source tag and its replacement (`None` drops the tag).
#[derive(Debug)]
struct MappingEntry {
    source: String,
    dest: Option<String>,
}

#[verifier::ext_equal]
pub ghost struct MappingEntryView {
    pub source: Seq<char>,
    pub dest: Option<Seq<char>>,
}

impl View for MappingEntry {
    type V = MappingEntryView;

    closed spec fn view(&self) -> MappingEntryView {
        MappingEntryView { source: self.source@, dest: self.dest.deep_view() }
    }
}

impl DeepView for MappingEntry {
    type V = MappingEntryView;

    closed spec fn deep_view(&self) -> MappingEntryView {
        self.view()
    }
}

/// The map described by a list of entries, later entries overriding earlier.
pub open spec fn map_of_entries(s: Seq<MappingEntryView>) -> Map<Seq<char>, Option<Seq<char>>>
    decreases s.len(),
{
    if s.len() == 0 {
        Map::empty()
    } else {
        map_of_entries(s.drop_last()).insert(s.last().source, s.last().dest)
    }
}

/// Renaming/dropping table applied to tag text while parsing posts. Viewed
/// as a map from source tag to `Some(replacement)` or `None` (drop).
#[derive(Debug)]
pub struct TagMappings {
    entries: Vec<MappingEntry>,
}

impl View for TagMappings {
    type V = Map<Seq<char>, Option<Seq<char>>>;

    closed spec fn view(&self) -> Map<Seq<char>, Option<Seq<char>>> {
        map_of_entries(self.entries.deep_view())
    }
}

proof fn lemma_map_of_entries_props(s: Seq<MappingEntryView>)
    requires
        forall|i: int, j: int| 0 <= i < j < s.len() ==> s[i].source != s[j].source,
    ensures
        forall|k: Seq<char>| #[trigger] map_of_entries(s).contains_key(k) <==> (exists|i: int|
            0 <= i < s.len() && s[i].source == k),
        forall|i: int| 0 <= i < s.len() ==> #[trigger] map_of_entries(s)[s[i].source] == s[i].dest,
    decreases s.len(),
{
    if s.len() > 0 {
        let rest = s.drop_last();
        lemma_map_of_entries_props(rest);
        assert(forall|i: int| 0 <= i < rest.len() ==> rest[i] == s[i]);
        assert forall|i: int| 0 <= i < s.len() implies #[trigger] map_of_entries(s)[s[i].source]
            == s[i].dest by {
            if i < s.len() - 1 {
                assert(s[i].source != s[s.len() - 1].source);
                assert(map_of_entries(rest)[rest[i].source] == rest[i].dest);
            }
        }
        assert forall|k: Seq<char>| #[trigger] map_of_entries(s).contains_key(k) implies (
        exists|i: int| 0 <= i < s.len() && s[i].source == k) by {
            if k != s.last().source {
                assert(map_of_entries(rest).contains_key(k));
                let i = choose|i: int| 0 <= i < rest.len() && rest[i].source == k;
                assert(s[i].source == k);
            }
        }
    }
}

impl TagMappings {
    /// No two entries share a source, so the map describes them exactly.
    pub closed spec fn wf(&self) -> bool {
        forall|i: int, j: int|
            0 <= i < j < self.entries.deep_view().len() ==> self.entries.deep_view()[i].source
                != self.entries.deep_view()[j].source
    }

    /// An empty table: every tag passes through unchanged.
    pub fn new() -> (r: TagMappings)
        ensures
            r@ == Map::<Seq<char>, Option<Seq<char>>>::empty(),
            r.wf(),
    {
        let r = TagMappings { entries: Vec::new() };
        proof {
            assert(r.entries.deep_view() =~= Seq::<MappingEntryView>::empty());
        }
        r
    }

    /// Index of the entry for `key`, if one is present.
    fn index_of_source(&self, key: &str) -> (r: Option<usize>)
        ensures
            match r {
                Some(i) => i < self.entries.deep_view().len() && self.entries.deep_view()[
                    i as int
                ].source == key@,
                None => forall|j: int|
                    0 <= j < self.entries.deep_view().len() ==> self.entries.deep_view()[j].source
                        != key@,
            },
    {
        let ghost entries = self.entries.deep_view();
        let mut i: usize = 0;
        while i < self.entries.len()
            invariant
                i <= self.entries.len(),
                entries == self.entries.deep_view(),
                forall|j: int| 0 <= j < i ==> entries[j].source != key@,
            decreases self.entries.len() - i,
        {
            if text::str_eq(self.entries[i].source.as_str(), key) {
                return Some(i);
            }
            i = i + 1;
        }
        None
    }

    /// Adds one remapping, overriding an earlier one for the same source.
    pub fn insert(&mut self, source: String, dest: Option<String>)
        requires
            old(self).wf(),
        ensures
            final(self).wf(),
            final(self)@ == old(self)@.insert(source@, dest.deep_view()),
    {
        let ghost old_entries = self.entries.deep_view();
        let ghost srcv = source@;
        let ghost destv = dest.deep_view();
        match self.index_of_source(source.as_str()) {
            Some(i) => {
                self.entries[i] = MappingEntry { source, dest };
                proof {
                    let new_entries = self.entries.deep_view();
                    assert(old_entries[i as int].source == srcv);
                    assert(new_entries =~= old_entries.update(
                        i as int,
                        MappingEntryView { source: srcv, dest: destv },
                    ));
                    assert forall|x: int, y: int|
                        0 <= x < y < new_entries.len() implies new_entries[x].source
                        != new_entries[y].source by {
                        assert(new_entries[x].source == old_entries[x].source);
                        assert(new_entries[y].source == old_entries[y].source);
                    }
                    lemma_map_of_entries_props(old_entries);
                    lemma_map_of_entries_props(new_entries);
                    assert forall|k: Seq<char>|
                        map_of_entries(new_entries).contains_key(k) == map_of_entries(
                            old_entries,
                        ).insert(srcv, destv).contains_key(k) by {
                        if map_of_entries(new_entries).contains_key(k) {
                            let x = choose|x: int|
                                0 <= x < new_entries.len() && new_entries[x].source == k;
                            assert(old_entries[x].source == new_entries[x].source);
                        }
                        if map_of_entries(old_entries).contains_key(k) {
                            let x = choose|x: int|
                                0 <= x < old_entries.len() && old_entries[x].source == k;
                            assert(new_entries[x].source == old_entries[x].source);
                        }
                    }
                    assert forall|k: Seq<char>|
                        map_of_entries(new_entries).contains_key(k) implies map_of_entries(
                        new_entries,
                    )[k] == map_of_entries(old_entries).insert(srcv, destv)[k] by {
                        let x = choose|x: int|
                            0 <= x < new_entries.len() && new_entries[x].source == k;
                        assert(map_of_entries(new_entries)[new_entries[x].source]
                            == new_entries[x].dest);
                        if k != srcv {
                            assert(x != i);
                            assert(old_entries[x].source == k);
                            assert(map_of_entries(old_entries)[old_entries[x].source]
                                == old_entries[x].dest);
                        }
                    }
                    assert(map_of_entries(new_entries) =~= map_of_entries(old_entries).insert(
                        srcv,
                        destv,
                    ));
                }
            },
            None => {
                self.entries.push(MappingEntry { source, dest });
                proof {
                    let new_entries = self.entries.deep_view();
                    assert(new_entries =~= old_entries.push(
                        MappingEntryView { source: srcv, dest: destv },
                    ));
                    assert(new_entries.drop_last() =~= old_entries);
                    assert forall|x: int, y: int|
                        0 <= x < y < new_entries.len() implies new_entries[x].source
                        != new_entries[y].source by {
                        if y < new_entries.len() - 1 {
                            assert(old_entries[x].source != old_entries[y].source);
                        } else {
                            assert(old_entries[x].source != srcv);
                        }
                    }
                }
            },
        }
    }

    /// Looks the raw tag text up: `None` when no mapping is present, else
    /// the mapping's destination.
    pub fn lookup(&self, tag: &str) -> (r: Option<Option<String>>)
        requires
            self.wf(),
        ensures
            match r {
                Some(d) => self@.contains_key(tag@) && d.deep_view() == self@[tag@],
                None => !self@.contains_key(tag@),
            },
    {
        let ghost entries = self.entries.deep_view();
        proof {
            lemma_map_of_entries_props(entries);
        }
        match self.index_of_source(tag) {
            Some(i) => {
                let d = match &self.entries[i].dest {
                    Some(t) => Some(t.clone()),
                    None => None,
                };
                proof {
                    assert(map_of_entries(entries)[entries[i as int].source]
                        == entries[i as int].dest);
                }
                Some(d)
            },
            None => {
                proof {
                    if map_of_entries(entries).contains_key(tag@) {
                        let x = choose|x: int|
                            0 <= x < entries.len() && entries[x].source == tag@;
                        assert(entries[x].source != tag@);
                    }
                }
                None
            },
        }
    }
}

/// A line of the remap file is well-formed when it has exactly two
/// comma-separated fields.
pub open spec fn line_ok(l: Seq<char>) -> bool {
    text::split_on(l, ',').len() == 2
}

/// The trimmed source field of a well-formed line.
pub open spec fn line_source(l: Seq<char>) -> Seq<char> {
    text::trim_of(text::split_on(l, ',')[0])
}

/// The trimmed destination field of a well-formed line; empty means drop.
pub open spec fn line_dest(l: Seq<char>) -> Option<Seq<char>> {
    let d = text::trim_of(text::split_on(l, ',')[1]);
    if d.len() == 0 {
        None
    } else {
        Some(d)
    }
}

/// The table described by a list of well-formed lines, in order; lines with
/// an empty source are ignored, later lines override earlier ones.
pub open spec fn mappings_of_lines(lines: Seq<Seq<char>>) -> Map<Seq<char>, Option<Seq<char>>>
    decreases lines.len(),
{
    if lines.len() == 0 {
        Map::empty()
    } else {
        let m = mappings_of_lines(lines.drop_last());
        let l = lines.last();
        if line_source(l).len() == 0 {
            m
        } else {
            m.insert(line_source(l), line_dest(l))
        }
    }
}

/// Every line of the remap text is well-formed.
pub open spec fn mapping_text_ok(s: Seq<char>) -> bool {
    forall|i: int| 0 <= i < text::lines_of(s).len() ==> line_ok(#[trigger] text::lines_of(s)[i])
}

/// Error of the remap-file format: the first line that does not split into
/// exactly two comma-separated fields.
#[derive(Debug, Clone, Copy, PartialEq, Eq, Structural)]
pub enum MappingError {
    Format { line: usize },
}

/// Parses the remap file's text: one mapping per line, `source,dest` with
/// both fields trimmed, an empty destination meaning "drop this tag".
/// Returns the table exactly when every line is well-formed, else the first
/// offending line's index.
pub fn parse_tag_mappings(input: &str) -> (r: Result<TagMappings, MappingError>)
    ensures
        match r {
            Ok(tm) => tm.wf() && mapping_text_ok(input@) && tm@ == mappings_of_lines(
                text::lines_of(input@),
            ),
            Err(e) => {
                &&& !mapping_text_ok(input@)
                &&& e matches MappingError::Format { line } && (line as int)
                    < text::lines_of(input@).len() && !line_ok(text::lines_of(input@)[line as int])
                    && (forall|j: int| 0 <= j < line ==> line_ok(
                    #[trigger] text::lines_of(input@)[j],
                ))
            },
        },
{
    let lines = text::split_lines(input);
    let ghost lv = text::lines_of(input@);
    let mut tm = TagMappings::new();
    let mut i: usize = 0;
    proof {
        assert(lv.take(0) =~= Seq::<Seq<char>>::empty());
    }
    while i < lines.len()
        invariant
            i <= lines.len(),
            lv == text::lines_of(input@),
            lines.deep_view() == lv,
            tm.wf(),
            tm@ == mappings_of_lines(lv.take(i as int)),
            forall|j: int| 0 <= j < i ==> line_ok(#[trigger] lv[j]),
        decreases lines.len() - i,
    {
        let parts = text::split_at_char(lines[i].as_str(), ',');
        proof {
            assert(lines[i as int].deep_view() == lv[i as int]);
            assert(parts.deep_view() == text::split_on(lv[i as int], ','));
        }
        if parts.len() != 2 {
            proof {
                assert(!line_ok(lv[i as int]));
            }
            return Err(MappingError::Format { line: i });
        }
        let src = text::trimmed(parts[0].as_str());
        let dst = text::trimmed(parts[1].as_str());
        proof {
            assert(parts[0].deep_view() == text::split_on(lv[i as int], ',')[0]);
            assert(parts[1].deep_view() == text::split_on(lv[i as int], ',')[1]);
            assert(src@ == line_source(lv[i as int]));
        }
        let ghost tm_before = tm@;
        if !src.as_str().is_empty() {
            let dest = if dst.as_str().is_empty() {
                None
            } else {
                Some(dst)
            };
            proof {
                assert(dest.deep_view() == line_dest(lv[i as int]));
            }
            tm.insert(src, dest);
        }
        proof {
            assert(lv.take(i + 1).drop_last() =~= lv.take(i as int));
            assert(lv.take(i + 1).last() == lv[i as int]);
            assert(tm@ == mappings_of_lines(lv.take(i + 1)));
        }
        i = i + 1;
    }
    proof {
        assert(lv.take(lines.len() as int) =~= lv);
    }
    Ok(tm)
}

} // verus!

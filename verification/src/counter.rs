//! Exact tag counting and sorted frequency tables.
use vstd::prelude::*;
use vstd::multiset::Multiset;
use crate::post::{Post, PostView};
use crate::text;

verus! {

/// One row of a frequency table: a tag and how often it occurred.
#[derive(Debug)]
pub struct TagCount {
    pub tag: String,
    pub count: u32,
}

#[verifier::ext_equal]
pub ghost struct TagCountView {
    pub tag: Seq<char>,
    pub count: u32,
}

impl View for TagCount {
    type V = TagCountView;

    open spec fn view(&self) -> TagCountView {
        TagCountView { tag: self.tag@, count: self.count }
    }
}

impl DeepView for TagCount {
    type V = TagCountView;

    open spec fn deep_view(&self) -> TagCountView {
        self.view()
    }
}

impl TagCount {
    pub fn new(tag: String, count: u32) -> (r: TagCount)
        ensures
            r@ == (TagCountView { tag: tag@, count: count }),
    {
        TagCount { tag, count }
    }
}

/// The table ordering: by count descending, ties by tag ascending, so the
/// output order is stable and reproducible.
pub open spec fn tc_le(a: TagCountView, b: TagCountView) -> bool {
    a.count > b.count || (a.count == b.count && text::lex_le(a.tag, b.tag))
}

pub proof fn lemma_tc_le_total(a: TagCountView, b: TagCountView)
    ensures
        tc_le(a, b) || tc_le(b, a),
{
    text::lemma_lex_le_total(a.tag, b.tag);
}

pub proof fn lemma_tc_le_trans(a: TagCountView, b: TagCountView, c: TagCountView)
    requires
        tc_le(a, b),
        tc_le(b, c),
    ensures
        tc_le(a, c),
{
    if a.count == b.count && b.count == c.count {
        text::lemma_lex_le_trans(a.tag, b.tag, c.tag);
    }
}

/// Exec comparison deciding `tc_le`.
fn tc_le_exec(a: &TagCount, b: &TagCount) -> (r: bool)
    ensures
        r == tc_le(a@, b@),
{
    if a.count > b.count {
        true
    } else if a.count == b.count {
        text::str_lex_le(a.tag.as_str(), b.tag.as_str())
    } else {
        false
    }
}

/// The count recorded for `t`: that of the first entry bearing it.
pub open spec fn count_of(s: Seq<TagCountView>, t: Seq<char>) -> Option<u32>
    decreases s.len(),
{
    if s.len() == 0 {
        None
    } else if s[0].tag == t {
        Some(s[0].count)
    } else {
        count_of(s.drop_first(), t)
    }
}

/// Index of the first entry bearing `t` (meaningful only when one exists).
pub open spec fn tag_index(s: Seq<TagCountView>, t: Seq<char>) -> int
    decreases s.len(),
{
    if s.len() == 0 {
        0
    } else if s[0].tag == t {
        0
    } else {
        1 + tag_index(s.drop_first(), t)
    }
}

pub proof fn lemma_count_of_props(s: Seq<TagCountView>, t: Seq<char>)
    ensures
        match count_of(s, t) {
            None => forall|j: int| 0 <= j < s.len() ==> s[j].tag != t,
            Some(n) => {
                let i = tag_index(s, t);
                0 <= i < s.len() && s[i].tag == t && s[i].count == n && (forall|j: int|
                    0 <= j < i ==> s[j].tag != t)
            },
        },
    decreases s.len(),
{
    if s.len() > 0 && s[0].tag != t {
        let rest = s.drop_first();
        lemma_count_of_props(rest, t);
        assert(forall|j: int| 0 <= j < rest.len() ==> rest[j] == s[j + 1]);
        match count_of(s, t) {
            None => {
                assert forall|j: int| 0 <= j < s.len() implies s[j].tag != t by {
                    if j >= 1 {
                        assert(rest[j - 1].tag != t);
                    }
                }
            },
            Some(n) => {
                let i = tag_index(s, t);
                assert(i == 1 + tag_index(rest, t));
                assert forall|j: int| 0 <= j < i implies s[j].tag != t by {
                    if j >= 1 {
                        assert(rest[j - 1].tag != t);
                    }
                }
            },
        }
    }
}

/// After replacing the first entry for a tag by another with the same tag,
/// that tag reads the new count and every other tag is untouched.
proof fn lemma_count_of_update(s: Seq<TagCountView>, i: int, e: TagCountView)
    requires
        0 <= i < s.len(),
        s[i].tag == e.tag,
        forall|j: int| 0 <= j < i ==> s[j].tag != e.tag,
    ensures
        forall|x: Seq<char>| #[trigger] count_of(s.update(i, e), x) == if x == e.tag {
            Some(e.count)
        } else {
            count_of(s, x)
        },
    decreases s.len(),
{
    let u = s.update(i, e);
    if i == 0 {
        assert(u[0] == e);
        assert(u.drop_first() =~= s.drop_first());
        assert forall|x: Seq<char>| #[trigger] count_of(u, x) == if x == e.tag {
            Some(e.count)
        } else {
            count_of(s, x)
        } by {
            if x != e.tag {
                assert(count_of(u, x) == count_of(u.drop_first(), x));
                assert(count_of(s, x) == count_of(s.drop_first(), x));
            }
        }
    } else {
        let srest = s.drop_first();
        assert(forall|j: int| 0 <= j < srest.len() ==> srest[j] == s[j + 1]);
        lemma_count_of_update(srest, i - 1, e);
        assert(u.drop_first() =~= srest.update(i - 1, e));
        assert(u[0] == s[0]);
        assert forall|x: Seq<char>| #[trigger] count_of(u, x) == if x == e.tag {
            Some(e.count)
        } else {
            count_of(s, x)
        } by {
            assert(count_of(srest.update(i - 1, e), x) == if x == e.tag {
                Some(e.count)
            } else {
                count_of(srest, x)
            });
            if x == s[0].tag {
                assert(x != e.tag);
            }
        }
    }
}

/// After appending an entry for a fresh tag, that tag reads the new count
/// and every tag already present is untouched.
proof fn lemma_count_of_push(s: Seq<TagCountView>, e: TagCountView)
    ensures
        forall|x: Seq<char>| #[trigger] count_of(s.push(e), x) == if count_of(s, x) is Some {
            count_of(s, x)
        } else if x == e.tag {
            Some(e.count)
        } else {
            None
        },
    decreases s.len(),
{
    let u = s.push(e);
    if s.len() == 0 {
        assert(u[0] == e);
        assert(u.drop_first() =~= Seq::<TagCountView>::empty());
        assert forall|x: Seq<char>| #[trigger] count_of(u, x) == if count_of(s, x) is Some {
            count_of(s, x)
        } else if x == e.tag {
            Some(e.count)
        } else {
            None
        } by {
            assert(count_of(s, x) is None);
            if x == e.tag {
                assert(count_of(u, x) == Some(e.count));
            } else {
                assert(count_of(u, x) == count_of(u.drop_first(), x));
                assert(count_of(u.drop_first(), x) is None);
            }
        }
    } else {
        lemma_count_of_push(s.drop_first(), e);
        assert(u[0] == s[0]);
        assert(u.drop_first() =~= s.drop_first().push(e));
        assert forall|x: Seq<char>| #[trigger] count_of(u, x) == if count_of(s, x) is Some {
            count_of(s, x)
        } else if x == e.tag {
            Some(e.count)
        } else {
            None
        } by {
            if x != s[0].tag {
                assert(count_of(u, x) == count_of(s.drop_first().push(e), x));
                assert(count_of(s, x) == count_of(s.drop_first(), x));
            }
        }
    }
}

/// Exact multiset keyed by tag text; insertion order of first occurrences
/// is preserved.
#[derive(Debug)]
pub struct Counter {
    entries: Vec<TagCount>,
}

impl View for Counter {
    type V = Seq<TagCountView>;

    closed spec fn view(&self) -> Seq<TagCountView> {
        self.entries.deep_view()
    }
}

impl Counter {
    /// No two entries bear the same tag.
    pub open spec fn wf(&self) -> bool {
        forall|i: int, j: int| 0 <= i < j < self@.len() ==> self@[i].tag != self@[j].tag
    }

    pub fn new() -> (c: Counter)
        ensures
            c@ == Seq::<TagCountView>::empty(),
            c.wf(),
    {
        let c = Counter { entries: Vec::new() };
        proof {
            assert(c@ =~= Seq::<TagCountView>::empty());
        }
        c
    }

    /// Index of the entry bearing `key`, if one is present.
    fn index_of_key(&self, key: &str) -> (r: Option<usize>)
        ensures
            match r {
                Some(i) => i < self@.len() && self@[i as int].tag == key@ && (forall|j: int|
                    0 <= j < i ==> self@[j].tag != key@),
                None => forall|j: int| 0 <= j < self@.len() ==> self@[j].tag != key@,
            },
    {
        let ghost entries = self@;
        let mut i: usize = 0;
        while i < self.entries.len()
            invariant
                i <= self.entries.len(),
                entries == self@,
                entries == self.entries.deep_view(),
                forall|j: int| 0 <= j < i ==> entries[j].tag != key@,
            decreases self.entries.len() - i,
        {
            if text::str_eq(self.entries[i].tag.as_str(), key) {
                return Some(i);
            }
            i = i + 1;
        }
        None
    }

    /// Counts one more occurrence of `key`.
    pub fn increment(&mut self, key: &str)
        requires
            old(self).wf(),
            count_of(old(self)@, key@) matches Some(n) ==> n < u32::MAX,
        ensures
            final(self).wf(),
            match count_of(old(self)@, key@) {
                None => final(self)@ == old(self)@.push(TagCountView { tag: key@, count: 1 }),
                Some(n) => final(self)@ == old(self)@.update(
                    tag_index(old(self)@, key@),
                    TagCountView { tag: key@, count: (n + 1) as u32 },
                ),
            },
            forall|x: Seq<char>| #[trigger] count_of(final(self)@, x) == if x == key@ {
                match count_of(old(self)@, x) {
                    None => Some(1u32),
                    Some(n) => Some((n + 1) as u32),
                }
            } else {
                count_of(old(self)@, x)
            },
    {
        let ghost before = self@;
        proof {
            lemma_count_of_props(before, key@);
        }
        match self.index_of_key(key) {
            Some(i) => {
                let t = self.entries[i].tag.clone();
                let c = self.entries[i].count;
                proof {
                    lemma_count_of_at(before, key@, i as int);
                }
                self.entries[i] = TagCount { tag: t, count: c + 1 };
                proof {
                    let e = TagCountView { tag: key@, count: (c + 1) as u32 };
                    assert(self@ =~= before.update(i as int, e));
                    lemma_count_of_update(before, i as int, e);
                    assert forall|x: int, y: int| 0 <= x < y < self@.len() implies self@[x].tag
                        != self@[y].tag by {
                        assert(self@[x].tag == before[x].tag);
                        assert(self@[y].tag == before[y].tag);
                    }
                }
            },
            None => {
                self.entries.push(TagCount { tag: key.to_owned(), count: 1 });
                proof {
                    let e = TagCountView { tag: key@, count: 1u32 };
                    assert(self@ =~= before.push(e));
                    lemma_count_of_push(before, e);
                    assert forall|x: int, y: int| 0 <= x < y < self@.len() implies self@[x].tag
                        != self@[y].tag by {
                        assert(self@[x].tag == before[x].tag);
                        if y < self@.len() - 1 {
                            assert(self@[y].tag == before[y].tag);
                        }
                    }
                }
            },
        }
    }

    /// The count recorded for `key`, if any occurrence was counted.
    pub fn get(&self, key: &str) -> (r: Option<u32>)
        ensures
            r == count_of(self@, key@),
    {
        proof {
            lemma_count_of_props(self@, key@);
        }
        match self.index_of_key(key) {
            Some(i) => {
                proof {
                    lemma_count_of_at(self@, key@, i as int);
                }
                Some(self.entries[i].count)
            },
            None => None,
        }
    }

    /// The rows, in insertion order of their tags' first occurrences.
    pub fn into_table(self) -> (r: Vec<TagCount>)
        ensures
            r.deep_view() == self@,
    {
        self.entries
    }

    /// The rows, sorted by the table ordering: count descending, ties by
    /// tag ascending.
    pub fn into_sorted_table(self) -> (r: Vec<TagCount>)
        ensures
            r.deep_view().to_multiset() == self@.to_multiset(),
            forall|x: int, y: int|
                0 <= x < y < r.deep_view().len() ==> tc_le(
                    #[trigger] r.deep_view()[x],
                    #[trigger] r.deep_view()[y],
                ),
    {
        broadcast use vstd::seq_lib::group_to_multiset_ensures;

        let ghost orig = self@;
        let mut input = self.entries;
        let mut out: Vec<TagCount> = Vec::new();
        proof {
            assert(out.deep_view() =~= Seq::<TagCountView>::empty());
            assert(out.deep_view().to_multiset().add(input.deep_view().to_multiset())
                =~= orig.to_multiset());
        }
        while input.len() > 0
            invariant
                out.deep_view().to_multiset().add(input.deep_view().to_multiset())
                    == orig.to_multiset(),
                forall|x: int, y: int|
                    0 <= x < y < out.deep_view().len() ==> tc_le(
                        #[trigger] out.deep_view()[x],
                        #[trigger] out.deep_view()[y],
                    ),
            decreases input.len(),
        {
            let ghost in_before = input.deep_view();
            let x = input.pop().unwrap();
            proof {
                broadcast use vstd::seq_lib::group_to_multiset_ensures;

                assert(input.deep_view() =~= in_before.drop_last());
                assert(x@ == in_before.last());
                assert(in_before.drop_last().push(in_before.last()) =~= in_before);
                assert(in_before.drop_last().push(in_before.last()).to_multiset()
                    =~= in_before.drop_last().to_multiset().insert(in_before.last()));
                assert(in_before.to_multiset() =~= input.deep_view().to_multiset().insert(x@));
            }
            let mut pos: usize = 0;
            let ghost out_before = out.deep_view();
            while pos < out.len() && tc_le_exec(&out[pos], &x)
                invariant
                    pos <= out.len(),
                    out.deep_view() == out_before,
                    forall|k: int| 0 <= k < pos ==> tc_le(#[trigger] out_before[k], x@),
                decreases out.len() - pos,
            {
                pos = pos + 1;
            }
            out.insert(pos, x);
            proof {
                broadcast use vstd::seq_lib::group_to_multiset_ensures;

                let dv = out.deep_view();
                assert(dv =~= out_before.insert(pos as int, x@));
                // multiset: removing the inserted element gives the old rows
                assert(dv[pos as int] == x@);
                assert(dv.remove(pos as int) =~= out_before);
                assert(dv.remove(pos as int).to_multiset() =~= dv.to_multiset().remove(
                    dv[pos as int],
                ));
                assert(dv.to_multiset().remove(x@) =~= out_before.to_multiset());
                assert(dv.to_multiset().contains(x@));
                assert(dv.to_multiset() =~= out_before.to_multiset().insert(x@));
                assert(dv.to_multiset().add(input.deep_view().to_multiset()) =~= orig.to_multiset());
                // order: everything before the slot is `tc_le` the new row,
                // everything at or after it is bounded below by it
                if pos < out_before.len() {
                    lemma_tc_le_total(out_before[pos as int], x@);
                }
                assert forall|a: int, b: int| 0 <= a < b < dv.len() implies tc_le(
                    #[trigger] dv[a],
                    #[trigger] dv[b],
                ) by {
                    if a < pos && b == pos {
                    } else if a == pos && b > pos {
                        assert(dv[b] == out_before[b - 1]);
                        if pos < b - 1 {
                            lemma_tc_le_trans(x@, out_before[pos as int], out_before[b - 1]);
                        }
                    } else if a < pos && b > pos {
                        assert(dv[a] == out_before[a]);
                        assert(dv[b] == out_before[b - 1]);
                    } else if a > pos && b > pos {
                        assert(dv[a] == out_before[a - 1]);
                        assert(dv[b] == out_before[b - 1]);
                    }
                }
            }
        }
        proof {
            assert(input.deep_view().len() == 0);
            assert(input.deep_view().to_multiset() =~= Multiset::<TagCountView>::empty());
            assert(out.deep_view().to_multiset() =~= orig.to_multiset());
        }
        out
    }
}

impl Default for Counter {
    /// The empty counter.
    fn default() -> (c: Counter)
        ensures
            c@ == Seq::<TagCountView>::empty(),
            c.wf(),
    {
        Counter::new()
    }
}

/// A present first occurrence pins `count_of` and `tag_index` down.
proof fn lemma_count_of_at(s: Seq<TagCountView>, t: Seq<char>, i: int)
    requires
        0 <= i < s.len(),
        s[i].tag == t,
        forall|j: int| 0 <= j < i ==> s[j].tag != t,
    ensures
        count_of(s, t) == Some(s[i].count),
        tag_index(s, t) == i,
{
    lemma_count_of_props(s, t);
    match count_of(s, t) {
        None => {
            assert(s[i].tag == t);
        },
        Some(n) => {
            let k = tag_index(s, t);
            if k < i {
                assert(s[k].tag != t);
            }
            if i < k {
                assert(s[i].tag != t);
            }
        },
    }
}

/// The tag texts of all posts, flattened in document order.
pub open spec fn all_tags(posts: Seq<PostView>) -> Seq<Seq<char>>
    decreases posts.len(),
{
    if posts.len() == 0 {
        Seq::empty()
    } else {
        all_tags(posts.drop_last()) + posts.last().tags
    }
}

/// How often `t` occurs in a list of tag texts.
pub open spec fn occ(ts: Seq<Seq<char>>, t: Seq<char>) -> nat
    decreases ts.len(),
{
    if ts.len() == 0 {
        0
    } else {
        occ(ts.drop_last(), t) + (if ts.last() == t {
            1nat
        } else {
            0nat
        })
    }
}

/// The distinct tag texts, in order of first occurrence.
pub open spec fn seen_tags(ts: Seq<Seq<char>>) -> Seq<Seq<char>>
    decreases ts.len(),
{
    if ts.len() == 0 {
        Seq::empty()
    } else {
        let d = seen_tags(ts.drop_last());
        if d.contains(ts.last()) {
            d
        } else {
            d.push(ts.last())
        }
    }
}

/// The tags column of a table.
pub open spec fn tags_of(s: Seq<TagCountView>) -> Seq<Seq<char>> {
    s.map_values(|e: TagCountView| e.tag)
}

pub proof fn lemma_occ_le_len(ts: Seq<Seq<char>>, t: Seq<char>)
    ensures
        occ(ts, t) <= ts.len(),
    decreases ts.len(),
{
    if ts.len() > 0 {
        lemma_occ_le_len(ts.drop_last(), t);
    }
}

/// A tag has been seen exactly when it occurs at least once.
pub proof fn lemma_seen_occ(ts: Seq<Seq<char>>, t: Seq<char>)
    ensures
        seen_tags(ts).contains(t) <==> occ(ts, t) > 0,
    decreases ts.len(),
{
    if ts.len() > 0 {
        lemma_seen_occ(ts.drop_last(), t);
        let d = seen_tags(ts.drop_last());
        let last = ts.last();
        if d.contains(last) {
            assert(seen_tags(ts) == d);
        } else {
            assert(seen_tags(ts) == d.push(last));
            if last == t {
                assert(d.push(last)[d.len() as int] == t);
                assert(seen_tags(ts).contains(t));
            } else {
                if d.push(last).contains(t) {
                    let i = choose|i: int| 0 <= i < d.push(last).len() && d.push(last)[i] == t;
                    assert(i < d.len());
                    assert(d[i] == t);
                    assert(d.contains(t));
                }
                if d.contains(t) {
                    let i = choose|i: int| 0 <= i < d.len() && d[i] == t;
                    assert(d.push(last)[i] == t);
                }
            }
        }
    }
}

proof fn lemma_all_tags_front(s: Seq<PostView>)
    requires
        s.len() > 0,
    ensures
        all_tags(s) == s[0].tags + all_tags(s.drop_first()),
    decreases s.len(),
{
    if s.len() == 1 {
        assert(s.drop_last() =~= Seq::<PostView>::empty());
        assert(s.drop_first() =~= Seq::<PostView>::empty());
        assert(all_tags(s) == all_tags(s.drop_last()) + s.last().tags);
        assert(Seq::<Seq<char>>::empty() + s.last().tags =~= s.last().tags);
        assert(s[0].tags + Seq::<Seq<char>>::empty() =~= s[0].tags);
    } else {
        lemma_all_tags_front(s.drop_last());
        assert(s.drop_last().drop_first() =~= s.drop_first().drop_last());
        assert(s.drop_first().last() == s.last());
        assert(s.drop_last()[0] == s[0]);
        // all_tags(s) == (s[0].tags + all_tags(s.drop_last().drop_first())) + s.last().tags
        assert((s[0].tags + all_tags(s.drop_first().drop_last())) + s.last().tags =~= s[0].tags
            + (all_tags(s.drop_first().drop_last()) + s.last().tags));
    }
}

/// The flattened tags split at any post boundary.
pub proof fn lemma_all_tags_split(pv: Seq<PostView>, i: int)
    requires
        0 <= i <= pv.len(),
    ensures
        all_tags(pv) == all_tags(pv.take(i)) + all_tags(pv.skip(i)),
    decreases pv.len() - i,
{
    if i == pv.len() {
        assert(pv.take(i) =~= pv);
        assert(pv.skip(i) =~= Seq::<PostView>::empty());
        assert(all_tags(pv) + Seq::<Seq<char>>::empty() =~= all_tags(pv));
    } else {
        lemma_all_tags_split(pv, i + 1);
        lemma_all_tags_front(pv.skip(i));
        assert(pv.skip(i)[0] == pv[i]);
        assert(pv.skip(i).drop_first() =~= pv.skip(i + 1));
        assert(pv.take(i + 1).drop_last() =~= pv.take(i));
        assert(pv.take(i + 1).last() == pv[i]);
        assert(all_tags(pv.take(i + 1)) == all_tags(pv.take(i)) + pv[i].tags);
        assert((all_tags(pv.take(i)) + pv[i].tags) + all_tags(pv.skip(i + 1)) =~= all_tags(
            pv.take(i),
        ) + (pv[i].tags + all_tags(pv.skip(i + 1))));
    }
}

/// Counts every tag of every post, in document order.
///
/// The result records, for each distinct tag text, exactly how often it
/// occurs across all posts, with rows in order of first occurrence.
pub fn count_tags(posts: &Vec<Post>) -> (r: Counter)
    requires
        all_tags(posts.deep_view()).len() <= u32::MAX,
    ensures
        r.wf(),
        tags_of(r@) == seen_tags(all_tags(posts.deep_view())),
        forall|t: Seq<char>| #[trigger] count_of(r@, t) == if occ(all_tags(posts.deep_view()), t)
            == 0 {
            None::<u32>
        } else {
            Some(occ(all_tags(posts.deep_view()), t) as u32)
        },
{
    let ghost pv = posts.deep_view();
    let ghost at = all_tags(pv);
    let mut c = Counter::new();
    let ghost mut done = Seq::<Seq<char>>::empty();
    let mut i: usize = 0;
    proof {
        assert(pv.take(0) =~= Seq::<PostView>::empty());
        assert(tags_of(c@) =~= Seq::<Seq<char>>::empty());
        assert(seen_tags(done) =~= Seq::<Seq<char>>::empty());
    }
    while i < posts.len()
        invariant
            i <= posts.len(),
            pv == posts.deep_view(),
            at == all_tags(pv),
            at.len() <= u32::MAX,
            c.wf(),
            done == all_tags(pv.take(i as int)),
            tags_of(c@) == seen_tags(done),
            forall|t: Seq<char>| #[trigger] count_of(c@, t) == if occ(done, t) == 0 {
                None::<u32>
            } else {
                Some(occ(done, t) as u32)
            },
        decreases posts.len() - i,
    {
        let post = &posts[i];
        let ghost tags = pv[i as int].tags;
        proof {
            assert(post.deep_view() == pv[i as int]);
            assert(tags.take(0) =~= Seq::<Seq<char>>::empty());
            assert(done + tags.take(0) =~= done);
        }
        let mut k: usize = 0;
        while k < post.tags.len()
            invariant
                k <= post.tags.len(),
                i < posts.len(),
                pv == posts.deep_view(),
                post == &posts[i as int],
                post.deep_view() == pv[i as int],
                tags == pv[i as int].tags,
                at == all_tags(pv),
                at.len() <= u32::MAX,
                c.wf(),
                done == all_tags(pv.take(i as int)) + tags.take(k as int),
                tags_of(c@) == seen_tags(done),
                forall|t: Seq<char>| #[trigger] count_of(c@, t) == if occ(done, t) == 0 {
                    None::<u32>
                } else {
                    Some(occ(done, t) as u32)
                },
            decreases post.tags.len() - k,
        {
            let tag = &post.tags[k];
            let ghost tagv = tag@;
            proof {
                assert(tag@ == tags[k as int]);
                // the flattened list extends `done` by at least one element
                lemma_all_tags_split(pv, i as int + 1);
                lemma_all_tags_split(pv, i as int);
                lemma_all_tags_front(pv.skip(i as int));
                assert(pv.skip(i as int)[0] == pv[i as int]);
                assert(pv.skip(i as int).drop_first() =~= pv.skip(i as int + 1));
                assert(at == all_tags(pv.take(i as int)) + (tags + all_tags(
                    pv.skip(i as int + 1),
                )));
                assert(done.len() + (tags.len() - k) + all_tags(pv.skip(i as int + 1)).len()
                    == at.len());
                lemma_occ_le_len(done, tagv);
                lemma_seen_occ(done, tagv);
            }
            let ghost c_before = c@;
            let ghost done_before = done;
            c.increment(tag.as_str());
            proof {
                done = done_before.push(tagv);
                assert(done.drop_last() =~= done_before);
                assert(done.last() == tagv);
                // occurrence counts shift by exactly the one new tag
                assert forall|t: Seq<char>| #[trigger] count_of(c@, t) == if occ(done, t) == 0 {
                    None::<u32>
                } else {
                    Some(occ(done, t) as u32)
                } by {
                    assert(occ(done, t) == occ(done_before, t) + (if t == tagv {
                        1nat
                    } else {
                        0nat
                    }));
                    lemma_occ_le_len(done_before, t);
                }
                // the tags column gains the tag exactly on first occurrence
                match count_of(c_before, tagv) {
                    None => {
                        assert(c@ == c_before.push(TagCountView { tag: tagv, count: 1 }));
                        assert(tags_of(c@) =~= tags_of(c_before).push(tagv));
                        assert(!seen_tags(done_before).contains(tagv));
                        assert(seen_tags(done) == seen_tags(done_before).push(tagv));
                    },
                    Some(n) => {
                        let idx = tag_index(c_before, tagv);
                        lemma_count_of_props(c_before, tagv);
                        assert(c@ == c_before.update(
                            idx,
                            TagCountView { tag: tagv, count: (n + 1) as u32 },
                        ));
                        assert(c_before[idx].tag == tagv);
                        assert(tags_of(c@) =~= tags_of(c_before));
                        assert(seen_tags(done_before).contains(tagv));
                        assert(seen_tags(done) == seen_tags(done_before));
                    },
                }
                assert(all_tags(pv.take(i as int)) + tags.take(k as int + 1) =~= (all_tags(
                    pv.take(i as int),
                ) + tags.take(k as int)).push(tags[k as int]));
            }
            k = k + 1;
        }
        proof {
            assert(tags.take(post.tags.len() as int) =~= tags);
            assert(pv.take(i as int + 1).drop_last() =~= pv.take(i as int));
            assert(pv.take(i as int + 1).last() == pv[i as int]);
            assert(done == all_tags(pv.take(i as int + 1)));
        }
        i = i + 1;
    }
    proof {
        assert(pv.take(posts.len() as int) =~= pv);
    }
    c
}

} // verus!

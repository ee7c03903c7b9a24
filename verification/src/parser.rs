//! The streaming parser: a small state machine over the most recently opened
//! element turns the structural event stream into sealed post records.
use vstd::prelude::*;
use crate::events::{read_events, xml_event_stream, Attr, AttrView, Event, EventView};
use crate::mappings::TagMappings;
use crate::post::{MediaType, Post, PostView};
use crate::text;

verus! {

/// Which recognized element was opened most recently. Text content is
/// attributed by this marker alone; the vocabulary never nests an element
/// inside one of the same name, so no stack is needed.
#[derive(Debug, Clone, Copy, PartialEq, Eq, Structural)]
pub enum OpenMark {
    PostEl,
    TagEl,
    PhotoEl,
    PhotoUrlEl,
    OtherEl,
}

/// Why parsing failed.
#[derive(Debug, PartialEq, Eq)]
pub enum ParseError {
    /// A post element lacks a usable `id` attribute.
    MissingAttribute,
    /// The underlying event stream reported a syntax error, whose message
    /// is carried along.
    Malformed(String),
}

/// The machine's state: the record under construction, the marker, and the
/// records sealed so far.
#[verifier::ext_equal]
pub ghost struct ParseState {
    pub cur: PostView,
    pub mark: OpenMark,
    pub out: Seq<PostView>,
}

/// The value of the first attribute named `key`, if any.
pub open spec fn attr_lookup(attrs: Seq<AttrView>, key: Seq<char>) -> Option<Seq<char>>
    decreases attrs.len(),
{
    if attrs.len() == 0 {
        None
    } else if attrs[0].name == key {
        Some(attrs[0].value)
    } else {
        attr_lookup(attrs.drop_first(), key)
    }
}

/// The state before any event has been consumed.
pub open spec fn init_state() -> ParseState {
    ParseState { cur: PostView::empty(), mark: OpenMark::OtherEl, out: Seq::empty() }
}

/// One tag text, after remapping: renamed, dropped, or passed through.
pub open spec fn apply_mapping(
    tags: Seq<Seq<char>>,
    t: Seq<char>,
    m: Map<Seq<char>, Option<Seq<char>>>,
) -> Seq<Seq<char>> {
    if m.contains_key(t) {
        match m[t] {
            Some(d) => tags.push(d),
            None => tags,
        }
    } else {
        tags.push(t)
    }
}

/// The state machine's transition for one event.
///
/// A post start resets the record and reads its `id`, failing when the
/// attribute is absent or empty. A post end seals the record (when it carries
/// an id) and resets. Tag text is remapped and recorded; photo-URL text sets
/// the record's URL and media extension on first occurrence only. An
/// unrecognized element start clears the marker; all else is ignored.
pub open spec fn step(
    st: ParseState,
    ev: EventView,
    m: Map<Seq<char>, Option<Seq<char>>>,
) -> Result<ParseState, ParseError> {
    match ev {
        EventView::Start { name, attrs } => {
            if name == "post"@ {
                match attr_lookup(attrs, "id"@) {
                    Some(id) => if id.len() > 0 {
                        Ok(
                            ParseState {
                                cur: PostView { id: id, ..PostView::empty() },
                                mark: OpenMark::PostEl,
                                out: st.out,
                            },
                        )
                    } else {
                        Err(ParseError::MissingAttribute)
                    },
                    None => Err(ParseError::MissingAttribute),
                }
            } else if name == "tag"@ {
                Ok(ParseState { mark: OpenMark::TagEl, ..st })
            } else if name == "photo"@ {
                Ok(
                    ParseState {
                        cur: PostView {
                            media_type: MediaType::Photo,
                            image_count: st.cur.image_count + 1,
                            ..st.cur
                        },
                        mark: OpenMark::PhotoEl,
                        out: st.out,
                    },
                )
            } else if name == "photo-url"@ {
                Ok(ParseState { mark: OpenMark::PhotoUrlEl, ..st })
            } else {
                Ok(ParseState { mark: OpenMark::OtherEl, ..st })
            }
        },
        EventView::End { name } => {
            if name == "post"@ {
                Ok(
                    ParseState {
                        cur: PostView::empty(),
                        mark: st.mark,
                        out: if st.cur.id.len() > 0 {
                            st.out.push(st.cur)
                        } else {
                            st.out
                        },
                    },
                )
            } else {
                Ok(st)
            }
        },
        EventView::Text { text } => match st.mark {
            OpenMark::TagEl => Ok(
                ParseState {
                    cur: PostView { tags: apply_mapping(st.cur.tags, text, m), ..st.cur },
                    mark: st.mark,
                    out: st.out,
                },
            ),
            OpenMark::PhotoUrlEl => Ok(
                ParseState {
                    cur: PostView {
                        url: if st.cur.url.len() == 0 {
                            text
                        } else {
                            st.cur.url
                        },
                        media_extension: if st.cur.media_extension is None {
                            text::url_extension(text)
                        } else {
                            st.cur.media_extension
                        },
                        ..st.cur
                    },
                    mark: st.mark,
                    out: st.out,
                },
            ),
            _ => Ok(st),
        },
        EventView::Other => Ok(st),
    }
}

/// Folds `step` over the whole event sequence, stopping at the first error.
pub open spec fn run_steps(
    st: ParseState,
    evs: Seq<EventView>,
    m: Map<Seq<char>, Option<Seq<char>>>,
) -> Result<ParseState, ParseError>
    decreases evs.len(),
{
    if evs.len() == 0 {
        Ok(st)
    } else {
        match step(st, evs[0], m) {
            Err(e) => Err(e),
            Ok(st2) => run_steps(st2, evs.drop_first(), m),
        }
    }
}

/// The records an event stream describes, under a remapping table.
pub open spec fn parse_events(
    evs: Seq<EventView>,
    m: Map<Seq<char>, Option<Seq<char>>>,
) -> Result<Seq<PostView>, ParseError> {
    match run_steps(init_state(), evs, m) {
        Ok(st) => Ok(st.out),
        Err(e) => Err(e),
    }
}

/// The value of the first attribute named `key`, cloned out.
fn find_attr(attrs: &Vec<Attr>, key: &str) -> (r: Option<String>)
    ensures
        match r {
            Some(v) => attr_lookup(attrs.deep_view(), key@) == Some(v@),
            None => attr_lookup(attrs.deep_view(), key@) is None,
        },
{
    let ghost avs = attrs.deep_view();
    let mut j: usize = 0;
    proof {
        assert(avs.skip(0) =~= avs);
    }
    while j < attrs.len()
        invariant
            j <= attrs.len(),
            avs == attrs.deep_view(),
            attr_lookup(avs, key@) == attr_lookup(avs.skip(j as int), key@),
        decreases attrs.len() - j,
    {
        proof {
            assert(avs.skip(j as int)[0] == avs[j as int]);
        }
        if text::str_eq(attrs[j].name.as_str(), key) {
            return Some(attrs[j].value.clone());
        }
        proof {
            assert(avs.skip(j as int).drop_first() =~= avs.skip(j + 1));
        }
        j = j + 1;
    }
    proof {
        assert(avs.skip(attrs.len() as int) =~= Seq::<AttrView>::empty());
    }
    None
}

/// Runs the state machine over an already-decoded event stream.
pub fn posts_from_events(events: &Vec<Event>, mappings: &TagMappings) -> (r: Result<
    Vec<Post>,
    ParseError,
>)
    requires
        mappings.wf(),
    ensures
        match parse_events(events.deep_view(), mappings@) {
            Ok(ps) => r matches Ok(v) && v.deep_view() == ps,
            Err(e) => r matches Err(e2) && e2 == e,
        },
{
    let ghost evs = events.deep_view();
    let ghost m = mappings@;
    let mut cur = Post::default();
    let mut mark = OpenMark::OtherEl;
    let mut out: Vec<Post> = Vec::new();
    let mut i: usize = 0;
    proof {
        assert(evs.skip(0) =~= evs);
        assert(out.deep_view() =~= Seq::<PostView>::empty());
        assert(ParseState { cur: cur@, mark: mark, out: out.deep_view() } =~= init_state());
    }
    while i < events.len()
        invariant
            i <= events.len(),
            evs == events.deep_view(),
            m == mappings@,
            mappings.wf(),
            cur@.image_count <= i,
            run_steps(init_state(), evs, m) == run_steps(
                ParseState { cur: cur@, mark: mark, out: out.deep_view() },
                evs.skip(i as int),
                m,
            ),
        decreases events.len() - i,
    {
        let ghost pre = ParseState { cur: cur@, mark: mark, out: out.deep_view() };
        proof {
            assert(evs.skip(i as int).len() > 0);
            assert(evs.skip(i as int)[0] == evs[i as int]);
            assert(evs.skip(i as int).drop_first() =~= evs.skip(i + 1));
            assert(evs[i as int] == events[i as int].deep_view());
        }
        match &events[i] {
            Event::Start { name, attrs } => {
                if text::str_eq(name.as_str(), "post") {
                    match find_attr(attrs, "id") {
                        Some(id) => {
                            if !id.as_str().is_empty() {
                                cur = Post::default();
                                cur.id = id;
                                mark = OpenMark::PostEl;
                                proof {
                                    assert(step(pre, evs[i as int], m) matches Ok(st2) && (
                                    ParseState { cur: cur@, mark: mark, out: out.deep_view() })
                                        =~= st2);
                                }
                            } else {
                                proof {
                                    assert(step(pre, evs[i as int], m) == Err::<
                                        ParseState,
                                        ParseError,
                                    >(ParseError::MissingAttribute));
                                }
                                return Err(ParseError::MissingAttribute);
                            }
                        },
                        None => {
                            proof {
                                assert(step(pre, evs[i as int], m) == Err::<
                                    ParseState,
                                    ParseError,
                                >(ParseError::MissingAttribute));
                            }
                            return Err(ParseError::MissingAttribute);
                        },
                    }
                } else if text::str_eq(name.as_str(), "tag") {
                    mark = OpenMark::TagEl;
                } else if text::str_eq(name.as_str(), "photo") {
                    cur.media_type = MediaType::Photo;
                    cur.image_count = cur.image_count + 1;
                    mark = OpenMark::PhotoEl;
                } else if text::str_eq(name.as_str(), "photo-url") {
                    mark = OpenMark::PhotoUrlEl;
                } else {
                    mark = OpenMark::OtherEl;
                }
            },
            Event::End { name } => {
                if text::str_eq(name.as_str(), "post") {
                    let ghost out_before = out.deep_view();
                    if !cur.id.as_str().is_empty() {
                        out.push(cur);
                        proof {
                            assert(out.deep_view() =~= out_before.push(pre.cur));
                        }
                    }
                    cur = Post::default();
                }
            },
            Event::Text { text } => {
                match mark {
                    OpenMark::TagEl => {
                        let ghost tags_before = cur@.tags;
                        match mappings.lookup(text.as_str()) {
                            Some(d) => match d {
                                Some(renamed) => {
                                    cur.tags.push(renamed);
                                    proof {
                                        assert(cur@.tags =~= tags_before.push(m[text@]->Some_0));
                                        assert(cur@.tags =~= apply_mapping(tags_before, text@, m));
                                    }
                                },
                                None => {
                                    proof {
                                        assert(cur@.tags =~= apply_mapping(tags_before, text@, m));
                                    }
                                },
                            },
                            None => {
                                cur.tags.push(text.clone());
                                proof {
                                    assert(cur@.tags =~= tags_before.push(text@));
                                    assert(cur@.tags =~= apply_mapping(tags_before, text@, m));
                                }
                            },
                        }
                    },
                    OpenMark::PhotoUrlEl => {
                        if cur.url.as_str().is_empty() {
                            cur.url = text.clone();
                        }
                        if cur.media_extension.is_none() {
                            cur.media_extension = text::extension_of(text.as_str());
                        }
                    },
                    _ => {},
                }
            },
            Event::Other => {},
        }
        proof {
            let post_state = ParseState { cur: cur@, mark: mark, out: out.deep_view() };
            assert(step(pre, evs[i as int], m) matches Ok(st2) && post_state =~= st2);
            assert(run_steps(pre, evs.skip(i as int), m) == run_steps(
                post_state,
                evs.skip(i + 1),
                m,
            ));
        }
        i = i + 1;
    }
    proof {
        assert(evs.skip(events.len() as int) =~= Seq::<EventView>::empty());
    }
    Ok(out)
}

/// Parses raw markup bytes into post records under a remapping table.
///
/// The bytes are pull-parsed into structural events; a stream rejected by the
/// pull parser surfaces as `Malformed`, and a post element without a usable
/// `id` attribute as `MissingAttribute`.
pub fn parse_posts(input: &[u8], mappings: &TagMappings) -> (r: Result<Vec<Post>, ParseError>)
    requires
        mappings.wf(),
    ensures
        match xml_event_stream(input@) {
            Some(evs) => match parse_events(evs, mappings@) {
                Ok(ps) => r matches Ok(v) && v.deep_view() == ps,
                Err(e) => r matches Err(e2) && e2 == e,
            },
            None => r matches Err(e2) && e2 is Malformed,
        },
{
    match read_events(input) {
        Ok(events) => posts_from_events(&events, mappings),
        Err(msg) => Err(ParseError::Malformed(msg)),
    }
}

// ---------------------------------------------------------------------------
// Laws of the state machine
// ---------------------------------------------------------------------------

/// A post element-start without a usable `id` attribute.
pub open spec fn bad_post_start(ev: EventView) -> bool {
    &&& ev matches EventView::Start { name, attrs }
    &&& name == "post"@
    &&& !(attr_lookup(attrs, "id"@) matches Some(id) && id.len() > 0)
}

proof fn lemma_run_steps_err(
    st: ParseState,
    evs: Seq<EventView>,
    m: Map<Seq<char>, Option<Seq<char>>>,
)
    ensures
        (run_steps(st, evs, m) is Err) <==> (exists|i: int|
            0 <= i < evs.len() && bad_post_start(#[trigger] evs[i])),
        run_steps(st, evs, m) is Err ==> run_steps(st, evs, m) == Err::<ParseState, ParseError>(
            ParseError::MissingAttribute,
        ),
    decreases evs.len(),
{
    if evs.len() > 0 {
        let rest = evs.drop_first();
        assert(forall|i: int| 0 <= i < rest.len() ==> rest[i] == evs[i + 1]);
        match step(st, evs[0], m) {
            Err(e) => {
                assert(bad_post_start(evs[0]));
                assert(e == ParseError::MissingAttribute);
            },
            Ok(st2) => {
                assert(!bad_post_start(evs[0]));
                lemma_run_steps_err(st2, rest, m);
                if exists|i: int| 0 <= i < rest.len() && bad_post_start(#[trigger] rest[i]) {
                    let i = choose|i: int| 0 <= i < rest.len() && bad_post_start(#[trigger] rest[i]);
                    assert(bad_post_start(evs[i + 1]));
                }
                if exists|i: int| 0 <= i < evs.len() && bad_post_start(#[trigger] evs[i]) {
                    let i = choose|i: int| 0 <= i < evs.len() && bad_post_start(#[trigger] evs[i]);
                    assert(i >= 1);
                    assert(bad_post_start(rest[i - 1]));
                }
            },
        }
    }
}

/// A post element without a usable `id` always fails the parse, wherever it
/// stands in the document, and the error is always `MissingAttribute`;
/// conversely, a stream whose post elements all carry ids never fails.
pub proof fn lemma_missing_id(evs: Seq<EventView>, m: Map<Seq<char>, Option<Seq<char>>>)
    ensures
        (parse_events(evs, m) is Err) <==> (exists|i: int|
            0 <= i < evs.len() && bad_post_start(#[trigger] evs[i])),
        parse_events(evs, m) is Err ==> parse_events(evs, m) == Err::<Seq<PostView>, ParseError>(
            ParseError::MissingAttribute,
        ),
{
    lemma_run_steps_err(init_state(), evs, m);
}

/// A start of a post element.
pub open spec fn is_post_start(ev: EventView) -> bool {
    ev matches EventView::Start { name, .. } && name == "post"@
}

/// An end of a post element.
pub open spec fn is_post_end(ev: EventView) -> bool {
    ev matches EventView::End { name } && name == "post"@
}

/// Post elements open and close alternately, starting and ending closed:
/// the shape every well-formed export has.
pub open spec fn posts_balanced(evs: Seq<EventView>, open: bool) -> bool
    decreases evs.len(),
{
    if evs.len() == 0 {
        !open
    } else if is_post_start(evs[0]) {
        !open && posts_balanced(evs.drop_first(), true)
    } else if is_post_end(evs[0]) {
        open && posts_balanced(evs.drop_first(), false)
    } else {
        posts_balanced(evs.drop_first(), open)
    }
}

/// How many post elements the stream closes.
pub open spec fn n_post_ends(evs: Seq<EventView>) -> nat
    decreases evs.len(),
{
    if evs.len() == 0 {
        0
    } else {
        (if is_post_end(evs[0]) {
            1nat
        } else {
            0nat
        }) + n_post_ends(evs.drop_first())
    }
}

/// The ids column of a record sequence.
pub open spec fn ids_of(ps: Seq<PostView>) -> Seq<Seq<char>> {
    ps.map_values(|p: PostView| p.id)
}

/// The id attributes of the post element-starts, in document order.
pub open spec fn post_start_ids(evs: Seq<EventView>) -> Seq<Seq<char>>
    decreases evs.len(),
{
    if evs.len() == 0 {
        Seq::empty()
    } else {
        let rest = post_start_ids(evs.drop_first());
        match evs[0] {
            EventView::Start { name, attrs } => if name == "post"@ {
                seq![attr_lookup(attrs, "id"@)->Some_0] + rest
            } else {
                rest
            },
            _ => rest,
        }
    }
}

proof fn lemma_run_steps_count(
    st: ParseState,
    evs: Seq<EventView>,
    open: bool,
    m: Map<Seq<char>, Option<Seq<char>>>,
)
    requires
        posts_balanced(evs, open),
        forall|i: int| 0 <= i < evs.len() ==> !bad_post_start(#[trigger] evs[i]),
        open <==> st.cur.id.len() > 0,
    ensures
        run_steps(st, evs, m) matches Ok(st2) && st2.out.len() == st.out.len() + n_post_ends(evs)
            && ids_of(st2.out) == ids_of(st.out) + (if open {
            seq![st.cur.id]
        } else {
            Seq::empty()
        }) + post_start_ids(evs),
    decreases evs.len(),
{
    let pending: Seq<Seq<char>> = if open {
        seq![st.cur.id]
    } else {
        Seq::empty()
    };
    if evs.len() == 0 {
        assert(ids_of(st.out) + pending + post_start_ids(evs) =~= ids_of(st.out));
    } else {
        let rest = evs.drop_first();
        assert(forall|i: int| 0 <= i < rest.len() ==> rest[i] == evs[i + 1]);
        assert(!bad_post_start(evs[0]));
        assert forall|i: int| 0 <= i < rest.len() implies !bad_post_start(#[trigger] rest[i]) by {
            assert(rest[i] == evs[i + 1]);
        }
        match step(st, evs[0], m) {
            Err(e) => {
                assert(bad_post_start(evs[0]));
            },
            Ok(st2) => {
                if is_post_start(evs[0]) {
                    assert(st2.cur.id.len() > 0);
                    lemma_run_steps_count(st2, rest, true, m);
                    assert(post_start_ids(evs) == seq![st2.cur.id] + post_start_ids(rest));
                    assert(ids_of(st.out) + pending + (seq![st2.cur.id] + post_start_ids(rest))
                        =~= ids_of(st2.out) + seq![st2.cur.id] + post_start_ids(rest));
                } else if is_post_end(evs[0]) {
                    assert(st.cur.id.len() > 0);
                    assert(st2.out == st.out.push(st.cur));
                    assert(st2.cur.id.len() == 0);
                    lemma_run_steps_count(st2, rest, false, m);
                    assert(ids_of(st2.out) =~= ids_of(st.out).push(st.cur.id));
                    assert(post_start_ids(evs) == post_start_ids(rest));
                    assert(ids_of(st.out).push(st.cur.id) + Seq::<Seq<char>>::empty()
                        + post_start_ids(rest) =~= ids_of(st.out) + seq![st.cur.id]
                        + post_start_ids(rest));
                } else {
                    assert(st2.cur.id == st.cur.id);
                    assert(st2.out == st.out);
                    lemma_run_steps_count(st2, rest, open, m);
                    assert(post_start_ids(evs) == post_start_ids(rest));
                }
            },
        }
    }
}

/// Well-formed input with N post elements, each carrying a usable id,
/// parses successfully into exactly N records, bearing the posts' ids in
/// document order.
pub proof fn lemma_well_formed_count(evs: Seq<EventView>, m: Map<Seq<char>, Option<Seq<char>>>)
    requires
        posts_balanced(evs, false),
        forall|i: int| 0 <= i < evs.len() ==> !bad_post_start(#[trigger] evs[i]),
    ensures
        parse_events(evs, m) matches Ok(ps) && ps.len() == n_post_ends(evs) && ids_of(ps)
            == post_start_ids(evs),
{
    lemma_run_steps_count(init_state(), evs, false, m);
    let ps = parse_events(evs, m)->Ok_0;
    assert(ids_of(Seq::<PostView>::empty()) =~= Seq::<Seq<char>>::empty());
    assert(ids_of(ps) =~= post_start_ids(evs));
}

/// A media extension, once set, survives every further event inside the
/// same post: a later photo URL never overwrites it.
pub proof fn lemma_extension_first_wins(
    st: ParseState,
    ev: EventView,
    m: Map<Seq<char>, Option<Seq<char>>>,
)
    requires
        st.cur.media_extension is Some,
        !is_post_start(ev),
        !is_post_end(ev),
        step(st, ev, m) is Ok,
    ensures
        step(st, ev, m)->Ok_0.cur.media_extension == st.cur.media_extension,
{
}

/// What holds of every sealed record: a non-empty id, and the photo type
/// exactly when at least one photo element was seen.
pub open spec fn sealed_ok(p: PostView) -> bool {
    &&& p.id.len() > 0
    &&& (p.media_type == MediaType::Photo <==> p.image_count > 0)
}

proof fn lemma_run_steps_sealed(
    st: ParseState,
    evs: Seq<EventView>,
    m: Map<Seq<char>, Option<Seq<char>>>,
)
    requires
        forall|j: int| 0 <= j < st.out.len() ==> sealed_ok(#[trigger] st.out[j]),
        st.cur.media_type == MediaType::Photo <==> st.cur.image_count > 0,
    ensures
        run_steps(st, evs, m) matches Ok(st2) ==> forall|j: int|
            0 <= j < st2.out.len() ==> sealed_ok(#[trigger] st2.out[j]),
    decreases evs.len(),
{
    if evs.len() > 0 {
        match step(st, evs[0], m) {
            Err(_) => {},
            Ok(st2) => {
                assert(st2.cur.media_type == MediaType::Photo <==> st2.cur.image_count > 0);
                assert forall|j: int| 0 <= j < st2.out.len() implies sealed_ok(
                    #[trigger] st2.out[j],
                ) by {
                    if j < st.out.len() {
                        assert(st2.out[j] == st.out[j]);
                    } else {
                        assert(st2.out[j] == st.cur);
                    }
                }
                lemma_run_steps_sealed(st2, evs.drop_first(), m);
            },
        }
    }
}

/// Every record a successful parse seals carries a non-empty id and is
/// photo-typed exactly when it counted at least one photo element.
pub proof fn lemma_sealed_records(evs: Seq<EventView>, m: Map<Seq<char>, Option<Seq<char>>>)
    ensures
        parse_events(evs, m) matches Ok(ps) ==> forall|j: int|
            0 <= j < ps.len() ==> sealed_ok(#[trigger] ps[j]),
{
    lemma_run_steps_sealed(init_state(), evs, m);
}

} // verus!

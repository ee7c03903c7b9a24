//! Structural events of the markup stream, and the pull parser that turns
//! raw bytes into them.
use vstd::prelude::*;
use xml::reader::{EventReader, XmlEvent};

verus! {

/// One attribute of an element-start event.
#[derive(Debug)]
pub struct Attr {
    pub name: String,
    pub value: String,
}

#[verifier::ext_equal]
pub ghost struct AttrView {
    pub name: Seq<char>,
    pub value: Seq<char>,
}

impl View for Attr {
    type V = AttrView;

    open spec fn view(&self) -> AttrView {
        AttrView { name: self.name@, value: self.value@ }
    }
}

impl DeepView for Attr {
    type V = AttrView;

    open spec fn deep_view(&self) -> AttrView {
        self.view()
    }
}

/// One structural event: an element start with its attributes, an element
/// end, character data, or anything else (ignored by the post parser).
#[derive(Debug)]
pub enum Event {
    Start { name: String, attrs: Vec<Attr> },
    End { name: String },
    Text { text: String },
    Other,
}

#[verifier::ext_equal]
pub ghost enum EventView {
    Start { name: Seq<char>, attrs: Seq<AttrView> },
    End { name: Seq<char> },
    Text { text: Seq<char> },
    Other,
}

impl View for Event {
    type V = EventView;

    open spec fn view(&self) -> EventView {
        match self {
            Event::Start { name, attrs } => EventView::Start {
                name: name@,
                attrs: attrs.deep_view(),
            },
            Event::End { name } => EventView::End { name: name@ },
            Event::Text { text } => EventView::Text { text: text@ },
            Event::Other => EventView::Other,
        }
    }
}

impl DeepView for Event {
    type V = EventView;

    open spec fn deep_view(&self) -> EventView {
        self.view()
    }
}

/// What pull-parsing yields for a given byte sequence: the full event stream
/// when the bytes are well-formed markup, `None` when they are rejected.
/// The outcome depends on the bytes alone.
pub uninterp spec fn xml_event_stream(input: Seq<u8>) -> Option<Seq<EventView>>;

/// Relies on `xml::reader::EventReader`: pull-parses the bytes as markup,
/// yielding element starts (with their attributes' local names and values),
/// element ends, and character data, until the document ends or the first
/// syntax error, which is returned as a message.
#[verifier::external_body]
pub(crate) fn read_events(input: &[u8]) -> (r: Result<Vec<Event>, String>)
    ensures
        r matches Ok(evs) ==> xml_event_stream(input@) == Some(evs.deep_view()),
        r is Err ==> xml_event_stream(input@) is None,
{
    let mut events = Vec::new();
    for ev in EventReader::new(input) {
        events.push(match ev {
            Err(e) => return Err(format!("{}", e)),
            Ok(XmlEvent::StartElement { name, attributes, .. }) => {
                let attrs = attributes.into_iter().map(|a| Attr { name: a.name.local_name, value: a.value }).collect();
                Event::Start { name: name.local_name, attrs }
            },
            Ok(XmlEvent::EndElement { name }) => Event::End { name: name.local_name },
            Ok(XmlEvent::Characters(text)) => Event::Text { text },
            Ok(_) => Event::Other,
        });
    }
    Ok(events)
}

} // verus!

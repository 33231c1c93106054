//! Reading one field out of an XML document.

use vstd::prelude::*;

use crate::document::path_keys;
use crate::text::{same, split, trim, trim_of, CharClass};

verus! {

/// A step through an XML document.
#[derive(Debug, PartialEq, Eq)]
pub enum XmlEvent {
    /// A start tag, by its name.
    Start(String),
    /// Character data with its entities resolved; nothing where they cannot be.
    Text(Option<String>),
    /// An end tag.
    End,
    /// The end of the document.
    Eof,
    /// The document is malformed here.
    Malformed,
    /// An empty element, a comment, a declaration and the like.
    Other,
}

/// What an [`XmlEvent`] holds.
pub enum XmlStep {
    /// A start tag.
    Start(Seq<char>),
    /// Character data.
    Text(Option<Seq<char>>),
    /// An end tag.
    End,
    /// The end of the document.
    Eof,
    /// The document is malformed here.
    Malformed,
    /// Anything else.
    Other,
}

impl View for XmlEvent {
    type V = XmlStep;

    open spec fn view(&self) -> XmlStep {
        match *self {
            XmlEvent::Start(s) => XmlStep::Start(s@),
            XmlEvent::Text(t) => XmlStep::Text(t.deep_view()),
            XmlEvent::End => XmlStep::End,
            XmlEvent::Eof => XmlStep::Eof,
            XmlEvent::Malformed => XmlStep::Malformed,
            XmlEvent::Other => XmlStep::Other,
        }
    }
}

impl DeepView for XmlEvent {
    type V = XmlStep;

    open spec fn deep_view(&self) -> XmlStep {
        self@
    }
}

/// `quick_xml::Reader`, which walks a document event by event.
#[verifier::external_type_specification]
#[verifier::external_body]
#[verifier::reject_recursive_types(R)]
pub struct ExReader<R>(quick_xml::Reader<R>);

/// The events of an XML text, up to its end or its first malformed spot.
pub uninterp spec fn xml_events(content: Seq<char>) -> Seq<XmlStep>;

/// The events that a reader has still to give.
pub uninterp spec fn pending(reader: quick_xml::Reader<&[u8]>) -> Seq<XmlStep>;

/// `quick_xml::Reader::from_str`. What the reader will give depends on the
/// text alone; [`xml_events`] names it. There is at least the end.
#[verifier::external_body]
fn open_xml<'a>(content: &'a str) -> (r: quick_xml::Reader<&'a [u8]>)
    ensures
        pending(r) == xml_events(content@),
        pending(r).len() > 0,
{
    quick_xml::Reader::from_str(content)
}

/// `quick_xml::Reader::read_event`, with `BytesText::unescape` for character
/// data. It gives the first of the pending events; the last of them, and no
/// other, is the end of the document or a malformed spot.
#[verifier::external_body]
fn next_event(reader: &mut quick_xml::Reader<&[u8]>) -> (e: XmlEvent)
    requires
        pending(*old(reader)).len() > 0,
    ensures
        e@ == pending(*old(reader))[0],
        pending(*final(reader)) == pending(*old(reader)).skip(1),
        (e is Eof || e is Malformed) == (pending(*final(reader)).len() == 0),
{
    match reader.read_event() {
        Ok(quick_xml::events::Event::Start(e)) => {
            XmlEvent::Start(String::from_utf8_lossy(e.name().as_ref()).to_string())
        }
        Ok(quick_xml::events::Event::Text(e)) => {
            XmlEvent::Text(e.unescape().ok().map(|t| t.into_owned()))
        }
        Ok(quick_xml::events::Event::End(_)) => XmlEvent::End,
        Ok(quick_xml::events::Event::Eof) => XmlEvent::Eof,
        Ok(_) => XmlEvent::Other,
        Err(_) => XmlEvent::Malformed,
    }
}

/// Reads every event of an XML text.
pub fn read_events(content: &str) -> (r: Vec<XmlEvent>)
    ensures
        r.deep_view() == xml_events(content@),
{
    let mut reader = open_xml(content);
    let ghost all = xml_events(content@);
    let mut out: Vec<XmlEvent> = Vec::new();
    assert(all.take(0) =~= out.deep_view());
    assert(all.skip(0) =~= all);
    loop
        invariant
            all == xml_events(content@),
            out@.len() < all.len(),
            out.deep_view() == all.take(out@.len() as int),
            pending(reader) == all.skip(out@.len() as int),
        decreases all.len() - out@.len(),
    {
        let ghost n = out@.len() as int;
        let e = next_event(&mut reader);
        let last = match &e {
            XmlEvent::Eof => true,
            XmlEvent::Malformed => true,
            _ => false,
        };
        let ghost before = out.deep_view();
        out.push(e);
        assert(out.deep_view() =~= before.push(e@));
        assert(all.take(n + 1) =~= all.take(n).push(all[n]));
        assert(all.skip(n).skip(1) =~= all.skip(n + 1));
        if last {
            assert(all.take(n + 1) =~= all);
            return out;
        }
    }
}

/// The elements that are open after some events, the outermost first.
pub open spec fn open_tags(events: Seq<XmlStep>) -> Seq<Seq<char>>
    decreases events.len(),
{
    if events.len() == 0 {
        Seq::empty()
    } else {
        let before = open_tags(events.drop_last());
        match events.last() {
            XmlStep::Start(tag) => before.push(tag),
            XmlStep::End if before.len() > 0 => before.drop_last(),
            _ => before,
        }
    }
}

/// The first text that is not blank, trimmed. An end tag, a text that cannot be
/// resolved and the end of the document leave none.
pub open spec fn first_text(events: Seq<XmlStep>) -> Option<Seq<char>>
    decreases events.len(),
{
    if events.len() == 0 {
        None
    } else {
        match events[0] {
            XmlStep::Text(Some(s)) if trim_of(s, CharClass::White).len() > 0 => Some(
                trim_of(s, CharClass::White),
            ),
            XmlStep::Text(None) => None,
            XmlStep::End => None,
            XmlStep::Eof => None,
            XmlStep::Malformed => None,
            _ => first_text(events.skip(1)),
        }
    }
}

/// The text of the first element, in the order of the document, that a path of
/// tags names. A path names an element by its last tag, directly inside one by
/// the tag before it, and so on; the first tag may stand at any depth. `open`
/// are the elements around the events.
pub open spec fn field_in(
    events: Seq<XmlStep>,
    tags: Seq<Seq<char>>,
    open: Seq<Seq<char>>,
) -> Option<Seq<char>>
    decreases events.len(),
{
    if events.len() == 0 {
        None
    } else {
        let rest = events.skip(1);
        match events[0] {
            XmlStep::Start(tag) => if tags.is_suffix_of(open.push(tag)) {
                first_text(rest)
            } else {
                field_in(rest, tags, open.push(tag))
            },
            XmlStep::End if open.len() > 0 => field_in(rest, tags, open.drop_last()),
            XmlStep::Eof => None,
            XmlStep::Malformed => None,
            _ => field_in(rest, tags, open),
        }
    }
}

/// Whether a list of texts ends with another one.
fn ends_with_all(list: &Vec<&str>, tail: &Vec<String>) -> (r: bool)
    ensures
        r == tail.deep_view().is_suffix_of(list.deep_view()),
{
    let ghost whole = list.deep_view();
    let ghost end = tail.deep_view();
    if tail.len() > list.len() {
        return false;
    }
    let from: usize = list.len() - tail.len();
    let mut i: usize = 0;
    while i < tail.len()
        invariant
            i <= tail@.len(),
            from + tail.len() == list.len(),
            whole == list.deep_view(),
            end == tail.deep_view(),
            forall|k: int| 0 <= k < i ==> whole[from + k] == #[trigger] end[k],
        decreases tail@.len() - i,
    {
        assert(whole[from + i] == list@[from + i]@);
        assert(end[i as int] == tail@[i as int]@);
        if !same(list[from + i], &tail[i]) {
            assert(whole.subrange(from as int, whole.len() as int)[i as int] != end[i as int]);
            return false;
        }
        i += 1;
    }
    assert(whole.subrange(from as int, whole.len() as int) =~= end);
    true
}

/// Reads the first text that is not blank, from the `from`-th event on.
fn text_from(events: &Vec<XmlEvent>, from: usize) -> (r: Option<String>)
    requires
        from <= events@.len(),
    ensures
        r.deep_view() == first_text(events.deep_view().skip(from as int)),
{
    let ghost all = events.deep_view();
    let mut i: usize = from;
    while i < events.len()
        invariant
            from <= i <= events@.len(),
            all == events.deep_view(),
            first_text(all.skip(i as int)) == first_text(all.skip(from as int)),
        decreases events@.len() - i,
    {
        assert(all.skip(i as int).skip(1) =~= all.skip(i + 1));
        assert(all.skip(i as int)[0] == events@[i as int]@);
        match &events[i] {
            XmlEvent::Text(Some(s)) => {
                let t = trim(s, CharClass::White);
                if !t.is_empty() {
                    return Some(t.to_owned());
                }
            }
            XmlEvent::Text(None) => {
                return None;
            }
            XmlEvent::End => {
                return None;
            }
            XmlEvent::Eof => {
                return None;
            }
            XmlEvent::Malformed => {
                return None;
            }
            XmlEvent::Start(_) => {}
            XmlEvent::Other => {}
        }
        i += 1;
    }
    None
}

/// Finds a dot-separated field among the events of a document.
pub fn find_field(events: &Vec<XmlEvent>, field: &str) -> (r: Option<String>)
    ensures
        r.deep_view() == field_in(events.deep_view(), path_keys(field@), Seq::empty()),
{
    let tags = split(field, CharClass::Only('.'));
    let ghost all = events.deep_view();
    let ghost keys = tags.deep_view();
    let mut open: Vec<&str> = Vec::new();
    let mut i: usize = 0;
    assert(all.skip(0) =~= all);
    assert(open.deep_view() =~= Seq::<Seq<char>>::empty());
    while i < events.len()
        invariant
            i <= events@.len(),
            all == events.deep_view(),
            keys == tags.deep_view(),
            keys == path_keys(field@),
            field_in(all.skip(i as int), keys, open.deep_view()) == field_in(
                all,
                keys,
                Seq::empty(),
            ),
        decreases events@.len() - i,
    {
        let ghost around = open.deep_view();
        assert(all.skip(i as int).skip(1) =~= all.skip(i + 1));
        assert(all.skip(i as int)[0] == events@[i as int]@);
        match &events[i] {
            XmlEvent::Start(tag) => {
                open.push(tag.as_str());
                assert(open.deep_view() =~= around.push(tag@));
                if ends_with_all(&open, &tags) {
                    return text_from(events, i + 1);
                }
            }
            XmlEvent::End => {
                if open.len() > 0 {
                    open.pop();
                    assert(open.deep_view() =~= around.drop_last());
                }
            }
            XmlEvent::Eof => {
                return None;
            }
            XmlEvent::Malformed => {
                return None;
            }
            XmlEvent::Text(_) => {}
            XmlEvent::Other => {}
        }
        i += 1;
    }
    None
}

/// Extracts a dot-separated field from XML: `project.artifactId` finds the
/// text of the first `artifactId` directly inside a `project`.
pub fn extract_xml_field(content: &str, field: &str) -> (r: Option<String>)
    ensures
        r.deep_view() == field_in(xml_events(content@), path_keys(field@), Seq::empty()),
{
    find_field(&read_events(content), field)
}

// ---------------------------------------------------------------------------
// Laws
// ---------------------------------------------------------------------------

/// Whether a path names the element that the `i`-th event starts: the elements
/// open from there on end with the tags of the path, each directly inside the
/// one before it.
pub open spec fn names(tags: Seq<Seq<char>>, events: Seq<XmlStep>, i: int) -> bool {
    events[i] is Start && tags.is_suffix_of(open_tags(events.take(i + 1)))
}

/// Whether a document is over with an event.
pub open spec fn over(event: XmlStep) -> bool {
    event is Eof || event is Malformed
}

/// Events that start no named element only open and close elements.
proof fn lemma_passed_over(events: Seq<XmlStep>, tags: Seq<Seq<char>>, n: int)
    requires
        0 <= n <= events.len(),
        forall|k: int| 0 <= k < n ==> !over(#[trigger] events[k]) && !names(tags, events, k),
    ensures
        field_in(events, tags, Seq::empty()) == field_in(
            events.skip(n),
            tags,
            open_tags(events.take(n)),
        ),
    decreases n,
{
    if n == 0 {
        assert(events.skip(0) =~= events);
        assert(open_tags(events.take(0)) =~= Seq::<Seq<char>>::empty());
    } else {
        lemma_passed_over(events, tags, n - 1);
        let around = open_tags(events.take(n - 1));
        let rest = events.skip(n - 1);
        assert(events.take(n).drop_last() =~= events.take(n - 1));
        assert(rest.skip(1) =~= events.skip(n));
        assert(rest[0] == events[n - 1]);
        assert(!over(events[n - 1]) && !names(tags, events, n - 1));
    }
}

/// The first element that a path names gives the field, wherever it stands.
pub proof fn law_first_named_element_gives_the_field(
    events: Seq<XmlStep>,
    tags: Seq<Seq<char>>,
    i: int,
)
    requires
        0 <= i < events.len(),
        names(tags, events, i),
        forall|k: int| 0 <= k < i ==> !over(#[trigger] events[k]) && !names(tags, events, k),
    ensures
        field_in(events, tags, Seq::empty()) == first_text(events.skip(i + 1)),
{
    lemma_passed_over(events, tags, i);
    let rest = events.skip(i);
    assert(events.take(i + 1).drop_last() =~= events.take(i));
    assert(rest.skip(1) =~= events.skip(i + 1));
    assert(rest[0] == events[i]);
}

/// Where no element from the `n`-th event on is named, nothing is found there.
proof fn lemma_nothing_named(events: Seq<XmlStep>, tags: Seq<Seq<char>>, n: int)
    requires
        0 <= n <= events.len(),
        forall|k: int| n <= k < events.len() ==> !(#[trigger] names(tags, events, k)),
    ensures
        field_in(events.skip(n), tags, open_tags(events.take(n))) is None,
    decreases events.len() - n,
{
    if n < events.len() {
        lemma_nothing_named(events, tags, n + 1);
        assert(!names(tags, events, n));
        assert(events.take(n + 1).drop_last() =~= events.take(n));
        assert(events.skip(n).skip(1) =~= events.skip(n + 1));
        assert(events.skip(n)[0] == events[n]);
    }
}

/// A path that names no element of a document finds nothing in it.
pub proof fn law_no_named_element_gives_no_field(events: Seq<XmlStep>, tags: Seq<Seq<char>>)
    requires
        forall|k: int| 0 <= k < events.len() ==> !(#[trigger] names(tags, events, k)),
    ensures
        field_in(events, tags, Seq::empty()) is None,
{
    lemma_nothing_named(events, tags, 0);
    assert(events.skip(0) =~= events);
    assert(open_tags(events.take(0)) =~= Seq::<Seq<char>>::empty());
}

/// A start tag opens an element inside those that are open, an end tag closes
/// the innermost one, and nothing else opens or closes any.
pub proof fn law_open_elements(events: Seq<XmlStep>, tag: Seq<char>, other: XmlStep)
    ensures
        open_tags(Seq::empty()).len() == 0,
        open_tags(events.push(XmlStep::Start(tag))) == open_tags(events).push(tag),
        open_tags(events).len() > 0 ==> open_tags(events.push(XmlStep::End)) == open_tags(
            events,
        ).drop_last(),
        open_tags(events).len() == 0 ==> open_tags(events.push(XmlStep::End)).len() == 0,
        !(other is Start) && !(other is End) ==> open_tags(events.push(other)) == open_tags(events),
        open_tags(events.push(XmlStep::Start(tag)).push(XmlStep::End)) == open_tags(events),
{
    let a = events.push(XmlStep::Start(tag));
    let b = events.push(XmlStep::End);
    let c = events.push(other);
    let d = a.push(XmlStep::End);
    assert(a.drop_last() =~= events);
    assert(b.drop_last() =~= events);
    assert(c.drop_last() =~= events);
    assert(d.drop_last() =~= a);
    assert(open_tags(events).push(tag).drop_last() =~= open_tags(events));
}

/// Whether an event does not end the search for a text: a start tag, something
/// else than text and tags, or a text that is blank.
pub open spec fn is_passed(event: XmlStep) -> bool {
    ||| event is Start
    ||| event is Other
    ||| event is Text && event->Text_0 is Some && trim_of(
        event->Text_0->Some_0,
        CharClass::White,
    ).len() == 0
}

/// The text of an element is the first one that is not blank, trimmed, where
/// only start tags and blank texts come before it.
pub proof fn law_first_text_that_is_not_blank(events: Seq<XmlStep>, i: int)
    requires
        0 <= i <= events.len(),
        forall|k: int| 0 <= k < i ==> is_passed(#[trigger] events[k]),
    ensures
        i == events.len() ==> first_text(events) is None,
        i < events.len() && !is_passed(events[i]) && events[i] is Text && events[i]->Text_0 is Some
            ==> first_text(events) == Some(
            trim_of(events[i]->Text_0->Some_0, CharClass::White),
        ),
        i < events.len() && !is_passed(events[i]) && !(events[i] is Text && events[i]->Text_0 is Some)
            ==> first_text(events) is None,
    decreases events.len(),
{
    if i > 0 {
        let rest = events.skip(1);
        assert(is_passed(events[0]));
        assert forall|k: int| 0 <= k < i - 1 implies is_passed(#[trigger] rest[k]) by {
            assert(rest[k] == events[k + 1]);
        }
        law_first_text_that_is_not_blank(rest, i - 1);
        if i < events.len() {
            assert(rest[i - 1] == events[i]);
        }
    }
}

/// Nothing counts behind the end of a document, or behind a malformed spot.
pub proof fn law_nothing_counts_behind_the_end(
    events: Seq<XmlStep>,
    tags: Seq<Seq<char>>,
    i: int,
)
    requires
        0 <= i < events.len(),
        over(events[i]),
        forall|k: int| 0 <= k < i ==> !over(#[trigger] events[k]) && !names(tags, events, k),
    ensures
        field_in(events, tags, Seq::empty()) is None,
{
    lemma_passed_over(events, tags, i);
    assert(events.skip(i)[0] == events[i]);
}

} // verus!

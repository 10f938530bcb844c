//! Taking the text out of an XML document.

use vstd::prelude::*;

verus! {

/// What `xml::reader::EventReader` reads from a source, event by event, up
/// to the end of the document or the first error: for an event that carries
/// character data its text, for every other event and for an error `None`.
pub uninterp spec fn xml_events(source: Seq<u8>) -> Seq<Option<Seq<char>>>;

/// The texts of a list of events.
pub open spec fn event_texts(events: Seq<Option<String>>) -> Seq<Option<Seq<char>>> {
    events.map_values(
        |event: Option<String>|
            match event {
                Some(text) => Some(text@),
                None => None,
            },
    )
}

/// The texts of the events that carry one, each with a space behind it,
/// joined in order.
pub open spec fn spaced(events: Seq<Option<Seq<char>>>) -> Seq<char>
    decreases events.len(),
{
    if events.len() == 0 {
        Seq::empty()
    } else {
        spaced(events.drop_last()) + match events.last() {
            Some(text) => text.push(' '),
            None => Seq::empty(),
        }
    }
}

/// `xml::reader::EventReader`, run over `source` to its end: trusted to read
/// the same events from the same bytes. An `XmlEvent::Characters` is handed
/// on with its text, any other event and an error without.
#[verifier::external_body]
fn read_events(source: &[u8]) -> (events: Vec<Option<String>>)
    ensures
        event_texts(events@) == xml_events(source@),
{
    let mut events = Vec::new();
    for event in xml::reader::EventReader::new(source) {
        events.push(
            match event {
                Ok(xml::reader::XmlEvent::Characters(text)) => Some(text),
                _ => None,
            },
        );
    }
    events
}

/// The texts of `events`, each with a space behind it, joined in order.
pub fn text_of_events(events: &Vec<Option<String>>) -> (text: String)
    ensures
        text@ == spaced(event_texts(events@)),
{
    let mut text = String::new();
    let mut i: usize = 0;
    assert(event_texts(events@).take(0) =~= Seq::<Option<Seq<char>>>::empty());
    while i < events.len()
        invariant
            i <= events@.len(),
            text@ == spaced(event_texts(events@).take(i as int)),
        decreases events@.len() - i,
    {
        proof {
            let texts = event_texts(events@);
            assert(texts.take(i + 1).drop_last() =~= texts.take(i as int));
            assert(texts.take(i + 1).last() == texts[i as int]);
        }
        match &events[i] {
            Some(characters) => {
                text.append(characters.as_str());
                text.push(' ');
                assert(text@ =~= spaced(event_texts(events@).take(i as int)) + characters@.push(
                    ' ',
                ));
            },
            None => {
                assert(text@ =~= spaced(event_texts(events@).take(i as int)) + Seq::<char>::empty());
            },
        }
        i += 1;
    }
    assert(event_texts(events@).take(i as int) =~= event_texts(events@));
    text
}

/// The text of the XML document `source`: the character data between its
/// tags, piece by piece, each piece with a space behind it. What stands
/// behind the first error in the document is left out.
pub fn read_text_from_xml(source: &[u8]) -> (text: String)
    ensures
        text@ == spaced(xml_events(source@)),
{
    let events = read_events(source);
    text_of_events(&events)
}

} // verus!

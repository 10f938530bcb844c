//! The page that answers a request.

use vstd::prelude::*;

verus! {

/// One term of a query with its rate for a document, as text.
#[derive(Debug)]
pub struct RateLine {
    pub term: String,
    pub rate: String,
}

/// One result as it is shown: the label of the document, and the rate of
/// each term of the query.
#[derive(Debug)]
pub struct Hit {
    pub label: String,
    pub rates: Vec<RateLine>,
}

/// A result as contracts see it: its label, and the terms with their rates.
pub type HitText = (Seq<char>, Seq<(Seq<char>, Seq<char>)>);

impl View for RateLine {
    type V = (Seq<char>, Seq<char>);

    open spec fn view(&self) -> (Seq<char>, Seq<char>) {
        (self.term@, self.rate@)
    }
}

impl View for Hit {
    type V = HitText;

    open spec fn view(&self) -> HitText {
        (self.label@, self.rates@.map_values(|line: RateLine| line@))
    }
}

/// The texts of a list of results.
pub open spec fn hit_texts(hits: Seq<Hit>) -> Seq<HitText> {
    hits.map_values(|hit: Hit| hit@)
}

/// The page up to the results: the form that asks for a query.
pub const PAGE_HEAD: &'static str =
    "\n          <html>\n            <header>\n              <title>Sroogle</title>\n            </header>\n            <body>\n              <form action=\"/\" method=\"get\">\n                <h1>Query</h1>\n                <input id=\"query\" type=\"text\" name=\"query\"/>\n                <input type=\"submit\" value=\"Submit\">\n              </form>\n        ";

/// The page behind the results.
pub const PAGE_TAIL: &'static str = "\n              </body>\n          </html>";

/// The list items for the rates of one result.
pub open spec fn rate_items(rates: Seq<(Seq<char>, Seq<char>)>) -> Seq<char>
    decreases rates.len(),
{
    if rates.len() == 0 {
        Seq::empty()
    } else {
        rate_items(rates.drop_last()) + "<li>    "@ + rates.last().0 + ": "@ + rates.last().1
            + "</li>"@
    }
}

/// The list items for the results, each with the list of its rates.
pub open spec fn hit_items(hits: Seq<HitText>) -> Seq<char>
    decreases hits.len(),
{
    if hits.len() == 0 {
        Seq::empty()
    } else {
        hit_items(hits.drop_last()) + "<li>"@ + hits.last().0 + ":</li>"@ + "<ul>"@ + rate_items(
            hits.last().1,
        ) + "</ul>"@
    }
}

/// The page for a request: the form, and below it the results where the
/// request had a query.
pub open spec fn page(hits: Option<Seq<HitText>>) -> Seq<char> {
    PAGE_HEAD@ + match hits {
        Some(hits) => "<h1>Results</h1>"@ + "<ul>"@ + hit_items(hits) + "</ul>"@,
        None => Seq::empty(),
    } + PAGE_TAIL@
}

/// Appends the list items for `rates` to `text`.
fn push_rates(text: &mut String, rates: &Vec<RateLine>)
    ensures
        final(text)@ == old(text)@ + rate_items(rates@.map_values(|line: RateLine| line@)),
{
    let ghost lines = rates@.map_values(|line: RateLine| line@);
    let ghost start = text@;
    let mut i: usize = 0;
    assert(lines.take(0) =~= Seq::<(Seq<char>, Seq<char>)>::empty());
    assert(start + rate_items(lines.take(0)) =~= start);
    while i < rates.len()
        invariant
            i <= rates@.len(),
            lines == rates@.map_values(|line: RateLine| line@),
            text@ == start + rate_items(lines.take(i as int)),
        decreases rates@.len() - i,
    {
        let ghost before = text@;
        text.append("<li>    ");
        text.append(rates[i].term.as_str());
        text.append(": ");
        text.append(rates[i].rate.as_str());
        text.append("</li>");
        proof {
            assert(lines.take(i + 1).drop_last() =~= lines.take(i as int));
            assert(lines.take(i + 1).last() == lines[i as int]);
            assert(text@ =~= start + rate_items(lines.take(i + 1)));
        }
        i += 1;
    }
    assert(lines.take(i as int) =~= lines);
}

/// Appends the list items for `hits` to `text`.
fn push_hits(text: &mut String, hits: &Vec<Hit>)
    ensures
        final(text)@ == old(text)@ + hit_items(hit_texts(hits@)),
{
    let ghost shown = hit_texts(hits@);
    let ghost start = text@;
    let mut i: usize = 0;
    assert(shown.take(0) =~= Seq::<HitText>::empty());
    assert(start + hit_items(shown.take(0)) =~= start);
    while i < hits.len()
        invariant
            i <= hits@.len(),
            shown == hit_texts(hits@),
            text@ == start + hit_items(shown.take(i as int)),
        decreases hits@.len() - i,
    {
        text.append("<li>");
        text.append(hits[i].label.as_str());
        text.append(":</li>");
        text.append("<ul>");
        push_rates(text, &hits[i].rates);
        text.append("</ul>");
        proof {
            assert(shown.take(i + 1).drop_last() =~= shown.take(i as int));
            assert(shown.take(i + 1).last() == shown[i as int]);
            assert(text@ =~= start + hit_items(shown.take(i + 1)));
        }
        i += 1;
    }
    assert(shown.take(i as int) =~= shown);
}

/// The page for a request: the form, and below it `hits` as a list, where
/// the request had a query.
pub fn render_page(hits: Option<&Vec<Hit>>) -> (text: String)
    ensures
        text@ == page(
            match hits {
                Some(hits) => Some(hit_texts(hits@)),
                None => None,
            },
        ),
{
    let mut text = String::from_str(PAGE_HEAD);
    match hits {
        Some(hits) => {
            text.append("<h1>Results</h1>");
            text.append("<ul>");
            push_hits(&mut text, hits);
            text.append("</ul>");
            text.append(PAGE_TAIL);
            assert(text@ =~= page(Some(hit_texts(hits@))));
        },
        None => {
            text.append(PAGE_TAIL);
            assert(text@ =~= page(None));
        },
    }
    text
}

} // verus!

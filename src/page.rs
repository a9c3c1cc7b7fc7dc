//! A series' page, and the link to its latest chapter found in it.
use vstd::prelude::*;
use crate::chapter::{Chapter, parse_identifier};
use crate::diff::FetchError;

verus! {

/// The value of attribute `attr` on the first element of HTML document
/// `html` that CSS selector `selector` matches, if there is one.
pub uninterp spec fn first_selected_attr(
    html: Seq<char>,
    selector: Seq<char>,
    attr: Seq<char>,
) -> Option<Seq<char>>;

/// Relies on crabquery: `Document::from` parses `html`, `Document::select`
/// lists the elements that `selector` matches in document order, and
/// `Element::attr` reads attribute `attr` of the first of them. The answer
/// depends on the three strings alone. A selector without `[` has no
/// attribute clause, the one part of crabquery's selector parsing that panics
/// on some input.
#[verifier::external_body]
fn select_first_attr(html: &str, selector: &str, attr: &str) -> (r: Option<String>)
    requires
        forall|i: int| 0 <= i < selector@.len() ==> selector@[i] != '[',
    ensures
        match r {
            Some(s) => first_selected_attr(html@, selector@, attr@) == Some(s@),
            None => first_selected_attr(html@, selector@, attr@) is None,
        },
{
    let document = crabquery::Document::from(html);
    let found = document.select(selector);
    match found.first() {
        Some(element) => element.attr(attr),
        None => None,
    }
}

/// Where a series' page lists its chapters, newest first.
pub open spec fn chapter_link_selector() -> Seq<char> {
    seq![
        'd', 'i', 'v', '.', 't', 'a', 'b', '-', 'c', 'o', 'n', 't', 'e', 'n', 't', ' ', '>', ' ',
        'd', 'i', 'v', ' ', '>', ' ', 'u', 'l', ' ', '>', ' ', 'l', 'i', ' ', '>', ' ', 's', 'p',
        'a', 'n', ' ', '>', ' ', 'a',
    ]
}

/// The attribute that holds a link's target.
pub open spec fn href() -> Seq<char> {
    seq!['h', 'r', 'e', 'f']
}

/// What the link to the latest chapter, if found, says of it.
pub open spec fn chapter_of_link(link: Option<Seq<char>>) -> Result<
    (Seq<char>, Seq<char>),
    FetchError,
> {
    match link {
        None => Err(FetchError::MissingChapterLink),
        Some(h) => match parse_identifier(h) {
            Some(c) => Ok(c),
            None => Err(FetchError::MalformedChapterLink),
        },
    }
}

/// The view of a link as found.
pub open spec fn link_view(link: Option<String>) -> Option<Seq<char>> {
    match link {
        Some(h) => Some(h@),
        None => None,
    }
}

/// `r` is the outcome that `expected` describes.
pub open spec fn outcome_is(
    r: Result<Chapter, FetchError>,
    expected: Result<(Seq<char>, Seq<char>), FetchError>,
) -> bool {
    match (r, expected) {
        (Ok(c), Ok((k, v))) => c.url@ == k && c.chapter_number@ == v,
        (Err(FetchError::MissingChapterLink), Err(FetchError::MissingChapterLink)) => true,
        (Err(FetchError::MalformedChapterLink), Err(FetchError::MalformedChapterLink)) => true,
        _ => false,
    }
}

/// The chapter that the link to the latest chapter names, given the link as
/// found in the page.
pub fn chapter_from_link(link: Option<String>) -> (r: Result<Chapter, FetchError>)
    ensures
        outcome_is(r, chapter_of_link(link_view(link))),
{
    match link {
        None => Err(FetchError::MissingChapterLink),
        Some(h) => match Chapter::new(h) {
            Ok(c) => Ok(c),
            Err(_) => Err(FetchError::MalformedChapterLink),
        },
    }
}

/// A series' page: its address and its HTML.
#[derive(Debug, Clone)]
pub struct MangaPage {
    pub url: String,
    pub body: String,
}

impl MangaPage {
    pub fn new(url: String, body: String) -> (r: MangaPage)
        ensures
            r.url == url,
            r.body == body,
    {
        MangaPage { url, body }
    }

    /// The latest chapter that the page links to.
    pub fn last_chapter(&self) -> (r: Result<Chapter, FetchError>)
        ensures
            outcome_is(
                r,
                chapter_of_link(first_selected_attr(self.body@, chapter_link_selector(), href())),
            ),
    {
        let selector = "div.tab-content > div > ul > li > span > a";
        let attr = "href";
        proof {
            reveal_strlit("div.tab-content > div > ul > li > span > a");
            reveal_strlit("href");
            assert(selector@ =~= chapter_link_selector());
            assert(attr@ =~= href());
        }
        let link = select_first_attr(self.body.as_str(), selector, attr);
        chapter_from_link(link)
    }
}

} // verus!

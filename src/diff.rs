//! Comparing the last chapter read of each series with the latest one
//! published.
use vstd::prelude::*;
use crate::chapter::{Chapter, ChapterNumber, chapter_lt};
use crate::history::ChapterMap;
use std::cmp::Ordering;

verus! {

/// Why the latest chapter of a series could not be learned.
#[derive(Debug, Clone)]
pub enum FetchError {
    /// The page could not be fetched; the text says why.
    Transport(String),
    /// The page has no link to a chapter where one is expected.
    MissingChapterLink,
    /// The link found names no chapter.
    MalformedChapterLink,
}

/// A series whose latest published chapter is past the last one read.
#[derive(Debug, Clone)]
pub struct UpdateReport {
    pub url: String,
    pub last_read: ChapterNumber,
    pub latest: ChapterNumber,
}

impl View for UpdateReport {
    type V = (Seq<char>, Seq<char>, Seq<char>);

    open spec fn view(&self) -> (Seq<char>, Seq<char>, Seq<char>) {
        (self.url@, self.last_read@, self.latest@)
    }
}

/// The report that `latest` gives on chapter `read`: one when it is a
/// chapter past `read`, none when it is not or when it is an error.
pub open spec fn update_of(read: Chapter, latest: Result<Chapter, FetchError>) -> Option<
    (Seq<char>, Seq<char>, Seq<char>),
> {
    match latest {
        Ok(c) => if chapter_lt(read.chapter_number@, c.chapter_number@) {
            Some((read.url@, read.chapter_number@, c.chapter_number@))
        } else {
            None
        },
        Err(_) => None,
    }
}

/// The reports on each chapter read against the latest chapter at the same
/// index, in order.
pub open spec fn updates(read: Seq<Chapter>, latest: Seq<Result<Chapter, FetchError>>) -> Seq<
    (Seq<char>, Seq<char>, Seq<char>),
>
    decreases read.len(),
{
    if read.len() == 0 {
        Seq::empty()
    } else {
        let prior = updates(read.drop_last(), latest);
        match update_of(read.last(), latest[read.len() - 1]) {
            Some(u) => prior.push(u),
            None => prior,
        }
    }
}

/// The views of a list of reports.
pub open spec fn report_views(v: Seq<UpdateReport>) -> Seq<(Seq<char>, Seq<char>, Seq<char>)> {
    v.map_values(|u: UpdateReport| u@)
}

fn copy_number(n: &ChapterNumber) -> (r: ChapterNumber)
    ensures
        r@ == n@,
{
    ChapterNumber { number: n.number.clone() }
}

/// The report on chapter `read` given what the latest chapter of its series
/// turned out to be.
pub fn check_update(read: &Chapter, latest: &Result<Chapter, FetchError>) -> (r: Option<
    UpdateReport,
>)
    ensures
        match r {
            Some(u) => update_of(*read, *latest) == Some(u@),
            None => update_of(*read, *latest) is None,
        },
{
    match latest {
        Ok(c) => match read.chapter_number.cmp(&c.chapter_number) {
            Ordering::Less => Some(
                UpdateReport {
                    url: read.url.clone(),
                    last_read: copy_number(&read.chapter_number),
                    latest: copy_number(&c.chapter_number),
                },
            ),
            _ => None,
        },
        Err(_) => None,
    }
}

/// The series of `history` that have a chapter past the last one read;
/// `latest[i]` is what the latest chapter of the series of entry `i` turned
/// out to be.
pub fn diff(history: &ChapterMap, latest: &Vec<Result<Chapter, FetchError>>) -> (r: Vec<
    UpdateReport,
>)
    requires
        latest.len() == history.entries.len(),
    ensures
        report_views(r@) == updates(history.entries@, latest@),
{
    let ghost read = history.entries@;
    let mut out: Vec<UpdateReport> = Vec::new();
    let mut i: usize = 0;
    while i < history.entries.len()
        invariant
            i <= read.len(),
            read == history.entries@,
            latest.len() == read.len(),
            report_views(out@) == updates(read.take(i as int), latest@),
        decreases read.len() - i,
    {
        proof {
            assert(read.take(i + 1).drop_last() =~= read.take(i as int));
            assert(read.take(i + 1).last() == read[i as int]);
        }
        match check_update(&history.entries[i], &latest[i]) {
            Some(u) => {
                let ghost before = out@;
                out.push(u);
                proof {
                    assert(report_views(out@) =~= report_views(before).push(u@));
                }
            },
            None => {},
        }
        i = i + 1;
    }
    proof {
        assert(read.take(i as int) =~= read);
    }
    out
}

} // verus!

use manga_tracker::chapter::Chapter;
use manga_tracker::diff::{check_update, diff, FetchError};
use manga_tracker::history::{apply_deny, reconcile, ChapterMap, Decision};
use manga_tracker::page::{chapter_from_link, MangaPage};

fn strings(xs: &[&str]) -> Vec<String> {
    xs.iter().map(|s| s.to_string()).collect()
}

fn number_of(m: &ChapterMap, key: &str) -> Option<String> {
    m.get(key).map(|n| n.number.clone())
}

#[test]
fn reconcile_keeps_longest_integer_part() {
    let m = reconcile(&strings(&["s/chapter-5", "s/chapter-12", "s/chapter-5.2"]));
    assert_eq!(m.len(), 1);
    assert_eq!(number_of(&m, "s/"), Some(String::from("12")));
}

#[test]
fn reconcile_skips_malformed_entries() {
    let m = reconcile(&strings(&["https://site/x?reloadKey=1chapter-3", "t/chapter-2", "junk"]));
    assert_eq!(m.len(), 1);
    assert_eq!(number_of(&m, "t/"), Some(String::from("2")));
    assert_eq!(number_of(&m, "https://site/x"), None);
}

#[test]
fn reconcile_of_nothing_is_empty() {
    let m = reconcile(&Vec::new());
    assert_eq!(m.len(), 0);
}

#[test]
fn reconcile_keeps_each_series() {
    let m = reconcile(&strings(&["a/chapter-3", "b/chapter-4", "a/chapter-2", "b/chapter-4.1"]));
    assert_eq!(m.len(), 2);
    assert_eq!(number_of(&m, "a/"), Some(String::from("3")));
    assert_eq!(number_of(&m, "b/"), Some(String::from("4.1")));
}

#[test]
fn reconcile_ignores_order() {
    let xs = strings(&["s/chapter-5", "s/chapter-12", "t/chapter-1", "s/chapter-5.2"]);
    let mut ys = xs.clone();
    ys.reverse();
    let a = reconcile(&xs);
    let b = reconcile(&ys);
    assert_eq!(a.len(), b.len());
    assert_eq!(number_of(&a, "s/"), number_of(&b, "s/"));
    assert_eq!(number_of(&a, "t/"), number_of(&b, "t/"));
}

#[test]
fn reconcile_is_idempotent() {
    let m = reconcile(&strings(&["s/chapter-5", "s/chapter-12", "t/chapter-1.5"]));
    let ids: Vec<String> = m.entries.iter().map(|c| c.chapter_url()).collect();
    let again = reconcile(&ids);
    assert_eq!(again.len(), m.len());
    assert_eq!(number_of(&again, "s/"), Some(String::from("12")));
    assert_eq!(number_of(&again, "t/"), Some(String::from("1.5")));
}

#[test]
fn deny_removes_listed_series() {
    let m = reconcile(&strings(&["achapter-3", "bchapter-4"]));
    let r = apply_deny(m, &strings(&["a"]));
    assert_eq!(r.len(), 1);
    assert_eq!(number_of(&r, "a"), None);
    assert_eq!(number_of(&r, "b"), Some(String::from("4")));
}

#[test]
fn deny_of_unknown_series_changes_nothing() {
    let m = reconcile(&strings(&["achapter-3"]));
    let r = apply_deny(m, &strings(&["z", "z"]));
    assert_eq!(number_of(&r, "a"), Some(String::from("3")));
}

#[test]
fn discover_lists_series_not_allowed() {
    let m = reconcile(&strings(&["achapter-3", "bchapter-4", "cchapter-1"]));
    let found = m.discover(&strings(&["b"]));
    assert_eq!(found, strings(&["a", "c"]));
}

#[test]
fn classify_deny_drops_series() {
    let mut m = reconcile(&strings(&["achapter-3", "bchapter-4"]));
    m.classify("a", Decision::Allow);
    assert_eq!(m.len(), 2);
    m.classify("a", Decision::Deny);
    assert_eq!(m.len(), 1);
    assert_eq!(number_of(&m, "a"), None);
    m.classify("a", Decision::Deny);
    assert_eq!(m.len(), 1);
}

#[test]
fn newer_chapter_is_reported() {
    let m = reconcile(&strings(&["s/chapter-5"]));
    let latest = vec![Chapter::new(String::from("s/chapter-7"))
        .map_err(|_| FetchError::MalformedChapterLink)];
    let reports = diff(&m, &latest);
    assert_eq!(reports.len(), 1);
    assert_eq!(reports[0].url, "s/");
    assert_eq!(reports[0].last_read.number, "5");
    assert_eq!(reports[0].latest.number, "7");
}

#[test]
fn same_chapter_is_not_reported() {
    let m = reconcile(&strings(&["s/chapter-5"]));
    let latest = vec![Chapter::new(String::from("s/chapter-5"))
        .map_err(|_| FetchError::MalformedChapterLink)];
    assert!(diff(&m, &latest).is_empty());
}

#[test]
fn failed_fetch_is_skipped() {
    let m = reconcile(&strings(&["a/chapter-5", "b/chapter-1"]));
    let latest: Vec<Result<Chapter, FetchError>> = m
        .entries
        .iter()
        .map(|c| {
            if c.url == "a/" {
                Err(FetchError::Transport(String::from("timed out")))
            } else {
                Chapter::new(String::from("b/chapter-2")).map_err(|_| FetchError::MalformedChapterLink)
            }
        })
        .collect();
    let reports = diff(&m, &latest);
    assert_eq!(reports.len(), 1);
    assert_eq!(reports[0].url, "b/");
    assert_eq!(reports[0].latest.number, "2");
}

#[test]
fn older_latest_is_not_reported() {
    let read = Chapter::new(String::from("s/chapter-12")).unwrap();
    let latest = Chapter::new(String::from("s/chapter-9")).map_err(|_| FetchError::MissingChapterLink);
    assert!(check_update(&read, &latest).is_none());
}

#[test]
fn missing_link_is_an_error() {
    assert!(matches!(chapter_from_link(None), Err(FetchError::MissingChapterLink)));
    assert!(matches!(
        chapter_from_link(Some(String::from("https://site/about"))),
        Err(FetchError::MalformedChapterLink)
    ));
}

#[test]
fn last_chapter_reads_first_link() {
    let body = String::from(
        "<html><body><div class=\"tab-content\"><div><ul>\
         <li><span><a href=\"https://mangahub.io/chapter/x/chapter-42\">42</a></span></li>\
         <li><span><a href=\"https://mangahub.io/chapter/x/chapter-41\">41</a></span></li>\
         </ul></div></div></body></html>",
    );
    let page = MangaPage::new(String::from("https://mangahub.io/manga/x"), body);
    let c = page.last_chapter().unwrap();
    assert_eq!(c.url, "https://mangahub.io/chapter/x/");
    assert_eq!(c.chapter_number.number, "42");
}

#[test]
fn page_without_chapter_list_has_no_last_chapter() {
    let page = MangaPage::new(
        String::from("https://mangahub.io/manga/x"),
        String::from("<html><body><p>nothing</p></body></html>"),
    );
    assert!(matches!(page.last_chapter(), Err(FetchError::MissingChapterLink)));
}

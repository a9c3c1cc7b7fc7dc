use manga_tracker::chapter::{sanatize_url, Chapter, ChapterNumber, MalformedIdentifier};
use std::cmp::Ordering;

fn num(s: &str) -> ChapterNumber {
    ChapterNumber::new(s)
}

#[test]
fn shorter_integer_part_orders_first() {
    assert_eq!(num("5").cmp(&num("12")), Ordering::Less);
    assert_eq!(num("12").cmp(&num("5")), Ordering::Greater);
    assert_eq!(num("5.2").cmp(&num("12")), Ordering::Less);
    assert_eq!(num("99").cmp(&num("100")), Ordering::Less);
}

#[test]
fn width_decides_before_value() {
    assert_eq!(num("7").cmp(&num("07")), Ordering::Less);
    assert_eq!(num("07").cmp(&num("7")), Ordering::Greater);
}

#[test]
fn equal_numbers_compare_equal() {
    assert_eq!(num("5").cmp(&num("5")), Ordering::Equal);
    assert_eq!(num("5.2").cmp(&num("5.2")), Ordering::Equal);
    assert!(num("5.2") == num("5.2"));
    assert!(num("5.2") != num("5.20"));
}

#[test]
fn fraction_orders_after_no_fraction() {
    assert_eq!(num("5").cmp(&num("5.2")), Ordering::Less);
    assert_eq!(num("5.2").cmp(&num("5")), Ordering::Greater);
}

#[test]
fn fractions_compare_as_strings() {
    assert_eq!(num("5.10").cmp(&num("5.9")), Ordering::Less);
    assert_eq!(num("5.9").cmp(&num("5.10")), Ordering::Greater);
    assert_eq!(num("3.1").cmp(&num("3.2")), Ordering::Less);
}

#[test]
fn operators_follow_the_chapter_order() {
    assert!(num("5") < num("12"));
    assert!(num("5.2") > num("5"));
    assert!(!(num("7") < num("7")));
}

#[test]
fn order_is_transitive_and_antisymmetric_on_samples() {
    let samples = ["1", "2", "10", "10.5", "10.10", "07", "7", "7.0", "100"];
    for a in samples.iter() {
        for b in samples.iter() {
            let ab = num(a).cmp(&num(b));
            let ba = num(b).cmp(&num(a));
            assert_eq!(ab, ba.reverse());
            assert_eq!(ab == Ordering::Equal, a == b);
            for c in samples.iter() {
                if ab == Ordering::Less && num(b).cmp(&num(c)) == Ordering::Less {
                    assert_eq!(num(a).cmp(&num(c)), Ordering::Less);
                }
            }
        }
    }
}

#[test]
fn parses_series_key_and_number() {
    let c = Chapter::new(String::from("https://mangahub.io/chapter/one-piece/chapter-1040")).unwrap();
    assert_eq!(c.url, "https://mangahub.io/chapter/one-piece/");
    assert_eq!(c.chapter_number.number, "1040");
}

#[test]
fn parses_fractional_number() {
    let c = Chapter::new(String::from("s/chapter-5.2")).unwrap();
    assert_eq!(c.url, "s/");
    assert_eq!(c.chapter_number.number, "5.2");
}

#[test]
fn reload_marker_is_cut_off() {
    let c = Chapter::new(String::from("https://site/x/chapter-3?reloadKey=1")).unwrap();
    assert_eq!(c.url, "https://site/x/");
    assert_eq!(c.chapter_number.number, "3");
}

#[test]
fn reload_marker_before_separator_leaves_no_chapter() {
    let r = Chapter::new(String::from("https://site/x?reloadKey=1chapter-3"));
    assert!(matches!(r, Err(MalformedIdentifier)));
}

#[test]
fn url_without_separator_is_malformed() {
    assert!(Chapter::new(String::from("https://site/x/episode-3")).is_err());
}

#[test]
fn bad_chapter_tokens_are_malformed() {
    assert!(Chapter::new(String::from("s/chapter-")).is_err());
    assert!(Chapter::new(String::from("s/chapter-1.2.3")).is_err());
    assert!(Chapter::new(String::from("s/chapter-12a")).is_err());
}

#[test]
fn last_separator_splits() {
    let c = Chapter::new(String::from("a/chapter-b/chapter-7")).unwrap();
    assert_eq!(c.url, "a/chapter-b/");
    assert_eq!(c.chapter_number.number, "7");
}

#[test]
fn sanatize_cuts_at_first_marker() {
    let mut u = String::from("a?reloadKey=1b?reloadKey=1c");
    sanatize_url(&mut u);
    assert_eq!(u, "a");
    let mut v = String::from("plain");
    sanatize_url(&mut v);
    assert_eq!(v, "plain");
}

#[test]
fn url_joins_key_and_number() {
    assert_eq!(Chapter::url("https://site/x/", "12.5"), "https://site/x/chapter-12.5");
}

#[test]
fn chapter_url_round_trips() {
    let c = Chapter::from("https://site/x/", "12.5").unwrap();
    assert_eq!(c.url, "https://site/x/");
    assert_eq!(c.chapter_number.number, "12.5");
    assert_eq!(c.chapter_url(), "https://site/x/chapter-12.5");
}

#[test]
fn round_trip_with_separator_in_key() {
    let c = Chapter::from("https://site/chapter-x/", "9").unwrap();
    assert_eq!(c.url, "https://site/chapter-x/");
    assert_eq!(c.chapter_number.number, "9");
}

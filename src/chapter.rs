//! Chapter numbers, their order, and the identifiers (URLs) that name a
//! chapter of a series.
use vstd::prelude::*;
use crate::text::{chars_of, string_from_chars, occurs_at, find_first, find_last,
    lemma_find_first, lemma_find_last, index_of_first, index_of_last, sub_chars, push_all};
use std::cmp::Ordering;

verus! {

/// A single dot, the separator between the integer and the fractional part.
pub open spec fn dot() -> Seq<char> {
    seq!['.']
}

/// The characters before the first `.` of a chapter number (all of them when
/// it has none).
pub open spec fn int_part(s: Seq<char>) -> Seq<char> {
    match find_first(s, dot(), 0) {
        Some(i) => s.subrange(0, i),
        None => s,
    }
}

/// The characters after the first `.` of a chapter number, if it has one.
pub open spec fn fraction(s: Seq<char>) -> Option<Seq<char>> {
    match find_first(s, dot(), 0) {
        Some(i) => Some(s.subrange(i + 1, s.len() as int)),
        None => None,
    }
}

/// Strict lexicographic order on character sequences, the order of `str`'s `<`.
pub open spec fn lex_lt(a: Seq<char>, b: Seq<char>) -> bool
    decreases a.len(),
{
    if a.len() == 0 {
        b.len() > 0
    } else if b.len() == 0 {
        false
    } else if a[0] != b[0] {
        a[0] < b[0]
    } else {
        lex_lt(a.drop_first(), b.drop_first())
    }
}

/// The order of chapter numbers: by the length of the integer part, then the
/// integer part lexicographically, then no fraction before a fraction, then the
/// fractions lexicographically.
pub open spec fn chapter_lt(a: Seq<char>, b: Seq<char>) -> bool {
    if a == b {
        false
    } else if int_part(a).len() != int_part(b).len() {
        int_part(a).len() < int_part(b).len()
    } else if int_part(a) != int_part(b) {
        lex_lt(int_part(a), int_part(b))
    } else {
        match (fraction(a), fraction(b)) {
            (Some(fa), Some(fb)) => lex_lt(fa, fb),
            (fa, fb) => fa is None && fb is Some,
        }
    }
}

/// The three-way comparison that `chapter_lt` induces.
pub open spec fn chapter_cmp(a: Seq<char>, b: Seq<char>) -> Ordering {
    if a == b {
        Ordering::Equal
    } else if chapter_lt(a, b) {
        Ordering::Less
    } else {
        Ordering::Greater
    }
}

proof fn lemma_lex_irreflexive(a: Seq<char>)
    ensures
        !lex_lt(a, a),
    decreases a.len(),
{
    if a.len() > 0 {
        lemma_lex_irreflexive(a.drop_first());
    }
}

proof fn lemma_lex_asymmetric(a: Seq<char>, b: Seq<char>)
    ensures
        lex_lt(a, b) ==> !lex_lt(b, a),
    decreases a.len(),
{
    if a.len() > 0 && b.len() > 0 && a[0] == b[0] {
        lemma_lex_asymmetric(a.drop_first(), b.drop_first());
    }
}

proof fn lemma_lex_transitive(a: Seq<char>, b: Seq<char>, c: Seq<char>)
    ensures
        lex_lt(a, b) && lex_lt(b, c) ==> lex_lt(a, c),
    decreases a.len(),
{
    if a.len() > 0 && b.len() > 0 && c.len() > 0 {
        lemma_lex_transitive(a.drop_first(), b.drop_first(), c.drop_first());
    }
}

proof fn lemma_lex_total(a: Seq<char>, b: Seq<char>)
    ensures
        a != b ==> lex_lt(a, b) || lex_lt(b, a),
    decreases a.len(),
{
    if a.len() > 0 && b.len() > 0 && a[0] == b[0] {
        lemma_lex_total(a.drop_first(), b.drop_first());
        if a.drop_first() == b.drop_first() {
            assert(a =~= seq![a[0]] + a.drop_first());
            assert(b =~= seq![b[0]] + b.drop_first());
        }
    } else if a.len() == 0 && b.len() == 0 {
        assert(a =~= b);
    }
}

/// A chapter number is its integer part, then, when it has a fraction, a dot
/// and the fraction.
proof fn lemma_parts_determine(a: Seq<char>)
    ensures
        match fraction(a) {
            Some(f) => a == int_part(a) + dot() + f,
            None => a == int_part(a),
        },
{
    lemma_find_first(a, dot(), 0);
    if let Some(i) = find_first(a, dot(), 0) {
        assert(a.subrange(i, i + 1) == dot());
        assert(a[i] == a.subrange(i, i + 1)[0]);
        assert(a =~= a.subrange(0, i) + dot() + a.subrange(i + 1, a.len() as int));
    }
}

/// The order of chapter numbers is a strict total order, and the comparison
/// answers `Equal` exactly on equal numbers.
pub proof fn lemma_chapter_order(a: Seq<char>, b: Seq<char>, c: Seq<char>)
    ensures
        !chapter_lt(a, a),
        chapter_lt(a, b) ==> !chapter_lt(b, a),
        chapter_lt(a, b) && chapter_lt(b, c) ==> chapter_lt(a, c),
        a != b ==> chapter_lt(a, b) || chapter_lt(b, a),
        (chapter_cmp(a, b) == Ordering::Equal) <==> a == b,
        (chapter_cmp(a, b) == Ordering::Less) <==> chapter_lt(a, b),
        (chapter_cmp(a, b) == Ordering::Greater) <==> chapter_lt(b, a),
{
    lemma_chapter_asymmetric(a, b);
    lemma_chapter_asymmetric(b, c);
    lemma_chapter_asymmetric(a, c);
    lemma_chapter_total(a, b);
    lemma_chapter_transitive(a, b, c);
}

proof fn lemma_chapter_asymmetric(a: Seq<char>, b: Seq<char>)
    ensures
        chapter_lt(a, b) ==> !chapter_lt(b, a),
{
    lemma_lex_asymmetric(int_part(a), int_part(b));
    if fraction(a) is Some && fraction(b) is Some {
        lemma_lex_asymmetric(fraction(a)->0, fraction(b)->0);
    }
}

proof fn lemma_chapter_total(a: Seq<char>, b: Seq<char>)
    ensures
        a != b ==> chapter_lt(a, b) || chapter_lt(b, a),
{
    lemma_parts_determine(a);
    lemma_parts_determine(b);
    lemma_lex_total(int_part(a), int_part(b));
    if fraction(a) is Some && fraction(b) is Some {
        lemma_lex_total(fraction(a)->0, fraction(b)->0);
    }
}

proof fn lemma_chapter_transitive(a: Seq<char>, b: Seq<char>, c: Seq<char>)
    ensures
        chapter_lt(a, b) && chapter_lt(b, c) ==> chapter_lt(a, c),
{
    lemma_chapter_asymmetric(a, b);
    lemma_chapter_asymmetric(b, c);
    lemma_chapter_asymmetric(a, c);
    lemma_lex_transitive(int_part(a), int_part(b), int_part(c));
    lemma_lex_asymmetric(int_part(a), int_part(c));
    lemma_lex_irreflexive(int_part(a));
    if fraction(a) is Some && fraction(b) is Some && fraction(c) is Some {
        lemma_lex_transitive(fraction(a)->0, fraction(b)->0, fraction(c)->0);
    }
}

} // verus!

verus! {

/// Whether `a[alo..ahi]` comes before `b[blo..bhi]` in lexicographic order.
fn lex_less(a: &Vec<char>, alo: usize, ahi: usize, b: &Vec<char>, blo: usize, bhi: usize) -> (r:
    bool)
    requires
        alo <= ahi <= a.len(),
        blo <= bhi <= b.len(),
    ensures
        r == lex_lt(a@.subrange(alo as int, ahi as int), b@.subrange(blo as int, bhi as int)),
{
    let ghost sa = a@.subrange(alo as int, ahi as int);
    let ghost sb = b@.subrange(blo as int, bhi as int);
    let la: usize = ahi - alo;
    let lb: usize = bhi - blo;
    let mut k: usize = 0;
    proof {
        assert(sa.subrange(0, sa.len() as int) =~= sa);
        assert(sb.subrange(0, sb.len() as int) =~= sb);
    }
    while k < la && k < lb
        invariant
            k <= la,
            k <= lb,
            la == sa.len(),
            lb == sb.len(),
            alo <= ahi <= a.len(),
            blo <= bhi <= b.len(),
            sa == a@.subrange(alo as int, ahi as int),
            sb == b@.subrange(blo as int, bhi as int),
            lex_lt(sa, sb) == lex_lt(
                sa.subrange(k as int, la as int),
                sb.subrange(k as int, lb as int),
            ),
        decreases la - k,
    {
        let x = a[alo + k];
        let y = b[blo + k];
        proof {
            assert(sa.subrange(k as int, la as int)[0] == x);
            assert(sb.subrange(k as int, lb as int)[0] == y);
        }
        if x != y {
            return x < y;
        }
        proof {
            assert(sa.subrange(k as int, la as int).drop_first() =~= sa.subrange(
                k + 1,
                la as int,
            ));
            assert(sb.subrange(k as int, lb as int).drop_first() =~= sb.subrange(
                k + 1,
                lb as int,
            ));
        }
        k = k + 1;
    }
    k == la && k < lb
}

/// The position of the first `.` in `cs`, or its length when it has none.
fn int_part_len(cs: &Vec<char>) -> (r: usize)
    ensures
        r == int_part(cs@).len(),
        r <= cs.len(),
        fraction(cs@) is Some ==> fraction(cs@)->0 == cs@.subrange(r + 1, cs.len() as int)
            && r < cs.len(),
        fraction(cs@) is None ==> r == cs.len(),
{
    let dot_chars: Vec<char> = vec!['.'];
    assert(dot_chars@ =~= dot());
    proof {
        lemma_find_first(cs@, dot(), 0);
    }
    match index_of_first(cs, &dot_chars) {
        Some(i) => i,
        None => cs.len(),
    }
}

/// The number that a chapter carries, as written (`"12"`, `"5.2"`).
#[derive(Debug, Clone)]
pub struct ChapterNumber {
    pub number: String,
}

impl View for ChapterNumber {
    type V = Seq<char>;

    open spec fn view(&self) -> Seq<char> {
        self.number@
    }
}

impl ChapterNumber {
    pub fn new(number: &str) -> (r: ChapterNumber)
        ensures
            r@ == number@,
    {
        ChapterNumber { number: number.to_owned() }
    }

    /// Compares two chapter numbers in the order of `chapter_lt`.
    pub fn cmp(&self, other: &ChapterNumber) -> (r: Ordering)
        ensures
            r == chapter_cmp(self@, other@),
    {
        if self.number == other.number {
            return Ordering::Equal;
        }
        let a = chars_of(self.number.as_str());
        let b = chars_of(other.number.as_str());
        let ia = int_part_len(&a);
        let ib = int_part_len(&b);
        proof {
            lemma_find_first(a@, dot(), 0);
            lemma_find_first(b@, dot(), 0);
            assert(int_part(a@) =~= a@.subrange(0, ia as int));
            assert(int_part(b@) =~= b@.subrange(0, ib as int));
            lemma_parts_determine(a@);
            lemma_parts_determine(b@);
            lemma_lex_total(int_part(a@), int_part(b@));
            lemma_lex_irreflexive(int_part(a@));
            lemma_lex_asymmetric(int_part(b@), int_part(a@));
        }
        if ia < ib {
            return Ordering::Less;
        }
        if ia > ib {
            return Ordering::Greater;
        }
        if lex_less(&a, 0, ia, &b, 0, ib) {
            return Ordering::Less;
        }
        if lex_less(&b, 0, ib, &a, 0, ia) {
            return Ordering::Greater;
        }
        let fa = ia < a.len();
        let fb = ib < b.len();
        if !fa && !fb {
            return Ordering::Equal;
        }
        if !fa {
            return Ordering::Less;
        }
        if !fb {
            return Ordering::Greater;
        }
        if lex_less(&a, ia + 1, a.len(), &b, ib + 1, b.len()) {
            Ordering::Less
        } else {
            Ordering::Greater
        }
    }
}

} // verus!

verus! {

/// The cache-busting marker that a URL may carry; it and all that follows it
/// are cut off.
pub open spec fn reload_marker() -> Seq<char> {
    seq!['?', 'r', 'e', 'l', 'o', 'a', 'd', 'K', 'e', 'y', '=', '1']
}

/// The text that stands between a series' address and the chapter number.
pub open spec fn separator() -> Seq<char> {
    seq!['c', 'h', 'a', 'p', 't', 'e', 'r', '-']
}

/// A URL cut at the first occurrence of the reload marker.
pub open spec fn sanitized(url: Seq<char>) -> Seq<char> {
    match find_first(url, reload_marker(), 0) {
        Some(i) => url.subrange(0, i),
        None => url,
    }
}

/// A chapter number as a URL writes it: digits, with at most one `.`.
pub open spec fn is_chapter_token(t: Seq<char>) -> bool {
    &&& t.len() > 0
    &&& forall|i: int| 0 <= i < t.len() ==> ('0' <= #[trigger] t[i] <= '9' || t[i] == '.')
    &&& forall|i: int, j: int|
        0 <= i < j < t.len() && #[trigger] t[i] == '.' ==> #[trigger] t[j] != '.'
}

/// The series key and the chapter number that a URL names, if it names one:
/// the sanitized URL is split at the last separator; what comes before it is
/// the key, what comes after it must be a chapter number.
pub open spec fn parse_identifier(url: Seq<char>) -> Option<(Seq<char>, Seq<char>)> {
    let t = sanitized(url);
    match find_last(t, separator(), t.len() - separator().len()) {
        Some(i) => {
            let token = t.subrange(i + separator().len(), t.len() as int);
            if is_chapter_token(token) {
                Some((t.subrange(0, i), token))
            } else {
                None
            }
        },
        None => None,
    }
}

/// The URL of chapter `number` of the series at `key`.
pub open spec fn identifier_of(key: Seq<char>, number: Seq<char>) -> Seq<char> {
    key + separator() + number
}

/// Cuts `url` at the first occurrence of `?reloadKey=1`.
pub fn sanatize_url(url: &mut String)
    ensures
        final(url)@ == sanitized(old(url)@),
{
    let cs = chars_of(url.as_str());
    let marker: Vec<char> = vec!['?', 'r', 'e', 'l', 'o', 'a', 'd', 'K', 'e', 'y', '=', '1'];
    assert(marker@ =~= reload_marker());
    match index_of_first(&cs, &marker) {
        Some(i) => {
            proof {
                lemma_find_first(cs@, marker@, 0);
            }
            let kept = sub_chars(&cs, 0, i);
            *url = string_from_chars(kept.as_slice());
        },
        None => {},
    }
}

/// Whether `cs[start..]` is a chapter number.
fn is_chapter_token_at(cs: &Vec<char>, start: usize) -> (r: bool)
    requires
        start <= cs.len(),
    ensures
        r == is_chapter_token(cs@.subrange(start as int, cs.len() as int)),
{
    let ghost t = cs@.subrange(start as int, cs.len() as int);
    if start == cs.len() {
        return false;
    }
    let mut seen_dot = false;
    let mut k: usize = start;
    while k < cs.len()
        invariant
            start <= k <= cs.len(),
            t == cs@.subrange(start as int, cs.len() as int),
            forall|i: int| 0 <= i < k - start ==> ('0' <= #[trigger] t[i] <= '9' || t[i] == '.'),
            forall|i: int, j: int|
                0 <= i < j < k - start && #[trigger] t[i] == '.' ==> #[trigger] t[j] != '.',
            seen_dot <==> exists|i: int| 0 <= i < k - start && #[trigger] t[i] == '.',
        decreases cs.len() - k,
    {
        let c = cs[k];
        assert(t[k - start] == c);
        if c == '.' {
            if seen_dot {
                return false;
            }
            seen_dot = true;
        } else if !('0' <= c && c <= '9') {
            return false;
        }
        k = k + 1;
    }
    true
}

/// Why a URL names no chapter: it has no `chapter-`, or what follows the last
/// one is not a chapter number.
#[derive(Debug, Clone, Copy, PartialEq, Eq, Structural)]
pub struct MalformedIdentifier;

/// A chapter of a series: the series' address and the chapter's number.
#[derive(Debug, Clone)]
pub struct Chapter {
    pub url: String,
    pub chapter_number: ChapterNumber,
}

impl Chapter {
    /// Parses a chapter URL into its series key and chapter number.
    pub fn new(url: String) -> (r: Result<Chapter, MalformedIdentifier>)
        ensures
            match r {
                Ok(c) => parse_identifier(url@) == Some((c.url@, c.chapter_number@)),
                Err(_) => parse_identifier(url@) is None,
            },
    {
        let ghost raw = url@;
        let mut url = url;
        sanatize_url(&mut url);
        let cs = chars_of(url.as_str());
        let sep: Vec<char> = vec!['c', 'h', 'a', 'p', 't', 'e', 'r', '-'];
        assert(sep@ =~= separator());
        match index_of_last(&cs, &sep) {
            None => Err(MalformedIdentifier),
            Some(i) => {
                proof {
                    lemma_find_last(cs@, sep@, cs.len() - sep.len());
                }
                let start = i + sep.len();
                if !is_chapter_token_at(&cs, start) {
                    return Err(MalformedIdentifier);
                }
                let key = sub_chars(&cs, 0, i);
                let number = sub_chars(&cs, start, cs.len());
                let number_text = string_from_chars(number.as_slice());
                Ok(
                    Chapter {
                        url: string_from_chars(key.as_slice()),
                        chapter_number: ChapterNumber::new(number_text.as_str()),
                    },
                )
            },
        }
    }

    /// The chapter `chapter_id` of the series at `url`, parsed back from its URL.
    pub fn from(url: &str, chapter_id: &str) -> (r: Result<Chapter, MalformedIdentifier>)
        ensures
            match r {
                Ok(c) => parse_identifier(identifier_of(url@, chapter_id@)) == Some(
                    (c.url@, c.chapter_number@),
                ),
                Err(_) => parse_identifier(identifier_of(url@, chapter_id@)) is None,
            },
    {
        Self::new(Self::url(url, chapter_id))
    }

    /// The URL of chapter `chapter_id` of the series at `url`.
    pub fn url(url: &str, chapter_id: &str) -> (r: String)
        ensures
            r@ == identifier_of(url@, chapter_id@),
    {
        let mut cs = chars_of(url);
        let sep: Vec<char> = vec!['c', 'h', 'a', 'p', 't', 'e', 'r', '-'];
        assert(sep@ =~= separator());
        push_all(&mut cs, &sep);
        let id = chars_of(chapter_id);
        push_all(&mut cs, &id);
        string_from_chars(cs.as_slice())
    }

    /// The URL of this chapter.
    pub fn chapter_url(&self) -> (r: String)
        ensures
            r@ == identifier_of(self.url@, self.chapter_number@),
    {
        Self::url(self.url.as_str(), self.chapter_number.number.as_str())
    }
}

} // verus!

verus! {

/// Whether the reload marker occurs anywhere in `s`.
pub open spec fn has_reload_marker(s: Seq<char>) -> bool {
    exists|i: int| occurs_at(s, reload_marker(), i)
}

proof fn lemma_no_marker_in_identifier(key: Seq<char>, number: Seq<char>)
    requires
        !has_reload_marker(key),
        is_chapter_token(number),
    ensures
        sanitized(identifier_of(key, number)) == identifier_of(key, number),
{
    let s = identifier_of(key, number);
    let l = key.len() as int;
    let m = reload_marker();
    assert forall|j: int| !occurs_at(s, m, j) by {
        if occurs_at(s, m, j) {
            if j + 12 <= l {
                assert(key.subrange(j, j + 12) =~= s.subrange(j, j + 12));
                assert(occurs_at(key, m, j));
            } else if j < l {
                assert(s[l] == 'c');
                assert(s.subrange(j, j + 12)[l - j] == s[l]);
            } else {
                assert(s.subrange(j, j + 12)[0] == s[j]);
                if j < l + 8 {
                    assert(s[j] == separator()[j - l]);
                } else {
                    assert(s[j] == number[j - l - 8]);
                }
            }
        }
    }
    lemma_find_first(s, m, 0);
}

proof fn lemma_no_separator_after_key(key: Seq<char>, number: Seq<char>, j: int)
    requires
        is_chapter_token(number),
        key.len() < j,
    ensures
        !occurs_at(identifier_of(key, number), separator(), j),
{
    let s = identifier_of(key, number);
    let l = key.len() as int;
    let sep = separator();
    if occurs_at(s, sep, j) {
        assert(s.subrange(j, j + 8)[0] == s[j]);
        assert(s[j] == 'c');
        if j < l + 8 {
            assert(s[j] == sep[j - l]);
        } else {
            assert(s[j] == number[j - l - 8]);
        }
    }
}

proof fn lemma_last_separator_in_identifier(key: Seq<char>, number: Seq<char>)
    requires
        is_chapter_token(number),
    ensures
        find_last(
            identifier_of(key, number),
            separator(),
            identifier_of(key, number).len() - separator().len(),
        ) == Some(key.len() as int),
{
    let s = identifier_of(key, number);
    let l = key.len() as int;
    let sep = separator();
    let upto = s.len() - 8;
    assert(s.subrange(l, l + 8) =~= sep);
    assert(occurs_at(s, sep, l));
    lemma_find_last(s, sep, upto);
    if let Some(i) = find_last(s, sep, upto) {
        if i < l {
            assert(!occurs_at(s, sep, l));
        } else if i > l {
            lemma_no_separator_after_key(key, number, i);
        }
    }
}

/// Parsing the URL of chapter `number` of the series `key` gives back `key`
/// and `number`, for every key that holds no reload marker and every chapter
/// number.
pub proof fn lemma_parse_round_trip(key: Seq<char>, number: Seq<char>)
    requires
        !has_reload_marker(key),
        is_chapter_token(number),
    ensures
        parse_identifier(identifier_of(key, number)) == Some((key, number)),
{
    let s = identifier_of(key, number);
    let l = key.len() as int;
    lemma_no_marker_in_identifier(key, number);
    lemma_last_separator_in_identifier(key, number);
    assert(s.subrange(l + 8, s.len() as int) =~= number);
    assert(s.subrange(0, l) =~= key);
}

} // verus!

verus! {

/// What parsing returns meets the conditions of `lemma_parse_round_trip`.
pub proof fn lemma_parse_output(raw: Seq<char>)
    ensures
        match parse_identifier(raw) {
            Some((k, v)) => !has_reload_marker(k) && is_chapter_token(v),
            None => true,
        },
{
    if parse_identifier(raw) is None {
        return;
    }
    let m = reload_marker();
    let t = sanitized(raw);
    let (k, v) = parse_identifier(raw)->0;
    lemma_find_first(raw, m, 0);
    lemma_find_last(t, separator(), t.len() - separator().len());
    let i = find_last(t, separator(), t.len() - separator().len())->0;
    assert(k == t.subrange(0, i));
    assert forall|j: int| !occurs_at(k, m, j) by {
        if occurs_at(k, m, j) {
            assert(t.subrange(j, j + 12) =~= k.subrange(j, j + 12));
            assert(raw.subrange(j, j + 12) =~= t.subrange(j, j + 12));
            assert(occurs_at(raw, m, j));
        }
    }
}

} // verus!

verus! {

impl PartialEq for ChapterNumber {
    fn eq(&self, other: &ChapterNumber) -> (r: bool) {
        self.number == other.number
    }
}

impl vstd::std_specs::cmp::PartialEqSpecImpl for ChapterNumber {
    open spec fn obeys_eq_spec() -> bool {
        true
    }

    open spec fn eq_spec(&self, other: &ChapterNumber) -> bool {
        self@ == other@
    }
}

impl Eq for ChapterNumber {

}

impl PartialOrd for ChapterNumber {
    fn partial_cmp(&self, other: &ChapterNumber) -> (r: Option<Ordering>) {
        Some(self.cmp(other))
    }
}

impl vstd::std_specs::cmp::PartialOrdSpecImpl for ChapterNumber {
    open spec fn obeys_partial_cmp_spec() -> bool {
        true
    }

    open spec fn partial_cmp_spec(&self, other: &ChapterNumber) -> Option<Ordering> {
        Some(chapter_cmp(self@, other@))
    }
}

} // verus!

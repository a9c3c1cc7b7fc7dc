//! Reconciling browsing history into the latest chapter read of each series,
//! and filtering that by the series the reader allowed or denied.
use vstd::prelude::*;
use crate::chapter::{Chapter, ChapterNumber, chapter_lt, parse_identifier, identifier_of,
    lemma_chapter_order, lemma_parse_output, lemma_parse_round_trip};
use std::cmp::Ordering;

verus! {

/// The map from series key to chapter number that a list of chapters spells,
/// a later entry overriding an earlier one of the same key.
pub open spec fn entries_map(s: Seq<Chapter>) -> Map<Seq<char>, Seq<char>>
    decreases s.len(),
{
    if s.len() == 0 {
        Map::empty()
    } else {
        entries_map(s.drop_last()).insert(s.last().url@, s.last().chapter_number@)
    }
}

/// No two chapters of the list belong to the same series.
pub open spec fn keys_unique(s: Seq<Chapter>) -> bool {
    forall|i: int, j: int|
        0 <= i < j < s.len() ==> #[trigger] s[i].url@ != #[trigger] s[j].url@
}

proof fn lemma_entries_map(s: Seq<Chapter>)
    ensures
        forall|k: Seq<char>|
            #[trigger] entries_map(s).contains_key(k) <==> exists|j: int|
                0 <= j < s.len() && s[j].url@ == k,
        keys_unique(s) ==> forall|j: int|
            0 <= j < s.len() ==> entries_map(s)[#[trigger] s[j].url@] == s[j].chapter_number@,
    decreases s.len(),
{
    if s.len() > 0 {
        let p = s.drop_last();
        lemma_entries_map(p);
        assert forall|k: Seq<char>|
            #[trigger] entries_map(s).contains_key(k) implies exists|j: int|
                0 <= j < s.len() && s[j].url@ == k by {
            if k != s.last().url@ {
                assert(entries_map(p).contains_key(k));
                let j = choose|j: int| 0 <= j < p.len() && p[j].url@ == k;
                assert(s[j] == p[j]);
            }
        }
        assert forall|k: Seq<char>|
            (exists|j: int| 0 <= j < s.len() && s[j].url@ == k) implies #[trigger] entries_map(
            s,
        ).contains_key(k) by {
            let j = choose|j: int| 0 <= j < s.len() && s[j].url@ == k;
            if j < p.len() {
                assert(p[j] == s[j]);
                assert(entries_map(p).contains_key(k));
            }
        }
        if keys_unique(s) {
            assert forall|j: int| 0 <= j < s.len() implies entries_map(s)[#[trigger] s[j].url@]
                == s[j].chapter_number@ by {
                if j < p.len() {
                    assert(p[j] == s[j]);
                    assert(s[j].url@ != s[s.len() - 1].url@);
                }
            }
        }
    }
}

/// Keeps `v` as the chapter of series `k` unless `m` holds a later one.
pub open spec fn keep_latest(m: Map<Seq<char>, Seq<char>>, k: Seq<char>, v: Seq<char>) -> Map<
    Seq<char>,
    Seq<char>,
> {
    if m.contains_key(k) && chapter_lt(v, m[k]) {
        m
    } else {
        m.insert(k, v)
    }
}

/// The latest chapter of each series that `urls` name, read from first to
/// last; a URL that names no chapter is skipped, and of two equal chapters
/// the later one stays.
pub open spec fn reconciled(urls: Seq<Seq<char>>) -> Map<Seq<char>, Seq<char>>
    decreases urls.len(),
{
    if urls.len() == 0 {
        Map::empty()
    } else {
        let m = reconciled(urls.drop_last());
        match parse_identifier(urls.last()) {
            Some((k, v)) => keep_latest(m, k, v),
            None => m,
        }
    }
}

/// The views of a list of strings.
pub open spec fn views_of(v: Seq<String>) -> Seq<Seq<char>> {
    v.map_values(|s: String| s@)
}

/// The latest chapter read of each series, kept as a list of chapters with
/// one entry per series.
#[derive(Debug, Clone)]
pub struct ChapterMap {
    pub entries: Vec<Chapter>,
}

impl View for ChapterMap {
    type V = Map<Seq<char>, Seq<char>>;

    open spec fn view(&self) -> Map<Seq<char>, Seq<char>> {
        entries_map(self.entries@)
    }
}

impl ChapterMap {
    pub open spec fn wf(&self) -> bool {
        keys_unique(self.entries@)
    }

    pub fn new() -> (r: ChapterMap)
        ensures
            r.wf(),
            r@ == Map::<Seq<char>, Seq<char>>::empty(),
    {
        ChapterMap { entries: Vec::new() }
    }

    /// The number of series held.
    pub fn len(&self) -> (r: usize)
        ensures
            r == self.entries.len(),
    {
        self.entries.len()
    }

    /// The index of the entry of series `key`, if there is one.
    pub fn position(&self, key: &str) -> (r: Option<usize>)
        ensures
            match r {
                Some(j) => j < self.entries.len() && self.entries@[j as int].url@ == key@,
                None => forall|j: int|
                    0 <= j < self.entries.len() ==> self.entries@[j].url@ != key@,
            },
    {
        let wanted: String = key.to_owned();
        let mut j: usize = 0;
        while j < self.entries.len()
            invariant
                j <= self.entries.len(),
                wanted@ == key@,
                forall|i: int| 0 <= i < j ==> self.entries@[i].url@ != key@,
            decreases self.entries.len() - j,
        {
            if self.entries[j].url == wanted {
                return Some(j);
            }
            j = j + 1;
        }
        None
    }

    /// The chapter held for series `key`.
    pub fn get(&self, key: &str) -> (r: Option<&ChapterNumber>)
        requires
            self.wf(),
        ensures
            match r {
                Some(n) => self@.contains_key(key@) && self@[key@] == n@,
                None => !self@.contains_key(key@),
            },
    {
        proof {
            lemma_entries_map(self.entries@);
        }
        match self.position(key) {
            Some(j) => Some(&self.entries[j].chapter_number),
            None => None,
        }
    }

    /// Keeps chapter `c` as its series' latest unless a later one is held.
    pub fn record(&mut self, c: Chapter)
        requires
            old(self).wf(),
        ensures
            final(self).wf(),
            final(self)@ == keep_latest(old(self)@, c.url@, c.chapter_number@),
    {
        let ghost before = self.entries@;
        proof {
            lemma_entries_map(before);
        }
        match self.position(c.url.as_str()) {
            Some(j) => {
                match c.chapter_number.cmp(&self.entries[j].chapter_number) {
                    Ordering::Less => {},
                    _ => {
                        let ghost k0 = c.url@;
                        let ghost v0 = c.chapter_number@;
                        self.entries.set(j, c);
                        let ghost after = self.entries@;
                        proof {
                            assert forall|i: int| 0 <= i < after.len() implies #[trigger] after[i].url@
                                == before[i].url@ by {}
                            lemma_entries_map(after);
                            assert forall|k: Seq<char>|
                                entries_map(after).contains_key(k) implies entries_map(after)[k]
                                == entries_map(before).insert(k0, v0)[k] by {
                                if k != k0 {
                                    let i = choose|i: int| 0 <= i < after.len() && after[i].url@ == k;
                                    assert(after[i] == before[i]);
                                } else {
                                    assert(after[j as int].url@ == k0);
                                }
                            }
                            assert forall|k: Seq<char>|
                                entries_map(before).insert(k0, v0).contains_key(k) implies entries_map(after).contains_key(k) by {
                                if k != k0 {
                                    assert(entries_map(before).contains_key(k));
                                    let i = choose|i: int| 0 <= i < before.len() && before[i].url@ == k;
                                    assert(after[i].url@ == k);
                                } else {
                                    assert(after[j as int].url@ == k0);
                                }
                            }
                            assert(entries_map(after) =~= entries_map(before).insert(k0, v0));
                        }
                    },
                }
            },
            None => {
                self.entries.push(c);
                proof {
                    assert(self.entries@.drop_last() =~= before);
                }
            },
        }
    }

    /// Drops the entry of series `key`, if there is one.
    pub fn remove(&mut self, key: &str)
        requires
            old(self).wf(),
        ensures
            final(self).wf(),
            final(self)@ == old(self)@.remove(key@),
    {
        let ghost before = self.entries@;
        proof {
            lemma_entries_map(before);
        }
        match self.position(key) {
            None => {
                assert(self@ =~= entries_map(before).remove(key@));
            },
            Some(j) => {
                self.entries.remove(j);
                let ghost after = self.entries@;
                proof {
                    assert forall|i: int| 0 <= i < after.len() implies #[trigger] after[i] == (if i
                        < j {
                        before[i]
                    } else {
                        before[i + 1]
                    }) by {}
                    assert(keys_unique(after)) by {
                        assert forall|a: int, b: int| 0 <= a < b < after.len() implies #[trigger] after[a].url@
                            != #[trigger] after[b].url@ by {
                            let a0 = if a < j { a } else { a + 1 };
                            let b0 = if b < j { b } else { b + 1 };
                            assert(after[a] == before[a0]);
                            assert(after[b] == before[b0]);
                        }
                    }
                    lemma_entries_map(after);
                    assert forall|k: Seq<char>|
                        #[trigger] entries_map(after).contains_key(k) <==> entries_map(before).remove(key@).contains_key(k) by {
                        if entries_map(after).contains_key(k) {
                            let i = choose|i: int| 0 <= i < after.len() && after[i].url@ == k;
                            let i0 = if i < j { i } else { i + 1 };
                            assert(after[i] == before[i0]);
                            assert(before[j as int].url@ == key@);
                        }
                        if entries_map(before).remove(key@).contains_key(k) {
                            let i = choose|i: int| 0 <= i < before.len() && before[i].url@ == k;
                            let i1 = if i < j { i } else { i - 1 };
                            assert(before[j as int].url@ == key@);
                            assert(after[i1] == before[i]);
                        }
                    }
                    assert forall|k: Seq<char>|
                        entries_map(after).contains_key(k) implies entries_map(after)[k] == entries_map(before)[k] by {
                        let i = choose|i: int| 0 <= i < after.len() && after[i].url@ == k;
                        let i0 = if i < j { i } else { i + 1 };
                        assert(after[i] == before[i0]);
                    }
                    assert(entries_map(after) =~= entries_map(before).remove(key@));
                }
            },
        }
    }
}

} // verus!

verus! {

/// The latest chapter read of each series that `urls` name; URLs that name no
/// chapter are skipped.
pub fn reconcile(urls: &Vec<String>) -> (r: ChapterMap)
    ensures
        r.wf(),
        r@ == reconciled(views_of(urls@)),
{
    let ghost all = views_of(urls@);
    let mut m = ChapterMap::new();
    let mut i: usize = 0;
    proof {
        assert(all.take(0) =~= Seq::<Seq<char>>::empty());
    }
    while i < urls.len()
        invariant
            i <= urls.len(),
            all == views_of(urls@),
            m.wf(),
            m@ == reconciled(all.take(i as int)),
        decreases urls.len() - i,
    {
        proof {
            assert(all.take(i + 1).drop_last() =~= all.take(i as int));
            assert(all.take(i + 1).last() == urls@[i as int]@);
        }
        match Chapter::new(urls[i].clone()) {
            Ok(c) => m.record(c),
            Err(_) => {},
        }
        i = i + 1;
    }
    proof {
        assert(all.take(i as int) =~= all);
    }
    m
}

/// Drops from `map` every series that `deny` lists.
pub fn apply_deny(map: ChapterMap, deny: &Vec<String>) -> (r: ChapterMap)
    requires
        map.wf(),
    ensures
        r.wf(),
        r@ == map@.remove_keys(views_of(deny@).to_set()),
{
    let ghost ks = views_of(deny@);
    let mut m = map;
    let mut i: usize = 0;
    while i < deny.len()
        invariant
            i <= deny.len(),
            ks == views_of(deny@),
            m.wf(),
            m@ == map@.remove_keys(ks.take(i as int).to_set()),
        decreases deny.len() - i,
    {
        m.remove(deny[i].as_str());
        proof {
            assert(ks.take(i + 1) =~= ks.take(i as int).push(ks[i as int]));
            ks.take(i as int).lemma_push_to_set_commute(ks[i as int]);
            assert(m@ =~= map@.remove_keys(ks.take(i + 1).to_set()));
        }
        i = i + 1;
    }
    proof {
        assert(ks.take(i as int) =~= ks);
    }
    m
}

/// Whether `list` holds `key`.
fn lists(list: &Vec<String>, key: &String) -> (r: bool)
    ensures
        r == views_of(list@).contains(key@),
{
    let mut j: usize = 0;
    while j < list.len()
        invariant
            j <= list.len(),
            forall|i: int| 0 <= i < j ==> list@[i]@ != key@,
        decreases list.len() - j,
    {
        if list[j] == *key {
            proof {
                assert(views_of(list@)[j as int] == key@);
            }
            return true;
        }
        j = j + 1;
    }
    proof {
        if views_of(list@).contains(key@) {
            let i = choose|i: int| 0 <= i < list.len() && views_of(list@)[i] == key@;
            assert(list@[i]@ == key@);
        }
    }
    false
}

impl ChapterMap {
    /// The series held that `allow` does not list: those still to be
    /// classified, each once, in the order of the entries.
    pub fn discover(&self, allow: &Vec<String>) -> (r: Vec<String>)
        requires
            self.wf(),
        ensures
            views_of(r@).no_duplicates(),
            forall|k: Seq<char>|
                #[trigger] views_of(r@).contains(k) <==> self@.contains_key(k) && !views_of(
                    allow@,
                ).contains(k),
    {
        proof {
            lemma_entries_map(self.entries@);
        }
        let ghost es = self.entries@;
        let ghost allowed = views_of(allow@);
        let ghost mut src: Seq<int> = Seq::empty();
        let mut out: Vec<String> = Vec::new();
        let mut i: usize = 0;
        while i < self.entries.len()
            invariant
                i <= self.entries.len(),
                es == self.entries@,
                allowed == views_of(allow@),
                keys_unique(es),
                src.len() == out.len(),
                forall|a: int|
                    0 <= a < out.len() ==> 0 <= #[trigger] src[a] < i && out@[a]@ == es[src[a]].url@
                        && !allowed.contains(es[src[a]].url@),
                forall|b: int|
                    0 <= b < i && !allowed.contains(es[b].url@) ==> exists|a: int|
                        0 <= a < out.len() && out@[a]@ == #[trigger] es[b].url@,
                views_of(out@).no_duplicates(),
            decreases self.entries.len() - i,
        {
            let key = &self.entries[i].url;
            if !lists(allow, key) {
                let ghost before = out@;
                let ghost src0 = src;
                out.push(key.clone());
                proof {
                    src = src.push(i as int);
                    assert forall|a: int, c: int|
                        0 <= a < c < out.len() implies views_of(out@)[a] != views_of(out@)[c] by {
                        if c == out.len() - 1 {
                            assert(out@[a] == before[a]);
                            assert(src[a] == src0[a]);
                        } else {
                            assert(views_of(before)[a] != views_of(before)[c]);
                        }
                    }
                    assert forall|a: int| 0 <= a < out.len() implies 0 <= #[trigger] src[a] < i + 1
                        && out@[a]@ == es[src[a]].url@ && !allowed.contains(es[src[a]].url@) by {
                        if a < before.len() {
                            assert(out@[a] == before[a]);
                            assert(src[a] == src0[a]);
                        }
                    }
                    assert forall|b: int|
                        0 <= b < i + 1 && !allowed.contains(es[b].url@) implies exists|a: int|
                        0 <= a < out.len() && out@[a]@ == #[trigger] es[b].url@ by {
                        if b < i {
                            let a = choose|a: int| 0 <= a < before.len() && before[a]@ == es[b].url@;
                            assert(out@[a] == before[a]);
                        } else {
                            assert(out@[out.len() - 1]@ == es[b].url@);
                        }
                    }
                }
            }
            i = i + 1;
        }
        proof {
            assert forall|k: Seq<char>|
                #[trigger] views_of(out@).contains(k) <==> self@.contains_key(k) && !views_of(
                    allow@,
                ).contains(k) by {
                if views_of(out@).contains(k) {
                    let a = choose|a: int| 0 <= a < out.len() && views_of(out@)[a] == k;
                    assert(out@[a]@ == k);
                    assert(0 <= src[a] < es.len());
                }
                if self@.contains_key(k) && !views_of(allow@).contains(k) {
                    let b = choose|b: int| 0 <= b < es.len() && es[b].url@ == k;
                    let a = choose|a: int| 0 <= a < out.len() && out@[a]@ == es[b].url@;
                    assert(views_of(out@)[a] == k);
                }
            }
        }
        out
    }

    /// Applies the reader's decision on series `key`: a denied series is
    /// dropped, an allowed one stays.
    pub fn classify(&mut self, key: &str, decision: Decision)
        requires
            old(self).wf(),
        ensures
            final(self).wf(),
            final(self)@ == match decision {
                Decision::Allow => old(self)@,
                Decision::Deny => old(self)@.remove(key@),
            },
    {
        match decision {
            Decision::Allow => {},
            Decision::Deny => self.remove(key),
        }
    }
}

/// The reader's answer on whether to follow a newly found series.
#[derive(Debug, Clone, Copy, PartialEq, Eq, Structural)]
pub enum Decision {
    Allow,
    Deny,
}

} // verus!

verus! {

/// Some URL of `urls` names chapter `v` of series `k`.
pub open spec fn names_chapter(urls: Seq<Seq<char>>, k: Seq<char>, v: Seq<char>) -> bool {
    exists|i: int| 0 <= i < urls.len() && #[trigger] parse_identifier(urls[i]) == Some((k, v))
}

/// Some URL of `urls` names a chapter of series `k`.
pub open spec fn names_series(urls: Seq<Seq<char>>, k: Seq<char>) -> bool {
    exists|v: Seq<char>| #[trigger] names_chapter(urls, k, v)
}

/// `m` maps each series that `urls` name to the latest chapter of it that
/// they name.
pub open spec fn is_latest_of(urls: Seq<Seq<char>>, m: Map<Seq<char>, Seq<char>>) -> bool {
    &&& forall|k: Seq<char>| #[trigger] m.contains_key(k) <==> names_series(urls, k)
    &&& forall|k: Seq<char>| #[trigger] m.contains_key(k) ==> names_chapter(urls, k, m[k])
    &&& forall|k: Seq<char>, v: Seq<char>|
        m.contains_key(k) && #[trigger] names_chapter(urls, k, v) ==> !chapter_lt(m[k], v)
}

proof fn lemma_names_push(p: Seq<Seq<char>>, u: Seq<char>)
    ensures
        forall|k: Seq<char>, v: Seq<char>|
            #[trigger] names_chapter(p.push(u), k, v) <==> names_chapter(p, k, v)
                || parse_identifier(u) == Some((k, v)),
{
    let q = p.push(u);
    assert forall|k: Seq<char>, v: Seq<char>|
        #[trigger] names_chapter(q, k, v) <==> names_chapter(p, k, v) || parse_identifier(u)
            == Some((k, v)) by {
        if names_chapter(q, k, v) {
            let i = choose|i: int| 0 <= i < q.len() && #[trigger] parse_identifier(q[i]) == Some((k, v));
            if i < p.len() {
                assert(q[i] == p[i]);
            }
        }
        if names_chapter(p, k, v) {
            let i = choose|i: int| 0 <= i < p.len() && #[trigger] parse_identifier(p[i]) == Some((k, v));
            assert(q[i] == p[i]);
        }
        if parse_identifier(u) == Some((k, v)) {
            assert(q[p.len() as int] == u);
        }
    }
}

proof fn lemma_reconciled_is_latest(urls: Seq<Seq<char>>)
    ensures
        is_latest_of(urls, reconciled(urls)),
    decreases urls.len(),
{
    let m = reconciled(urls);
    if urls.len() == 0 {
        assert forall|k: Seq<char>| !names_series(urls, k) by {
            if names_series(urls, k) {
                let v = choose|v: Seq<char>| #[trigger] names_chapter(urls, k, v);
            }
        }
    } else {
        let p = urls.drop_last();
        let u = urls.last();
        let mp = reconciled(p);
        lemma_reconciled_is_latest(p);
        assert(urls =~= p.push(u));
        lemma_names_push(p, u);
        match parse_identifier(u) {
            None => {
                assert forall|k: Seq<char>| names_series(urls, k) <==> names_series(p, k) by {
                    if names_series(urls, k) {
                        let v = choose|v: Seq<char>| #[trigger] names_chapter(urls, k, v);
                        assert(names_chapter(p, k, v));
                    }
                    if names_series(p, k) {
                        let v = choose|v: Seq<char>| #[trigger] names_chapter(p, k, v);
                        assert(names_chapter(urls, k, v));
                    }
                }
            },
            Some((k0, v0)) => {
                assert(names_chapter(urls, k0, v0));
                assert forall|k: Seq<char>| #[trigger] m.contains_key(k) <==> names_series(urls, k) by {
                    if names_series(urls, k) {
                        let v = choose|v: Seq<char>| #[trigger] names_chapter(urls, k, v);
                        if k != k0 {
                            assert(names_chapter(p, k, v));
                        }
                    }
                    if m.contains_key(k) && k != k0 {
                        assert(mp.contains_key(k));
                        let v = choose|v: Seq<char>| #[trigger] names_chapter(p, k, v);
                        assert(names_chapter(urls, k, v));
                    }
                }
                assert forall|k: Seq<char>| #[trigger] m.contains_key(k) implies names_chapter(urls, k, m[k]) by {
                    if k != k0 || m[k] != v0 {
                        assert(mp.contains_key(k) && m[k] == mp[k]);
                        assert(names_chapter(p, k, mp[k]));
                    }
                }
                assert forall|k: Seq<char>, v: Seq<char>|
                    m.contains_key(k) && #[trigger] names_chapter(urls, k, v) implies !chapter_lt(m[k], v) by {
                    if k == k0 {
                        lemma_chapter_order(v0, v, v0);
                        if mp.contains_key(k0) {
                            lemma_chapter_order(mp[k0], v, v0);
                            lemma_chapter_order(v, mp[k0], v0);
                            lemma_chapter_order(v0, mp[k0], v);
                        } else if names_chapter(p, k, v) {
                            assert(names_series(p, k));
                        }
                    } else {
                        assert(names_chapter(p, k, v));
                    }
                }
            },
        }
    }
}

proof fn lemma_latest_unique(
    urls: Seq<Seq<char>>,
    m1: Map<Seq<char>, Seq<char>>,
    m2: Map<Seq<char>, Seq<char>>,
)
    requires
        is_latest_of(urls, m1),
        is_latest_of(urls, m2),
    ensures
        m1 == m2,
{
    assert forall|k: Seq<char>| #[trigger] m1.contains_key(k) implies m1[k] == m2[k] by {
        assert(names_chapter(urls, k, m1[k]));
        assert(m2.contains_key(k));
        assert(names_chapter(urls, k, m2[k]));
        lemma_chapter_order(m1[k], m2[k], m1[k]);
    }
    assert(m1 =~= m2);
}

/// Reconciling does not depend on the order of the URLs: any rearrangement
/// of them gives the same latest chapter for every series.
pub proof fn lemma_reconcile_order_insensitive(xs: Seq<Seq<char>>, ys: Seq<Seq<char>>)
    requires
        xs.to_multiset() == ys.to_multiset(),
    ensures
        reconciled(xs) == reconciled(ys),
{
    broadcast use vstd::seq_lib::to_multiset_contains;

    assert forall|k: Seq<char>, v: Seq<char>|
        #[trigger] names_chapter(xs, k, v) <==> names_chapter(ys, k, v) by {
        if names_chapter(xs, k, v) {
            let i = choose|i: int| 0 <= i < xs.len() && #[trigger] parse_identifier(xs[i]) == Some((k, v));
            assert(xs.contains(xs[i]));
            assert(xs.to_multiset().count(xs[i]) > 0);
            assert(ys.contains(xs[i]));
        }
        if names_chapter(ys, k, v) {
            let i = choose|i: int| 0 <= i < ys.len() && #[trigger] parse_identifier(ys[i]) == Some((k, v));
            assert(ys.contains(ys[i]));
            assert(ys.to_multiset().count(ys[i]) > 0);
            assert(xs.contains(ys[i]));
        }
    }
    lemma_reconciled_is_latest(xs);
    lemma_reconciled_is_latest(ys);
    let m = reconciled(xs);
    assert forall|k: Seq<char>| #[trigger] m.contains_key(k) <==> names_series(ys, k) by {
        if names_series(ys, k) {
            let v = choose|v: Seq<char>| #[trigger] names_chapter(ys, k, v);
            assert(names_chapter(xs, k, v));
        }
        if names_series(xs, k) {
            let v = choose|v: Seq<char>| #[trigger] names_chapter(xs, k, v);
            assert(names_chapter(ys, k, v));
        }
    }
    assert forall|k: Seq<char>| #[trigger] m.contains_key(k) implies names_chapter(ys, k, m[k]) by {
        assert(names_chapter(xs, k, m[k]));
    }
    assert forall|k: Seq<char>, v: Seq<char>|
        m.contains_key(k) && #[trigger] names_chapter(ys, k, v) implies !chapter_lt(m[k], v) by {
        assert(names_chapter(xs, k, v));
    }
    lemma_latest_unique(ys, m, reconciled(ys));
}

/// The URLs of the chapters in `m`, one for each series that `ks` lists.
pub open spec fn identifiers_of(ks: Seq<Seq<char>>, m: Map<Seq<char>, Seq<char>>) -> Seq<Seq<char>> {
    ks.map_values(|k: Seq<char>| identifier_of(k, m[k]))
}

/// Reconciling is idempotent: writing each series' latest chapter back as a
/// URL and reconciling those URLs gives the same map again.
pub proof fn lemma_reconcile_idempotent(xs: Seq<Seq<char>>, ks: Seq<Seq<char>>)
    requires
        forall|k: Seq<char>| ks.contains(k) <==> reconciled(xs).contains_key(k),
    ensures
        reconciled(identifiers_of(ks, reconciled(xs))) == reconciled(xs),
{
    let m = reconciled(xs);
    let ids = identifiers_of(ks, m);
    assert(ids.len() == ks.len());
    lemma_reconciled_is_latest(xs);
    assert forall|i: int| 0 <= i < ids.len() implies #[trigger] parse_identifier(ids[i]) == Some(
        (ks[i], m[ks[i]]),
    ) by {
        let k = ks[i];
        assert(ks.contains(k));
        assert(names_chapter(xs, k, m[k]));
        let j = choose|j: int| 0 <= j < xs.len() && #[trigger] parse_identifier(xs[j]) == Some((k, m[k]));
        lemma_parse_output(xs[j]);
        lemma_parse_round_trip(k, m[k]);
    }
    assert forall|k: Seq<char>, v: Seq<char>|
        #[trigger] names_chapter(ids, k, v) <==> m.contains_key(k) && v == m[k] by {
        if names_chapter(ids, k, v) {
            let i = choose|i: int| 0 <= i < ids.len() && #[trigger] parse_identifier(ids[i]) == Some((k, v));
            assert(parse_identifier(ids[i]) == Some((ks[i], m[ks[i]])));
            assert(ks.contains(ks[i]));
        }
        if m.contains_key(k) && v == m[k] {
            assert(ks.contains(k));
            let i = choose|i: int| 0 <= i < ks.len() && ks[i] == k;
            assert(0 <= i < ids.len());
            assert(parse_identifier(ids[i]) == Some((k, v)));
        }
    }
    assert forall|k: Seq<char>| #[trigger] m.contains_key(k) <==> names_series(ids, k) by {
        if m.contains_key(k) {
            assert(names_chapter(ids, k, m[k]));
        }
        if names_series(ids, k) {
            let v = choose|v: Seq<char>| #[trigger] names_chapter(ids, k, v);
        }
    }
    assert forall|k: Seq<char>| #[trigger] m.contains_key(k) implies !chapter_lt(m[k], m[k]) by {
        lemma_chapter_order(m[k], m[k], m[k]);
    }
    lemma_reconciled_is_latest(ids);
    lemma_latest_unique(ids, m, reconciled(ids));
}

} // verus!

//! Several patterns in one search: validation up front, one query per
//! pattern, the intersection of their results, and the ranking.
//!
//! Running the queries against the corpus is left to the caller, one at a
//! time: `Search::next_query` says what to run next (or that the search is
//! over) and `Search::record` takes the words the corpus returned.
use vstd::prelude::*;

use crate::letters::{process_rejects, rejects_of};
use crate::pattern::{is_valid_pattern, normalized, parse_pattern, valid_pattern};
use crate::query::{keep_matching, query_text, word_matches, WordleQuery, WordleQueryError};
use crate::rank::{limited, rank_words, scored_all, sorted_desc, views, Wordle};
use crate::text::{chars_of, string_of};

verus! {

/// The texts of a sequence of strings.
pub open spec fn texts(v: Seq<String>) -> Seq<Seq<char>> {
    v.map_values(|s: String| s@)
}

/// The words of `a` that also occur in `b`, in the order of `a`.
pub open spec fn common(a: Seq<Seq<char>>, b: Seq<Seq<char>>) -> Seq<Seq<char>>
    decreases a.len(),
{
    if a.len() == 0 {
        Seq::empty()
    } else if b.contains(a.last()) {
        common(a.drop_last(), b).push(a.last())
    } else {
        common(a.drop_last(), b)
    }
}

/// The running result after the result sets `rs`, in order: the first set,
/// then its intersection with each later one.
pub open spec fn running_after(rs: Seq<Seq<Seq<char>>>) -> Seq<Seq<char>>
    decreases rs.len(),
{
    if rs.len() == 0 {
        Seq::empty()
    } else if rs.len() == 1 {
        rs[0]
    } else {
        common(running_after(rs.drop_last()), rs.last())
    }
}

/// The letters collected from the markers of all patterns, in order.
pub open spec fn all_extracted(ps: Seq<String>) -> Seq<char>
    decreases ps.len(),
{
    if ps.len() == 0 {
        Seq::empty()
    } else {
        all_extracted(ps.drop_last()) + normalized(ps.last()@).1
    }
}

/// The message of the error for an invalid pattern.
pub open spec fn bad_pattern_message(p: Seq<char>) -> Seq<char> {
    "Incorrect pattern format: "@ + p
}

/// The error names the first invalid pattern.
pub open spec fn names_first_invalid(ps: Seq<String>, e: WordleQueryError) -> bool {
    match e {
        WordleQueryError::QueryError(m) => exists|i: int|
            0 <= i < ps.len() && !valid_pattern(#[trigger] ps[i]@) && (forall|k: int|
                0 <= k < i ==> valid_pattern(#[trigger] ps[k]@)) && m@ == bad_pattern_message(ps[i]@),
        _ => false,
    }
}

proof fn lemma_common_contains(a: Seq<Seq<char>>, b: Seq<Seq<char>>, w: Seq<char>)
    ensures
        common(a, b).contains(w) <==> a.contains(w) && b.contains(w),
    decreases a.len(),
{
    if a.len() > 0 {
        lemma_common_contains(a.drop_last(), b, w);
        let c = common(a.drop_last(), b);
        if a.contains(w) && !a.drop_last().contains(w) {
            let k = choose|k: int| 0 <= k < a.len() && a[k] == w;
            if k < a.len() - 1 {
                assert(a.drop_last()[k] == w);
            }
        }
        if a.drop_last().contains(w) {
            let k = choose|k: int| 0 <= k < a.drop_last().len() && a.drop_last()[k] == w;
            assert(a[k] == w);
        }
        if b.contains(a.last()) {
            assert(c.push(a.last()).last() == a.last());
            if c.push(a.last()).contains(w) && w != a.last() {
                let k = choose|k: int| 0 <= k < c.len() + 1 && c.push(a.last())[k] == w;
                assert(c[k] == w);
            }
            if c.contains(w) {
                let k = choose|k: int| 0 <= k < c.len() && c[k] == w;
                assert(c.push(a.last())[k] == w);
            }
        }
    }
}

/// The intersection law: a word survives a run of patterns exactly when
/// every pattern's result holds it. So one empty result leaves the running
/// result empty, and once it is empty no later result can refill it.
pub proof fn intersection_law(rs: Seq<Seq<Seq<char>>>, later: Seq<Seq<Seq<char>>>, w: Seq<char>)
    requires
        rs.len() > 0,
    ensures
        running_after(rs).contains(w) <==> forall|i: int| 0 <= i < rs.len() ==> #[trigger] rs[i].contains(w),
        (exists|i: int| 0 <= i < rs.len() && #[trigger] rs[i].len() == 0) ==> running_after(rs).len() == 0,
        running_after(rs).len() == 0 ==> running_after(rs + later).len() == 0,
    decreases rs.len() + later.len(),
{
    lemma_running_contains(rs, w);
    if exists|i: int| 0 <= i < rs.len() && #[trigger] rs[i].len() == 0 {
        let i = choose|i: int| 0 <= i < rs.len() && #[trigger] rs[i].len() == 0;
        if running_after(rs).len() > 0 {
            let v = running_after(rs)[0];
            assert(running_after(rs).contains(v));
            lemma_running_contains(rs, v);
            assert(rs[i].contains(v));
        }
    }
    if running_after(rs).len() == 0 && running_after(rs + later).len() > 0 {
        let v = running_after(rs + later)[0];
        assert(running_after(rs + later).contains(v));
        lemma_running_contains(rs + later, v);
        assert forall|i: int| 0 <= i < rs.len() implies #[trigger] rs[i].contains(v) by {
            assert((rs + later)[i] == rs[i]);
        }
        lemma_running_contains(rs, v);
    }
}

proof fn lemma_running_contains(rs: Seq<Seq<Seq<char>>>, w: Seq<char>)
    requires
        rs.len() > 0,
    ensures
        running_after(rs).contains(w) <==> forall|i: int| 0 <= i < rs.len() ==> #[trigger] rs[i].contains(w),
    decreases rs.len(),
{
    if rs.len() > 1 {
        lemma_running_contains(rs.drop_last(), w);
        lemma_common_contains(running_after(rs.drop_last()), rs.last(), w);
        if forall|i: int| 0 <= i < rs.drop_last().len() ==> #[trigger] rs.drop_last()[i].contains(w) {
            if rs.last().contains(w) {
                assert forall|i: int| 0 <= i < rs.len() implies #[trigger] rs[i].contains(w) by {
                    if i < rs.len() - 1 {
                        assert(rs.drop_last()[i] == rs[i]);
                    }
                }
            }
        } else {
            let i = choose|i: int| 0 <= i < rs.drop_last().len() && !#[trigger] rs.drop_last()[i].contains(w);
            assert(rs[i] == rs.drop_last()[i]);
        }
        if forall|i: int| 0 <= i < rs.len() ==> #[trigger] rs[i].contains(w) {
            assert forall|i: int| 0 <= i < rs.drop_last().len() implies #[trigger] rs.drop_last()[i].contains(w) by {
                assert(rs.drop_last()[i] == rs[i]);
            }
            assert(rs[rs.len() - 1].contains(w));
        }
    }
}

/// The words of `acc` that also occur in `words`, in the order of `acc`.
pub fn intersect_words(acc: &Vec<String>, words: &Vec<String>) -> (r: Vec<String>)
    ensures
        texts(r@) == common(texts(acc@), texts(words@)),
{
    let mut out: Vec<String> = Vec::new();
    let mut i: usize = 0;
    while i < acc.len()
        invariant
            i <= acc@.len(),
            texts(out@) == common(texts(acc@.take(i as int)), texts(words@)),
        decreases acc@.len() - i,
    {
        assert(texts(acc@.take(i + 1)).drop_last() == texts(acc@.take(i as int)));
        assert(texts(acc@.take(i + 1)).last() == acc@[i as int]@);
        let mut found = false;
        let mut j: usize = 0;
        while j < words.len()
            invariant
                i < acc@.len(),
                j <= words@.len(),
                found <==> texts(words@.take(j as int)).contains(acc@[i as int]@),
            decreases words@.len() - j,
        {
            let ghost tj = texts(words@.take(j as int));
            let ghost tj1 = texts(words@.take(j + 1));
            let ghost x = acc@[i as int]@;
            assert(tj1 == tj.push(words@[j as int]@));
            if words[j] == acc[i] {
                found = true;
                assert(tj1[j as int] == x);
            } else {
                proof {
                    if found {
                        let k = choose|k: int| 0 <= k < tj.len() && #[trigger] tj[k] == x;
                        assert(tj1[k] == x);
                    }
                    if tj1.contains(x) {
                        let k = choose|k: int| 0 <= k < tj1.len() && #[trigger] tj1[k] == x;
                        assert(tj[k] == x);
                    }
                }
            }
            j = j + 1;
        }
        assert(words@.take(words@.len() as int) == words@);
        if found {
            out.push(acc[i].clone());
            assert(texts(out@) =~= common(texts(acc@.take(i as int)), texts(words@)).push(acc@[i as int]@));
        }
        i = i + 1;
    }
    assert(acc@.take(acc@.len() as int) == acc@);
    out
}

/// Validates every pattern, then builds one query per pattern: its canonical
/// form, with the rejects of all markers and of `rejects` together. Fails
/// with the first invalid pattern, before any query is built.
pub fn prepare_queries(patterns: &Vec<String>, rejects: &str) -> (r: Result<Vec<WordleQuery>, WordleQueryError>)
    ensures
        r is Ok <==> forall|i: int| 0 <= i < patterns@.len() ==> valid_pattern(#[trigger] patterns@[i]@),
        r matches Err(e) ==> names_first_invalid(patterns@, e),
        r matches Ok(qs) ==> qs@.len() == patterns@.len() && forall|i: int| 0 <= i < qs@.len() ==> {
            &&& (#[trigger] qs@[i]).pattern@ == normalized(patterns@[i]@).0
            &&& qs@[i].rejects@ == rejects_of(all_extracted(patterns@) + rejects@)
        },
{
    let mut i: usize = 0;
    while i < patterns.len()
        invariant
            i <= patterns@.len(),
            forall|k: int| 0 <= k < i ==> valid_pattern(#[trigger] patterns@[k]@),
        decreases patterns@.len() - i,
    {
        if !is_valid_pattern(patterns[i].as_str()) {
            let mut m = String::from_str("Incorrect pattern format: ");
            m.append(patterns[i].as_str());
            return Err(WordleQueryError::QueryError(m));
        }
        i = i + 1;
    }
    let mut canonical: Vec<String> = Vec::new();
    let mut extracted: Vec<char> = Vec::new();
    let mut i: usize = 0;
    while i < patterns.len()
        invariant
            i <= patterns@.len(),
            canonical@.len() == i,
            forall|k: int| 0 <= k < i ==> (#[trigger] canonical@[k])@ == normalized(patterns@[k]@).0,
            extracted@ == all_extracted(patterns@.take(i as int)),
        decreases patterns@.len() - i,
    {
        let (c, found) = parse_pattern(patterns[i].as_str());
        assert(patterns@.take(i + 1).drop_last() == patterns@.take(i as int));
        let ghost before = extracted@;
        let mut k: usize = 0;
        while k < found.len()
            invariant
                k <= found@.len(),
                extracted@ == before + found@.take(k as int),
            decreases found@.len() - k,
        {
            extracted.push(found[k]);
            assert(found@.take(k + 1) == found@.take(k as int).push(found@[k as int]));
            k = k + 1;
        }
        assert(found@.take(found@.len() as int) == found@);
        canonical.push(c);
        i = i + 1;
    }
    assert(patterns@.take(patterns@.len() as int) == patterns@);
    let given = chars_of(rejects);
    let mut k: usize = 0;
    let ghost before = extracted@;
    while k < given.len()
        invariant
            k <= given@.len(),
            extracted@ == before + given@.take(k as int),
        decreases given@.len() - k,
    {
        extracted.push(given[k]);
        assert(given@.take(k + 1) == given@.take(k as int).push(given@[k as int]));
        k = k + 1;
    }
    assert(given@.take(given@.len() as int) == given@);
    let all = string_of(&extracted);
    let mut queries: Vec<WordleQuery> = Vec::new();
    let mut i: usize = 0;
    while i < canonical.len()
        invariant
            i <= canonical@.len(),
            canonical@.len() == patterns@.len(),
            forall|k: int| 0 <= k < canonical@.len() ==> (#[trigger] canonical@[k])@ == normalized(patterns@[k]@).0,
            all@ == all_extracted(patterns@) + rejects@,
            queries@.len() == i,
            forall|k: int| 0 <= k < i ==> {
                &&& (#[trigger] queries@[k]).pattern@ == normalized(patterns@[k]@).0
                &&& queries@[k].rejects@ == rejects_of(all_extracted(patterns@) + rejects@)
            },
        decreases canonical@.len() - i,
    {
        let q = WordleQuery { pattern: canonical[i].clone(), rejects: process_rejects(all.as_str()) };
        queries.push(q);
        i = i + 1;
    }
    Ok(queries)
}

/// A search in progress over several queries. After `next` queries, `running`
/// holds the intersection of their (filtered) results.
pub struct Search {
    pub queries: Vec<WordleQuery>,
    pub next: usize,
    pub running: Vec<String>,
    /// The filtered result of each query run so far.
    pub results: Ghost<Seq<Seq<Seq<char>>>>,
}

impl Search {
    /// The search invariant.
    pub open spec fn wf(&self) -> bool {
        &&& self.next <= self.queries@.len()
        &&& self.results@.len() == self.next
        &&& self.next > 0 ==> texts(self.running@) == running_after(self.results@)
        &&& self.next == 0 ==> self.running@.len() == 0
        &&& forall|i: int| 0 <= i < self.running@.len() ==> (#[trigger] self.running@[i])@.len() == 5
    }

    /// Whether the search is over: all queries ran, or the running result is empty.
    pub open spec fn done(&self) -> bool {
        self.next == self.queries@.len() || (self.next > 0 && self.running@.len() == 0)
    }

    /// A search over `queries`, none of them run yet.
    pub fn new(queries: Vec<WordleQuery>) -> (r: Search)
        ensures
            r.wf(),
            r.next == 0,
            r.queries@ == queries@,
    {
        Search { queries, next: 0, running: Vec::new(), results: Ghost(Seq::empty()) }
    }

    /// The SQL text of the next query to run, or `None` when the search is over.
    pub fn next_query(&self) -> (r: Option<String>)
        requires
            self.wf(),
        ensures
            self.done() <==> r is None,
            r matches Some(s) ==> s@ == query_text(
                self.queries@[self.next as int].pattern@,
                self.queries@[self.next as int].rejects@,
            ),
    {
        if self.next == self.queries.len() || (self.next > 0 && self.running.len() == 0) {
            None
        } else {
            Some(self.queries[self.next].build_query())
        }
    }

    /// Takes the words the corpus returned for the next query: keeps those
    /// that satisfy it and intersects them with the running result.
    pub fn record(&mut self, words: Vec<String>)
        requires
            old(self).wf(),
            !old(self).done(),
        ensures
            final(self).wf(),
            final(self).queries == old(self).queries,
            final(self).next == old(self).next + 1,
            final(self).results@ == old(self).results@.push(
                texts(keep_matching(
                    old(self).queries@[old(self).next as int].pattern@,
                    old(self).queries@[old(self).next as int].rejects@,
                    words@,
                )),
            ),
    {
        let count = self.queries.len();
        assert(self.next < count);
        let q = &self.queries[self.next];
        let kept = q.filter_words(&words);
        let ghost p = q.pattern@;
        let ghost rj = q.rejects@;
        proof {
            lemma_keep_matching_len(p, rj, words@);
        }
        let ghost old_results = self.results@;
        let ghost kept_texts = texts(kept@);
        if self.next == 0 {
            self.running = kept;
            assert(old_results.push(kept_texts).len() == 1);
        } else {
            let joined = intersect_words(&self.running, &kept);
            proof {
                assert(old_results.push(kept_texts).drop_last() == old_results);
            }
            assert forall|i: int| 0 <= i < joined@.len() implies (#[trigger] joined@[i])@.len() == 5 by {
                assert(texts(joined@)[i] == joined@[i]@);
                lemma_common_contains(texts(self.running@), kept_texts, joined@[i]@);
                assert(texts(joined@).contains(joined@[i]@));
                let k = choose|k: int| 0 <= k < texts(self.running@).len() && texts(self.running@)[k] == joined@[i]@;
                assert(self.running@[k]@ == joined@[i]@);
            }
            self.running = joined;
        }
        self.results = Ghost(old_results.push(kept_texts));
        self.next = self.next + 1;
    }

    /// Ranks the running result by descending score, keeping at most `limit`
    /// words (all when `limit` is zero or less).
    pub fn finish(self, limit: i64) -> (r: Vec<Wordle>)
        requires
            self.wf(),
        ensures
            exists|full: Seq<(Seq<char>, u64)>|
                {
                    &&& full.to_multiset() == scored_all(self.running@).to_multiset()
                    &&& sorted_desc(full)
                    &&& views(r@) == limited(full, limit as int)
                },
    {
        rank_words(self.running, limit)
    }
}

proof fn lemma_keep_matching_len(p: Seq<char>, r: Seq<char>, ws: Seq<String>)
    ensures
        forall|i: int| 0 <= i < keep_matching(p, r, ws).len() ==> word_matches(p, r, (#[trigger] keep_matching(p, r, ws)[i])@),
    decreases ws.len(),
{
    if ws.len() > 0 {
        lemma_keep_matching_len(p, r, ws.drop_last());
        let k0 = keep_matching(p, r, ws.drop_last());
        if word_matches(p, r, ws.last()@) {
            assert forall|i: int| 0 <= i < k0.len() + 1 implies word_matches(p, r, (#[trigger] k0.push(ws.last())[i])@) by {
                if i < k0.len() {
                    assert(k0.push(ws.last())[i] == k0[i]);
                }
            }
        }
    }
}

} // verus!

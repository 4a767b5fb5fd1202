//! Letter-frequency scores and the ranking of candidate words.
//!
//! Weights are kept in hundredths (`о` weighs 10.97, stored as 1097). The
//! score of a word multiplies the weights of its letters from the first one
//! on and stops at the first letter without a weight.
use vstd::prelude::*;
use vstd::multiset::Multiset;

use crate::letters::{replace_yo_chars, replace_yo_in};
use crate::text::{chars_of, string_of};

verus! {

/// The relative frequency of each Russian letter, in hundredths.
pub open spec fn freq_table() -> Seq<(char, u32)> {
    seq![
        ('о', 1097), ('е', 845), ('а', 801), ('и', 735), ('н', 670), ('т', 626),
        ('с', 547), ('л', 497), ('в', 453), ('р', 440), ('к', 349), ('м', 321),
        ('д', 298), ('п', 281), ('ы', 210), ('у', 208), ('б', 192), ('я', 179),
        ('ь', 174), ('г', 170), ('з', 165), ('ч', 144), ('й', 121), ('ж', 101),
        ('х', 95), ('ш', 72), ('ю', 49), ('ц', 48), ('э', 32), ('щ', 31),
        ('ф', 26), ('ъ', 4),
    ]
}

/// The weight a table gives a letter; a later entry overrides an earlier one.
pub open spec fn lookup(t: Seq<(char, u32)>, c: char) -> Option<u32>
    decreases t.len(),
{
    if t.len() == 0 {
        None
    } else if t.last().0 == c {
        Some(t.last().1)
    } else {
        lookup(t.drop_last(), c)
    }
}

/// The weights a score multiplies: one per letter from the start, up to the
/// first letter the table does not weigh.
pub open spec fn score_factors(s: Seq<char>, t: Seq<(char, u32)>) -> Seq<u32>
    decreases s.len(),
{
    if s.len() == 0 {
        Seq::empty()
    } else {
        match lookup(t, s[0]) {
            Some(w) => seq![w] + score_factors(s.skip(1), t),
            None => Seq::empty(),
        }
    }
}

/// The product of a sequence of weights.
pub open spec fn product(f: Seq<u32>) -> int
    decreases f.len(),
{
    if f.len() == 0 {
        1
    } else {
        product(f.drop_last()) * f.last()
    }
}

/// `100` to the power `n`: the scale of a product of `n` weights in hundredths.
pub open spec fn hundred_pow(n: nat) -> int
    decreases n,
{
    if n == 0 {
        1
    } else {
        hundred_pow((n - 1) as nat) * 100
    }
}

/// The weight of slot `j` of a five-letter score: a factor, or 1.00 past the factors.
pub open spec fn slot_weight(f: Seq<u32>, j: int) -> int {
    if j < f.len() {
        f[j] as int
    } else {
        100
    }
}

/// The product of the first `i` slot weights.
pub open spec fn scaled_upto(f: Seq<u32>, i: nat) -> int
    decreases i,
{
    if i == 0 {
        1
    } else {
        scaled_upto(f, (i - 1) as nat) * slot_weight(f, i - 1)
    }
}

/// The score of a word of at most five letters, scaled by 10^10 so that it is
/// an exact integer: the score times `100^5`.
pub open spec fn word_score(s: Seq<char>) -> int {
    scaled_upto(score_factors(s, freq_table()), 5)
}

/// A candidate word and its score, scaled by 10^10.
#[derive(Debug)]
pub struct Wordle {
    pub lemma: String,
    pub score: u64,
}

impl View for Wordle {
    type V = (Seq<char>, u64);

    open spec fn view(&self) -> (Seq<char>, u64) {
        (self.lemma@, self.score)
    }
}

/// The word as ranked: `ё` folded to `е`, then scored.
pub open spec fn scored(w: Seq<char>) -> (Seq<char>, u64) {
    (replace_yo_in(w), word_score(replace_yo_in(w)) as u64)
}

/// Scores in descending order.
pub open spec fn sorted_desc(s: Seq<(Seq<char>, u64)>) -> bool {
    forall|i: int, j: int| 0 <= i < j < s.len() ==> s[i].1 >= s[j].1
}

/// At most `limit` leading entries; a limit of zero or less keeps all.
pub open spec fn limited<T>(s: Seq<T>, limit: int) -> Seq<T> {
    if limit <= 0 || s.len() <= limit {
        s
    } else {
        s.take(limit)
    }
}

/// Each word as ranked.
pub open spec fn scored_all(ws: Seq<String>) -> Seq<(Seq<char>, u64)> {
    ws.map_values(|w: String| scored(w@))
}

pub open spec fn views(s: Seq<Wordle>) -> Seq<(Seq<char>, u64)> {
    s.map_values(|w: Wordle| w@)
}

proof fn lemma_lookup_bound(t: Seq<(char, u32)>, c: char, b: u32)
    requires
        forall|k: int| 0 <= k < t.len() ==> #[trigger] t[k].1 <= b,
    ensures
        lookup(t, c) matches Some(w) ==> w <= b,
    decreases t.len(),
{
    if t.len() > 0 && t.last().0 != c {
        lemma_lookup_bound(t.drop_last(), c, b);
    }
}

proof fn lemma_factors_bound(s: Seq<char>, t: Seq<(char, u32)>, b: u32)
    requires
        forall|k: int| 0 <= k < t.len() ==> #[trigger] t[k].1 <= b,
    ensures
        score_factors(s, t).len() <= s.len(),
        forall|k: int| 0 <= k < score_factors(s, t).len() ==> #[trigger] score_factors(s, t)[k] <= b,
    decreases s.len(),
{
    if s.len() > 0 {
        lemma_lookup_bound(t, s[0], b);
        lemma_factors_bound(s.skip(1), t, b);
    }
}

impl Wordle {
    /// The word with every `ё` replaced by `е`.
    pub fn replace_yo(lemma: &str) -> (r: String)
        ensures
            r@ == replace_yo_in(lemma@),
    {
        string_of(&replace_yo_chars(&chars_of(lemma)))
    }

    /// The letter-frequency table, weights in hundredths.
    pub fn init_letter_freqs() -> (r: Vec<(char, u32)>)
        ensures
            r@ == freq_table(),
    {
        let r = vec![
            ('о', 1097), ('е', 845), ('а', 801), ('и', 735), ('н', 670), ('т', 626),
            ('с', 547), ('л', 497), ('в', 453), ('р', 440), ('к', 349), ('м', 321),
            ('д', 298), ('п', 281), ('ы', 210), ('у', 208), ('б', 192), ('я', 179),
            ('ь', 174), ('г', 170), ('з', 165), ('ч', 144), ('й', 121), ('ж', 101),
            ('х', 95), ('ш', 72), ('ю', 49), ('ц', 48), ('э', 32), ('щ', 31),
            ('ф', 26), ('ъ', 4),
        ];
        assert(r@ == freq_table());
        r
    }

    /// The weights (in hundredths) that the score of `lemma` multiplies, once
    /// `ё` is folded to `е`: one per letter from the start, stopping at the
    /// first letter that `freqs` does not weigh. The score is their product
    /// over `100^n`.
    pub fn calculate_score(lemma: &str, freqs: &Vec<(char, u32)>) -> (r: Vec<u32>)
        ensures
            r@ == score_factors(replace_yo_in(lemma@), freqs@),
    {
        let s = replace_yo_chars(&chars_of(lemma));
        let mut out: Vec<u32> = Vec::new();
        let mut i: usize = 0;
        assert(s@.skip(0) == s@);
        assert(Seq::<u32>::empty() + score_factors(s@, freqs@) == score_factors(s@, freqs@));
        while i < s.len()
            invariant
                i <= s@.len(),
                s@ == replace_yo_in(lemma@),
                out@ + score_factors(s@.skip(i as int), freqs@) == score_factors(s@, freqs@),
            decreases s@.len() - i,
        {
            let ghost rest = s@.skip(i as int);
            assert(rest[0] == s@[i as int]);
            match weight_in(freqs, s[i]) {
                Some(w) => {
                    assert(rest.skip(1) == s@.skip(i + 1));
                    assert(out@ + (seq![w] + score_factors(rest.skip(1), freqs@)) == out@.push(w)
                        + score_factors(rest.skip(1), freqs@));
                    out.push(w);
                },
                None => {
                    assert(out@ + Seq::<u32>::empty() == out@);
                    return out;
                },
            }
            i = i + 1;
        }
        assert(out@ + Seq::<u32>::empty() == out@);
        out
    }

    /// A candidate: `ё` folded to `е`, scored with the frequency table.
    pub fn new(lemma: String) -> (r: Wordle)
        requires
            lemma@.len() <= 5,
        ensures
            r@ == scored(lemma@),
            r.lemma@ == replace_yo_in(lemma@),
            r.score as int == word_score(replace_yo_in(lemma@)),
    {
        let ghost given = lemma@;
        let lemma = Wordle::replace_yo(lemma.as_str());
        let freqs = Wordle::init_letter_freqs();
        let f = Wordle::calculate_score(lemma.as_str(), &freqs);
        proof {
            lemma_replace_yo_idempotent(given);
            assert(f@ == score_factors(lemma@, freq_table()));
            assert forall|k: int| 0 <= k < freqs@.len() implies #[trigger] freqs@[k].1 <= 1100 by {
            }
            lemma_factors_bound(lemma@, freqs@, 1100);
            assert(score_factors(lemma@, freqs@) == f@);
        }
        proof {
            assert(scaled_bound(0) == 1);
            assert(scaled_bound(1) == 1100);
            assert(scaled_bound(2) == 1210000);
            assert(scaled_bound(3) == 1331000000);
            assert(scaled_bound(4) == 1464100000000);
            assert(scaled_bound(5) == 1610510000000000);
        }
        let mut score: u64 = 1;
        let mut i: usize = 0;
        while i < 5
            invariant
                i <= 5,
                f@ == score_factors(lemma@, freq_table()),
                forall|k: int| 0 <= k < f@.len() ==> #[trigger] f@[k] <= 1100,
                score == scaled_upto(f@, i as nat),
                score <= scaled_bound(i as nat),
                scaled_bound(1) == 1100,
                scaled_bound(2) == 1210000,
                scaled_bound(3) == 1331000000,
                scaled_bound(4) == 1464100000000,
                scaled_bound(5) == 1610510000000000,
            decreases 5 - i,
        {
            let w: u64 = if i < f.len() { f[i] as u64 } else { 100 };
            assert(w <= 1100);
            assert(score * w <= scaled_bound(i as nat) * 1100) by (nonlinear_arith)
                requires
                    score <= scaled_bound(i as nat),
                    w <= 1100,
                    0 <= score,
                    0 <= w,
            ;
            assert(scaled_bound((i + 1) as nat) == scaled_bound(i as nat) * 1100);
            score = score * w;
            i = i + 1;
        }
        Wordle { lemma, score }
    }
}

proof fn lemma_replace_yo_idempotent(s: Seq<char>)
    ensures
        replace_yo_in(replace_yo_in(s)) == replace_yo_in(s),
{
    assert(replace_yo_in(replace_yo_in(s)) =~= replace_yo_in(s));
}

/// `1100^i`, a bound on the product of `i` weights of the table.
spec fn scaled_bound(i: nat) -> int
    decreases i,
{
    if i == 0 {
        1
    } else {
        scaled_bound((i - 1) as nat) * 1100
    }
}

/// The weight of `c` in `freqs`, the last entry for it counting.
fn weight_in(freqs: &Vec<(char, u32)>, c: char) -> (r: Option<u32>)
    ensures
        r == lookup(freqs@, c),
{
    let mut found: Option<u32> = None;
    let mut i: usize = 0;
    while i < freqs.len()
        invariant
            i <= freqs@.len(),
            found == lookup(freqs@.take(i as int), c),
        decreases freqs@.len() - i,
    {
        assert(freqs@.take(i + 1).drop_last() == freqs@.take(i as int));
        let (d, w) = freqs[i];
        if d == c {
            found = Some(w);
        }
        i = i + 1;
    }
    assert(freqs@.take(freqs@.len() as int) == freqs@);
    found
}

/// Candidates sorted by descending score. The order among equal scores is
/// not part of the contract.
pub fn sort_by_score(v: Vec<Wordle>) -> (r: Vec<Wordle>)
    ensures
        sorted_desc(views(r@)),
        views(r@).to_multiset() == views(v@).to_multiset(),
{
    broadcast use vstd::seq_lib::group_to_multiset_ensures;

    let ghost all = views(v@).to_multiset();
    let mut rest = v;
    let mut out: Vec<Wordle> = Vec::new();
    assert(views(out@).to_multiset() =~= Multiset::empty());
    assert(views(out@).to_multiset().add(views(rest@).to_multiset()) =~= all);
    while rest.len() > 0
        invariant
            sorted_desc(views(out@)),
            views(out@).to_multiset().add(views(rest@).to_multiset()) == all,
        decreases rest@.len(),
    {
        let ghost old_rest = views(rest@);
        let ghost old_out = views(out@);
        let x = rest.remove(0);
        assert(views(rest@) =~= old_rest.remove(0));
        assert(old_rest[0] == x@);
        let mut pos: usize = 0;
        while pos < out.len() && out[pos].score >= x.score
            invariant
                pos <= out@.len(),
                views(out@) == old_out,
                forall|k: int| 0 <= k < pos ==> #[trigger] out@[k].score >= x.score,
            decreases out@.len() - pos,
        {
            pos = pos + 1;
        }
        let ghost xv = x@;
        out.insert(pos, x);
        assert(views(out@) =~= old_out.insert(pos as int, xv));
        assert(views(out@).remove(pos as int) =~= old_out);
        assert(views(out@)[pos as int] == xv);
        assert(views(out@).remove(pos as int).to_multiset() == old_out.to_multiset());
        let ghost ns = views(out@);
        proof {
            ns.to_multiset_ensures();
            old_rest.to_multiset_ensures();
        }
        assert(ns.contains(xv));
        assert(ns.to_multiset().count(xv) > 0);
        assert(views(out@).to_multiset() =~= old_out.to_multiset().insert(xv));
        assert(old_rest.remove(0).to_multiset() == old_rest.to_multiset().remove(xv));
        assert(old_rest.contains(xv));
        assert(old_rest.to_multiset().count(xv) > 0);
        assert(views(out@).to_multiset().add(views(rest@).to_multiset()) =~= all);
        assert forall|i: int, j: int| 0 <= i < j < views(out@).len() implies views(out@)[i].1
            >= views(out@)[j].1 by {
            if j < pos {
            } else if j == pos {
                assert(old_out[i].1 >= xv.1);
            } else if i < pos {
            } else if i == pos {
                assert(old_out[pos as int].1 < xv.1);
                assert(old_out[pos as int].1 >= old_out[j - 1].1 || pos as int == j - 1);
            } else {
            }
        }
    }
    assert(views(rest@).to_multiset() =~= Multiset::empty());
    assert(views(out@).to_multiset() =~= all);
    out
}

/// Keeps at most `limit` leading candidates; a limit of zero or less keeps all.
pub fn apply_limit(v: Vec<Wordle>, limit: i64) -> (r: Vec<Wordle>)
    ensures
        views(r@) == limited(views(v@), limit as int),
{
    let ghost before = v@;
    let mut v = v;
    let n: usize = v.len();
    if limit > 0 && (limit as u64) < (n as u64) {
        v.truncate(limit as usize);
        assert(views(v@) =~= views(before).take(limit as int));
    }
    v
}

/// Scores the words, sorts them by descending score and keeps at most
/// `limit` of them (all when `limit` is zero or less).
pub fn rank_words(words: Vec<String>, limit: i64) -> (r: Vec<Wordle>)
    requires
        forall|i: int| 0 <= i < words@.len() ==> (#[trigger] words@[i])@.len() <= 5,
    ensures
        exists|full: Seq<(Seq<char>, u64)>|
            {
                &&& full.to_multiset() == scored_all(words@).to_multiset()
                &&& sorted_desc(full)
                &&& views(r@) == limited(full, limit as int)
            },
        limit <= 0 || words@.len() <= limit ==> r@.len() == words@.len(),
        0 < limit < words@.len() ==> r@.len() == limit,
        sorted_desc(views(r@)),
{
    let mut candidates: Vec<Wordle> = Vec::new();
    let mut i: usize = 0;
    while i < words.len()
        invariant
            i <= words@.len(),
            forall|k: int| 0 <= k < words@.len() ==> (#[trigger] words@[k])@.len() <= 5,
            views(candidates@) == scored_all(words@.take(i as int)),
        decreases words@.len() - i,
    {
        let c = Wordle::new(words[i].clone());
        candidates.push(c);
        assert(words@.take(i + 1) == words@.take(i as int).push(words@[i as int]));
        assert(scored_all(words@.take(i + 1)) =~= scored_all(words@.take(i as int)).push(
            scored(words@[i as int]@),
        ));
        assert(views(candidates@) =~= scored_all(words@.take(i + 1)));
        i = i + 1;
    }
    assert(words@.take(words@.len() as int) == words@);
    let sorted = sort_by_score(candidates);
    let ghost full = views(sorted@);
    let r = apply_limit(sorted, limit);
    assert(full.to_multiset() == scored_all(words@).to_multiset());
    proof {
        full.to_multiset_ensures();
        scored_all(words@).to_multiset_ensures();
        assert(full.len() == words@.len());
        limit_keeps_highest(full, limit as int);
    }
    r
}

/// With every weight at 1.00 the score is exactly 1: the product of `n`
/// weights of 100 hundredths is `100^n`.
pub proof fn uniform_weights_give_unit_score(f: Seq<u32>)
    requires
        forall|i: int| 0 <= i < f.len() ==> #[trigger] f[i] == 100,
    ensures
        product(f) == hundred_pow(f.len()),
    decreases f.len(),
{
    if f.len() > 0 {
        uniform_weights_give_unit_score(f.drop_last());
    }
}

/// A positive limit below the number of candidates keeps exactly that many,
/// and none left out scores higher than one kept; any other limit keeps all.
pub proof fn limit_keeps_highest(s: Seq<(Seq<char>, u64)>, limit: int)
    requires
        sorted_desc(s),
    ensures
        limit <= 0 || s.len() <= limit ==> limited(s, limit) == s,
        0 < limit < s.len() ==> {
            &&& limited(s, limit).len() == limit
            &&& limited(s, limit) == s.take(limit)
            &&& forall|i: int, j: int|
                0 <= i < limit <= j < s.len() ==> #[trigger] s[i].1 >= #[trigger] s[j].1
        },
{
}

} // verus!

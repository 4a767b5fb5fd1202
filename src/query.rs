//! A validated query: its SQL text for the word corpus and the same
//! predicate as an in-memory filter.
use vstd::prelude::*;

use crate::letters::{fold_all, fold_letter, letter_fold, process_rejects, rejects_of};
use crate::pattern::{cyrillic_marks, is_valid_pattern, rewrite, strip_markers, valid_pattern};
use crate::text::{chars_of, is_lower, is_upper, lower_char, lowercase_char, lowercase_of, push_char, upper_char};

verus! {

#[verifier::external_type_specification]
#[verifier::external_body]
pub struct ExSqliteError(rusqlite::Error);

/// Failures of building or running a query.
#[derive(Debug)]
pub enum WordleQueryError {
    DatabaseError(rusqlite::Error),
    QueryError(String),
    InvalidRegexPattern(String),
}

impl From<rusqlite::Error> for WordleQueryError {
    fn from(e: rusqlite::Error) -> (r: WordleQueryError) {
        WordleQueryError::DatabaseError(e)
    }
}

impl vstd::std_specs::convert::FromSpecImpl<rusqlite::Error> for WordleQueryError {
    open spec fn obeys_from_spec() -> bool {
        true
    }

    open spec fn from_spec(e: rusqlite::Error) -> WordleQueryError {
        WordleQueryError::DatabaseError(e)
    }
}

/// The message of the error for a pattern of the wrong length.
pub open spec fn invalid_pattern_message() -> Seq<char> {
    "Pattern must contain exactly 5 Cyrillic (or *) characters."@
}

/// A pattern and the letters the word must not contain.
///
/// In the pattern `*` is a wildcard, an uppercase letter is confirmed at its
/// position and a lowercase letter is present in the word but not there.
#[derive(Debug)]
pub struct WordleQuery {
    pub pattern: String,
    pub rejects: Vec<char>,
}

/// A lowercase letter of the Russian alphabet from `а` to `я`.
pub open spec fn is_lower_cyrillic(c: char) -> bool {
    ('а' as u32) <= (c as u32) <= ('я' as u32)
}

/// The constraint that pattern character `c` at 0-based position `i` puts on word `w`.
pub open spec fn slot_holds(c: char, i: int, w: Seq<char>) -> bool {
    if c == '*' {
        true
    } else if upper_char(c) {
        0 <= i < w.len() && seq![w[i]] == fold_all(lowercase_of(c))
    } else if lower_char(c) {
        w.contains(letter_fold(c)) && !(0 <= i < w.len() && w[i] == letter_fold(c))
    } else {
        true
    }
}

/// Whether word `w` satisfies pattern `p` and reject letters `r`.
pub open spec fn word_matches(p: Seq<char>, r: Seq<char>, w: Seq<char>) -> bool {
    &&& w.len() == 5
    &&& forall|i: int| 0 <= i < w.len() ==> is_lower_cyrillic(#[trigger] w[i])
    &&& !w.contains('-')
    &&& !w.contains('.')
    &&& forall|i: int| 0 <= i < p.len() ==> slot_holds(#[trigger] p[i], i, w)
    &&& forall|j: int| 0 <= j < r.len() ==> !w.contains(#[trigger] r[j])
}

/// The words of `ws` that satisfy the query, in their order.
pub open spec fn keep_matching(p: Seq<char>, r: Seq<char>, ws: Seq<String>) -> Seq<String>
    decreases ws.len(),
{
    if ws.len() == 0 {
        Seq::empty()
    } else if word_matches(p, r, ws.last()@) {
        keep_matching(p, r, ws.drop_last()).push(ws.last())
    } else {
        keep_matching(p, r, ws.drop_last())
    }
}

pub open spec fn digit_char(d: nat) -> char {
    if d == 0 { '0' } else if d == 1 { '1' } else if d == 2 { '2' } else if d == 3 { '3' }
    else if d == 4 { '4' } else if d == 5 { '5' } else if d == 6 { '6' } else if d == 7 { '7' }
    else if d == 8 { '8' } else { '9' }
}

/// The decimal digits of `n`.
pub open spec fn decimal(n: nat) -> Seq<char>
    decreases n,
{
    if n < 10 {
        seq![digit_char(n)]
    } else {
        decimal(n / 10) + seq![digit_char(n % 10)]
    }
}

pub open spec fn query_head() -> Seq<char> {
    "SELECT w.word FROM words w WHERE LENGTH(w.word) = 5 AND w.word GLOB '[а-я][а-я][а-я][а-я][а-я]' AND w.word NOT LIKE '%-%' AND w.word NOT LIKE '%.%'"@
}

/// The SQL condition for pattern character `c` at 1-based position `pos`.
pub open spec fn slot_clause(c: char, pos: nat) -> Seq<char> {
    if c == '*' {
        Seq::empty()
    } else if upper_char(c) {
        " AND SUBSTR(w.word, "@ + decimal(pos) + ", 1) = '"@ + fold_all(lowercase_of(c)) + "'"@
    } else if lower_char(c) {
        " AND w.word LIKE '%"@ + seq![letter_fold(c)] + "%' AND SUBSTR(w.word, "@ + decimal(pos)
            + ", 1) != '"@ + seq![letter_fold(c)] + "'"@
    } else {
        Seq::empty()
    }
}

pub open spec fn slot_clauses(p: Seq<char>) -> Seq<char>
    decreases p.len(),
{
    if p.len() == 0 {
        Seq::empty()
    } else {
        slot_clauses(p.drop_last()) + slot_clause(p.last(), p.len())
    }
}

/// A character as a literal inside a quoted LIKE pattern whose escape
/// character is a backslash: `%`, `_` and the backslash are escaped, a quote
/// is doubled.
pub open spec fn like_literal(c: char) -> Seq<char> {
    if c == '%' || c == '_' || c == '\\' {
        seq!['\\', c]
    } else if c == '\'' {
        seq!['\'', '\'']
    } else {
        seq![c]
    }
}

pub open spec fn reject_clauses(r: Seq<char>) -> Seq<char>
    decreases r.len(),
{
    if r.len() == 0 {
        Seq::empty()
    } else {
        reject_clauses(r.drop_last()) + " AND w.word NOT LIKE '%"@ + like_literal(r.last())
            + "%' ESCAPE '\\'"@
    }
}

/// The SQL text selecting the words of table `words` that satisfy the query.
pub open spec fn query_text(p: Seq<char>, r: Seq<char>) -> Seq<char> {
    query_head() + slot_clauses(p) + reject_clauses(r)
}

fn digit(d: usize) -> (r: char)
    requires
        d < 10,
    ensures
        r == digit_char(d as nat),
{
    if d == 0 { '0' } else if d == 1 { '1' } else if d == 2 { '2' } else if d == 3 { '3' }
    else if d == 4 { '4' } else if d == 5 { '5' } else if d == 6 { '6' } else if d == 7 { '7' }
    else if d == 8 { '8' } else { '9' }
}

fn push_decimal(s: &mut String, n: usize)
    ensures
        final(s)@ == old(s)@ + decimal(n as nat),
    decreases n,
{
    if n >= 10 {
        push_decimal(s, n / 10);
    }
    push_char(s, digit(n % 10));
}

fn push_like_literal(s: &mut String, c: char)
    ensures
        final(s)@ == old(s)@ + like_literal(c),
{
    if c == '%' || c == '_' || c == '\\' {
        push_char(s, '\\');
        push_char(s, c);
    } else if c == '\'' {
        push_char(s, '\'');
        push_char(s, '\'');
    } else {
        push_char(s, c);
    }
}

fn push_chars(s: &mut String, cs: &Vec<char>)
    ensures
        final(s)@ == old(s)@ + cs@,
{
    let mut i: usize = 0;
    while i < cs.len()
        invariant
            i <= cs@.len(),
            s@ == old(s)@ + cs@.take(i as int),
        decreases cs@.len() - i,
    {
        push_char(s, cs[i]);
        assert(cs@.take(i + 1) == cs@.take(i as int).push(cs@[i as int]));
        i = i + 1;
    }
    assert(cs@.take(cs@.len() as int) == cs@);
}

fn fold_chars(cs: &Vec<char>) -> (r: Vec<char>)
    ensures
        r@ == fold_all(cs@),
{
    let mut out: Vec<char> = Vec::new();
    let mut i: usize = 0;
    while i < cs.len()
        invariant
            i <= cs@.len(),
            out@ == fold_all(cs@.take(i as int)),
        decreases cs@.len() - i,
    {
        out.push(fold_letter(cs[i]));
        assert(cs@.take(i + 1) == cs@.take(i as int).push(cs@[i as int]));
        i = i + 1;
    }
    assert(cs@.take(cs@.len() as int) == cs@);
    out
}

fn contains_char(w: &Vec<char>, c: char) -> (r: bool)
    ensures
        r == w@.contains(c),
{
    let mut i: usize = 0;
    while i < w.len()
        invariant
            i <= w@.len(),
            forall|k: int| 0 <= k < i ==> w@[k] != c,
        decreases w@.len() - i,
    {
        if w[i] == c {
            assert(w@[i as int] == c);
            return true;
        }
        i = i + 1;
    }
    false
}

/// Whether pattern character `c` at 0-based position `i` allows word `w`.
fn slot_allows(c: char, i: usize, w: &Vec<char>) -> (r: bool)
    ensures
        r == slot_holds(c, i as int, w@),
{
    if c == '*' {
        true
    } else if is_upper(c) {
        let low = fold_chars(&lowercase_char(c));
        if i < w.len() && low.len() == 1 {
            assert(seq![w@[i as int]] == low@ <==> w@[i as int] == low@[0]) by {
                if w@[i as int] == low@[0] {
                    assert(seq![w@[i as int]] == low@);
                }
            }
            w[i] == low[0]
        } else {
            false
        }
    } else if is_lower(c) {
        let f = fold_letter(c);
        contains_char(w, f) && !(i < w.len() && w[i] == f)
    } else {
        true
    }
}

impl WordleQuery {
    /// A query for `pattern` and the comma-delimited reject letters `rejects`;
    /// fails when the normalized pattern is not five grapheme clusters long.
    pub fn new(pattern: &str, rejects: &str) -> (r: Result<WordleQuery, WordleQueryError>)
        ensures
            r is Ok <==> valid_pattern(pattern@),
            r matches Ok(q) ==> q.pattern@ == pattern@ && q.rejects@ == rejects_of(rejects@),
            r matches Err(e) ==> e matches WordleQueryError::QueryError(m) && m@
                == invalid_pattern_message(),
    {
        if !is_valid_pattern(pattern) {
            return Err(
                WordleQueryError::QueryError(
                    "Pattern must contain exactly 5 Cyrillic (or *) characters.".to_owned(),
                ),
            );
        }
        let rejects = process_rejects(rejects);
        Ok(WordleQuery { pattern: pattern.to_owned(), rejects })
    }

    /// Removes each marker from `pattern` (the two characters vanish) and
    /// returns the marked letters in order.
    pub fn extract_rejects(pattern: &mut String) -> (r: Result<Vec<char>, WordleQueryError>)
        ensures
            r matches Ok(v) && (final(pattern)@, v@) == rewrite(
                old(pattern)@,
                cyrillic_marks(old(pattern)@),
                Seq::empty(),
            ),
    {
        let (stripped, letters) = strip_markers(pattern.as_str());
        *pattern = stripped;
        Ok(letters)
    }

    /// The SQL query over table `words` (column `word`) for this pattern and these rejects.
    pub fn build_query(&self) -> (r: String)
        ensures
            r@ == query_text(self.pattern@, self.rejects@),
    {
        let mut query = String::from_str(
            "SELECT w.word FROM words w WHERE LENGTH(w.word) = 5 AND w.word GLOB '[а-я][а-я][а-я][а-я][а-я]' AND w.word NOT LIKE '%-%' AND w.word NOT LIKE '%.%'",
        );
        let p = chars_of(self.pattern.as_str());
        let mut i: usize = 0;
        while i < p.len()
            invariant
                i <= p@.len(),
                p@ == self.pattern@,
                query@ == query_head() + slot_clauses(p@.take(i as int)),
            decreases p@.len() - i,
        {
            let c = p[i];
            let ghost before = query@;
            assert(p@.take(i + 1).drop_last() == p@.take(i as int));
            if c == '*' {
            } else if is_upper(c) {
                query.append(" AND SUBSTR(w.word, ");
                push_decimal(&mut query, i + 1);
                query.append(", 1) = '");
                push_chars(&mut query, &fold_chars(&lowercase_char(c)));
                query.append("'");
            } else if is_lower(c) {
                let f = fold_letter(c);
                query.append(" AND w.word LIKE '%");
                push_char(&mut query, f);
                query.append("%' AND SUBSTR(w.word, ");
                push_decimal(&mut query, i + 1);
                query.append(", 1) != '");
                push_char(&mut query, f);
                query.append("'");
            }
            assert(query@ == before + slot_clause(c, (i + 1) as nat));
            i = i + 1;
        }
        assert(p@.take(p@.len() as int) == p@);
        let ghost head = query@;
        let mut j: usize = 0;
        while j < self.rejects.len()
            invariant
                j <= self.rejects@.len(),
                query@ == head + reject_clauses(self.rejects@.take(j as int)),
            decreases self.rejects@.len() - j,
        {
            assert(self.rejects@.take(j + 1).drop_last() == self.rejects@.take(j as int));
            query.append(" AND w.word NOT LIKE '%");
            push_like_literal(&mut query, self.rejects[j]);
            query.append("%' ESCAPE '\\'");
            j = j + 1;
        }
        assert(self.rejects@.take(self.rejects@.len() as int) == self.rejects@);
        query
    }

    /// Whether `word` satisfies the query: five lowercase Russian letters, the
    /// pattern's confirmed and present letters, and none of the rejects.
    pub fn matches_word(&self, word: &str) -> (r: bool)
        ensures
            r == word_matches(self.pattern@, self.rejects@, word@),
    {
        let w = chars_of(word);
        self.matches_chars(&w)
    }

    fn matches_chars(&self, w: &Vec<char>) -> (r: bool)
        ensures
            r == word_matches(self.pattern@, self.rejects@, w@),
    {
        if w.len() != 5 {
            return false;
        }
        let mut i: usize = 0;
        while i < w.len()
            invariant
                i <= w@.len(),
                forall|k: int| 0 <= k < i ==> is_lower_cyrillic(#[trigger] w@[k]),
            decreases w@.len() - i,
        {
            let c = w[i];
            if !(('а' as u32) <= (c as u32) && (c as u32) <= ('я' as u32)) {
                assert(!is_lower_cyrillic(w@[i as int]));
                assert(!word_matches(self.pattern@, self.rejects@, w@));
                return false;
            }
            i = i + 1;
        }
        assert(!w@.contains('-')) by {
            if w@.contains('-') {
                let k = choose|k: int| 0 <= k < w@.len() && w@[k] == '-';
                assert(is_lower_cyrillic(w@[k]));
            }
        }
        assert(!w@.contains('.')) by {
            if w@.contains('.') {
                let k = choose|k: int| 0 <= k < w@.len() && w@[k] == '.';
                assert(is_lower_cyrillic(w@[k]));
            }
        }
        let p = chars_of(self.pattern.as_str());
        let mut i: usize = 0;
        while i < p.len()
            invariant
                i <= p@.len(),
                p@ == self.pattern@,
                forall|k: int| 0 <= k < i ==> slot_holds(#[trigger] p@[k], k, w@),
            decreases p@.len() - i,
        {
            if !slot_allows(p[i], i, w) {
                assert(!slot_holds(p@[i as int], i as int, w@));
                assert(!word_matches(self.pattern@, self.rejects@, w@));
                return false;
            }
            i = i + 1;
        }
        let mut j: usize = 0;
        while j < self.rejects.len()
            invariant
                j <= self.rejects@.len(),
                forall|k: int| 0 <= k < j ==> !w@.contains(#[trigger] self.rejects@[k]),
            decreases self.rejects@.len() - j,
        {
            if contains_char(w, self.rejects[j]) {
                assert(w@.contains(self.rejects@[j as int]));
                assert(!word_matches(self.pattern@, self.rejects@, w@));
                return false;
            }
            j = j + 1;
        }
        true
    }

    /// The words of `words` that satisfy the query, in their order.
    pub fn filter_words(&self, words: &Vec<String>) -> (r: Vec<String>)
        ensures
            r@ == keep_matching(self.pattern@, self.rejects@, words@),
    {
        let mut out: Vec<String> = Vec::new();
        let mut i: usize = 0;
        while i < words.len()
            invariant
                i <= words@.len(),
                out@ == keep_matching(self.pattern@, self.rejects@, words@.take(i as int)),
            decreases words@.len() - i,
        {
            assert(words@.take(i + 1).drop_last() == words@.take(i as int));
            if self.matches_word(words[i].as_str()) {
                out.push(words[i].clone());
            }
            i = i + 1;
        }
        assert(words@.take(words@.len() as int) == words@);
        out
    }
}

} // verus!

//! The pattern notation: misplaced-letter markers and length validation.
//!
//! A marker is an underscore immediately followed by a Cyrillic letter. It
//! stands for one slot whose letter is known to be wrong there; the letter is
//! collected as a reject and the slot becomes a wildcard.
use vstd::prelude::*;

use crate::text::{chars_of, string_of};

verus! {

/// Whether a character belongs to the Cyrillic script, as `\p{Cyrillic}` decides.
pub uninterp spec fn in_cyrillic_script(c: char) -> bool;

/// The number of extended grapheme clusters of a text.
pub uninterp spec fn grapheme_count(s: Seq<char>) -> nat;

/// Relies on regex's `\p{Cyrillic}` class: whether the character is in the
/// Cyrillic script. That class holds no ASCII character, and holds the ranges
/// U+0400..=U+0484 and U+0487..=U+052F.
#[verifier::external_body]
fn is_cyrillic(c: char) -> (r: bool)
    ensures
        r == in_cyrillic_script(c),
        (c as u32) < 0x80 ==> !r,
        0x400 <= (c as u32) <= 0x484 ==> r,
        0x487 <= (c as u32) <= 0x52F ==> r,
{
    let mut buf = [0u8; 4];
    let re = regex::Regex::new(r"^\p{Cyrillic}$").unwrap();
    re.is_match(c.encode_utf8(&mut buf))
}

/// Relies on unicode-segmentation's `graphemes(s, true).count()`: the number of
/// extended grapheme clusters.
#[verifier::external_body]
fn count_graphemes(s: &str) -> (r: usize)
    ensures
        r == grapheme_count(s@),
{
    unicode_segmentation::UnicodeSegmentation::graphemes(s, true).count()
}

/// A marker starts at `i`: an underscore followed by a letter that `m` marks as Cyrillic.
pub open spec fn is_marker(s: Seq<char>, m: Seq<bool>, i: int) -> bool {
    0 <= i && i + 1 < s.len() && s[i] == '_' && m[i + 1]
}

/// One forward scan: each marker is replaced by `fill` and its letter collected,
/// every other character is kept. Returns the rewritten text and the letters.
pub open spec fn rewrite(s: Seq<char>, m: Seq<bool>, fill: Seq<char>) -> (Seq<char>, Seq<char>)
    decreases s.len(),
{
    if s.len() == 0 {
        (Seq::empty(), Seq::empty())
    } else if is_marker(s, m, 0) {
        let r = rewrite(s.skip(2), m.skip(2), fill);
        (fill + r.0, seq![s[1]] + r.1)
    } else {
        let r = rewrite(s.skip(1), m.skip(1), fill);
        (seq![s[0]] + r.0, r.1)
    }
}

/// Which characters of `s` are Cyrillic.
pub open spec fn cyrillic_marks(s: Seq<char>) -> Seq<bool> {
    s.map_values(|c: char| in_cyrillic_script(c))
}

/// The canonical pattern and extracted rejects: each marker becomes one `*`.
pub open spec fn normalized(s: Seq<char>) -> (Seq<char>, Seq<char>) {
    rewrite(s, cyrillic_marks(s), seq!['*'])
}

/// A pattern is valid when its canonical form has exactly five grapheme clusters.
pub open spec fn valid_pattern(s: Seq<char>) -> bool {
    grapheme_count(normalized(s).0) == 5
}

/// The scan of `rewrite`, with the Cyrillic marks given.
fn rewrite_marked(cs: &Vec<char>, marks: &Vec<bool>, fill: &Vec<char>) -> (r: (Vec<char>, Vec<char>))
    requires
        marks@.len() == cs@.len(),
    ensures
        (r.0@, r.1@) == rewrite(cs@, marks@, fill@),
{
    let mut out: Vec<char> = Vec::new();
    let mut rej: Vec<char> = Vec::new();
    let mut i: usize = 0;
    assert(cs@.skip(0) == cs@);
    assert(marks@.skip(0) == marks@);
    assert(Seq::<char>::empty() + rewrite(cs@, marks@, fill@).0 == rewrite(cs@, marks@, fill@).0);
    assert(Seq::<char>::empty() + rewrite(cs@, marks@, fill@).1 == rewrite(cs@, marks@, fill@).1);
    while i < cs.len()
        invariant
            i <= cs@.len(),
            marks@.len() == cs@.len(),
            rewrite(cs@, marks@, fill@) == (
                out@ + rewrite(cs@.skip(i as int), marks@.skip(i as int), fill@).0,
                rej@ + rewrite(cs@.skip(i as int), marks@.skip(i as int), fill@).1,
            ),
        decreases cs@.len() - i,
    {
        let ghost s = cs@.skip(i as int);
        let ghost m = marks@.skip(i as int);
        if cs[i] == '_' && i + 1 < cs.len() && marks[i + 1] {
            assert(is_marker(s, m, 0));
            assert(s.skip(2) == cs@.skip(i + 2));
            assert(m.skip(2) == marks@.skip(i + 2));
            let ghost r = rewrite(s.skip(2), m.skip(2), fill@);
            assert(out@ + (fill@ + r.0) == (out@ + fill@) + r.0);
            assert(rej@ + (seq![cs@[i + 1]] + r.1) == rej@.push(cs@[i + 1]) + r.1);
            let mut k: usize = 0;
            let ghost base = out@;
            while k < fill.len()
                invariant
                    k <= fill@.len(),
                    out@ == base + fill@.take(k as int),
                decreases fill@.len() - k,
            {
                out.push(fill[k]);
                assert(fill@.take(k + 1) == fill@.take(k as int).push(fill@[k as int]));
                k = k + 1;
            }
            assert(fill@.take(fill@.len() as int) == fill@);
            rej.push(cs[i + 1]);
            i = i + 2;
        } else {
            assert(!is_marker(s, m, 0));
            assert(s.skip(1) == cs@.skip(i + 1));
            assert(m.skip(1) == marks@.skip(i + 1));
            let ghost r = rewrite(s.skip(1), m.skip(1), fill@);
            assert(out@ + (seq![cs@[i as int]] + r.0) == out@.push(cs@[i as int]) + r.0);
            out.push(cs[i]);
            i = i + 1;
        }
    }
    assert(out@ + Seq::<char>::empty() == out@);
    assert(rej@ + Seq::<char>::empty() == rej@);
    (out, rej)
}

/// The Cyrillic marks of a sequence of characters.
fn marks_of(cs: &Vec<char>) -> (r: Vec<bool>)
    ensures
        r@ == cyrillic_marks(cs@),
{
    let mut marks: Vec<bool> = Vec::new();
    let mut i: usize = 0;
    while i < cs.len()
        invariant
            i <= cs@.len(),
            marks@ == cyrillic_marks(cs@.take(i as int)),
        decreases cs@.len() - i,
    {
        marks.push(is_cyrillic(cs[i]));
        assert(cs@.take(i + 1) == cs@.take(i as int).push(cs@[i as int]));
        i = i + 1;
    }
    assert(cs@.take(cs@.len() as int) == cs@);
    marks
}

/// Normalizes a pattern whose Cyrillic characters are given by `marks`:
/// each marker becomes `*` and its letter is collected, in order.
pub fn parse_pattern_marked(pattern: &Vec<char>, marks: &Vec<bool>) -> (r: (String, Vec<char>))
    requires
        marks@.len() == pattern@.len(),
    ensures
        (r.0@, r.1@) == rewrite(pattern@, marks@, seq!['*']),
{
    let fill: Vec<char> = vec!['*'];
    assert(fill@ == seq!['*']);
    let (out, rej) = rewrite_marked(pattern, marks, &fill);
    (string_of(&out), rej)
}

/// Normalizes a pattern: each marker becomes `*` and its letter is collected, in order.
pub fn parse_pattern(input: &str) -> (r: (String, Vec<char>))
    ensures
        (r.0@, r.1@) == normalized(input@),
{
    let cs = chars_of(input);
    let marks = marks_of(&cs);
    parse_pattern_marked(&cs, &marks)
}

/// Removes each marker from a pattern and returns the marked letters, in order.
pub(crate) fn strip_markers(pattern: &str) -> (r: (String, Vec<char>))
    ensures
        (r.0@, r.1@) == rewrite(pattern@, cyrillic_marks(pattern@), Seq::empty()),
{
    let cs = chars_of(pattern);
    let marks = marks_of(&cs);
    let fill: Vec<char> = Vec::new();
    let (out, rej) = rewrite_marked(&cs, &marks, &fill);
    (string_of(&out), rej)
}

/// Whether a pattern, once normalized, has exactly five grapheme clusters.
pub fn is_valid_pattern(pattern: &str) -> (r: bool)
    ensures
        r == valid_pattern(pattern@),
{
    let (canonical, _) = parse_pattern(pattern);
    count_graphemes(canonical.as_str()) == 5
}

proof fn lemma_skip_markers(s: Seq<char>, m: Seq<bool>, k: int)
    requires
        m.len() == s.len(),
        0 <= k <= s.len(),
    ensures
        forall|i: int| 0 <= i ==> #[trigger] is_marker(s.skip(k), m.skip(k), i) == is_marker(s, m, i + k),
{
    assert forall|i: int| 0 <= i implies #[trigger] is_marker(s.skip(k), m.skip(k), i) == is_marker(s, m, i + k) by {
        if 0 <= i && i + 1 < s.len() - k {
            assert(s.skip(k)[i] == s[i + k]);
            assert(m.skip(k)[i + 1] == m[i + 1 + k]);
        }
    }
}

proof fn lemma_rewrite_identity(s: Seq<char>, m: Seq<bool>, fill: Seq<char>)
    requires
        m.len() == s.len(),
        forall|i: int| !is_marker(s, m, i),
    ensures
        rewrite(s, m, fill) == (s, Seq::<char>::empty()),
    decreases s.len(),
{
    if s.len() > 0 {
        lemma_skip_markers(s, m, 1);
        assert forall|i: int| !is_marker(s.skip(1), m.skip(1), i) by {
            if 0 <= i {
                assert(!is_marker(s, m, i + 1));
            }
        }
        lemma_rewrite_identity(s.skip(1), m.skip(1), fill);
        assert(seq![s[0]] + s.skip(1) == s);
    }
}

proof fn lemma_rewrite_prefix(s: Seq<char>, m: Seq<bool>, fill: Seq<char>, p: int)
    requires
        m.len() == s.len(),
        0 <= p <= s.len(),
        forall|i: int| i < p ==> !is_marker(s, m, i),
    ensures
        rewrite(s, m, fill) == (
            s.take(p) + rewrite(s.skip(p), m.skip(p), fill).0,
            rewrite(s.skip(p), m.skip(p), fill).1,
        ),
    decreases p,
{
    if p == 0 {
        assert(s.skip(0) == s);
        assert(m.skip(0) == m);
        assert(s.take(0) + rewrite(s, m, fill).0 == rewrite(s, m, fill).0);
    } else {
        assert(!is_marker(s, m, 0));
        lemma_skip_markers(s, m, 1);
        assert forall|i: int| i < p - 1 implies !is_marker(s.skip(1), m.skip(1), i) by {
            if 0 <= i {
                assert(!is_marker(s, m, i + 1));
            }
        }
        lemma_rewrite_prefix(s.skip(1), m.skip(1), fill, p - 1);
        assert(s.skip(1).skip(p - 1) == s.skip(p));
        assert(m.skip(1).skip(p - 1) == m.skip(p));
        assert(seq![s[0]] + s.skip(1).take(p - 1) == s.take(p));
        let r = rewrite(s.skip(p), m.skip(p), fill);
        assert(seq![s[0]] + (s.skip(1).take(p - 1) + r.0) == (seq![s[0]] + s.skip(1).take(p - 1)) + r.0);
    }
}

/// A pattern without markers is already canonical: normalizing it returns it
/// unchanged, with no rejects.
pub proof fn normalizing_marker_free_pattern_is_identity(s: Seq<char>)
    requires
        forall|i: int| !is_marker(s, cyrillic_marks(s), i),
    ensures
        normalized(s) == (s, Seq::<char>::empty()),
{
    lemma_rewrite_identity(s, cyrillic_marks(s), seq!['*']);
}

/// A pattern with exactly one marker, at `p`, normalizes to the pattern with
/// those two characters replaced by one `*`, and yields that one letter as reject.
pub proof fn normalizing_one_marker(s: Seq<char>, p: int)
    requires
        forall|i: int| is_marker(s, cyrillic_marks(s), i) <==> i == p,
    ensures
        normalized(s).0 == s.take(p) + seq!['*'] + s.skip(p + 2),
        normalized(s).1 == seq![s[p + 1]],
{
    let m = cyrillic_marks(s);
    let fill = seq!['*'];
    assert(is_marker(s, m, p));
    lemma_rewrite_prefix(s, m, fill, p);
    let t = s.skip(p);
    let n = m.skip(p);
    lemma_skip_markers(s, m, p);
    assert(is_marker(t, n, 0));
    assert(t.skip(2) == s.skip(p + 2));
    assert(n.skip(2) == m.skip(p + 2));
    lemma_skip_markers(s, m, p + 2);
    let u = s.skip(p + 2);
    let v = m.skip(p + 2);
    assert forall|i: int| !#[trigger] is_marker(u, v, i) by {
        if 0 <= i {
            assert(is_marker(s, m, i + (p + 2)) <==> i + (p + 2) == p);
        }
    }
    lemma_rewrite_identity(u, v, fill);
    assert(t[1] == s[p + 1]);
    assert(seq![s[p + 1]] + Seq::<char>::empty() == seq![s[p + 1]]);
    assert(s.take(p) + (fill + s.skip(p + 2)) == s.take(p) + fill + s.skip(p + 2));
}

} // verus!

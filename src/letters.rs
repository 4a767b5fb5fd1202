//! Letter folds and the reject-letter list.
use vstd::prelude::*;

use crate::text::{chars_of, lowercase_char, lowercase_of, push_char, string_of};

verus! {

/// Latin lookalikes typed on the wrong keyboard layout, mapped to Cyrillic.
pub open spec fn latin_fold(c: char) -> char {
    if c == 'e' {
        'е'
    } else if c == 'o' {
        'о'
    } else {
        c
    }
}

/// The decorated vowel `ё` folded to its plain form `е`.
pub open spec fn yo_fold(c: char) -> char {
    if c == 'ё' {
        'е'
    } else {
        c
    }
}

/// Both folds, as applied to every letter the system compares.
pub open spec fn letter_fold(c: char) -> char {
    latin_fold(yo_fold(c))
}

/// Folds each character of a sequence.
pub open spec fn fold_all(s: Seq<char>) -> Seq<char> {
    s.map_values(|c: char| letter_fold(c))
}

/// Maps Latin `e` and `o` to their Cyrillic lookalikes; other characters are kept.
pub fn convert_latin_to_cyrillic(c: char) -> (r: char)
    ensures
        r == latin_fold(c),
{
    match c {
        'e' => 'е',
        'o' => 'о',
        _ => c,
    }
}

/// Maps `ё` to `е`; other characters are kept.
pub fn convert_ye_to_yo(c: char) -> (r: char)
    ensures
        r == yo_fold(c),
{
    match c {
        'ё' => 'е',
        _ => c,
    }
}

/// Both folds on one character.
pub fn fold_letter(c: char) -> (r: char)
    ensures
        r == letter_fold(c),
{
    convert_latin_to_cyrillic(convert_ye_to_yo(c))
}

/// Every `ё` of a word replaced by `е`.
pub open spec fn replace_yo_in(s: Seq<char>) -> Seq<char> {
    s.map_values(|c: char| yo_fold(c))
}

/// The reject letters given by a comma-delimited string: commas dropped,
/// each other character lowercased (possibly into several characters) and folded.
pub open spec fn rejects_of(s: Seq<char>) -> Seq<char>
    decreases s.len(),
{
    if s.len() == 0 {
        Seq::empty()
    } else if s.last() == ',' {
        rejects_of(s.drop_last())
    } else {
        rejects_of(s.drop_last()) + fold_all(lowercase_of(s.last()))
    }
}

/// Characters joined with commas between them.
pub open spec fn comma_joined(cs: Seq<char>) -> Seq<char>
    decreases cs.len(),
{
    if cs.len() == 0 {
        Seq::empty()
    } else if cs.len() == 1 {
        seq![cs[0]]
    } else {
        comma_joined(cs.drop_last()) + seq![',', cs.last()]
    }
}

/// Word `s` with `ё` replaced by `е`.
pub fn replace_yo_chars(s: &Vec<char>) -> (r: Vec<char>)
    ensures
        r@ == replace_yo_in(s@),
{
    let mut out: Vec<char> = Vec::new();
    let mut i: usize = 0;
    while i < s.len()
        invariant
            i <= s@.len(),
            out@ == replace_yo_in(s@.take(i as int)),
        decreases s@.len() - i,
    {
        out.push(convert_ye_to_yo(s[i]));
        assert(s@.take(i + 1) == s@.take(i as int).push(s@[i as int]));
        i = i + 1;
    }
    assert(s@.take(s@.len() as int) == s@);
    out
}

/// Normalizes a comma-delimited reject string into a list of folded lowercase letters.
pub fn process_rejects(rejects: &str) -> (r: Vec<char>)
    ensures
        r@ == rejects_of(rejects@),
{
    let cs = chars_of(rejects);
    let mut out: Vec<char> = Vec::new();
    let mut i: usize = 0;
    while i < cs.len()
        invariant
            i <= cs@.len(),
            cs@ == rejects@,
            out@ == rejects_of(cs@.take(i as int)),
        decreases cs@.len() - i,
    {
        let c = cs[i];
        assert(cs@.take(i + 1).drop_last() == cs@.take(i as int));
        if c != ',' {
            let low = lowercase_char(c);
            let ghost before = out@;
            let mut j: usize = 0;
            while j < low.len()
                invariant
                    j <= low@.len(),
                    low@ == lowercase_of(c),
                    out@ == before + fold_all(low@.take(j as int)),
                decreases low@.len() - j,
            {
                out.push(fold_letter(low[j]));
                assert(low@.take(j + 1) == low@.take(j as int).push(low@[j as int]));
                j = j + 1;
            }
            assert(low@.take(low@.len() as int) == low@);
        }
        i = i + 1;
    }
    assert(cs@.take(cs@.len() as int) == cs@);
    out
}

/// Appends characters to a comma-delimited string, separated by commas;
/// a non-empty start is followed by a comma.
pub fn append_chars_to_comma_delimited_str(rejects: &str, chars_to_add: Vec<char>) -> (r: String)
    ensures
        r@ == rejects@ + (if rejects@.len() > 0 {
            seq![',']
        } else {
            Seq::empty()
        }) + comma_joined(chars_to_add@),
{
    let mut result = string_of(&chars_of(rejects));
    if !rejects.is_empty() {
        push_char(&mut result, ',');
    }
    let ghost start = result@;
    let mut i: usize = 0;
    while i < chars_to_add.len()
        invariant
            i <= chars_to_add@.len(),
            result@ == start + comma_joined(chars_to_add@.take(i as int)),
        decreases chars_to_add@.len() - i,
    {
        let ghost t = chars_to_add@.take(i + 1);
        assert(t.drop_last() == chars_to_add@.take(i as int));
        if i > 0 {
            push_char(&mut result, ',');
        } else {
            assert(t == seq![chars_to_add@[0]]);
        }
        push_char(&mut result, chars_to_add[i]);
        assert(result@ == start + comma_joined(t));
        i = i + 1;
    }
    assert(chars_to_add@.take(chars_to_add@.len() as int) == chars_to_add@);
    result
}

/// The reject list holds no `ё` and no Latin `e` or `o`, whatever the input:
/// every letter in it has been through both folds.
pub proof fn rejects_are_folded(s: Seq<char>)
    ensures
        !rejects_of(s).contains('ё'),
        !rejects_of(s).contains('e'),
        !rejects_of(s).contains('o'),
    decreases s.len(),
{
    if s.len() > 0 {
        rejects_are_folded(s.drop_last());
        let a = rejects_of(s.drop_last());
        if s.last() != ',' {
            let b = fold_all(lowercase_of(s.last()));
            assert forall|c: char| (a + b).contains(c) implies a.contains(c) || b.contains(c) by {
                let k = choose|k: int| 0 <= k < (a + b).len() && (a + b)[k] == c;
                if k < a.len() {
                    assert(a[k] == c);
                } else {
                    assert(b[k - a.len()] == c);
                }
            }
            assert forall|k: int| 0 <= k < b.len() implies b[k] != 'ё' && b[k] != 'e' && b[k]
                != 'o' by {
                assert(b[k] == letter_fold(lowercase_of(s.last())[k]));
            }
        }
    }
}

} // verus!

//! Command lines: filling in the `%` placeholder and splitting a line into
//! the program and its arguments.

use vstd::prelude::*;
use vstd::string::*;
use crate::text::chars_of;

verus! {

/// The words that `shell_words::split` makes of `line`, or `None` where it
/// refuses the line (an unmatched quote).
pub uninterp spec fn shell_split(line: Seq<char>) -> Option<Seq<Seq<char>>>;

/// The texts of a list of strings.
pub open spec fn texts(words: Seq<String>) -> Seq<Seq<char>> {
    words.map_values(|w: String| w@)
}

/// Calls `shell_words::split`. Trusted: its words are the named split of
/// `line`, and its error, where it refuses the line, becomes `None`. What the
/// split is for a given line is not stated.
#[verifier::external_body]
fn split_words(line: &str) -> (r: Option<Vec<String>>)
    ensures
        match r {
            Some(words) => shell_split(line@) == Some(texts(words@)),
            None => shell_split(line@) is None,
        },
{
    match shell_words::split(line) {
        Ok(words) => Some(words),
        Err(_) => None,
    }
}

/// `line` with every `%` replaced by `with`.
pub open spec fn fill_placeholder(line: Seq<char>, with: Seq<char>) -> Seq<char>
    decreases line.len(),
{
    if line.len() == 0 {
        Seq::empty()
    } else {
        fill_placeholder(line.drop_last(), with) + (if line.last() == '%' {
            with
        } else {
            seq![line.last()]
        })
    }
}

/// Replaces every `%` of `line` by `with`.
pub fn replace_placeholder(line: &str, with: &str) -> (r: String)
    ensures
        r@ == fill_placeholder(line@, with@),
{
    let chars = chars_of(line);
    let mut r = String::new();
    let mut i: usize = 0;
    while i < chars.len()
        invariant
            chars@ == line@,
            i <= chars@.len(),
            r@ == fill_placeholder(line@.take(i as int), with@),
        decreases chars.len() - i,
    {
        let ghost before = r@;
        if chars[i] == '%' {
            r.append(with);
        } else {
            let one = line.substring_char(i, i + 1);
            r.append(one);
            assert(one@ =~= seq![chars@[i as int]]);
        }
        assert(line@.take(i + 1).drop_last() =~= line@.take(i as int));
        i = i + 1;
    }
    assert(line@.take(chars@.len() as int) =~= line@);
    r
}

/// A freedesktop field code such as `%f` or `%U`: a word that starts with `%`.
pub open spec fn is_field_code(word: Seq<char>) -> bool {
    word.len() > 0 && word[0] == '%'
}

/// The words that are not field codes, in order.
pub open spec fn without_field_codes(words: Seq<Seq<char>>) -> Seq<Seq<char>>
    decreases words.len(),
{
    if words.len() == 0 {
        Seq::empty()
    } else if is_field_code(words.last()) {
        without_field_codes(words.drop_last())
    } else {
        without_field_codes(words.drop_last()).push(words.last())
    }
}

fn starts_with_percent(word: &String) -> (r: bool)
    ensures
        r == is_field_code(word@),
{
    let s = word.as_str();
    s.unicode_len() > 0 && s.get_char(0) == '%'
}

/// The arguments of a desktop entry's command line: its words, without the
/// field codes; `None` where the line cannot be split.
pub fn desktop_arguments(exec_line: &str) -> (r: Option<Vec<String>>)
    ensures
        match shell_split(exec_line@) {
            Some(words) => r is Some && texts(r->0@) == without_field_codes(words),
            None => r is None,
        },
{
    let words = match split_words(exec_line) {
        Some(words) => words,
        None => return None,
    };
    let mut kept: Vec<String> = Vec::new();
    let mut i: usize = 0;
    while i < words.len()
        invariant
            i <= words@.len(),
            texts(kept@) == without_field_codes(texts(words@).take(i as int)),
        decreases words@.len() - i,
    {
        let ghost before = kept@;
        assert(texts(words@).take(i + 1).drop_last() =~= texts(words@).take(i as int));
        assert(texts(words@).take(i + 1).last() == words@[i as int]@);
        if !starts_with_percent(&words[i]) {
            kept.push(words[i].clone());
            assert(texts(kept@) =~= texts(before).push(words@[i as int]@));
        }
        i = i + 1;
    }
    assert(texts(words@).take(words@.len() as int) =~= texts(words@));
    Some(kept)
}

/// The arguments of a custom mode's command: its target with every `%`
/// replaced by `value`, split into words; `None` where it cannot be split.
pub fn custom_arguments(target: &str, value: &str) -> (r: Option<Vec<String>>)
    ensures
        match shell_split(fill_placeholder(target@, value@)) {
            Some(words) => r is Some && texts(r->0@) == words,
            None => r is None,
        },
{
    let line = replace_placeholder(target, value);
    split_words(line.as_str())
}

} // verus!

//! Text operations over the characters of a string.
//!
//! Strings are modelled by their sequence of characters. Each executable
//! function states its result by a specification function over such sequences.

pub mod laws;

use vstd::prelude::*;

verus! {

/// The views of a sequence of values.
pub open spec fn views<T: View>(items: Seq<T>) -> Seq<T::V> {
    items.map_values(|item: T| item@)
}

/// The characters of an optional string.
pub open spec fn opt_text(value: Option<String>) -> Option<Seq<char>> {
    match value {
        Some(text) => Some(text@),
        None => None,
    }
}

/// The characters of an optional string slice.
pub open spec fn opt_str(value: Option<&str>) -> Option<Seq<char>> {
    match value {
        Some(text) => Some(text@),
        None => None,
    }
}

pub proof fn lemma_views_push<T: View>(items: Seq<T>, item: T)
    ensures
        views(items.push(item)) == views(items).push(item@),
{
    assert(views(items.push(item)) =~= views(items).push(item@));
}

/// `str::eq`: two strings are equal exactly when they hold the same characters.
#[verifier::external_body]
pub(crate) fn same(left: &str, right: &str) -> (equal: bool)
    ensures
        equal == (left@ == right@),
{
    left == right
}

/// `str::lt`: strings are ordered lexicographically by code point.
#[verifier::external_body]
pub(crate) fn less(left: &str, right: &str) -> (before: bool)
    ensures
        before == text_lt(left@, right@),
{
    left < right
}

/// `String::push`: appends one character.
pub assume_specification[ String::push ](text: &mut String, c: char)
    ensures
        final(text)@ == old(text)@.push(c),
;

// ---------------------------------------------------------------------------
// Order

/// Lexicographic order by code point.
pub open spec fn text_lt(left: Seq<char>, right: Seq<char>) -> bool
    decreases left.len(),
{
    if right.len() == 0 {
        false
    } else if left.len() == 0 {
        true
    } else if left[0] == right[0] {
        text_lt(left.skip(1), right.skip(1))
    } else {
        (left[0] as int) < (right[0] as int)
    }
}

/// The order of texts is irreflexive.
pub proof fn lemma_text_lt_irreflexive(text: Seq<char>)
    ensures
        !text_lt(text, text),
    decreases text.len(),
{
    if text.len() > 0 {
        lemma_text_lt_irreflexive(text.skip(1));
    }
}

/// The order of texts is transitive.
pub proof fn lemma_text_lt_transitive(a: Seq<char>, b: Seq<char>, c: Seq<char>)
    requires
        text_lt(a, b),
        text_lt(b, c),
    ensures
        text_lt(a, c),
    decreases a.len(),
{
    if a.len() > 0 && a[0] == b[0] && b[0] == c[0] {
        lemma_text_lt_transitive(a.skip(1), b.skip(1), c.skip(1));
    }
}

/// Two different texts are ordered one way or the other.
pub proof fn lemma_text_lt_total(left: Seq<char>, right: Seq<char>)
    ensures
        left == right || text_lt(left, right) || text_lt(right, left),
    decreases left.len(),
{
    if left.len() > 0 && right.len() > 0 && left[0] == right[0] {
        lemma_text_lt_total(left.skip(1), right.skip(1));
        if left.skip(1) == right.skip(1) {
            assert(left =~= seq![left[0]] + left.skip(1));
            assert(right =~= seq![right[0]] + right.skip(1));
        }
    } else if left.len() == 0 && right.len() == 0 {
        assert(left =~= right);
    }
}

/// The order of texts is total and strict.
pub proof fn lemma_text_order(a: Seq<char>, b: Seq<char>, c: Seq<char>)
    ensures
        !text_lt(a, a),
        text_lt(a, b) && text_lt(b, c) ==> text_lt(a, c),
        a == b || text_lt(a, b) || text_lt(b, a),
        !(text_lt(a, b) && text_lt(b, a)),
{
    lemma_text_lt_irreflexive(a);
    lemma_text_lt_total(a, b);
    if text_lt(a, b) && text_lt(b, c) {
        lemma_text_lt_transitive(a, b, c);
    }
    if text_lt(a, b) && text_lt(b, a) {
        lemma_text_lt_transitive(a, b, a);
    }
}

/// Not being less passes along a chain.
pub proof fn lemma_not_less_chain(a: Seq<char>, b: Seq<char>, c: Seq<char>)
    requires
        !text_lt(a, b),
        !text_lt(b, c),
    ensures
        !text_lt(a, c),
{
    lemma_text_lt_total(a, b);
    lemma_text_lt_total(b, c);
    if text_lt(a, c) {
        if b != c && a != b {
            lemma_text_lt_transitive(c, b, a);
            lemma_text_lt_transitive(a, c, a);
        } else if b == c && a != b {
            lemma_text_lt_transitive(a, c, a);
        } else if a == b && b != c {
            lemma_text_lt_transitive(a, c, a);
        }
        lemma_text_lt_irreflexive(a);
    }
}

// ---------------------------------------------------------------------------
// Characters

/// The characters of a string, one by one.
pub fn chars_of(text: &str) -> (chars: Vec<char>)
    ensures
        chars@ == text@,
{
    let mut chars: Vec<char> = Vec::new();
    for c in it: text.chars()
        invariant
            chars@ == text@.take(it.index()),
            it.seq() == text@,
    {
        chars.push(c);
        assert(text@.take(it.index() + 1) =~= text@.take(it.index()).push(c));
    }
    assert(text@.take(text@.len() as int) =~= text@);
    chars
}

/// The string made of the characters from `from` up to `to`.
pub fn string_of(chars: &Vec<char>, from: usize, to: usize) -> (text: String)
    requires
        from <= to <= chars@.len(),
    ensures
        text@ == chars@.subrange(from as int, to as int),
{
    let mut text = String::new();
    let mut i: usize = from;
    while i < to
        invariant
            from <= i <= to <= chars@.len(),
            text@ == chars@.subrange(from as int, i as int),
        decreases to - i,
    {
        text.push(chars[i]);
        i = i + 1;
        assert(chars@.subrange(from as int, i as int) =~= chars@.subrange(
            from as int,
            i - 1,
        ).push(chars@[i - 1]));
    }
    text
}

/// Two strings one after the other.
pub fn join2(first: &str, second: &str) -> (text: String)
    ensures
        text@ == first@ + second@,
{
    let mut text = first.to_string();
    text.append(second);
    text
}

/// Three strings one after the other.
pub fn join3(first: &str, second: &str, third: &str) -> (text: String)
    ensures
        text@ == first@ + second@ + third@,
{
    let mut text = first.to_string();
    text.append(second);
    text.append(third);
    text
}

/// Whether any of the strings equals `text`.
pub fn one_of(text: &str, options: &[&str]) -> (found: bool)
    ensures
        found == exists|i: int| 0 <= i < options@.len() && (#[trigger] options@[i])@ == text@,
{
    let mut i: usize = 0;
    while i < options.len()
        invariant
            i <= options@.len(),
            forall|j: int| 0 <= j < i ==> (#[trigger] options@[j])@ != text@,
        decreases options@.len() - i,
    {
        if same(options[i], text) {
            return true;
        }
        i = i + 1;
    }
    false
}

// ---------------------------------------------------------------------------
// Searching

/// `pattern` stands in `text` at position `at`.
pub open spec fn occurs_at(text: Seq<char>, pattern: Seq<char>, at: int) -> bool {
    0 <= at && at + pattern.len() <= text.len() && text.subrange(at, at + pattern.len()) == pattern
}

/// `pattern` stands somewhere in `text`.
pub open spec fn contains(text: Seq<char>, pattern: Seq<char>) -> bool {
    exists|at: int| occurs_at(text, pattern, at)
}

/// The first occurrence of `pattern` at `from` or later.
pub open spec fn find_from(text: Seq<char>, pattern: Seq<char>, from: int) -> Option<int>
    decreases text.len() - from + 1,
{
    if from + pattern.len() > text.len() || from < 0 {
        None
    } else if occurs_at(text, pattern, from) {
        Some(from)
    } else {
        find_from(text, pattern, from + 1)
    }
}

/// The first occurrence of `pattern`.
pub open spec fn find(text: Seq<char>, pattern: Seq<char>) -> Option<int> {
    find_from(text, pattern, 0)
}

/// The last occurrence of `pattern` at `from` or earlier.
pub open spec fn rfind_from(text: Seq<char>, pattern: Seq<char>, from: int) -> Option<int>
    decreases from + 1,
{
    if from < 0 {
        None
    } else if occurs_at(text, pattern, from) {
        Some(from)
    } else {
        rfind_from(text, pattern, from - 1)
    }
}

/// The last occurrence of `pattern`.
pub open spec fn rfind(text: Seq<char>, pattern: Seq<char>) -> Option<int> {
    rfind_from(text, pattern, text.len() - pattern.len())
}

/// What a search finds is an occurrence, and none stands before it.
pub proof fn lemma_find_from(text: Seq<char>, pattern: Seq<char>, from: int)
    requires
        0 <= from,
    ensures
        match find_from(text, pattern, from) {
            Some(at) => from <= at && occurs_at(text, pattern, at) && forall|j: int|
                from <= j < at ==> !occurs_at(text, pattern, j),
            None => forall|j: int| from <= j ==> !occurs_at(text, pattern, j),
        },
    decreases text.len() - from + 1,
{
    if from + pattern.len() <= text.len() && !occurs_at(text, pattern, from) {
        lemma_find_from(text, pattern, from + 1);
    }
}

/// What a backward search finds is an occurrence, and none stands after it.
pub proof fn lemma_rfind_from(text: Seq<char>, pattern: Seq<char>, from: int)
    ensures
        match rfind_from(text, pattern, from) {
            Some(at) => at <= from && occurs_at(text, pattern, at) && forall|j: int|
                at < j <= from ==> !occurs_at(text, pattern, j),
            None => forall|j: int| j <= from ==> !occurs_at(text, pattern, j),
        },
    decreases from + 1,
{
    if from >= 0 && !occurs_at(text, pattern, from) {
        lemma_rfind_from(text, pattern, from - 1);
    }
}

/// Whether `pattern` stands in `text` at position `at`.
pub fn occurs(text: &Vec<char>, pattern: &Vec<char>, at: usize) -> (found: bool)
    ensures
        found == occurs_at(text@, pattern@, at as int),
{
    if at > text.len() || pattern.len() > text.len() - at {
        return false;
    }
    let mut i: usize = 0;
    while i < pattern.len()
        invariant
            i <= pattern@.len(),
            at + pattern.len() <= text.len(),
            forall|j: int| 0 <= j < i ==> text@[at + j] == pattern@[j],
        decreases pattern@.len() - i,
    {
        if text[at + i] != pattern[i] {
            assert(text@.subrange(at as int, at + pattern@.len())[i as int] != pattern@[i as int]);
            return false;
        }
        i = i + 1;
    }
    assert(text@.subrange(at as int, at + pattern@.len()) =~= pattern@);
    true
}

/// The position of the first occurrence of `pattern` at `from` or later.
pub fn position_from(text: &Vec<char>, pattern: &Vec<char>, from: usize) -> (at: Option<usize>)
    ensures
        match at {
            Some(at) => find_from(text@, pattern@, from as int) == Some(at as int),
            None => find_from(text@, pattern@, from as int) is None,
        },
{
    let mut i: usize = from;
    while i <= text.len() && pattern.len() <= text.len() - i
        invariant
            from <= i,
            find_from(text@, pattern@, from as int) == find_from(text@, pattern@, i as int),
        decreases text@.len() + 1 - i,
    {
        if occurs(text, pattern, i) {
            return Some(i);
        }
        if i == text.len() {
            assert(find_from(text@, pattern@, i + 1) is None);
            return None;
        }
        i = i + 1;
    }
    None
}

/// The position of the last occurrence of `pattern`.
pub fn last_position(text: &Vec<char>, pattern: &Vec<char>) -> (at: Option<usize>)
    ensures
        match at {
            Some(at) => rfind(text@, pattern@) == Some(at as int),
            None => rfind(text@, pattern@) is None,
        },
{
    if pattern.len() > text.len() {
        return None;
    }
    let mut i: usize = text.len() - pattern.len();
    loop
        invariant
            i <= text@.len() - pattern@.len(),
            rfind(text@, pattern@) == rfind_from(text@, pattern@, i as int),
        decreases i,
    {
        if occurs(text, pattern, i) {
            return Some(i);
        }
        if i == 0 {
            assert(rfind_from(text@, pattern@, -1) is None);
            return None;
        }
        i = i - 1;
    }
}

/// Whether `pattern` stands somewhere in `text`.
pub fn has(text: &str, pattern: &str) -> (found: bool)
    ensures
        found == contains(text@, pattern@),
{
    let text_chars = chars_of(text);
    let pattern_chars = chars_of(pattern);
    proof {
        lemma_find_from(text@, pattern@, 0);
    }
    match position_from(&text_chars, &pattern_chars, 0) {
        Some(at) => {
            assert(occurs_at(text@, pattern@, at as int));
            true
        },
        None => {
            assert forall|at: int| !occurs_at(text@, pattern@, at) by {
                if at < 0 {
                    assert(!occurs_at(text@, pattern@, at));
                }
            }
            false
        },
    }
}

// ---------------------------------------------------------------------------
// Splitting

/// The parts before and after the first `separator`.
pub open spec fn split_once(text: Seq<char>, separator: Seq<char>) -> Option<(Seq<char>, Seq<char>)> {
    match find(text, separator) {
        Some(at) => Some((text.take(at), text.skip(at + separator.len()))),
        None => None,
    }
}

/// The parts before and after the last `separator`.
pub open spec fn rsplit_once(text: Seq<char>, separator: Seq<char>) -> Option<(Seq<char>, Seq<char>)> {
    match rfind(text, separator) {
        Some(at) => Some((text.take(at), text.skip(at + separator.len()))),
        None => None,
    }
}

/// What follows the last `separator`, or the whole text without one.
pub open spec fn after_last(text: Seq<char>, separator: Seq<char>) -> Seq<char> {
    match rsplit_once(text, separator) {
        Some((_, last)) => last,
        None => text,
    }
}

/// What precedes the first `separator`, or the whole text without one.
pub open spec fn before_first(text: Seq<char>, separator: Seq<char>) -> Seq<char> {
    match split_once(text, separator) {
        Some((first, _)) => first,
        None => text,
    }
}

/// The parts of `text` between the occurrences of `separator`.
pub open spec fn split(text: Seq<char>, separator: Seq<char>) -> Seq<Seq<char>>
    decreases text.len(),
{
    match find(text, separator) {
        Some(at) => if separator.len() == 0 || at < 0 || at + separator.len() > text.len() {
            seq![text]
        } else {
            seq![text.take(at)] + split(text.skip(at + separator.len()), separator)
        },
        None => seq![text],
    }
}

/// The strings before and after the first `separator`.
pub fn cut_first(text: &str, separator: &str) -> (parts: Option<(String, String)>)
    ensures
        match parts {
            Some((first, rest)) => split_once(text@, separator@) == Some((first@, rest@)),
            None => split_once(text@, separator@) is None,
        },
{
    let chars = chars_of(text);
    let pattern = chars_of(separator);
    proof {
        lemma_find_from(text@, separator@, 0);
    }
    match position_from(&chars, &pattern, 0) {
        Some(at) => {
            assert(at + pattern.len() <= chars.len());
            let first = string_of(&chars, 0, at);
            let rest = string_of(&chars, at + pattern.len(), chars.len());
            assert(first@ =~= text@.take(at as int));
            assert(rest@ =~= text@.skip(at + separator@.len()));
            Some((first, rest))
        },
        None => None,
    }
}

/// The strings before and after the last `separator`.
pub fn cut_last(text: &str, separator: &str) -> (parts: Option<(String, String)>)
    ensures
        match parts {
            Some((first, rest)) => rsplit_once(text@, separator@) == Some((first@, rest@)),
            None => rsplit_once(text@, separator@) is None,
        },
{
    let chars = chars_of(text);
    let pattern = chars_of(separator);
    proof {
        lemma_rfind_from(text@, separator@, text@.len() - separator@.len());
    }
    match last_position(&chars, &pattern) {
        Some(at) => {
            assert(at + pattern.len() <= chars.len());
            let first = string_of(&chars, 0, at);
            let rest = string_of(&chars, at + pattern.len(), chars.len());
            assert(first@ =~= text@.take(at as int));
            assert(rest@ =~= text@.skip(at + separator@.len()));
            Some((first, rest))
        },
        None => None,
    }
}

/// The string after the last `separator`, or all of it.
pub fn last_part(text: &str, separator: &str) -> (last: String)
    ensures
        last@ == after_last(text@, separator@),
{
    match cut_last(text, separator) {
        Some((_, last)) => last,
        None => text.to_string(),
    }
}

/// The string before the first `separator`, or all of it.
pub fn first_part(text: &str, separator: &str) -> (first: String)
    ensures
        first@ == before_first(text@, separator@),
{
    match cut_first(text, separator) {
        Some((first, _)) => first,
        None => text.to_string(),
    }
}

/// The strings between the occurrences of `separator`.
pub fn parts_of(text: &str, separator: &str) -> (parts: Vec<String>)
    requires
        separator@.len() > 0,
    ensures
        views(parts@) == split(text@, separator@),
{
    let chars = chars_of(text);
    let pattern = chars_of(separator);
    let mut parts: Vec<String> = Vec::new();
    let mut start: usize = 0;
    assert(text@.skip(0) =~= text@);
    assert(views(parts@) + split(text@, separator@) =~= split(text@, separator@));
    loop
        invariant
            chars@ == text@,
            pattern@ == separator@,
            separator@.len() > 0,
            start <= chars@.len(),
            split(text@, separator@) == views(parts@) + split(text@.skip(start as int), separator@),
        decreases chars@.len() - start,
    {
        proof {
            lemma_find_from(text@, separator@, start as int);
            lemma_find_skip(text@, separator@, start as int);
        }
        match position_from(&chars, &pattern, start) {
            Some(at) => {
                assert(at + pattern.len() <= chars.len());
                let part = string_of(&chars, start, at);
                let ghost before = parts@;
                parts.push(part);
                proof {
                    let rest = text@.skip(start as int);
                    lemma_views_push(before, part);
                    assert(rest.take(at - start) =~= part@);
                    assert(rest.skip(at - start + separator@.len()) =~= text@.skip(
                        at + separator@.len(),
                    ));
                    assert(split(rest, separator@) == seq![part@] + split(
                        text@.skip(at + separator@.len()),
                        separator@,
                    ));
                    assert(views(before) + (seq![part@] + split(
                        text@.skip(at + separator@.len()),
                        separator@,
                    )) =~= views(parts@) + split(text@.skip(at + separator@.len()), separator@));
                }
                start = at + pattern.len();
            },
            None => {
                let part = string_of(&chars, start, chars.len());
                let ghost before = parts@;
                parts.push(part);
                proof {
                    lemma_views_push(before, part);
                    assert(text@.skip(start as int) =~= part@);
                    assert(views(before) + seq![part@] =~= views(parts@));
                }
                return parts;
            },
        }
    }
}

/// Searching from `from` is searching in what is left from there.
pub proof fn lemma_find_skip(text: Seq<char>, pattern: Seq<char>, from: int)
    requires
        0 <= from <= text.len(),
    ensures
        match find_from(text, pattern, from) {
            Some(at) => find(text.skip(from), pattern) == Some(at - from),
            None => find(text.skip(from), pattern) is None,
        },
{
    lemma_find_shift(text, pattern, from, 0);
}

proof fn lemma_find_shift(text: Seq<char>, pattern: Seq<char>, from: int, i: int)
    requires
        0 <= from <= text.len(),
        0 <= i,
    ensures
        match find_from(text, pattern, from + i) {
            Some(at) => find_from(text.skip(from), pattern, i) == Some(at - from),
            None => find_from(text.skip(from), pattern, i) is None,
        },
    decreases text.len() - from - i + 1,
{
    if from + i + pattern.len() <= text.len() {
        assert(text.skip(from).subrange(i, i + pattern.len()) =~= text.subrange(
            from + i,
            from + i + pattern.len(),
        ));
        lemma_find_shift(text, pattern, from, i + 1);
    }
}

// ---------------------------------------------------------------------------
// Prefixes and suffixes

/// `text` starts with `prefix`.
pub open spec fn starts_with(text: Seq<char>, prefix: Seq<char>) -> bool {
    occurs_at(text, prefix, 0)
}

/// `text` ends with `suffix`.
pub open spec fn ends_with(text: Seq<char>, suffix: Seq<char>) -> bool {
    occurs_at(text, suffix, text.len() - suffix.len())
}

/// `text` without `prefix`, if it starts with it.
pub open spec fn strip_prefix(text: Seq<char>, prefix: Seq<char>) -> Option<Seq<char>> {
    if starts_with(text, prefix) {
        Some(text.skip(prefix.len() as int))
    } else {
        None
    }
}

/// `text` without `suffix`, if it ends with it.
pub open spec fn strip_suffix(text: Seq<char>, suffix: Seq<char>) -> Option<Seq<char>> {
    if ends_with(text, suffix) {
        Some(text.take(text.len() - suffix.len()))
    } else {
        None
    }
}

/// Whether `text` starts with `prefix`.
pub fn begins(text: &str, prefix: &str) -> (found: bool)
    ensures
        found == starts_with(text@, prefix@),
{
    let chars = chars_of(text);
    let pattern = chars_of(prefix);
    occurs(&chars, &pattern, 0)
}

/// Whether `text` ends with `suffix`.
pub fn ends(text: &str, suffix: &str) -> (found: bool)
    ensures
        found == ends_with(text@, suffix@),
{
    let chars = chars_of(text);
    let pattern = chars_of(suffix);
    if pattern.len() > chars.len() {
        return false;
    }
    occurs(&chars, &pattern, chars.len() - pattern.len())
}

/// The rest of `text` after `prefix`, if it starts with it.
pub fn without_prefix(text: &str, prefix: &str) -> (rest: Option<String>)
    ensures
        opt_text(rest) == strip_prefix(text@, prefix@),
{
    let chars = chars_of(text);
    let pattern = chars_of(prefix);
    if occurs(&chars, &pattern, 0) {
        let rest = string_of(&chars, pattern.len(), chars.len());
        assert(rest@ =~= text@.skip(prefix@.len() as int));
        Some(rest)
    } else {
        None
    }
}

/// The part of `text` before `suffix`, if it ends with it.
pub fn without_suffix(text: &str, suffix: &str) -> (rest: Option<String>)
    ensures
        opt_text(rest) == strip_suffix(text@, suffix@),
{
    let chars = chars_of(text);
    let pattern = chars_of(suffix);
    if pattern.len() <= chars.len() && occurs(&chars, &pattern, chars.len() - pattern.len()) {
        let rest = string_of(&chars, 0, chars.len() - pattern.len());
        assert(rest@ =~= text@.take(text@.len() - suffix@.len()));
        Some(rest)
    } else {
        None
    }
}

// ---------------------------------------------------------------------------
// White space

/// The characters with the Unicode property `White_Space`.
pub open spec fn is_space(c: char) -> bool {
    let code = c as int;
    ||| 0x9 <= code <= 0xd
    ||| code == 0x20
    ||| code == 0x85
    ||| code == 0xa0
    ||| code == 0x1680
    ||| 0x2000 <= code <= 0x200a
    ||| code == 0x2028
    ||| code == 0x2029
    ||| code == 0x202f
    ||| code == 0x205f
    ||| code == 0x3000
}

/// Whether a character is white space.
pub fn space(c: char) -> (found: bool)
    ensures
        found == is_space(c),
{
    let code: u32 = c as u32;
    (0x9 <= code && code <= 0xd) || code == 0x20 || code == 0x85 || code == 0xa0 || code == 0x1680
        || (0x2000 <= code && code <= 0x200a) || code == 0x2028 || code == 0x2029 || code == 0x202f
        || code == 0x205f || code == 0x3000
}

/// `text` without the white space it starts with.
pub open spec fn trim_start(text: Seq<char>) -> Seq<char>
    decreases text.len(),
{
    if text.len() > 0 && is_space(text[0]) {
        trim_start(text.skip(1))
    } else {
        text
    }
}

/// `text` without the white space it ends with.
pub open spec fn trim_end(text: Seq<char>) -> Seq<char>
    decreases text.len(),
{
    if text.len() > 0 && is_space(text.last()) {
        trim_end(text.drop_last())
    } else {
        text
    }
}

/// `text` without the white space around it.
pub open spec fn trim(text: Seq<char>) -> Seq<char> {
    trim_end(trim_start(text))
}

/// `text` without the run of `c` that it ends with.
pub open spec fn trim_end_of(text: Seq<char>, c: char) -> Seq<char>
    decreases text.len(),
{
    if text.len() > 0 && text.last() == c {
        trim_end_of(text.drop_last(), c)
    } else {
        text
    }
}

fn start_of_text(chars: &Vec<char>) -> (start: usize)
    ensures
        start <= chars@.len(),
        trim_start(chars@) == chars@.skip(start as int),
{
    let mut start: usize = 0;
    assert(chars@.skip(0) =~= chars@);
    while start < chars.len() && space(chars[start])
        invariant
            start <= chars@.len(),
            trim_start(chars@) == trim_start(chars@.skip(start as int)),
        decreases chars@.len() - start,
    {
        assert(chars@.skip(start as int).skip(1) =~= chars@.skip(start + 1));
        start = start + 1;
    }
    start
}

fn end_of_text(chars: &Vec<char>, start: usize) -> (end: usize)
    requires
        start <= chars@.len(),
    ensures
        start <= end <= chars@.len(),
        trim_end(chars@.skip(start as int)) == chars@.subrange(start as int, end as int),
{
    let mut end: usize = chars.len();
    assert(chars@.skip(start as int) =~= chars@.subrange(start as int, end as int));
    while end > start && space(chars[end - 1])
        invariant
            start <= end <= chars@.len(),
            trim_end(chars@.skip(start as int)) == trim_end(
                chars@.subrange(start as int, end as int),
            ),
        decreases end,
    {
        assert(chars@.subrange(start as int, end as int).drop_last() =~= chars@.subrange(
            start as int,
            end - 1,
        ));
        end = end - 1;
    }
    end
}

/// The string without the white space around it.
pub fn trimmed(text: &str) -> (inner: String)
    ensures
        inner@ == trim(text@),
{
    let chars = chars_of(text);
    let start = start_of_text(&chars);
    let end = end_of_text(&chars, start);
    string_of(&chars, start, end)
}

/// The string without the white space it ends with.
pub fn trimmed_end(text: &str) -> (inner: String)
    ensures
        inner@ == trim_end(text@),
{
    let chars = chars_of(text);
    let end = end_of_text(&chars, 0);
    assert(text@.skip(0) =~= text@);
    string_of(&chars, 0, end)
}

/// The string without the white space it starts with.
pub fn trimmed_start(text: &str) -> (inner: String)
    ensures
        inner@ == trim_start(text@),
{
    let chars = chars_of(text);
    let start = start_of_text(&chars);
    let inner = string_of(&chars, start, chars.len());
    assert(inner@ =~= chars@.skip(start as int));
    inner
}

/// `text` without the run of `c` that it starts with.
pub open spec fn trim_start_of(text: Seq<char>, c: char) -> Seq<char>
    decreases text.len(),
{
    if text.len() > 0 && text[0] == c {
        trim_start_of(text.skip(1), c)
    } else {
        text
    }
}

/// The string without the run of `c` that it starts with.
pub fn trimmed_start_of(text: &str, c: char) -> (inner: String)
    ensures
        inner@ == trim_start_of(text@, c),
{
    let chars = chars_of(text);
    let mut start: usize = 0;
    assert(chars@.skip(0) =~= chars@);
    while start < chars.len() && chars[start] == c
        invariant
            start <= chars@.len(),
            trim_start_of(chars@, c) == trim_start_of(chars@.skip(start as int), c),
        decreases chars@.len() - start,
    {
        assert(chars@.skip(start as int).skip(1) =~= chars@.skip(start + 1));
        start = start + 1;
    }
    let inner = string_of(&chars, start, chars.len());
    assert(inner@ =~= chars@.skip(start as int));
    inner
}

/// Whether a character is a letter or a digit, by its Unicode properties.
pub uninterp spec fn is_alphanumeric(c: char) -> bool;

/// `char::is_alphanumeric`: the letters and numbers of Unicode. Of the ASCII characters
/// these are the letters and the digits.
#[verifier::external_body]
pub(crate) fn alphanumeric(c: char) -> (found: bool)
    ensures
        found == is_alphanumeric(c),
        (c as int) < 128 ==> found == ascii_alphanumeric(c),
{
    c.is_alphanumeric()
}

/// The ASCII letters and digits.
pub open spec fn ascii_alphanumeric(c: char) -> bool {
    let code = c as int;
    (48 <= code <= 57) || (65 <= code <= 90) || (97 <= code <= 122)
}

/// A character, an ASCII capital as its small letter.
pub open spec fn ascii_lower_char(c: char) -> char {
    if 65 <= (c as int) <= 90 {
        (c as int + 32) as char
    } else {
        c
    }
}

/// A text with its ASCII capitals as small letters.
pub open spec fn ascii_lower(text: Seq<char>) -> Seq<char> {
    text.map_values(|c: char| ascii_lower_char(c))
}

fn lowered(c: char) -> (lower: char)
    ensures
        lower == ascii_lower_char(c),
{
    if 'A' <= c && c <= 'Z' {
        (c as u8 + 32) as char
    } else {
        c
    }
}

/// A text with its ASCII capitals as small letters.
pub fn ascii_lowercase(text: &str) -> (lower: String)
    ensures
        lower@ == ascii_lower(text@),
{
    let chars = chars_of(text);
    let mut lower = String::new();
    let mut i: usize = 0;
    assert(lower@ =~= ascii_lower(text@).take(0));
    while i < chars.len()
        invariant
            chars@ == text@,
            i <= chars@.len(),
            lower@ == ascii_lower(text@).take(i as int),
        decreases chars@.len() - i,
    {
        lower.push(lowered(chars[i]));
        assert(ascii_lower(text@).take(i + 1) =~= ascii_lower(text@).take(i as int).push(
            ascii_lower_char(chars@[i as int]),
        ));
        i = i + 1;
    }
    assert(ascii_lower(text@).take(i as int) =~= ascii_lower(text@));
    lower
}

/// A text with its letters in lower case.
pub uninterp spec fn lower_case(text: Seq<char>) -> Seq<char>;

/// Calls `str::to_lowercase`, which maps a text to lower case by the Unicode tables that
/// the standard library carries. The result is named; what is claimed of it beyond that
/// is that in an ASCII text just the capitals change, to their small letters.
#[verifier::external_body]
pub(crate) fn lowercase(text: &str) -> (lower: String)
    ensures
        lower@ == lower_case(text@),
        (forall|i: int| 0 <= i < text@.len() ==> (#[trigger] text@[i] as int) < 128) ==> lower@
            == ascii_lower(text@),
{
    text.to_lowercase()
}

/// The string without the run of `c` that it ends with.
pub fn trimmed_end_of(text: &str, c: char) -> (inner: String)
    ensures
        inner@ == trim_end_of(text@, c),
{
    let chars = chars_of(text);
    let mut end: usize = chars.len();
    assert(chars@ =~= chars@.subrange(0, end as int));
    while end > 0 && chars[end - 1] == c
        invariant
            end <= chars@.len(),
            trim_end_of(chars@, c) == trim_end_of(chars@.subrange(0, end as int), c),
        decreases end,
    {
        assert(chars@.subrange(0, end as int).drop_last() =~= chars@.subrange(0, end - 1));
        end = end - 1;
    }
    string_of(&chars, 0, end)
}

/// The characters of `text` that are not white space, in their order.
pub open spec fn squeeze(text: Seq<char>) -> Seq<char>
    decreases text.len(),
{
    if text.len() == 0 {
        seq![]
    } else if is_space(text.last()) {
        squeeze(text.drop_last())
    } else {
        squeeze(text.drop_last()).push(text.last())
    }
}

/// The string without any white space.
pub fn squeezed(text: &str) -> (inner: String)
    ensures
        inner@ == squeeze(text@),
{
    let chars = chars_of(text);
    let mut inner = String::new();
    let mut i: usize = 0;
    while i < chars.len()
        invariant
            i <= chars@.len(),
            inner@ == squeeze(chars@.take(i as int)),
        decreases chars@.len() - i,
    {
        assert(chars@.take(i + 1).drop_last() =~= chars@.take(i as int));
        if !space(chars[i]) {
            inner.push(chars[i]);
        }
        i = i + 1;
    }
    assert(chars@.take(i as int) =~= text@);
    inner
}

/// The first maximal run of characters that are not white space.
pub open spec fn first_word(text: Seq<char>) -> Option<Seq<char>> {
    let rest = trim_start(text);
    if rest.len() == 0 {
        None
    } else {
        Some(word_prefix(rest))
    }
}

/// The characters of `text` before its first white space.
pub open spec fn word_prefix(text: Seq<char>) -> Seq<char>
    decreases text.len(),
{
    if text.len() == 0 || is_space(text[0]) {
        seq![]
    } else {
        seq![text[0]] + word_prefix(text.skip(1))
    }
}

/// The first word of the string.
pub fn leading_word(text: &str) -> (word: Option<String>)
    ensures
        opt_text(word) == first_word(text@),
{
    let chars = chars_of(text);
    let start = start_of_text(&chars);
    if start == chars.len() {
        return None;
    }
    let mut end: usize = start;
    assert(chars@.skip(start as int) == chars@.skip(end as int));
    assert(chars@.subrange(start as int, start as int) + word_prefix(chars@.skip(start as int))
        =~= word_prefix(chars@.skip(start as int)));
    while end < chars.len() && !space(chars[end])
        invariant
            start <= end <= chars@.len(),
            word_prefix(chars@.skip(start as int)) == chars@.subrange(start as int, end as int)
                + word_prefix(chars@.skip(end as int)),
        decreases chars@.len() - end,
    {
        assert(chars@.skip(end as int).skip(1) =~= chars@.skip(end + 1));
        assert(chars@.subrange(start as int, end as int) + (seq![chars@[end as int]] + word_prefix(
            chars@.skip(end + 1),
        )) =~= chars@.subrange(start as int, end + 1) + word_prefix(chars@.skip(end + 1)));
        end = end + 1;
    }
    assert(chars@.subrange(start as int, end as int) + seq![] =~= chars@.subrange(
        start as int,
        end as int,
    ));
    Some(string_of(&chars, start, end))
}

/// The maximal runs of characters that are not white space, in their order.
pub open spec fn words(text: Seq<char>) -> Seq<Seq<char>>
    decreases text.len(),
{
    let rest = trim_start(text);
    let word = word_prefix(rest);
    if rest.len() == 0 || rest.len() > text.len() || word.len() == 0 || word.len() > rest.len() {
        seq![]
    } else {
        seq![word] + words(rest.skip(word.len() as int))
    }
}

proof fn lemma_trim_start_skip(text: Seq<char>, from: int)
    requires
        0 <= from <= text.len(),
    ensures
        trim_start(text.skip(from)).len() <= text.len() - from,
        trim_start(text.skip(from)).len() > 0 ==> !is_space(trim_start(text.skip(from))[0]),
        trim_start(text.skip(from)) == text.skip(
            text.len() - trim_start(text.skip(from)).len(),
        ),
    decreases text.len() - from,
{
    let rest = text.skip(from);
    if rest.len() > 0 && is_space(rest[0]) {
        assert(rest.skip(1) =~= text.skip(from + 1));
        lemma_trim_start_skip(text, from + 1);
    } else {
        assert(text.skip(text.len() - rest.len()) =~= rest);
    }
}

proof fn lemma_word_prefix(text: Seq<char>)
    ensures
        word_prefix(text).len() <= text.len(),
        word_prefix(text) == text.take(word_prefix(text).len() as int),
        text.len() > 0 && !is_space(text[0]) ==> word_prefix(text).len() > 0,
        word_prefix(text).len() < text.len() ==> is_space(text[word_prefix(text).len() as int]),
        forall|i: int| 0 <= i < word_prefix(text).len() ==> !is_space(#[trigger] text[i]),
    decreases text.len(),
{
    if text.len() > 0 && !is_space(text[0]) {
        lemma_word_prefix(text.skip(1));
        let inner = word_prefix(text.skip(1));
        assert(word_prefix(text) =~= text.take(inner.len() as int + 1));
        assert forall|i: int| 0 <= i < word_prefix(text).len() implies !is_space(
            #[trigger] text[i],
        ) by {
            if i > 0 {
                assert(text.skip(1)[i - 1] == text[i]);
            }
        }
    } else {
        assert(word_prefix(text) =~= text.take(0));
    }
}

/// The words of the string.
pub fn words_of(text: &str) -> (found: Vec<String>)
    ensures
        views(found@) == words(text@),
{
    let chars = chars_of(text);
    let mut found: Vec<String> = Vec::new();
    let mut from: usize = 0;
    assert(text@.skip(0) =~= text@);
    assert(views(found@) + words(text@) =~= words(text@));
    loop
        invariant
            chars@ == text@,
            from <= chars@.len(),
            words(text@) == views(found@) + words(text@.skip(from as int)),
        decreases chars@.len() - from,
    {
        let ghost entry = text@.skip(from as int);
        proof {
            lemma_trim_start_skip(text@, from as int);
        }
        let mut start: usize = from;
        while start < chars.len() && space(chars[start])
            invariant
                from <= start <= chars@.len(),
                trim_start(chars@.skip(from as int)) == trim_start(chars@.skip(start as int)),
            decreases chars@.len() - start,
        {
            assert(chars@.skip(start as int).skip(1) =~= chars@.skip(start + 1));
            start = start + 1;
        }
        let ghost rest = text@.skip(start as int);
        assert(trim_start(entry) == rest);
        if start == chars.len() {
            assert(views(found@) + Seq::<Seq<char>>::empty() =~= views(found@));
            return found;
        }
        proof {
            lemma_word_prefix(rest);
        }
        let ghost word = word_prefix(rest);
        let mut end: usize = start;
        while end < chars.len() && !space(chars[end])
            invariant
                start <= end <= chars@.len(),
                chars@ == text@,
                rest == text@.skip(start as int),
                word == word_prefix(rest),
                word.len() <= rest.len(),
                end - start <= word.len(),
                word.len() < rest.len() ==> is_space(rest[word.len() as int]),
                forall|i: int| 0 <= i < word.len() ==> !is_space(#[trigger] rest[i]),
            decreases chars@.len() - end,
        {
            assert(rest[end - start] == chars@[end as int]);
            end = end + 1;
        }
        assert(end - start == word.len()) by {
            if end < chars.len() {
                assert(rest[end - start] == chars@[end as int]);
            }
        }
        let text_word = string_of(&chars, start, end);
        let ghost before = found@;
        found.push(text_word);
        proof {
            assert(text_word@ =~= rest.take(word.len() as int));
            lemma_views_push(before, text_word);
            assert(rest.skip(word.len() as int) =~= text@.skip(end as int));
            assert(words(entry) == seq![word] + words(text@.skip(end as int)));
            assert(views(before) + (seq![word] + words(text@.skip(end as int))) =~= views(found@)
                + words(text@.skip(end as int)));
        }
        from = end;
    }
}

// ---------------------------------------------------------------------------
// Lines

/// A line without the carriage return before its line feed.
pub open spec fn chomp(line: Seq<char>) -> Seq<char> {
    if line.len() > 0 && line.last() == '\r' {
        line.drop_last()
    } else {
        line
    }
}

/// The lines of `text`: each ends at a line feed, which it does not hold, nor a
/// carriage return right before it. A last line without a line feed counts
/// unless it is empty.
pub open spec fn lines(text: Seq<char>) -> Seq<Seq<char>>
    decreases text.len(),
{
    match find(text, seq!['\n']) {
        Some(at) => if 0 <= at < text.len() {
            seq![chomp(text.take(at))] + lines(text.skip(at + 1))
        } else {
            seq![]
        },
        None => if text.len() == 0 {
            seq![]
        } else {
            seq![text]
        },
    }
}

/// The lines of two texts, of which the first ends with a line, are those of the one and
/// then those of the other.
pub proof fn lines_add_up(first: Seq<char>, second: Seq<char>)
    requires
        first.len() == 0 || first.last() == '\n',
    ensures
        lines(first + second) == lines(first) + lines(second),
    decreases first.len(),
{
    let feed = seq!['\n'];
    let both = first + second;
    if first.len() == 0 {
        assert(both =~= second);
        assert(find(first, feed) is None);
        assert(lines(first) + lines(second) =~= lines(second));
    } else {
        lemma_find_from(first, feed, 0);
        lemma_find_from(both, feed, 0);
        let end = first.len() - 1;
        assert(first.subrange(end, end + 1) =~= feed);
        assert(occurs_at(first, feed, end));
        let at = find(first, feed)->0;
        assert(at <= end);
        assert forall|j: int| 0 <= j <= end implies occurs_at(both, feed, j) == occurs_at(
            first,
            feed,
            j,
        ) by {
            assert(both.subrange(j, j + 1) =~= first.subrange(j, j + 1));
        }
        assert(occurs_at(both, feed, at));
        assert(find(both, feed) == Some(at));
        let rest = first.skip(at + 1);
        assert(both.take(at) =~= first.take(at));
        assert(both.skip(at + 1) =~= rest + second);
        if rest.len() > 0 {
            assert(rest.last() == first.last());
        }
        lines_add_up(rest, second);
        assert(lines(both) =~= lines(first) + lines(second));
    }
}

/// The lines of the string.
pub fn lines_of(text: &str) -> (found: Vec<String>)
    ensures
        views(found@) == lines(text@),
{
    let chars = chars_of(text);
    let mut feed: Vec<char> = Vec::new();
    feed.push('\n');
    let mut found: Vec<String> = Vec::new();
    let mut start: usize = 0;
    assert(text@.skip(0) =~= text@);
    assert(views(found@) + lines(text@) =~= lines(text@));
    assert(feed@ =~= seq!['\n']);
    loop
        invariant
            chars@ == text@,
            feed@ == seq!['\n'],
            start <= chars@.len(),
            lines(text@) == views(found@) + lines(text@.skip(start as int)),
        decreases chars@.len() - start,
    {
        proof {
            lemma_find_from(text@, seq!['\n'], start as int);
            lemma_find_skip(text@, seq!['\n'], start as int);
        }
        match position_from(&chars, &feed, start) {
            Some(at) => {
                assert(at + feed.len() <= chars.len());
                let end: usize = if at > start && chars[at - 1] == '\r' {
                    at - 1
                } else {
                    at
                };
                let line = string_of(&chars, start, end);
                let ghost before = found@;
                found.push(line);
                proof {
                    let rest = text@.skip(start as int);
                    lemma_views_push(before, line);
                    assert(rest.take(at - start) =~= text@.subrange(start as int, at as int));
                    assert(chomp(rest.take(at - start)) =~= line@);
                    assert(rest.skip(at - start + 1) =~= text@.skip(at + 1));
                    assert(views(before) + (seq![line@] + lines(text@.skip(at + 1))) =~= views(
                        found@,
                    ) + lines(text@.skip(at + 1)));
                }
                start = at + 1;
            },
            None => {
                if start < chars.len() {
                    let line = string_of(&chars, start, chars.len());
                    let ghost before = found@;
                    found.push(line);
                    proof {
                        lemma_views_push(before, line);
                        assert(text@.skip(start as int) =~= line@);
                        assert(views(before) + seq![line@] =~= views(found@));
                    }
                } else {
                    assert(views(found@) + seq![] =~= views(found@));
                }
                return found;
            },
        }
    }
}

/// The texts one after the other, with `separator` between two of them.
pub open spec fn joined(parts: Seq<Seq<char>>, separator: Seq<char>) -> Seq<char>
    decreases parts.len(),
{
    if parts.len() == 0 {
        seq![]
    } else if parts.len() == 1 {
        parts[0]
    } else {
        joined(parts.drop_last(), separator) + separator + parts.last()
    }
}

/// The strings one after the other, with `separator` between two of them.
pub fn join(parts: &Vec<String>, separator: &str) -> (text: String)
    ensures
        text@ == joined(views(parts@), separator@),
{
    if parts.len() == 0 {
        return String::new();
    }
    let mut text = parts[0].clone();
    let mut i: usize = 1;
    assert(views(parts@).take(1) =~= seq![parts@[0]@]);
    while i < parts.len()
        invariant
            1 <= i <= parts@.len(),
            text@ == joined(views(parts@).take(i as int), separator@),
        decreases parts@.len() - i,
    {
        assert(views(parts@).take(i + 1).drop_last() =~= views(parts@).take(i as int));
        text.append(separator);
        text.append(parts[i].as_str());
        i = i + 1;
    }
    assert(views(parts@).take(i as int) =~= views(parts@));
    text
}

/// Copies of some texts.
pub fn copy_texts(texts: &Vec<String>) -> (copies: Vec<String>)
    ensures
        views(copies@) == views(texts@),
{
    let ghost wanted = views(texts@);
    let mut copies: Vec<String> = Vec::new();
    let mut i: usize = 0;
    assert(views(copies@) =~= wanted.take(0));
    while i < texts.len()
        invariant
            i <= texts@.len(),
            wanted == views(texts@),
            views(copies@) == wanted.take(i as int),
        decreases texts@.len() - i,
    {
        let text = texts[i].clone();
        proof {
            lemma_views_push(copies@, text);
            assert(wanted.take(i + 1) =~= wanted.take(i as int).push(text@));
        }
        copies.push(text);
        i = i + 1;
    }
    assert(wanted.take(i as int) =~= wanted);
    copies
}

// ---------------------------------------------------------------------------
// Numbers

/// The decimal digits of a natural number.
pub open spec fn digits(n: nat) -> Seq<char>
    decreases n,
{
    if n < 10 {
        seq![digit(n)]
    } else {
        digits(n / 10).push(digit(n % 10))
    }
}

/// The character of a decimal digit.
pub open spec fn digit(n: nat) -> char {
    (('0' as nat) + n) as char
}

/// An integer in decimal notation.
pub open spec fn decimal(n: int) -> Seq<char> {
    if n < 0 {
        seq!['-'] + digits((-n) as nat)
    } else {
        digits(n as nat)
    }
}

fn digit_char(n: u64) -> (c: char)
    requires
        n < 10,
    ensures
        c == digit(n as nat),
{
    match n {
        0 => '0',
        1 => '1',
        2 => '2',
        3 => '3',
        4 => '4',
        5 => '5',
        6 => '6',
        7 => '7',
        8 => '8',
        _ => '9',
    }
}

fn push_digits(text: &mut String, n: u64)
    ensures
        final(text)@ == old(text)@ + digits(n as nat),
    decreases n,
{
    if n >= 10 {
        push_digits(text, n / 10);
    }
    let c = digit_char(n % 10);
    text.push(c);
    assert(text@ =~= old(text)@ + digits(n as nat));
}

/// The decimal notation of an integer.
pub fn number(n: i64) -> (text: String)
    ensures
        text@ == decimal(n as int),
{
    let mut text = String::new();
    if n < 0 {
        text.push('-');
        let magnitude: u64 = if n == i64::MIN {
            9223372036854775808
        } else {
            (-n) as u64
        };
        push_digits(&mut text, magnitude);
        assert(text@ =~= decimal(n as int));
    } else {
        push_digits(&mut text, n as u64);
        assert(text@ =~= decimal(n as int));
    }
    text
}

/// The decimal notation of a size.
pub fn count(n: usize) -> (text: String)
    ensures
        text@ == decimal(n as int),
{
    let mut text = String::new();
    push_digits(&mut text, n as u64);
    assert(text@ =~= decimal(n as int));
    text
}

/// The value of a decimal digit.
pub open spec fn digit_value(c: char) -> Option<nat> {
    if ('0' as int) <= (c as int) <= ('9' as int) {
        Some((c as int - '0' as int) as nat)
    } else {
        None
    }
}

/// The number that a non-empty run of decimal digits stands for.
pub open spec fn digits_value(text: Seq<char>) -> Option<nat>
    decreases text.len(),
{
    if text.len() == 0 {
        None
    } else {
        match digit_value(text.last()) {
            None => None,
            Some(last) => if text.len() == 1 {
                Some(last)
            } else {
                match digits_value(text.drop_last()) {
                    None => None,
                    Some(higher) => Some(higher * 10 + last),
                }
            },
        }
    }
}

/// The integer that `text` denotes: decimal digits after an optional sign.
pub open spec fn signed_value(text: Seq<char>) -> Option<int> {
    if text.len() > 0 && text[0] == '-' {
        match digits_value(text.skip(1)) {
            Some(n) => Some(-(n as int)),
            None => None,
        }
    } else {
        match unsigned_value(text) {
            Some(n) => Some(n as int),
            None => None,
        }
    }
}

/// The natural number that `text` denotes: decimal digits after an optional `+`.
pub open spec fn unsigned_value(text: Seq<char>) -> Option<nat> {
    if text.len() > 0 && text[0] == '+' {
        digits_value(text.skip(1))
    } else {
        digits_value(text)
    }
}

fn digit_number(c: char) -> (value: Option<u64>)
    ensures
        match value {
            Some(n) => n < 10 && digit_value(c) == Some(n as nat),
            None => digit_value(c) is None,
        },
{
    let code: u32 = c as u32;
    if code < 48 || code > 57 {
        None
    } else {
        Some((code - 48) as u64)
    }
}

/// The value of the digits from `from` on, if it fits in 64 bits.
fn digits_from(chars: &Vec<char>, from: usize) -> (value: Option<u64>)
    requires
        from <= chars@.len(),
    ensures
        match value {
            Some(n) => digits_value(chars@.skip(from as int)) == Some(n as nat),
            None => match digits_value(chars@.skip(from as int)) {
                Some(n) => n > u64::MAX,
                None => true,
            },
        },
{
    if from == chars.len() {
        return None;
    }
    let mut value: u64 = 0;
    let mut i: usize = from;
    while i < chars.len()
        invariant
            from <= i <= chars@.len(),
            from < chars@.len(),
            i == from ==> value == 0,
            i > from ==> digits_value(chars@.subrange(from as int, i as int)) == Some(
                value as nat,
            ),
        decreases chars@.len() - i,
    {
        let ghost upto = chars@.subrange(from as int, i + 1);
        assert(upto.drop_last() =~= chars@.subrange(from as int, i as int));
        assert(upto.last() == chars@[i as int]);
        let last: u64 = match digit_number(chars[i]) {
            Some(last) => last,
            None => {
                proof {
                    lemma_digits_prefix(chars@, from as int, i + 1);
                }
                return None;
            },
        };
        if value > 1844674407370955161 || (value == 1844674407370955161 && last > 5) {
            proof {
                assert(i > from);
                assert(digits_value(upto) == Some((value * 10 + last) as nat));
                lemma_digits_grow(chars@, from as int, i + 1);
            }
            return None;
        }
        value = value * 10 + last;
        i = i + 1;
        assert(digits_value(upto) == Some(value as nat));
    }
    assert(chars@.subrange(from as int, i as int) =~= chars@.skip(from as int));
    Some(value)
}

proof fn lemma_digits_prefix(chars: Seq<char>, from: int, to: int)
    requires
        0 <= from < to <= chars.len(),
        digits_value(chars.subrange(from, to)) is None,
    ensures
        digits_value(chars.skip(from)) is None,
    decreases chars.len() - to,
{
    if to == chars.len() {
        assert(chars.subrange(from, to) =~= chars.skip(from));
    } else {
        assert(chars.subrange(from, to + 1).drop_last() =~= chars.subrange(from, to));
        lemma_digits_prefix(chars, from, to + 1);
    }
}

proof fn lemma_digits_grow(chars: Seq<char>, from: int, to: int)
    requires
        0 <= from < to <= chars.len(),
        digits_value(chars.subrange(from, to)) is Some,
    ensures
        match digits_value(chars.skip(from)) {
            Some(n) => n >= digits_value(chars.subrange(from, to))->0,
            None => true,
        },
    decreases chars.len() - to,
{
    if to == chars.len() {
        assert(chars.subrange(from, to) =~= chars.skip(from));
    } else {
        assert(chars.subrange(from, to + 1).drop_last() =~= chars.subrange(from, to));
        if digits_value(chars.subrange(from, to + 1)) is None {
            lemma_digits_prefix(chars, from, to + 1);
        } else {
            lemma_digits_grow(chars, from, to + 1);
        }
    }
}

/// The natural number that the string denotes, if it fits in 64 bits.
pub fn parse_unsigned(text: &str) -> (value: Option<u64>)
    ensures
        match value {
            Some(n) => unsigned_value(text@) == Some(n as nat),
            None => match unsigned_value(text@) {
                Some(n) => n > u64::MAX,
                None => true,
            },
        },
{
    let chars = chars_of(text);
    assert(text@.skip(0) =~= text@);
    if chars.len() > 0 && chars[0] == '+' {
        digits_from(&chars, 1)
    } else {
        digits_from(&chars, 0)
    }
}

/// The integer that the string denotes, if it fits in 64 bits.
pub fn parse_signed(text: &str) -> (value: Option<i64>)
    ensures
        match value {
            Some(n) => signed_value(text@) == Some(n as int),
            None => match signed_value(text@) {
                Some(n) => n < i64::MIN || n > i64::MAX,
                None => true,
            },
        },
{
    let chars = chars_of(text);
    if chars.len() > 0 && chars[0] == '-' {
        match digits_from(&chars, 1) {
            Some(n) => {
                if n <= 9223372036854775807 {
                    Some(-(n as i64))
                } else if n == 9223372036854775808 {
                    Some(i64::MIN)
                } else {
                    None
                }
            },
            None => None,
        }
    } else {
        match parse_unsigned(text) {
            Some(n) => {
                if n <= 9223372036854775807 {
                    Some(n as i64)
                } else {
                    None
                }
            },
            None => None,
        }
    }
}

proof fn lemma_digits_read(n: nat)
    ensures
        digits(n).len() > 0,
        digits_value(digits(n)) == Some(n),
        digit_value(digits(n)[0]) is Some,
    decreases n,
{
    if n >= 10 {
        lemma_digits_read(n / 10);
        assert(digits(n).drop_last() =~= digits(n / 10));
        assert(digits(n)[0] == digits(n / 10)[0]);
        assert(n == (n / 10) * 10 + n % 10);
    }
}

/// A number that is written in decimal notation is read back as it was.
pub proof fn written_numbers_are_read_back(n: int)
    ensures
        signed_value(decimal(n)) == Some(n),
        n >= 0 ==> unsigned_value(decimal(n)) == Some(n as nat),
{
    if n < 0 {
        lemma_digits_read((-n) as nat);
        assert(decimal(n).skip(1) =~= digits((-n) as nat));
    } else {
        lemma_digits_read(n as nat);
    }
}

} // verus!

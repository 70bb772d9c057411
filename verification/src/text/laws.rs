//! What cutting, trimming and searching make of a text.

use vstd::prelude::*;
use crate::text::{
    after_last, ascii_lower, before_first, contains, ends_with, find, is_space, lemma_find_from,
    lemma_rfind_from, lines, occurs_at, rfind, rsplit_once, split, split_once, squeeze, starts_with,
    strip_prefix, strip_suffix, trim, trim_end, trim_start,
};

verus! {

/// The text is the three, one after the other.
pub open spec fn is_made_of(
    text: Seq<char>,
    first: Seq<char>,
    second: Seq<char>,
    third: Seq<char>,
) -> bool {
    text == first + second + third
}

/// The pattern begins nowhere in the text before `end`.
pub open spec fn none_before(text: Seq<char>, pattern: Seq<char>, end: int) -> bool {
    forall|at: int| 0 <= at < end ==> !#[trigger] occurs_at(text, pattern, at)
}

/// The pattern begins nowhere in the text after `start`.
pub open spec fn none_after(text: Seq<char>, pattern: Seq<char>, start: int) -> bool {
    forall|at: int| start < at ==> !#[trigger] occurs_at(text, pattern, at)
}

/// All of the characters are white space.
pub open spec fn is_blank(text: Seq<char>) -> bool {
    forall|i: int| 0 <= i < text.len() ==> is_space(#[trigger] text[i])
}

/// None of the characters is white space.
pub open spec fn is_solid(text: Seq<char>) -> bool {
    forall|i: int| 0 <= i < text.len() ==> !is_space(#[trigger] text[i])
}

proof fn lemma_occurs(text: Seq<char>, pattern: Seq<char>, at: int)
    ensures
        occurs_at(text, pattern, at) <==> 0 <= at <= text.len() - pattern.len() && is_made_of(
            text,
            text.take(at),
            pattern,
            text.skip(at + pattern.len()),
        ),
{
    if 0 <= at <= text.len() - pattern.len() {
        let end = at + pattern.len();
        let whole = text.take(at) + pattern + text.skip(end);
        if occurs_at(text, pattern, at) {
            assert(text =~= text.take(at) + text.subrange(at, end) + text.skip(end));
        }
        if text == whole {
            assert(whole.subrange(at, end) =~= pattern);
        }
    }
}

/// A text is cut at the first occurrence of a separator: the two parts with the separator
/// between them are the text, and the separator begins nowhere in the first part.
pub proof fn the_first_separator_cuts(
    text: Seq<char>,
    separator: Seq<char>,
    before: Seq<char>,
    after: Seq<char>,
)
    ensures
        split_once(text, separator) == Some((before, after)) <==> is_made_of(
            text,
            before,
            separator,
            after,
        ) && none_before(text, separator, before.len() as int),
        split_once(text, separator) is None <==> !contains(text, separator),
        is_made_of(text, before, separator, after) && none_before(
            text,
            separator,
            before.len() as int,
        ) ==> before_first(text, separator) == before,
        !contains(text, separator) ==> before_first(text, separator) == text,
{
    lemma_find_from(text, separator, 0);
    if let Some(at) = find(text, separator) {
        lemma_occurs(text, separator, at);
        assert(occurs_at(text, separator, at));
    }
    if is_made_of(text, before, separator, after) {
        let at = before.len() as int;
        assert(text.take(at) =~= before);
        assert(text.skip(at + separator.len()) =~= after);
        lemma_occurs(text, separator, at);
        assert(occurs_at(text, separator, at));
        if none_before(text, separator, at) {
            let found = find(text, separator)->0;
            assert(found == at) by {
                if found < at {
                    assert(occurs_at(text, separator, found));
                } else if found > at {
                    assert(!occurs_at(text, separator, at));
                }
            }
        }
    }
}

/// A text is cut at the last occurrence of a separator.
pub proof fn the_last_separator_cuts(
    text: Seq<char>,
    separator: Seq<char>,
    before: Seq<char>,
    after: Seq<char>,
)
    ensures
        rsplit_once(text, separator) == Some((before, after)) <==> is_made_of(
            text,
            before,
            separator,
            after,
        ) && none_after(text, separator, before.len() as int),
        rsplit_once(text, separator) is None <==> !contains(text, separator),
        is_made_of(text, before, separator, after) && none_after(
            text,
            separator,
            before.len() as int,
        ) ==> after_last(text, separator) == after,
        !contains(text, separator) ==> after_last(text, separator) == text,
{
    lemma_rfind_from(text, separator, text.len() - separator.len());
    if let Some(at) = rfind(text, separator) {
        lemma_occurs(text, separator, at);
        assert(occurs_at(text, separator, at));
    }
    if contains(text, separator) {
        let at = choose|at: int| occurs_at(text, separator, at);
        assert(occurs_at(text, separator, at));
    }
    if is_made_of(text, before, separator, after) {
        let at = before.len() as int;
        assert(text.take(at) =~= before);
        assert(text.skip(at + separator.len()) =~= after);
        lemma_occurs(text, separator, at);
        assert(occurs_at(text, separator, at));
        if none_after(text, separator, at) {
            let found = rfind(text, separator)->0;
            assert(found == at) by {
                if found > at {
                    assert(occurs_at(text, separator, found));
                } else if found < at {
                    assert(!occurs_at(text, separator, at));
                }
            }
        }
    }
}

/// Texts with a separator between each two.
pub open spec fn joined(parts: Seq<Seq<char>>, separator: Seq<char>) -> Seq<char>
    decreases parts.len(),
{
    if parts.len() == 0 {
        seq![]
    } else if parts.len() == 1 {
        parts[0]
    } else {
        parts[0] + separator + joined(parts.skip(1), separator)
    }
}

/// The parts of a text, joined by what they were split at, are the text again, and none of
/// them holds it.
pub proof fn parts_join_again(text: Seq<char>, separator: Seq<char>)
    requires
        separator.len() > 0,
    ensures
        joined(split(text, separator), separator) == text,
        split(text, separator).len() > 0,
        forall|i: int|
            0 <= i < split(text, separator).len() ==> !contains(
                #[trigger] split(text, separator)[i],
                separator,
            ),
    decreases text.len(),
{
    lemma_find_from(text, separator, 0);
    let parts = split(text, separator);
    match find(text, separator) {
        Some(at) => {
            let rest = text.skip(at + separator.len());
            parts_join_again(rest, separator);
            let others = split(rest, separator);
            assert(parts =~= seq![text.take(at)] + others);
            assert(parts.skip(1) =~= others);
            lemma_occurs(text, separator, at);
            let first = text.take(at);
            assert(!contains(first, separator)) by {
                if contains(first, separator) {
                    let k = choose|k: int| occurs_at(first, separator, k);
                    assert(text.subrange(k, k + separator.len()) =~= first.subrange(
                        k,
                        k + separator.len(),
                    ));
                    assert(occurs_at(text, separator, k));
                }
            }
            assert forall|i: int| 0 <= i < parts.len() implies !contains(
                #[trigger] parts[i],
                separator,
            ) by {
                if i > 0 {
                    assert(parts[i] == others[i - 1]);
                }
            }
        },
        None => {
            assert(!contains(text, separator)) by {
                if contains(text, separator) {
                    let k = choose|k: int| occurs_at(text, separator, k);
                    assert(occurs_at(text, separator, k));
                }
            }
        },
    }
}

/// A text begins, ends or goes on with another where the rest makes it up.
pub proof fn ends_make_up_the_text(text: Seq<char>, part: Seq<char>, rest: Seq<char>)
    ensures
        strip_prefix(text, part) == Some(rest) <==> text == part + rest,
        strip_suffix(text, part) == Some(rest) <==> text == rest + part,
        starts_with(text, part) <==> strip_prefix(text, part) is Some,
        ends_with(text, part) <==> strip_suffix(text, part) is Some,
        starts_with(part + rest, part),
        ends_with(rest + part, part),
{
    let n = part.len() as int;
    assert((part + rest).subrange(0, n) =~= part);
    assert((part + rest).skip(n) =~= rest);
    assert((rest + part).subrange(rest.len() as int, rest.len() + n) =~= part);
    assert((rest + part).take(rest.len() as int) =~= rest);
    if starts_with(text, part) {
        assert(text =~= text.subrange(0, n) + text.skip(n));
    }
    if ends_with(text, part) {
        let at = text.len() - n;
        assert(text =~= text.take(at) + text.subrange(at, at + n));
    }
}

/// The pattern stands in a text that is made up around it.
pub proof fn a_text_contains_what_it_is_made_of(
    before: Seq<char>,
    pattern: Seq<char>,
    after: Seq<char>,
)
    ensures
        contains(before + pattern + after, pattern),
{
    let text = before + pattern + after;
    let at = before.len() as int;
    assert(text.subrange(at, at + pattern.len()) =~= pattern);
    assert(occurs_at(text, pattern, at));
}

proof fn lemma_trim_start(text: Seq<char>)
    ensures
        trim_start(text).len() <= text.len(),
        text.skip(text.len() - trim_start(text).len()) == trim_start(text),
        is_blank(text.take(text.len() - trim_start(text).len())),
        trim_start(text).len() > 0 ==> !is_space(trim_start(text)[0]),
    decreases text.len(),
{
    if text.len() > 0 && is_space(text[0]) {
        let rest = text.skip(1);
        lemma_trim_start(rest);
        let n = text.len() - trim_start(text).len();
        assert(text.skip(n) =~= rest.skip(n - 1));
        assert forall|i: int| 0 <= i < n implies is_space(#[trigger] text.take(n)[i]) by {
            if i > 0 {
                assert(rest.take(n - 1)[i - 1] == text[i]);
            }
        }
    } else {
        assert(text.skip(0) =~= text);
    }
}

proof fn lemma_trim_end(text: Seq<char>)
    ensures
        trim_end(text).len() <= text.len(),
        text.take(trim_end(text).len() as int) == trim_end(text),
        is_blank(text.skip(trim_end(text).len() as int)),
        trim_end(text).len() > 0 ==> !is_space(trim_end(text).last()),
    decreases text.len(),
{
    if text.len() > 0 && is_space(text.last()) {
        let rest = text.drop_last();
        lemma_trim_end(rest);
        let n = trim_end(text).len() as int;
        assert(text.take(n) =~= rest.take(n));
        assert forall|i: int| 0 <= i < text.skip(n).len() implies is_space(
            #[trigger] text.skip(n)[i],
        ) by {
            if n + i < rest.len() {
                assert(rest.skip(n)[i] == text[n + i]);
            }
        }
    } else {
        assert(text.take(text.len() as int) =~= text);
    }
}

/// Trimming takes the white space around a text away, and nothing else.
pub proof fn trimming_takes_only_space_away(text: Seq<char>)
    ensures
        exists|start: int, end: int|
            #![trigger text.subrange(start, end)]
            0 <= start <= end <= text.len() && trim(text) == text.subrange(start, end) && is_blank(
                text.take(start),
            ) && is_blank(text.skip(end)),
        trim(text).len() > 0 ==> !is_space(trim(text)[0]) && !is_space(trim(text).last()),
        is_blank(text) <==> trim(text).len() == 0,
        is_solid(text) ==> trim(text) == text,
{
    let inner = trim_start(text);
    lemma_trim_start(text);
    lemma_trim_end(inner);
    let start = text.len() - inner.len();
    let end = start + trim(text).len();
    assert(trim(text) =~= text.subrange(start, end));
    assert forall|i: int| 0 <= i < text.skip(end).len() implies is_space(
        #[trigger] text.skip(end)[i],
    ) by {
        assert(inner.skip(trim(text).len() as int)[i] == text[end + i]);
    }
    if trim(text).len() > 0 {
        assert(trim(text)[0] == inner[0]);
        assert(!is_space(text[start]));
    } else {
        assert forall|i: int| 0 <= i < text.len() implies is_space(#[trigger] text[i]) by {
            if i < start {
                assert(text.take(start)[i] == text[i]);
            } else {
                assert(text.skip(end)[i - end] == text[i]);
            }
        }
    }
    if is_solid(text) {
        if start > 0 {
            assert(is_space(text.take(start)[0]));
        }
        if end < text.len() {
            assert(is_space(text.skip(end)[0]));
        }
        assert(text.subrange(0, text.len() as int) =~= text);
    }
}

/// Squeezing takes all white space out of a text, part by part.
pub proof fn squeezing_takes_only_space_out(first: Seq<char>, second: Seq<char>)
    ensures
        is_solid(squeeze(first)),
        is_solid(first) ==> squeeze(first) == first,
        is_blank(first) ==> squeeze(first).len() == 0,
        squeeze(first + second) == squeeze(first) + squeeze(second),
    decreases first.len() + second.len(),
{
    if second.len() > 0 {
        let shorter = second.drop_last();
        squeezing_takes_only_space_out(first, shorter);
        assert((first + second).drop_last() =~= first + shorter);
        assert(squeeze(first + second) =~= squeeze(first) + squeeze(second));
    } else {
        assert(first + second =~= first);
        assert(squeeze(first) + squeeze(second) =~= squeeze(first));
        if first.len() > 0 {
            let shorter = first.drop_last();
            squeezing_takes_only_space_out(shorter, second);
            if is_solid(first) {
                assert forall|i: int| 0 <= i < shorter.len() implies !is_space(
                    #[trigger] shorter[i],
                ) by {
                    assert(first[i] == shorter[i]);
                }
                assert(!is_space(first[first.len() - 1]));
                assert(squeeze(first) =~= first);
            }
            if is_blank(first) {
                assert forall|i: int| 0 <= i < shorter.len() implies is_space(
                    #[trigger] shorter[i],
                ) by {
                    assert(first[i] == shorter[i]);
                }
                assert(is_space(first[first.len() - 1]));
            }
        }
    }
}

/// Only the letters from `A` to `Z` change, each to its small letter.
pub proof fn only_capitals_are_lowered(text: Seq<char>, i: int)
    requires
        0 <= i < text.len(),
    ensures
        ascii_lower(text).len() == text.len(),
        'A' <= text[i] <= 'Z' ==> ascii_lower(text)[i] as int == text[i] as int + 'a' as int
            - 'A' as int,
        !('A' <= text[i] <= 'Z') ==> ascii_lower(text)[i] == text[i],
        ascii_lower(ascii_lower(text)) == ascii_lower(text),
{
    assert(ascii_lower(ascii_lower(text)) =~= ascii_lower(text));
}

/// The text holds no line feed.
pub open spec fn is_one_line(text: Seq<char>) -> bool {
    forall|i: int| 0 <= i < text.len() ==> #[trigger] text[i] != '\n'
}

/// A line ends at a line feed, and goes without a carriage return before that. What stands
/// after the last line feed is a line where it is something.
pub proof fn lines_end_at_feeds(line: Seq<char>, rest: Seq<char>)
    requires
        is_one_line(line),
    ensures
        line.len() == 0 || line.last() != '\r' ==> lines(line + seq!['\n'] + rest) == seq![line]
            + lines(rest),
        lines(line + seq!['\r'] + seq!['\n'] + rest) == seq![line] + lines(rest),
        line.len() > 0 ==> lines(line) == seq![line],
        lines(Seq::<char>::empty()).len() == 0,
{
    lemma_line(line, rest);
    let returned = line + seq!['\r'];
    assert(is_one_line(returned)) by {
        assert forall|i: int| 0 <= i < returned.len() implies #[trigger] returned[i] != '\n' by {
            if i < line.len() {
                assert(returned[i] == line[i]);
            }
        }
    }
    lemma_line(returned, rest);
    assert(returned.drop_last() =~= line);
    lemma_find_from(line, seq!['\n'], 0);
    if let Some(at) = find(line, seq!['\n']) {
        assert(line.subrange(at, at + 1)[0] == line[at]);
    }
    let none = Seq::<char>::empty();
    lemma_find_from(none, seq!['\n'], 0);
}

proof fn lemma_line(line: Seq<char>, rest: Seq<char>)
    requires
        is_one_line(line),
    ensures
        lines(line + seq!['\n'] + rest) == seq![
            if line.len() > 0 && line.last() == '\r' {
                line.drop_last()
            } else {
                line
            },
        ] + lines(rest),
{
    let feed = seq!['\n'];
    let text = line + feed + rest;
    assert forall|at: int| 0 <= at < line.len() implies !#[trigger] occurs_at(text, feed, at) by {
        if occurs_at(text, feed, at) {
            assert(text.subrange(at, at + 1)[0] == text[at]);
            assert(text[at] == line[at]);
        }
    }
    the_first_separator_cuts(text, feed, line, rest);
    assert(is_made_of(text, line, feed, rest));
    assert(none_before(text, feed, line.len() as int));
    lemma_find_from(text, feed, 0);
    let at = find(text, feed)->0;
    assert(text.take(at) == line);
    assert(text.skip(at + 1) == rest);
}

/// A text is split at the first occurrence of a separator, and what follows is split on.
pub proof fn splitting_goes_on_after_the_first(
    first: Seq<char>,
    separator: Seq<char>,
    rest: Seq<char>,
)
    requires
        separator.len() > 0,
        none_before(first + separator + rest, separator, first.len() as int),
    ensures
        split(first + separator + rest, separator) == seq![first] + split(rest, separator),
{
    let text = first + separator + rest;
    the_first_separator_cuts(text, separator, first, rest);
    assert(is_made_of(text, first, separator, rest));
    lemma_find_from(text, separator, 0);
    let at = find(text, separator)->0;
    assert(text.take(at) == first);
    assert(text.skip(at + separator.len()) == rest);
}

} // verus!

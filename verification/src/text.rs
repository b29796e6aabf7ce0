//! The saved form of a list: one line per task that has text.
//!
//! Saving writes each non-empty text followed by a newline. Loading makes one
//! task per line and keeps empty lines, so the two are inverse to each other
//! only up to the empty tasks, which a save drops.

use vstd::prelude::*;
use vstd::string::*;

verus! {

/// The number of characters before the first newline of `s`, or the length
/// of `s` if it has none.
pub open spec fn line_end(s: Seq<char>) -> int
    decreases s.len(),
{
    if s.len() == 0 || s[0] == '\n' {
        0
    } else {
        1 + line_end(s.drop_first())
    }
}

/// A line as it was cut off at its newline, less the carriage return that
/// may stand before the newline.
pub open spec fn without_cr(line: Seq<char>) -> Seq<char> {
    if line.len() > 0 && line.last() == '\r' {
        line.drop_last()
    } else {
        line
    }
}

/// The lines of `s`: it is cut at each newline, a carriage return just before
/// a newline goes with it, and what follows the last newline is a line only
/// if it is not empty.
pub open spec fn lines_of(s: Seq<char>) -> Seq<Seq<char>>
    decreases s.len(),
{
    let end = line_end(s);
    if s.len() == 0 {
        Seq::empty()
    } else if !(0 <= end < s.len()) {
        seq![s]
    } else {
        seq![without_cr(s.take(end))] + lines_of(s.skip(end + 1))
    }
}

/// What one text adds to the saved form: itself and a newline, or nothing if
/// it is empty.
pub open spec fn saved_line(text: Seq<char>) -> Seq<char> {
    if text.len() == 0 {
        Seq::empty()
    } else {
        text.push('\n')
    }
}

/// The saved form of the texts, in their order.
pub open spec fn payload_of(texts: Seq<Seq<char>>) -> Seq<char>
    decreases texts.len(),
{
    if texts.len() == 0 {
        Seq::empty()
    } else {
        saved_line(texts[0]) + payload_of(texts.drop_first())
    }
}

/// The texts that are not empty, in their order.
pub open spec fn filled(texts: Seq<Seq<char>>) -> Seq<Seq<char>>
    decreases texts.len(),
{
    if texts.len() == 0 {
        Seq::empty()
    } else if texts[0].len() == 0 {
        filled(texts.drop_first())
    } else {
        seq![texts[0]] + filled(texts.drop_first())
    }
}

/// A text that a save and a load give back as it was: it holds no newline
/// and does not end in a carriage return.
pub open spec fn single_line(text: Seq<char>) -> bool {
    &&& forall|i: int| 0 <= i < text.len() ==> text[i] != '\n'
    &&& without_cr(text) == text
}

/// The texts of a vector of strings.
pub open spec fn views(v: Seq<String>) -> Seq<Seq<char>> {
    Seq::new(v.len(), |i: int| v[i]@)
}

/// `line_end` finds the first newline: if none stands before `j`, and `j` is
/// a newline or the end, it is `j`.
pub proof fn lemma_line_end(s: Seq<char>, j: int)
    requires
        0 <= j <= s.len(),
        forall|i: int| 0 <= i < j ==> s[i] != '\n',
        j == s.len() || s[j] == '\n',
    ensures
        line_end(s) == j,
    decreases j,
{
    if j > 0 {
        lemma_line_end(s.drop_first(), j - 1);
    }
}

/// Appending a text to the list appends its saved line to the saved form.
pub proof fn lemma_payload_push(texts: Seq<Seq<char>>, text: Seq<char>)
    ensures
        payload_of(texts.push(text)) == payload_of(texts) + saved_line(text),
    decreases texts.len(),
{
    if texts.len() == 0 {
        assert(texts.push(text).drop_first() =~= Seq::<Seq<char>>::empty());
        assert(payload_of(texts.push(text).drop_first()) =~= Seq::<char>::empty());
        assert(payload_of(texts) =~= Seq::<char>::empty());
        assert(payload_of(texts.push(text)) =~= saved_line(text));
        assert(payload_of(texts) + saved_line(text) =~= saved_line(text));
    } else {
        assert(texts.push(text).drop_first() =~= texts.drop_first().push(text));
        lemma_payload_push(texts.drop_first(), text);
        assert(payload_of(texts.push(text)) =~= payload_of(texts) + saved_line(text));
    }
}

/// Saving and loading again gives the texts that were not empty, in their
/// order, provided each text is a single line. (A text that holds a newline
/// comes back as two lines; empty texts are dropped by the save.)
pub proof fn lemma_round_trip(texts: Seq<Seq<char>>)
    requires
        forall|i: int| 0 <= i < texts.len() ==> single_line(#[trigger] texts[i]),
    ensures
        lines_of(payload_of(texts)) == filled(texts),
    decreases texts.len(),
{
    if texts.len() > 0 {
        let first = texts[0];
        let rest = texts.drop_first();
        assert forall|i: int| 0 <= i < rest.len() implies single_line(#[trigger] rest[i]) by {
            assert(rest[i] == texts[i + 1]);
        }
        lemma_round_trip(rest);
        if first.len() == 0 {
            assert(payload_of(texts) =~= payload_of(rest));
        } else {
            let s = payload_of(texts);
            let end = first.len() as int;
            assert(single_line(first));
            assert(s =~= first.push('\n') + payload_of(rest));
            lemma_line_end(s, end);
            assert(s.take(end) =~= first);
            assert(s.skip(end + 1) =~= payload_of(rest));
        }
    }
}

/// Loading what was saved from a list of single-line texts and saving it
/// again gives the same saved form: after the first save the file is stable.
pub proof fn lemma_saved_form_is_stable(texts: Seq<Seq<char>>)
    requires
        forall|i: int| 0 <= i < texts.len() ==> single_line(#[trigger] texts[i]),
    ensures
        payload_of(lines_of(payload_of(texts))) == payload_of(texts),
    decreases texts.len(),
{
    lemma_round_trip(texts);
    lemma_payload_of_filled(texts);
}

/// The empty texts add nothing to the saved form.
pub proof fn lemma_payload_of_filled(texts: Seq<Seq<char>>)
    ensures
        payload_of(filled(texts)) == payload_of(texts),
    decreases texts.len(),
{
    if texts.len() > 0 {
        let rest = texts.drop_first();
        lemma_payload_of_filled(rest);
        if texts[0].len() != 0 {
            assert((seq![texts[0]] + filled(rest)).drop_first() =~= filled(rest));
        } else {
            assert(payload_of(texts) =~= payload_of(rest));
        }
    }
}

/// Cuts a text into its lines.
pub fn split_lines(text: &str) -> (lines: Vec<String>)
    ensures
        views(lines@) == lines_of(text@),
{
    let n = text.unicode_len();
    let mut lines: Vec<String> = Vec::new();
    let mut start: usize = 0;
    let mut i: usize = 0;
    assert(views(lines@) =~= Seq::<Seq<char>>::empty());
    assert(text@.skip(0) =~= text@);
    while i < n
        invariant
            start <= i <= n,
            n == text@.len(),
            forall|j: int| start <= j < i ==> text@[j] != '\n',
            lines_of(text@) == views(lines@) + lines_of(text@.skip(start as int)),
        decreases n - i,
    {
        if text.get_char(i) == '\n' {
            let mut end = i;
            if end > start && text.get_char(end - 1) == '\r' {
                end = end - 1;
            }
            let line = String::from_str(text.substring_char(start, end));
            proof {
                let rest = text@.skip(start as int);
                lemma_line_end(rest, i - start);
                assert(rest.take(i - start) =~= text@.subrange(start as int, i as int));
                assert(without_cr(rest.take(i - start)) =~= line@);
                assert(rest.skip(i - start + 1) =~= text@.skip(i + 1));
                assert(views(lines@.push(line)) =~= views(lines@) + seq![line@]);
            }
            lines.push(line);
            start = i + 1;
        }
        i = i + 1;
    }
    if start < n {
        let line = String::from_str(text.substring_char(start, n));
        proof {
            let rest = text@.skip(start as int);
            lemma_line_end(rest, n - start);
            assert(rest =~= line@);
            assert(views(lines@.push(line)) =~= views(lines@) + seq![line@]);
        }
        lines.push(line);
    } else {
        assert(text@.skip(start as int) =~= Seq::<char>::empty());
        assert(views(lines@) + Seq::<Seq<char>>::empty() =~= views(lines@));
    }
    lines
}

} // verus!

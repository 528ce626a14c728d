//! One line of the configuration file: a comment, a blank, a line without a
//! delimiter, or `label::payload`.

use crate::entry::{ButtonConfig, Entry};
use crate::escape::{
    decode, decode_range, has_escape, lemma_decode_has_no_escape, lemma_decode_plain,
};
use crate::field::{
    delimiter_at, delimiter_free, field_end, find_field_end, has_delimiter, is_field_end,
    lemma_field_end, lemma_field_end_unique, lemma_has_delimiter,
};
use crate::text::{from_chars, is_whitespace, to_chars, white_space};
use vstd::prelude::*;

verus! {

/// The delimiter between the fields of a line.
pub open spec fn delimiter() -> Seq<char> {
    seq![':', ':']
}

/// Whether the first character of `line` that is not whitespace is `#`.
pub open spec fn is_comment(line: Seq<char>) -> bool {
    exists|i: int|
        0 <= i < line.len() && line[i] == '#' && forall|j: int|
            0 <= j < i ==> white_space(#[trigger] line[j])
}

/// Whether `line` gives no entry: it is empty, a comment, or has no
/// delimiter.
pub open spec fn is_skipped(line: Seq<char>) -> bool {
    line.len() == 0 || is_comment(line) || !has_delimiter(line)
}

/// The entry that `line` gives, if it gives one. The label is the text
/// before the first delimiter, as it stands. The payload is the text between
/// the first delimiter and the next one, or the end of the line where there
/// is no other, with its escapes decoded.
pub open spec fn entry_of_line(line: Seq<char>) -> Option<Entry> {
    if is_skipped(line) {
        None
    } else {
        let i = field_end(line, 0);
        let j = field_end(line, i + 2);
        Some(Entry { label: line.subrange(0, i), payload: decode(line.subrange(i + 2, j)) })
    }
}

/// Tells whether the first character of `line` that is not whitespace is
/// `#`.
pub(crate) fn starts_comment(line: &Vec<char>) -> (r: bool)
    ensures
        r == is_comment(line@),
{
    let n = line.len();
    let mut i: usize = 0;
    while i < n && is_whitespace(line[i])
        invariant
            n == line.len(),
            i <= n,
            forall|j: int| 0 <= j < i ==> white_space(#[trigger] line@[j]),
        decreases n - i,
    {
        i += 1;
    }
    if i < n && line[i] == '#' {
        true
    } else {
        proof {
            assert forall|k: int|
                !(0 <= k < line@.len() && line@[k] == '#' && forall|j: int|
                    0 <= j < k ==> white_space(#[trigger] line@[j])) by {
                if 0 <= k < line@.len() && line@[k] == '#' {
                    if k < i {
                        assert(white_space(line@[k]));
                    } else if k > i {
                        assert(!white_space(line@[i as int]));
                    }
                }
            }
        }
        false
    }
}

/// Reads one line that has already been taken apart into characters.
pub(crate) fn parse_chars(line: &Vec<char>) -> (r: Option<ButtonConfig>)
    ensures
        r.deep_view() == entry_of_line(line@),
{
    if line.len() == 0 || starts_comment(line) {
        return None;
    }
    let i = find_field_end(line, 0);
    proof {
        lemma_has_delimiter(line@);
    }
    if i == line.len() {
        return None;
    }
    let j = find_field_end(line, i + 2);
    let label = from_chars(line, 0, i);
    let payload = decode_range(line, i + 2, j);
    proof {
        lemma_decode_has_no_escape(line@.subrange(i + 2, j as int));
    }
    Some(ButtonConfig::from_decoded(label, payload))
}

/// Reads one line of the configuration file. The result is `None` exactly
/// for the lines that are skipped.
pub fn parse_line(line: &str) -> (r: Option<ButtonConfig>)
    ensures
        r.deep_view() == entry_of_line(line@),
        r is None <==> is_skipped(line@),
{
    let chars = to_chars(line);
    parse_chars(&chars)
}

/// An empty line and a comment give no entry.
pub proof fn lemma_blank_or_comment_gives_nothing(line: Seq<char>)
    requires
        line.len() == 0 || is_comment(line),
    ensures
        entry_of_line(line) is None,
{
}

/// A line without a delimiter gives no entry.
pub proof fn lemma_no_delimiter_gives_nothing(line: Seq<char>)
    requires
        !has_delimiter(line),
    ensures
        entry_of_line(line) is None,
{
}

/// Every other line gives an entry: one that is not empty, is no comment and
/// has a delimiter, whatever else it holds.
pub proof fn lemma_entry_iff_not_skipped(line: Seq<char>)
    ensures
        entry_of_line(line) is Some <==> line.len() > 0 && !is_comment(line) && has_delimiter(
            line,
        ),
{
}

/// The label of an entry holds no delimiter, and its payload holds no
/// escape.
pub proof fn lemma_entry_fields(line: Seq<char>)
    requires
        entry_of_line(line) is Some,
    ensures
        !has_delimiter(entry_of_line(line)->0.label),
        !has_escape(entry_of_line(line)->0.payload),
{
    let i = field_end(line, 0);
    let j = field_end(line, i + 2);
    lemma_field_end(line, 0);
    let label = line.subrange(0, i);
    assert forall|k: int| !delimiter_at(label, k) by {
        if delimiter_at(label, k) {
            assert(delimiter_at(line, k));
        }
    }
    lemma_decode_has_no_escape(line.subrange(i + 2, j));
}

/// The general form of a line with an entry. Let `label` hold no delimiter,
/// not end in a colon and not start a comment, and let `raw` hold no
/// delimiter. Then the line `label::raw` gives the entry with that label and
/// with `raw` decoded as its payload. So does the line `label::raw` followed
/// by any `tail` that starts with a delimiter, where `raw` does not end in a
/// colon: what follows the second delimiter is dropped.
pub proof fn lemma_line_with_fields(label: Seq<char>, raw: Seq<char>, tail: Seq<char>)
    requires
        !has_delimiter(label),
        label.len() > 0 ==> label.last() != ':',
        !is_comment(label),
        !has_delimiter(raw),
        tail.len() == 0 || (tail.len() >= 2 && delimiter_at(tail, 0) && (raw.len() > 0
            ==> raw.last() != ':')),
    ensures
        entry_of_line(label + delimiter() + raw + tail) == Some(
            Entry { label, payload: decode(raw) },
        ),
{
    let line = label + delimiter() + raw + tail;
    let i = label.len() as int;
    let j = i + 2 + raw.len();
    assert(delimiter_at(line, i));
    assert(has_delimiter(line));
    assert(delimiter_free(line, 0, i)) by {
        assert forall|k: int| 0 <= k < i implies !delimiter_at(line, k) by {
            if delimiter_at(line, k) {
                if k + 1 < i {
                    assert(delimiter_at(label, k));
                } else {
                    assert(label.last() == line[k]);
                }
            }
        }
    }
    lemma_field_end_unique(line, 0, i);
    assert(delimiter_free(line, i + 2, j)) by {
        assert forall|k: int| i + 2 <= k < j implies !delimiter_at(line, k) by {
            if delimiter_at(line, k) {
                if k + 1 < j {
                    assert(raw[k - i - 2] == line[k]);
                    assert(raw[k - i - 1] == line[k + 1]);
                    assert(delimiter_at(raw, k - i - 2));
                } else {
                    assert(raw.last() == line[k]);
                }
            }
        }
    }
    if tail.len() > 0 {
        assert(line[j] == tail[0]);
        assert(line[j + 1] == tail[1]);
        assert(delimiter_at(line, j));
    }
    assert(is_field_end(line, i + 2, j));
    lemma_field_end_unique(line, i + 2, j);
    assert(!is_comment(line)) by {
        if is_comment(line) {
            let c = choose|c: int|
                0 <= c < line.len() && line[c] == '#' && forall|m: int|
                    0 <= m < c ==> white_space(#[trigger] line[m]);
            if c < i {
                assert(label[c] == '#');
                assert forall|m: int| 0 <= m < c implies white_space(
                    #[trigger] label[m],
                ) by {
                    assert(label[m] == line[m]);
                }
                assert(is_comment(label));
            } else {
                assert(white_space(line[i]));
            }
        }
    }
    assert(line.subrange(0, i) =~= label);
    assert(line.subrange(i + 2, j) =~= raw);
}

/// A line `label::payload` whose payload holds neither an escape nor a
/// delimiter gives exactly that label and that payload. The label is as in
/// [`lemma_line_with_fields`].
pub proof fn lemma_plain_line(label: Seq<char>, payload: Seq<char>)
    requires
        !has_delimiter(label),
        label.len() > 0 ==> label.last() != ':',
        !is_comment(label),
        !has_delimiter(payload),
        !has_escape(payload),
    ensures
        entry_of_line(label + delimiter() + payload) == Some(Entry { label, payload }),
{
    lemma_line_with_fields(label, payload, Seq::empty());
    assert(label + delimiter() + payload + Seq::<char>::empty() =~= label + delimiter()
        + payload);
    lemma_decode_plain(payload);
}

} // verus!

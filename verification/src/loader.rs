//! The configuration as a whole: a text is cut into lines, and the lines
//! that hold an entry give the buttons, in the order in which they stand.

use crate::entry::{ButtonConfig, Entry};
use crate::line::{entry_of_line, parse_line};
use crate::text::{from_chars, to_chars};
use vstd::prelude::*;

verus! {

/// Whether the line that starts at `from` ends just before index `k`: `k`
/// is the first index at or after `from` that holds a line feed, or the
/// length of `text` when there is none.
pub open spec fn is_line_end(text: Seq<char>, from: int, k: int) -> bool {
    &&& from <= k <= text.len()
    &&& forall|j: int| from <= j < k ==> text[j] != '\n'
    &&& (k == text.len() || text[k] == '\n')
}

/// The end of the line that starts at `from`.
pub open spec fn line_end(text: Seq<char>, from: int) -> int {
    choose|k: int| is_line_end(text, from, k)
}

/// `line` without the carriage return at its end, if it has one there.
pub open spec fn strip_cr(line: Seq<char>) -> Seq<char> {
    if line.len() > 0 && line.last() == '\r' {
        line.drop_last()
    } else {
        line
    }
}

/// The lines of `text` from index `from` on. A line ends with a line feed,
/// which is not part of it, nor is a carriage return just before that line
/// feed. What follows the last line feed is a line too, unless it is empty,
/// and is taken as it stands.
pub open spec fn lines_from(text: Seq<char>, from: int) -> Seq<Seq<char>>
    decreases text.len() - from,
{
    if 0 <= from < text.len() {
        let k = line_end(text, from);
        if from <= k < text.len() {
            seq![strip_cr(text.subrange(from, k))] + lines_from(text, k + 1)
        } else {
            seq![text.subrange(from, text.len() as int)]
        }
    } else {
        Seq::empty()
    }
}

/// The lines of `text`.
pub open spec fn lines_of(text: Seq<char>) -> Seq<Seq<char>> {
    lines_from(text, 0)
}

/// The entries that `lines` give: one for each line that holds one, in the
/// order of the lines.
pub open spec fn entries_of_lines(lines: Seq<Seq<char>>) -> Seq<Entry>
    decreases lines.len(),
{
    if lines.len() == 0 {
        Seq::empty()
    } else {
        let before = entries_of_lines(lines.drop_last());
        match entry_of_line(lines.last()) {
            Some(e) => before.push(e),
            None => before,
        }
    }
}

/// The entries that the configuration text `text` gives.
pub open spec fn entries_of_text(text: Seq<char>) -> Seq<Entry> {
    entries_of_lines(lines_of(text))
}

/// How many entries come from the first `i` lines.
pub open spec fn entries_before(lines: Seq<Seq<char>>, i: int) -> nat {
    entries_of_lines(lines.take(i)).len()
}

proof fn lemma_line_end_exists(text: Seq<char>, from: int) -> (k: int)
    requires
        0 <= from <= text.len(),
    ensures
        is_line_end(text, from, k),
    decreases text.len() - from,
{
    if from == text.len() || text[from] == '\n' {
        from
    } else {
        lemma_line_end_exists(text, from + 1)
    }
}

/// Every line has an end.
pub proof fn lemma_line_end(text: Seq<char>, from: int)
    requires
        0 <= from <= text.len(),
    ensures
        is_line_end(text, from, line_end(text, from)),
{
    let k = lemma_line_end_exists(text, from);
}

/// A line has only one end.
pub proof fn lemma_line_end_unique(text: Seq<char>, from: int, k: int)
    requires
        is_line_end(text, from, k),
    ensures
        line_end(text, from) == k,
{
    let c = line_end(text, from);
    if c < k {
        assert(text[c] != '\n');
    } else if k < c {
        assert(text[k] != '\n');
    }
}

/// No line holds a line feed.
pub proof fn lemma_lines_hold_no_line_feed(text: Seq<char>, from: int)
    requires
        0 <= from <= text.len(),
    ensures
        forall|i: int, j: int|
            0 <= i < lines_from(text, from).len() && 0 <= j < lines_from(text, from)[i].len()
                ==> #[trigger] lines_from(text, from)[i][j] != '\n',
    decreases text.len() - from,
{
    if from < text.len() {
        lemma_line_end(text, from);
        let k = line_end(text, from);
        let whole = text.subrange(from, k);
        assert forall|j: int| 0 <= j < whole.len() implies whole[j] != '\n' by {
            assert(whole[j] == text[from + j]);
        }
        if k < text.len() {
            lemma_lines_hold_no_line_feed(text, k + 1);
            let first = strip_cr(whole);
            let rest = lines_from(text, k + 1);
            assert forall|i: int, j: int|
                0 <= i < lines_from(text, from).len() && 0 <= j < lines_from(
                    text,
                    from,
                )[i].len() implies #[trigger] lines_from(text, from)[i][j] != '\n' by {
                if i == 0 {
                    assert(lines_from(text, from)[0] == first);
                    assert(first[j] == whole[j]);
                } else {
                    assert(lines_from(text, from)[i] == rest[i - 1]);
                }
            }
        }
    }
}

/// The lines from an index on are the lines of the text that starts there.
pub proof fn lemma_lines_from_is_lines_of_rest(text: Seq<char>, from: int)
    requires
        0 <= from <= text.len(),
    ensures
        lines_from(text, from) == lines_of(text.skip(from)),
    decreases text.len() - from,
{
    let rest = text.skip(from);
    if from < text.len() {
        lemma_line_end(text, from);
        let k = line_end(text, from);
        assert(is_line_end(rest, 0, k - from)) by {
            assert forall|j: int| 0 <= j < k - from implies rest[j] != '\n' by {
                assert(rest[j] == text[from + j]);
            }
        }
        lemma_line_end_unique(rest, 0, k - from);
        assert(rest.subrange(0, k - from) =~= text.subrange(from, k));
        if k < text.len() {
            lemma_lines_from_is_lines_of_rest(text, k + 1);
            lemma_lines_from_is_lines_of_rest(rest, k - from + 1);
            assert(rest.skip(k - from + 1) =~= text.skip(k + 1));
        } else {
            assert(rest.subrange(0, rest.len() as int) =~= text.subrange(
                from,
                text.len() as int,
            ));
        }
    }
}

/// A text without a line feed is one line, taken as it stands, unless it is
/// empty: an empty text has no line.
pub proof fn lemma_lines_of_last_line(a: Seq<char>)
    requires
        forall|j: int| 0 <= j < a.len() ==> a[j] != '\n',
    ensures
        a.len() == 0 ==> lines_of(a) == Seq::<Seq<char>>::empty(),
        a.len() > 0 ==> lines_of(a) == seq![a],
{
    if a.len() > 0 {
        lemma_line_end_unique(a, 0, a.len() as int);
        assert(a.subrange(0, a.len() as int) =~= a);
    }
}

/// A text is read line by line: where `a` holds no line feed, the lines of
/// `a`, a line feed and `b` are `a` without a carriage return at its end,
/// followed by the lines of `b`.
pub proof fn lemma_lines_of_first_line(a: Seq<char>, b: Seq<char>)
    requires
        forall|j: int| 0 <= j < a.len() ==> a[j] != '\n',
    ensures
        lines_of(a + seq!['\n'] + b) == seq![strip_cr(a)] + lines_of(b),
{
    let text = a + seq!['\n'] + b;
    let k = a.len() as int;
    assert(is_line_end(text, 0, k)) by {
        assert forall|j: int| 0 <= j < k implies text[j] != '\n' by {
            assert(text[j] == a[j]);
        }
    }
    lemma_line_end_unique(text, 0, k);
    assert(text.subrange(0, k) =~= a);
    lemma_lines_from_is_lines_of_rest(text, k + 1);
    assert(text.skip(k + 1) =~= b);
}

/// The entries of two runs of lines, one after the other, are the entries of
/// the first run followed by those of the second.
pub proof fn lemma_entries_concat(a: Seq<Seq<char>>, b: Seq<Seq<char>>)
    ensures
        entries_of_lines(a + b) == entries_of_lines(a) + entries_of_lines(b),
    decreases b.len(),
{
    if b.len() == 0 {
        assert(a + b =~= a);
        assert(entries_of_lines(a) + entries_of_lines(b) =~= entries_of_lines(a));
    } else {
        assert((a + b).drop_last() =~= a + b.drop_last());
        assert((a + b).last() == b.last());
        lemma_entries_concat(a, b.drop_last());
        let before = entries_of_lines(a) + entries_of_lines(b.drop_last());
        match entry_of_line(b.last()) {
            Some(e) => {
                assert(before.push(e) =~= entries_of_lines(a) + entries_of_lines(
                    b.drop_last(),
                ).push(e));
            },
            None => {},
        }
    }
}

/// The entry of a line stands in the output at the position that is the
/// number of entries that the lines before it give.
pub proof fn lemma_entry_position(lines: Seq<Seq<char>>, i: int)
    requires
        0 <= i < lines.len(),
        entry_of_line(lines[i]) is Some,
    ensures
        entries_before(lines, i) < entries_of_lines(lines).len(),
        entries_of_lines(lines)[entries_before(lines, i) as int] == entry_of_line(lines[i])->0,
        entries_before(lines, i + 1) == entries_before(lines, i) + 1,
{
    let head = lines.take(i + 1);
    let tail = lines.skip(i + 1);
    assert(head + tail =~= lines);
    lemma_entries_concat(head, tail);
    assert(head.drop_last() =~= lines.take(i));
    assert(head.last() == lines[i]);
}

/// A line without an entry adds nothing to the output.
pub proof fn lemma_skipped_line_adds_nothing(lines: Seq<Seq<char>>, i: int)
    requires
        0 <= i < lines.len(),
        entry_of_line(lines[i]) is None,
    ensures
        entries_before(lines, i + 1) == entries_before(lines, i),
{
    let head = lines.take(i + 1);
    assert(head.drop_last() =~= lines.take(i));
    assert(head.last() == lines[i]);
}

/// The number of entries before a line does not fall as the line moves down,
/// and ends at the number of entries of all the lines.
pub proof fn lemma_entries_before_grows(lines: Seq<Seq<char>>, i: int, j: int)
    requires
        0 <= i <= j <= lines.len(),
    ensures
        entries_before(lines, i) <= entries_before(lines, j),
        entries_before(lines, lines.len() as int) == entries_of_lines(lines).len(),
    decreases j - i,
{
    assert(lines.take(lines.len() as int) =~= lines);
    if i < j {
        lemma_entries_before_grows(lines, i, j - 1);
        if entry_of_line(lines[j - 1]) is Some {
            lemma_entry_position(lines, j - 1);
        } else {
            lemma_skipped_line_adds_nothing(lines, j - 1);
        }
    }
}

/// The output keeps the order of the lines: of two lines that hold an entry,
/// the entry of the earlier line stands before the entry of the later one.
pub proof fn lemma_order_preserved(lines: Seq<Seq<char>>, i: int, j: int)
    requires
        0 <= i < j < lines.len(),
        entry_of_line(lines[i]) is Some,
        entry_of_line(lines[j]) is Some,
    ensures
        entries_before(lines, i) < entries_before(lines, j) < entries_of_lines(lines).len(),
        entries_of_lines(lines)[entries_before(lines, i) as int] == entry_of_line(lines[i])->0,
        entries_of_lines(lines)[entries_before(lines, j) as int] == entry_of_line(lines[j])->0,
{
    lemma_entry_position(lines, i);
    lemma_entry_position(lines, j);
    lemma_entries_before_grows(lines, i + 1, j);
}

/// Every entry of the output comes from a line: the one before which as many
/// entries stand as the entry's position says.
pub proof fn lemma_entry_has_source(lines: Seq<Seq<char>>, p: int) -> (i: int)
    requires
        0 <= p < entries_of_lines(lines).len(),
    ensures
        0 <= i < lines.len(),
        entry_of_line(lines[i]) == Some(entries_of_lines(lines)[p]),
        entries_before(lines, i) == p,
    decreases lines.len(),
{
    let before = lines.drop_last();
    let last = lines.len() - 1;
    assert(lines.take(last) =~= before);
    if entry_of_line(lines.last()) is Some && p == entries_of_lines(before).len() {
        last
    } else {
        let i = lemma_entry_has_source(before, p);
        assert(before.take(i) =~= lines.take(i));
        i
    }
}

/// Reading the same text twice gives the same entries, one by one.
pub proof fn lemma_reading_twice_agrees(text: Seq<char>, first: Seq<Entry>, second: Seq<Entry>)
    requires
        first == entries_of_text(text),
        second == entries_of_text(text),
    ensures
        first.len() == second.len(),
        forall|p: int| 0 <= p < first.len() ==> first[p] == second[p],
{
}

/// Finds where the line that starts at `from` ends.
fn find_line_end(text: &Vec<char>, from: usize) -> (k: usize)
    requires
        from <= text.len(),
    ensures
        k == line_end(text@, from as int),
        is_line_end(text@, from as int, k as int),
{
    let n = text.len();
    let mut i: usize = from;
    while i < n && text[i] != '\n'
        invariant
            n == text.len(),
            from <= i <= n,
            forall|j: int| from <= j < i ==> text@[j] != '\n',
        decreases n - i,
    {
        i += 1;
    }
    proof {
        lemma_line_end_unique(text@, from as int, i as int);
    }
    i
}

/// Cuts `text` into its lines.
pub fn split_lines(text: &str) -> (lines: Vec<String>)
    ensures
        lines.deep_view() == lines_of(text@),
{
    let chars = to_chars(text);
    let n = chars.len();
    let mut lines: Vec<String> = Vec::new();
    let mut start: usize = 0;
    while start < n
        invariant
            n == chars.len(),
            chars@ == text@,
            start <= n,
            lines.deep_view() + lines_from(chars@, start as int) == lines_of(chars@),
        decreases n - start,
    {
        let ghost done = lines.deep_view();
        let k = find_line_end(&chars, start);
        if k < n {
            let end = if k > start && chars[k - 1] == '\r' {
                k - 1
            } else {
                k
            };
            let line = from_chars(&chars, start, end);
            proof {
                let whole = chars@.subrange(start as int, k as int);
                if k > start {
                    assert(whole.last() == chars@[k - 1]);
                }
                assert(line@ =~= strip_cr(whole));
            }
            lines.push(line);
            proof {
                assert(lines.deep_view() =~= done.push(line@));
                assert(done.push(line@) + lines_from(chars@, k + 1) =~= done + lines_from(
                    chars@,
                    start as int,
                ));
            }
            start = k + 1;
        } else {
            let line = from_chars(&chars, start, n);
            lines.push(line);
            proof {
                assert(lines.deep_view() =~= done.push(line@));
                assert(lines_from(chars@, n as int) =~= Seq::<Seq<char>>::empty());
                assert(done.push(line@) + lines_from(chars@, n as int) =~= done + lines_from(
                    chars@,
                    start as int,
                ));
            }
            start = n;
        }
    }
    proof {
        assert(lines_from(chars@, start as int) =~= Seq::<Seq<char>>::empty());
        assert(lines.deep_view() + Seq::<Seq<char>>::empty() =~= lines.deep_view());
    }
    lines
}

/// Reads the lines of a configuration file. Each line that holds an entry
/// gives one button, and the buttons come in the order of their lines; the
/// other lines are passed over without an error.
pub fn parse_conf(lines: &Vec<String>) -> (buttons: Vec<ButtonConfig>)
    ensures
        buttons.deep_view() == entries_of_lines(lines.deep_view()),
{
    let ghost all = lines.deep_view();
    let mut buttons: Vec<ButtonConfig> = Vec::new();
    let mut i: usize = 0;
    proof {
        assert(all.take(0) =~= Seq::<Seq<char>>::empty());
        assert(buttons.deep_view() =~= Seq::<Entry>::empty());
    }
    while i < lines.len()
        invariant
            i <= lines.len(),
            all == lines.deep_view(),
            buttons.deep_view() == entries_of_lines(all.take(i as int)),
        decreases lines.len() - i,
    {
        let ghost done = buttons.deep_view();
        proof {
            assert(all.take(i + 1).drop_last() =~= all.take(i as int));
            assert(all.take(i + 1).last() == lines@[i as int]@);
        }
        match parse_line(lines[i].as_str()) {
            Some(button) => {
                let ghost e = button@;
                buttons.push(button);
                proof {
                    assert(buttons.deep_view() =~= done.push(e));
                }
            },
            None => {},
        }
        i += 1;
    }
    proof {
        assert(all.take(lines.len() as int) =~= all);
    }
    buttons
}

/// Reads a configuration text: the buttons that its lines give, in order. A
/// text without an entry gives no button, which is no error.
pub fn load(text: &str) -> (buttons: Vec<ButtonConfig>)
    ensures
        buttons.deep_view() == entries_of_text(text@),
{
    let lines = split_lines(text);
    parse_conf(&lines)
}

} // verus!

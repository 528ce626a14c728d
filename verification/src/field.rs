//! Fields of a configuration line: the stretches of text between `::`
//! delimiters.

use vstd::prelude::*;

verus! {

/// Whether the two-character delimiter `::` starts at index `i` of `s`.
pub open spec fn delimiter_at(s: Seq<char>, i: int) -> bool {
    0 <= i && i + 1 < s.len() && s[i] == ':' && s[i + 1] == ':'
}

/// Whether a delimiter starts anywhere in `s`.
pub open spec fn has_delimiter(s: Seq<char>) -> bool {
    exists|k: int| delimiter_at(s, k)
}

/// Whether no delimiter starts at an index in `[from, to)`.
pub open spec fn delimiter_free(s: Seq<char>, from: int, to: int) -> bool {
    forall|k: int| from <= k < to ==> !delimiter_at(s, k)
}

/// Whether the field that starts at `from` ends just before index `k`:
/// `k` is the first index at or after `from` where a delimiter starts, or
/// the length of `s` when there is no such index.
pub open spec fn is_field_end(s: Seq<char>, from: int, k: int) -> bool {
    &&& from <= k <= s.len()
    &&& delimiter_free(s, from, k)
    &&& (k == s.len() || delimiter_at(s, k))
}

/// The end of the field that starts at `from`. It is determined for every
/// `from` in `[0, s.len()]`; see [`lemma_field_end`] and
/// [`lemma_field_end_unique`].
pub open spec fn field_end(s: Seq<char>, from: int) -> int {
    choose|k: int| is_field_end(s, from, k)
}

proof fn lemma_field_end_exists(s: Seq<char>, from: int) -> (k: int)
    requires
        0 <= from <= s.len(),
    ensures
        is_field_end(s, from, k),
    decreases s.len() - from,
{
    if from == s.len() || delimiter_at(s, from) {
        from
    } else {
        lemma_field_end_exists(s, from + 1)
    }
}

/// Every field has an end.
pub proof fn lemma_field_end(s: Seq<char>, from: int)
    requires
        0 <= from <= s.len(),
    ensures
        is_field_end(s, from, field_end(s, from)),
{
    let k = lemma_field_end_exists(s, from);
}

/// A field has only one end.
pub proof fn lemma_field_end_unique(s: Seq<char>, from: int, k: int)
    requires
        is_field_end(s, from, k),
    ensures
        field_end(s, from) == k,
{
    let c = field_end(s, from);
    if c < k {
        assert(!delimiter_at(s, c));
    } else if k < c {
        assert(!delimiter_at(s, k));
    }
}

/// A line has a delimiter exactly when its first field ends before the line
/// does.
pub proof fn lemma_has_delimiter(s: Seq<char>)
    ensures
        has_delimiter(s) <==> field_end(s, 0) < s.len(),
        has_delimiter(s) ==> delimiter_at(s, field_end(s, 0)),
{
    lemma_field_end(s, 0);
    let c = field_end(s, 0);
    if has_delimiter(s) {
        let k = choose|k: int| delimiter_at(s, k);
        if c == s.len() {
            assert(!delimiter_at(s, k));
        }
    }
}

/// Finds where the field that starts at `from` ends.
pub(crate) fn find_field_end(s: &Vec<char>, from: usize) -> (k: usize)
    requires
        from <= s.len(),
    ensures
        k == field_end(s@, from as int),
        is_field_end(s@, from as int, k as int),
{
    let n = s.len();
    let mut i: usize = from;
    while i < n
        invariant
            n == s.len(),
            from <= i <= n,
            delimiter_free(s@, from as int, i as int),
        decreases n - i,
    {
        if i + 1 < n && s[i] == ':' && s[i + 1] == ':' {
            proof {
                lemma_field_end_unique(s@, from as int, i as int);
            }
            return i;
        }
        i += 1;
    }
    proof {
        lemma_field_end_unique(s@, from as int, n as int);
    }
    n
}

} // verus!

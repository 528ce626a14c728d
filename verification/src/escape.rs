//! The one escape of the configuration format: a backslash followed by the
//! letter `n` stands for a line feed.

use crate::text::to_chars;
use vstd::prelude::*;

verus! {

/// Whether the two-character escape, a backslash and then `n`, starts at
/// index `i` of `s`.
pub open spec fn escape_at(s: Seq<char>, i: int) -> bool {
    0 <= i && i + 1 < s.len() && s[i] == '\\' && s[i + 1] == 'n'
}

/// Whether an escape starts anywhere in `s`.
pub open spec fn has_escape(s: Seq<char>) -> bool {
    exists|i: int| escape_at(s, i)
}

/// `s` with every escape replaced by one line feed and every other
/// character kept.
pub open spec fn decode(s: Seq<char>) -> Seq<char>
    decreases s.len(),
{
    if s.len() == 0 {
        s
    } else if escape_at(s, 0) {
        seq!['\n'] + decode(s.skip(2))
    } else {
        seq![s[0]] + decode(s.skip(1))
    }
}

/// The number of escapes in `s`.
pub open spec fn escape_count(s: Seq<char>) -> nat
    decreases s.len(),
{
    if s.len() == 0 {
        0
    } else if escape_at(s, 0) {
        1 + escape_count(s.skip(2))
    } else {
        escape_count(s.skip(1))
    }
}

/// Text without an escape decodes to itself.
pub proof fn lemma_decode_plain(s: Seq<char>)
    requires
        !has_escape(s),
    ensures
        decode(s) == s,
    decreases s.len(),
{
    if s.len() > 0 {
        assert(!escape_at(s, 0));
        let t = s.skip(1);
        assert forall|i: int| !escape_at(t, i) by {
            if escape_at(t, i) {
                assert(escape_at(s, i + 1));
            }
        }
        lemma_decode_plain(t);
        assert(seq![s[0]] + t =~= s);
    }
}

/// A lone escape decodes to a lone line feed.
pub proof fn lemma_decode_escape()
    ensures
        decode(seq!['\\', 'n']) == seq!['\n'],
{
    let s = seq!['\\', 'n'];
    assert(escape_at(s, 0));
    assert(s.skip(2) =~= Seq::<char>::empty());
    assert(decode(s.skip(2)) =~= Seq::<char>::empty());
    assert(seq!['\n'] + decode(s.skip(2)) =~= seq!['\n']);
}

/// Decoding works piece by piece: wherever a text is cut, except between the
/// backslash and the `n` of an escape, decoding the whole gives the decoded
/// pieces one after the other.
pub proof fn lemma_decode_concat(a: Seq<char>, b: Seq<char>)
    requires
        !(a.len() > 0 && a.last() == '\\' && b.len() > 0 && b[0] == 'n'),
    ensures
        decode(a + b) == decode(a) + decode(b),
    decreases a.len(),
{
    let s = a + b;
    if a.len() == 0 {
        assert(s =~= b);
        assert(decode(a) + decode(b) =~= decode(b));
    } else if escape_at(a, 0) {
        assert(escape_at(s, 0));
        assert(s.skip(2) =~= a.skip(2) + b);
        if a.skip(2).len() > 0 {
            assert(a.skip(2).last() == a.last());
        }
        lemma_decode_concat(a.skip(2), b);
        assert(seq!['\n'] + (decode(a.skip(2)) + decode(b)) =~= (seq!['\n'] + decode(a.skip(2)))
            + decode(b));
    } else {
        assert(!escape_at(s, 0)) by {
            if a.len() == 1 {
                assert(a.last() == a[0]);
            }
        }
        assert(s.skip(1) =~= a.skip(1) + b);
        if a.skip(1).len() > 0 {
            assert(a.skip(1).last() == a.last());
        }
        lemma_decode_concat(a.skip(1), b);
        assert(seq![s[0]] + (decode(a.skip(1)) + decode(b)) =~= (seq![a[0]] + decode(a.skip(1)))
            + decode(b));
    }
}

/// Each escape shortens the text by one character and nothing else changes
/// its length.
pub proof fn lemma_decode_len(s: Seq<char>)
    ensures
        decode(s).len() + escape_count(s) == s.len(),
    decreases s.len(),
{
    if s.len() == 0 {
    } else if escape_at(s, 0) {
        lemma_decode_len(s.skip(2));
    } else {
        lemma_decode_len(s.skip(1));
    }
}

/// Decoded text holds no escape.
pub proof fn lemma_decode_has_no_escape(s: Seq<char>)
    ensures
        !has_escape(decode(s)),
    decreases s.len(),
{
    let d = decode(s);
    if s.len() == 0 {
    } else if escape_at(s, 0) {
        let r = decode(s.skip(2));
        lemma_decode_has_no_escape(s.skip(2));
        assert forall|i: int| !escape_at(d, i) by {
            if escape_at(d, i) {
                assert(i >= 1);
                assert(escape_at(r, i - 1));
            }
        }
    } else {
        let t = s.skip(1);
        let r = decode(t);
        lemma_decode_has_no_escape(t);
        assert forall|i: int| !escape_at(d, i) by {
            if escape_at(d, i) {
                if i >= 1 {
                    assert(escape_at(r, i - 1));
                } else {
                    assert(d[1] == r[0]);
                    assert(t[0] == s[1]);
                    if escape_at(t, 0) {
                        assert(r[0] == '\n');
                    } else {
                        assert(r[0] == t[0]);
                    }
                }
            }
        }
    }
}

/// Decodes the escapes in `s[from..to]`.
pub(crate) fn decode_range(s: &Vec<char>, from: usize, to: usize) -> (out: String)
    requires
        from <= to <= s.len(),
    ensures
        out@ == decode(s@.subrange(from as int, to as int)),
{
    let ghost whole = s@.subrange(from as int, to as int);
    let mut out = String::new();
    let mut i: usize = from;
    while i < to
        invariant
            from <= i <= to <= s.len(),
            whole == s@.subrange(from as int, to as int),
            out@ + decode(s@.subrange(i as int, to as int)) == decode(whole),
        decreases to - i,
    {
        let ghost rest = s@.subrange(i as int, to as int);
        if i + 1 < to && s[i] == '\\' && s[i + 1] == 'n' {
            proof {
                assert(escape_at(rest, 0));
                assert(rest.skip(2) =~= s@.subrange(i + 2, to as int));
                assert(out@.push('\n') + decode(rest.skip(2)) =~= out@ + decode(rest));
            }
            out.push('\n');
            i += 2;
        } else {
            proof {
                assert(!escape_at(rest, 0));
                assert(rest.skip(1) =~= s@.subrange(i + 1, to as int));
                assert(out@.push(s@[i as int]) + decode(rest.skip(1)) =~= out@ + decode(rest));
            }
            out.push(s[i]);
            i += 1;
        }
    }
    proof {
        assert(s@.subrange(to as int, to as int) =~= Seq::<char>::empty());
        assert(out@ + Seq::<char>::empty() =~= out@);
    }
    out
}

/// Decodes the escapes of `raw`: each backslash followed by `n` becomes one
/// line feed, and every other character stays.
pub fn decode_escapes(raw: &str) -> (out: String)
    ensures
        out@ == decode(raw@),
        !has_escape(out@),
{
    let chars = to_chars(raw);
    proof {
        assert(chars@.subrange(0, chars@.len() as int) =~= chars@);
        lemma_decode_has_no_escape(chars@);
    }
    decode_range(&chars, 0, chars.len())
}

} // verus!

//! Extracting the value set of a plain-text source: one value per line,
//! LF or CRLF terminated, duplicates collapsed.

use vstd::prelude::*;
use crate::values::{dedup, ValueSet};

verus! {

/// A line with its carriage return removed, where one ends it; this is how
/// a CRLF terminator is reduced to the bare line.
pub open spec fn strip_cr(l: Seq<char>) -> Seq<char> {
    if l.len() > 0 && l.last() == '\r' {
        l.drop_last()
    } else {
        l
    }
}

/// The lines of `s` continued from a partial line `cur` already read: a
/// newline ends the current line (dropping a carriage return just before
/// it), and a final fragment without a newline is a line of its own.
pub open spec fn lines_from(s: Seq<char>, cur: Seq<char>) -> Seq<Seq<char>>
    decreases s.len(),
{
    if s.len() == 0 {
        if cur.len() == 0 {
            Seq::empty()
        } else {
            seq![cur]
        }
    } else if s[0] == '\n' {
        seq![strip_cr(cur)] + lines_from(s.drop_first(), Seq::empty())
    } else {
        lines_from(s.drop_first(), cur.push(s[0]))
    }
}

/// The lines of a text source, in reading order.
pub open spec fn text_lines(s: Seq<char>) -> Seq<Seq<char>> {
    lines_from(s, Seq::empty())
}

/// The value set of a text source: its lines with duplicates collapsed,
/// in first-occurrence order.
pub open spec fn text_values(s: Seq<char>) -> Seq<Seq<char>> {
    dedup(text_lines(s))
}

/// An empty text source has no lines, so its value set is empty — and with
/// it, by `lemma_diff_boundary`, the difference it yields as the primary
/// source, whatever the secondary holds.
pub proof fn lemma_empty_text_source()
    ensures
        text_values(Seq::<char>::empty()) == Seq::<Seq<char>>::empty(),
{
    assert(text_lines(Seq::<char>::empty()) == Seq::<Seq<char>>::empty());
}

/// Read a text source, already loaded as a string, into its value set:
/// every line becomes one value, and duplicate lines collapse to one.
pub fn extract_text(content: &str) -> (r: ValueSet)
    ensures
        r@ == text_values(content@),
        r.wf(),
{
    let ghost s = content@;
    let n = content.unicode_len();
    let mut vs = ValueSet::new();
    let ghost mut emitted: Seq<Seq<char>> = Seq::empty();
    let mut start: usize = 0;
    let mut i: usize = 0;
    proof {
        assert(s.subrange(0, n as int) =~= s);
        assert(s.subrange(0, 0) =~= Seq::<char>::empty());
        assert(Seq::<Seq<char>>::empty() + lines_from(s, Seq::empty()) =~= text_lines(s));
    }
    while i < n
        invariant
            n == s.len(),
            s == content@,
            start <= i <= n,
            vs.wf(),
            vs@ == dedup(emitted),
            text_lines(s) == emitted + lines_from(
                s.subrange(i as int, n as int),
                s.subrange(start as int, i as int),
            ),
        decreases n - i,
    {
        let ghost cur = s.subrange(start as int, i as int);
        let c = content.get_char(i);
        proof {
            assert(s.subrange(i as int, n as int)[0] == c);
            assert(s.subrange(i as int, n as int).drop_first() =~= s.subrange(
                i + 1,
                n as int,
            ));
        }
        if c == '\n' {
            let end = if i > start && content.get_char(i - 1) == '\r' {
                i - 1
            } else {
                i
            };
            let line = content.substring_char(start, end);
            proof {
                if i > start && s[i - 1] == '\r' {
                    assert(cur.last() == s[i - 1]);
                    assert(cur.drop_last() =~= s.subrange(start as int, i - 1));
                } else if i > start {
                    assert(cur.last() == s[i - 1]);
                }
                assert(line@ == strip_cr(cur));
                assert(emitted + (seq![strip_cr(cur)] + lines_from(
                    s.subrange(i + 1, n as int),
                    Seq::empty(),
                )) =~= emitted.push(strip_cr(cur)) + lines_from(
                    s.subrange(i + 1, n as int),
                    Seq::empty(),
                ));
                assert(emitted.push(strip_cr(cur)).drop_last() =~= emitted);
            }
            vs.insert(line.to_owned());
            proof {
                emitted = emitted.push(strip_cr(cur));
                assert(vs@ == dedup(emitted));
                assert(s.subrange(i + 1, i + 1) =~= Seq::<char>::empty());
            }
            start = i + 1;
        } else {
            proof {
                assert(cur.push(c) =~= s.subrange(start as int, i + 1));
            }
        }
        i += 1;
    }
    proof {
        assert(s.subrange(n as int, n as int) =~= Seq::<char>::empty());
    }
    if start < n {
        let line = content.substring_char(start, n);
        let ghost cur = s.subrange(start as int, n as int);
        proof {
            assert(emitted + seq![cur] =~= emitted.push(cur));
            assert(emitted.push(cur).drop_last() =~= emitted);
        }
        vs.insert(line.to_owned());
        proof {
            emitted = emitted.push(cur);
        }
    } else {
        proof {
            assert(emitted + Seq::<Seq<char>>::empty() =~= emitted);
        }
    }
    vs
}

} // verus!

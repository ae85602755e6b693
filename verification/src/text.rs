//! Character-level text primitives: substring containment and line splitting.

use vstd::prelude::*;

verus! {

/// `pat` occurs in `text` as a contiguous substring starting at position `i`.
pub open spec fn match_at(text: Seq<char>, pat: Seq<char>, i: int) -> bool {
    &&& 0 <= i
    &&& i + pat.len() <= text.len()
    &&& text.subrange(i, i + pat.len()) == pat
}

/// `pat` occurs somewhere in `text` as a contiguous substring.
pub open spec fn has_substring(text: Seq<char>, pat: Seq<char>) -> bool {
    exists|i: int| match_at(text, pat, i)
}

/// A substring of length zero occurs in every text, at position zero.
pub proof fn lemma_empty_pat_matches(text: Seq<char>, pat: Seq<char>)
    requires
        pat.len() == 0,
    ensures
        has_substring(text, pat),
{
    assert(text.subrange(0, 0) =~= pat);
    assert(match_at(text, pat, 0));
}

/// Tests whether `pat@` occurs in `text@` starting at char position `i`.
fn matches_at(text: &str, pat: &str, i: usize) -> (b: bool)
    requires
        i + pat@.len() <= text@.len(),
        text@.len() <= usize::MAX,
    ensures
        b == match_at(text@, pat@, i as int),
{
    let m: usize = pat.unicode_len();
    let mut j: usize = 0;
    while j < m
        invariant
            m == pat@.len(),
            j <= m,
            i + m <= text@.len() <= usize::MAX,
            forall|k: int| 0 <= k < j ==> text@[i + k] == pat@[k],
        decreases m - j,
    {
        if text.get_char(i + j) != pat.get_char(j) {
            assert(!match_at(text@, pat@, i as int)) by {
                assert(text@.subrange(i as int, i + m)[j as int] == text@[i + j]);
            }
            return false;
        }
        j += 1;
    }
    assert(text@.subrange(i as int, i + m) =~= pat@);
    true
}

/// Tests whether `pat@` occurs anywhere in `text@`.
pub fn contains_substr(text: &str, pat: &str) -> (b: bool)
    ensures
        b == has_substring(text@, pat@),
{
    let n: usize = text.unicode_len();
    let m: usize = pat.unicode_len();
    if m == 0 {
        proof {
            lemma_empty_pat_matches(text@, pat@);
        }
        return true;
    }
    if m > n {
        assert(!has_substring(text@, pat@));
        return false;
    }
    let mut i: usize = 0;
    while i <= n - m
        invariant
            n == text@.len(),
            m == pat@.len(),
            1 <= m <= n <= usize::MAX,
            i <= n - m + 1,
            forall|k: int| 0 <= k < i ==> !match_at(text@, pat@, k),
        decreases n - m - i + 1,
    {
        if matches_at(text, pat, i) {
            assert(has_substring(text@, pat@));
            return true;
        }
        i += 1;
    }
    assert forall|k: int| !match_at(text@, pat@, k) by {
        if match_at(text@, pat@, k) {
            assert(0 <= k && k + m <= n);
        }
    }
    false
}

/// Drops one trailing carriage return: the remains of a `\r\n` terminator
/// once the `\n` itself is gone.
pub open spec fn strip_cr(l: Seq<char>) -> Seq<char> {
    if l.len() > 0 && l.last() == '\r' {
        l.drop_last()
    } else {
        l
    }
}

/// The lines remaining in `s` when the characters of `cur` have already been
/// read from the current line. A `\n` ends a line and a `\r` directly before
/// it is dropped; the final line needs no terminator; a final line with no
/// characters at all is not a line.
pub open spec fn lines_from(s: Seq<char>, cur: Seq<char>) -> Seq<Seq<char>>
    decreases s.len(),
{
    if s.len() == 0 {
        if cur.len() == 0 {
            Seq::empty()
        } else {
            seq![cur]
        }
    } else if s[0] == '\n' {
        seq![strip_cr(cur)] + lines_from(s.drop_first(), Seq::empty())
    } else {
        lines_from(s.drop_first(), cur.push(s[0]))
    }
}

/// The lines of `s`: lines are separated by `\n` or `\r\n`, terminators are
/// not part of any line, and a trailing terminator does not open a last,
/// empty line.
pub open spec fn lines_of(s: Seq<char>) -> Seq<Seq<char>> {
    lines_from(s, Seq::empty())
}

/// Every character of every line comes from `cur` or from `s` with the line
/// breaks removed, so no line holds a `\n`.
proof fn lemma_lines_from_no_newline(s: Seq<char>, cur: Seq<char>)
    requires
        forall|k: int| 0 <= k < cur.len() ==> cur[k] != '\n',
    ensures
        forall|i: int, k: int|
            0 <= i < lines_from(s, cur).len() && 0 <= k < lines_from(s, cur)[i].len()
                ==> #[trigger] lines_from(s, cur)[i][k] != '\n',
    decreases s.len(),
{
    if s.len() == 0 {
        if cur.len() != 0 {
            assert forall|i: int, k: int|
                0 <= i < lines_from(s, cur).len() && 0 <= k < lines_from(s, cur)[i].len() implies #[trigger] lines_from(
                s,
                cur,
            )[i][k] != '\n' by {
                assert(lines_from(s, cur)[i] == cur);
            }
        }
    } else if s[0] == '\n' {
        lemma_lines_from_no_newline(s.drop_first(), Seq::empty());
        let rest = lines_from(s.drop_first(), Seq::empty());
        assert forall|i: int, k: int|
            0 <= i < lines_from(s, cur).len() && 0 <= k < lines_from(s, cur)[i].len() implies #[trigger] lines_from(
            s,
            cur,
        )[i][k] != '\n' by {
            if i == 0 {
                assert(lines_from(s, cur)[0] == strip_cr(cur));
            } else {
                assert(lines_from(s, cur)[i] == rest[i - 1]);
            }
        }
    } else {
        assert forall|k: int| 0 <= k < cur.push(s[0]).len() implies cur.push(s[0])[k] != '\n' by {
            if k < cur.len() {
                assert(cur.push(s[0])[k] == cur[k]);
            }
        }
        lemma_lines_from_no_newline(s.drop_first(), cur.push(s[0]));
        assert(lines_from(s, cur) == lines_from(s.drop_first(), cur.push(s[0])));
    }
}

/// No line of `lines_of(s)` contains a line break.
pub proof fn lemma_lines_no_newline(s: Seq<char>)
    ensures
        forall|i: int, k: int|
            0 <= i < lines_of(s).len() && 0 <= k < lines_of(s)[i].len()
                ==> #[trigger] lines_of(s)[i][k] != '\n',
{
    lemma_lines_from_no_newline(s, Seq::empty());
}

/// Splits `content` into its lines, each returned as a slice of `content`.
pub fn split_lines<'a>(content: &'a str) -> (lines: Vec<&'a str>)
    ensures
        lines.deep_view() == lines_of(content@),
{
    let n: usize = content.unicode_len();
    let mut lines: Vec<&'a str> = Vec::new();
    let mut start: usize = 0;
    let mut p: usize = 0;
    proof {
        assert(lines.deep_view() =~= Seq::<Seq<char>>::empty());
        assert(content@.skip(0) =~= content@);
        assert(content@.subrange(0, 0) =~= Seq::<char>::empty());
    }
    while p < n
        invariant
            n == content@.len(),
            start <= p <= n,
            lines_of(content@) == lines.deep_view() + lines_from(
                content@.skip(p as int),
                content@.subrange(start as int, p as int),
            ),
        decreases n - p,
    {
        let ghost rest = content@.skip(p as int);
        let ghost cur = content@.subrange(start as int, p as int);
        proof {
            assert(rest[0] == content@[p as int]);
            assert(rest.drop_first() =~= content@.skip(p as int + 1));
        }
        let c = content.get_char(p);
        if c == '\n' {
            let line_end: usize = if p > start && content.get_char(p - 1) == '\r' {
                p - 1
            } else {
                p
            };
            proof {
                if p > start && content@[p as int - 1] == '\r' {
                    assert(cur.last() == content@[p as int - 1]);
                    assert(strip_cr(cur) =~= content@.subrange(start as int, line_end as int));
                } else {
                    assert(strip_cr(cur) =~= content@.subrange(start as int, line_end as int));
                }
            }
            let line: &'a str = content.substring_char(start, line_end);
            let ghost old_dv = lines.deep_view();
            lines.push(line);
            proof {
                assert(lines.deep_view() =~= old_dv.push(line@));
                assert(lines_from(rest, cur) == seq![strip_cr(cur)] + lines_from(
                    content@.skip(p as int + 1),
                    Seq::empty(),
                ));
                assert(old_dv + (seq![strip_cr(cur)] + lines_from(
                    content@.skip(p as int + 1),
                    Seq::empty(),
                )) =~= old_dv.push(line@) + lines_from(
                    content@.skip(p as int + 1),
                    Seq::empty(),
                ));
                assert(content@.subrange(p as int + 1, p as int + 1) =~= Seq::<char>::empty());
            }
            start = p + 1;
        } else {
            proof {
                assert(cur.push(content@[p as int]) =~= content@.subrange(
                    start as int,
                    p as int + 1,
                ));
                assert(lines_from(rest, cur) == lines_from(
                    content@.skip(p as int + 1),
                    content@.subrange(start as int, p as int + 1),
                ));
            }
        }
        p += 1;
    }
    proof {
        assert(content@.skip(n as int).len() == 0);
    }
    if start < n {
        let line = content.substring_char(start, n);
        let ghost old_dv = lines.deep_view();
        lines.push(line);
        proof {
            assert(lines.deep_view() =~= old_dv.push(line@));
            assert(old_dv + seq![line@] =~= old_dv.push(line@));
        }
    } else {
        proof {
            assert(content@.subrange(start as int, n as int).len() == 0);
            assert(lines.deep_view() + Seq::<Seq<char>>::empty() =~= lines.deep_view());
        }
    }
    lines
}

} // verus!

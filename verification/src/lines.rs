//! Lines: the runs of bytes between line terminators.

use vstd::prelude::*;
use crate::alphabet::LF;

verus! {

/// The length of the first line of `text`: the number of bytes before the
/// first terminator, or all of them where there is none.
pub open spec fn line_len(text: Seq<u8>) -> nat
    decreases text.len(),
{
    if text.len() == 0 || text[0] == LF {
        0
    } else {
        1 + line_len(text.drop_first())
    }
}

/// The lines of `text`, each without its terminator. A terminator ends a
/// line, so a text that ends with one has no empty line after it, and what
/// follows the last terminator is a line even though nothing ends it.
pub open spec fn lines(text: Seq<u8>) -> Seq<Seq<u8>>
    decreases text.len(),
{
    if text.len() == 0 {
        Seq::empty()
    } else {
        let n = line_len(text) as int;
        if n >= text.len() {
            seq![text]
        } else {
            seq![text.take(n)] + lines(text.skip(n + 1))
        }
    }
}

/// The text made of the given lines, each followed by one terminator.
pub open spec fn joined(lines: Seq<Seq<u8>>) -> Seq<u8>
    decreases lines.len(),
{
    if lines.len() == 0 {
        Seq::empty()
    } else {
        joined(lines.drop_last()) + lines.last().push(LF)
    }
}

/// The text with its last line completed: a terminator is appended unless
/// the text is empty or ends with one.
pub open spec fn terminated(text: Seq<u8>) -> Seq<u8> {
    if text.len() == 0 || text.last() == LF {
        text
    } else {
        text.push(LF)
    }
}

/// The first line ends at the first terminator: no byte before that place is
/// a terminator, and the place is the end of the text or holds one.
pub proof fn lemma_line_len_first_lf(text: Seq<u8>)
    ensures
        line_len(text) <= text.len(),
        forall|j: int| 0 <= j < line_len(text) ==> text[j] != LF,
        line_len(text) < text.len() ==> text[line_len(text) as int] == LF,
    decreases text.len(),
{
    if text.len() == 0 || text[0] == LF {
    } else {
        let rest = text.drop_first();
        lemma_line_len_first_lf(rest);
        assert forall|j: int| 0 <= j < line_len(text) implies text[j] != LF by {
            if j > 0 {
                assert(text[j] == rest[j - 1]);
            }
        }
        if line_len(text) < text.len() {
            assert(text[line_len(text) as int] == rest[line_len(rest) as int]);
        }
    }
}

/// A place with no terminator before it that is the end of the text or holds
/// a terminator is where the first line ends.
pub proof fn lemma_first_lf_is_line_len(text: Seq<u8>, n: int)
    requires
        0 <= n <= text.len(),
        forall|j: int| 0 <= j < n ==> text[j] != LF,
        n < text.len() ==> text[n] == LF,
    ensures
        line_len(text) == n,
{
    lemma_line_len_first_lf(text);
    let m = line_len(text) as int;
    if m < n {
        assert(text[m] == LF);
    } else if n < m {
        assert(text[n] == LF);
    }
}

/// Whether no byte of the text is a terminator.
pub open spec fn no_terminator(text: Seq<u8>) -> bool {
    forall|j: int| 0 <= j < text.len() ==> text[j] != LF
}

/// Joining starts with the first line and its terminator.
pub proof fn lemma_joined_first(lines: Seq<Seq<u8>>)
    requires
        lines.len() > 0,
    ensures
        joined(lines) == lines[0].push(LF) + joined(lines.drop_first()),
    decreases lines.len(),
{
    if lines.len() == 1 {
        assert(lines.drop_last() =~= Seq::<Seq<u8>>::empty());
        assert(lines.drop_first() =~= Seq::<Seq<u8>>::empty());
        assert(joined(lines) =~= lines[0].push(LF) + joined(lines.drop_first()));
    } else {
        lemma_joined_first(lines.drop_last());
        assert(lines.drop_last().drop_first() =~= lines.drop_first().drop_last());
        assert(joined(lines) =~= lines[0].push(LF) + joined(lines.drop_first()));
    }
}

/// No line holds a terminator.
pub proof fn lemma_lines_hold_no_terminator(text: Seq<u8>)
    ensures
        forall|n: int| 0 <= n < lines(text).len() ==> no_terminator(#[trigger] lines(text)[n]),
    decreases text.len(),
{
    if text.len() > 0 {
        lemma_line_len_first_lf(text);
        let n = line_len(text) as int;
        if n < text.len() {
            let rest = text.skip(n + 1);
            lemma_lines_hold_no_terminator(rest);
            assert forall|k: int| 0 <= k < lines(text).len() implies no_terminator(
                #[trigger] lines(text)[k],
            ) by {
                if k == 0 {
                    assert(lines(text)[0] == text.take(n));
                } else {
                    assert(lines(text)[k] == lines(rest)[k - 1]);
                }
            }
        } else {
            assert(lines(text)[0] == text);
        }
    }
}

/// The lines of a text, each with a terminator, make up the text with its
/// last line completed.
pub proof fn lemma_joined_lines(text: Seq<u8>)
    ensures
        joined(lines(text)) == terminated(text),
    decreases text.len(),
{
    if text.len() == 0 {
    } else {
        lemma_line_len_first_lf(text);
        let n = line_len(text) as int;
        lemma_joined_first(lines(text));
        if n >= text.len() {
            assert(lines(text).drop_first() =~= Seq::<Seq<u8>>::empty());
            assert(joined(lines(text)) =~= text.push(LF));
        } else {
            let rest = text.skip(n + 1);
            lemma_joined_lines(rest);
            assert(lines(text).drop_first() =~= lines(rest));
            if rest.len() == 0 {
                assert(text.take(n).push(LF) + rest =~= text);
            } else if rest.last() == LF {
                assert(text.take(n).push(LF) + rest =~= text);
            } else {
                assert(text.take(n).push(LF) + rest.push(LF) =~= text.push(LF));
            }
        }
    }
}

/// Splitting undoes joining, where no line holds a terminator.
pub proof fn lemma_lines_joined(ls: Seq<Seq<u8>>)
    requires
        forall|n: int| 0 <= n < ls.len() ==> no_terminator(#[trigger] ls[n]),
    ensures
        lines(joined(ls)) == ls,
    decreases ls.len(),
{
    if ls.len() == 0 {
    } else {
        let first = ls[0];
        let rest = ls.drop_first();
        let text = joined(ls);
        lemma_joined_first(ls);
        assert forall|n: int| 0 <= n < rest.len() implies no_terminator(#[trigger] rest[n]) by {
            assert(rest[n] == ls[n + 1]);
        }
        lemma_lines_joined(rest);
        assert(no_terminator(first));
        assert(text[first.len() as int] == LF);
        assert forall|j: int| 0 <= j < first.len() implies text[j] != LF by {
            assert(text[j] == first[j]);
        }
        lemma_first_lf_is_line_len(text, first.len() as int);
        assert(text.take(first.len() as int) =~= first);
        assert(text.skip(first.len() as int + 1) =~= joined(rest));
        assert(lines(text) =~= ls);
    }
}

/// Finds where the line that starts at `from` ends: the place of the next
/// terminator, or the end of the text.
pub fn line_end(text: &[u8], from: usize) -> (end: usize)
    requires
        from <= text@.len(),
    ensures
        end == from + line_len(text@.skip(from as int)),
        from <= end <= text@.len(),
        forall|j: int| from <= j < end ==> text@[j] != LF,
        end < text@.len() ==> text@[end as int] == LF,
{
    let mut end: usize = from;
    while end < text.len() && text[end] != LF
        invariant
            from <= end <= text@.len(),
            forall|j: int| from <= j < end ==> text@[j] != LF,
        decreases text@.len() - end,
    {
        end += 1;
    }
    proof {
        let rest = text@.skip(from as int);
        assert forall|j: int| 0 <= j < end - from implies rest[j] != LF by {
            assert(rest[j] == text@[from + j]);
        }
        lemma_first_lf_is_line_len(rest, end - from);
    }
    end
}

} // verus!

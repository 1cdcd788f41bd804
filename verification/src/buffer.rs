//! The line-oriented input layer: splits an in-memory text into logical
//! lines, and yields each line with a single trailing newline appended, so
//! that downstream consumers see one uniform character stream no matter how
//! the input arrived.

use vstd::prelude::*;
use crate::chars;

verus! {

/// Index of the first newline in `s` at or after `i`, or `s.len()`.
pub open spec fn find_nl(s: Seq<char>, i: int) -> int
    decreases s.len() - i,
{
    if i < 0 || i >= s.len() {
        s.len() as int
    } else if s[i] == '\n' {
        i
    } else {
        find_nl(s, i + 1)
    }
}

pub proof fn lemma_find_nl(s: Seq<char>, i: int)
    requires
        0 <= i <= s.len(),
    ensures
        i <= find_nl(s, i) <= s.len(),
        forall|j: int| i <= j < find_nl(s, i) ==> s[j] != '\n',
        find_nl(s, i) < s.len() ==> s[find_nl(s, i)] == '\n',
    decreases s.len() - i,
{
    if i < s.len() && s[i] != '\n' {
        lemma_find_nl(s, i + 1);
    }
}

/// A logical line with a trailing carriage return removed, as `\r\n` line
/// endings are treated like plain `\n`.
pub open spec fn strip_cr(l: Seq<char>) -> Seq<char> {
    if l.len() > 0 && l[l.len() - 1] == '\r' {
        l.drop_last()
    } else {
        l
    }
}

/// The logical lines of a text: split at `\n` (with a preceding `\r`
/// stripped), the final line not needing a terminator.
pub open spec fn lines_of(s: Seq<char>) -> Seq<Seq<char>>
    decreases s.len(),
{
    if s.len() == 0 {
        Seq::empty()
    } else {
        let k = find_nl(s, 0);
        if k == s.len() {
            seq![s]
        } else if 0 <= k < s.len() {
            seq![strip_cr(s.subrange(0, k))] + lines_of(s.subrange(k + 1, s.len() as int))
        } else {
            Seq::empty()
        }
    }
}

/// Unfolds `lines_of` at the first newline of `s`.
pub proof fn lemma_lines_of_break(s: Seq<char>, k: int)
    requires
        0 <= k < s.len(),
        s[k] == '\n',
        forall|j: int| 0 <= j < k ==> s[j] != '\n',
    ensures
        lines_of(s) == seq![strip_cr(s.subrange(0, k))] + lines_of(
            s.subrange(k + 1, s.len() as int),
        ),
{
    lemma_find_nl(s, 0);
    assert(find_nl(s, 0) == k) by {
        if find_nl(s, 0) < k {
            assert(s[find_nl(s, 0)] != '\n');
        }
        if find_nl(s, 0) > k {
            assert(s[k] != '\n');
        }
    }
}

/// A nonempty text without a newline is a single line.
pub proof fn lemma_lines_of_whole(s: Seq<char>)
    requires
        s.len() > 0,
        forall|j: int| 0 <= j < s.len() ==> s[j] != '\n',
    ensures
        lines_of(s) == seq![s],
{
    lemma_find_nl(s, 0);
    assert(find_nl(s, 0) == s.len()) by {
        if find_nl(s, 0) < s.len() {
            assert(s[find_nl(s, 0)] != '\n');
        }
    }
}

/// The character sequences of a sequence of strings.
pub open spec fn views_of(ls: Seq<String>) -> Seq<Seq<char>> {
    ls.map_values(|l: String| l@)
}

/// The uniform character stream of a sequence of logical lines: each line
/// followed by one newline, the final line included.
pub open spec fn join_lines(ls: Seq<Seq<char>>) -> Seq<char>
    decreases ls.len(),
{
    if ls.len() == 0 {
        Seq::empty()
    } else {
        ls[0] + seq!['\n'] + join_lines(ls.drop_first())
    }
}

/// Supplies logical lines to the character stream, each with one trailing
/// newline appended (the final line included), so that line and column
/// accounting is uniform regardless of how the text was delimited.
pub struct LineBuffer {
    /// The logical lines, without terminators.
    pub lines: Vec<String>,
    /// Index of the next line to yield.
    pub pos: usize,
}

impl LineBuffer {
    /// Splits an in-memory text into its logical lines.
    pub fn from_string(text: &String) -> (r: LineBuffer)
        ensures
            views_of(r.lines@) == lines_of(text@),
            r.pos == 0,
    {
        let cv = chars::chars_of(text.as_str());
        let mut lines: Vec<String> = Vec::new();
        let mut cur: Vec<char> = Vec::new();
        let ghost mut start: int = 0;
        let mut i: usize = 0;
        proof {
            assert(cv@.subrange(0, cv@.len() as int) =~= text@);
            assert(views_of(lines@) =~= Seq::<Seq<char>>::empty());
            assert(cur@ =~= cv@.subrange(0, 0));
        }
        while i < cv.len()
            invariant
                cv@ == text@,
                0 <= start <= i <= cv.len(),
                cur@ == cv@.subrange(start, i as int),
                forall|j: int| start <= j < i ==> cv@[j] != '\n',
                lines_of(text@) == views_of(lines@) + lines_of(
                    cv@.subrange(start, cv@.len() as int),
                ),
            decreases cv.len() - i,
        {
            let c = cv[i];
            if c == '\n' {
                proof {
                    let rest = cv@.subrange(start, cv@.len() as int);
                    lemma_lines_of_break(rest, i - start);
                    assert(rest.subrange(0, i - start) =~= cur@);
                    assert(rest.subrange(i - start + 1, rest.len() as int) =~= cv@.subrange(
                        i + 1,
                        cv@.len() as int,
                    ));
                }
                if cur.len() > 0 && cur[cur.len() - 1] == '\r' {
                    cur.pop();
                }
                let line = chars::string_of(&cur);
                lines.push(line);
                proof {
                    assert(views_of(lines@) =~= views_of(lines@.drop_last()) + seq![line@]);
                    assert(lines_of(text@) =~= views_of(lines@) + lines_of(
                        cv@.subrange(i + 1, cv@.len() as int),
                    ));
                }
                cur = Vec::new();
                proof {
                    start = i + 1;
                    assert(cur@ =~= cv@.subrange(start, i + 1));
                }
            } else {
                cur.push(c);
                proof {
                    assert(cur@ =~= cv@.subrange(start, i + 1));
                }
            }
            i = i + 1;
        }
        if cur.len() > 0 {
            proof {
                lemma_lines_of_whole(cv@.subrange(start, cv@.len() as int));
            }
            let line = chars::string_of(&cur);
            lines.push(line);
            proof {
                assert(views_of(lines@) =~= views_of(lines@.drop_last()) + seq![line@]);
                assert(lines_of(text@) =~= views_of(lines@));
            }
        } else {
            proof {
                assert(cv@.subrange(start, cv@.len() as int) =~= Seq::<char>::empty());
                assert(lines_of(text@) =~= views_of(lines@));
            }
        }
        LineBuffer { lines, pos: 0 }
    }

    /// Wraps lines that arrived already split, for example read one by one
    /// from a file by a caller that owns the handle.
    pub fn from_lines(lines: Vec<String>) -> (r: LineBuffer)
        ensures
            r.lines == lines,
            r.pos == 0,
    {
        LineBuffer { lines, pos: 0 }
    }

    /// Yields the next logical line with a single `\n` appended, or nothing
    /// once every line has been yielded.
    pub fn next(&mut self) -> (r: Option<String>)
        ensures
            final(self).lines == old(self).lines,
            old(self).pos < old(self).lines@.len() ==> {
                &&& final(self).pos == old(self).pos + 1
                &&& r matches Some(l) && l@ == old(self).lines@[old(self).pos as int]@ + seq!['\n']
            },
            old(self).pos >= old(self).lines@.len() ==> {
                &&& final(self).pos == old(self).pos
                &&& r is None
            },
    {
        if self.pos < self.lines.len() {
            let mut cv = chars::chars_of(self.lines[self.pos].as_str());
            cv.push('\n');
            let line = chars::string_of(&cv);
            self.pos = self.pos + 1;
            proof {
                assert(line@ =~= old(self).lines@[old(self).pos as int]@ + seq!['\n']);
            }
            Some(line)
        } else {
            None
        }
    }
}

/// A single-character cursor over one string, used by the character stream
/// to walk a line.
pub struct StringIterator {
    /// The characters of the string.
    pub chars: Vec<char>,
    /// Index of the next character to yield.
    pub pos: usize,
}

impl StringIterator {
    pub fn new(text: String) -> (r: StringIterator)
        ensures
            r.chars@ == text@,
            r.pos == 0,
    {
        StringIterator { chars: chars::chars_of(text.as_str()), pos: 0 }
    }

    /// Yields the next character, or nothing at the end of the string.
    pub fn next(&mut self) -> (r: Option<char>)
        ensures
            final(self).chars == old(self).chars,
            old(self).pos < old(self).chars@.len() ==> {
                &&& final(self).pos == old(self).pos + 1
                &&& r == Some(old(self).chars@[old(self).pos as int])
            },
            old(self).pos >= old(self).chars@.len() ==> {
                &&& final(self).pos == old(self).pos
                &&& r is None
            },
    {
        if self.pos >= self.chars.len() {
            None
        } else {
            let v = self.chars[self.pos];
            self.pos = self.pos + 1;
            Some(v)
        }
    }
}

} // verus!

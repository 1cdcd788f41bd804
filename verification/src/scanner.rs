//! The tokenizer: classifies the normalized character stream into
//! position-tracked lexical tokens, pulled one at a time.
//!
//! Every token carries the 1-based line and column of its first character.
//! Line and column counters saturate at the platform's integer limit, which
//! no input that fits in memory reaches.

use vstd::prelude::*;
use crate::buffer::{LineBuffer, StringIterator, views_of, lines_of};
use crate::chars::{self, is_ws_char, is_digit_char, is_alpha_char};
use crate::number::{digit_run_end, lemma_digit_run_exact};

verus! {

/// The lexical classes of JSON source text.
#[derive(Debug, Clone, Copy, PartialEq, Eq, Structural)]
pub enum TokenKind {
    Collon,
    Comma,
    LeftBrace,
    RightBrace,
    LeftBracket,
    RightBracket,
    String,
    Number,
    Null,
    False,
    True,
    Eof,
    Error,
}

/// A lexical token: its class, its text (decoded contents for strings, the
/// exact digits for numbers), and the position of its first character.
#[derive(Debug, Clone)]
pub struct Token {
    pub kind: TokenKind,
    pub value: String,
    pub line: usize,
    pub col: usize,
}

impl Token {
    pub fn new(k: TokenKind, val: String, l: usize, c: usize) -> (r: Token)
        ensures
            r.kind == k && r.value == val && r.line == l && r.col == c,
    {
        Token { kind: k, value: val, line: l, col: c }
    }

    /// A placeholder token, used before the first real token is read.
    pub fn dummy() -> (r: Token)
        ensures
            r.kind == TokenKind::Eof && r.value@ == Seq::<char>::empty() && r.line == 0 && r.col
                == 0,
    {
        Token { kind: TokenKind::Eof, value: String::new(), line: 0, col: 0 }
    }
}

/// 1-based line of the character at `p`: one more than the newlines before
/// it.
pub open spec fn line_of(s: Seq<char>, p: int) -> int
    decreases p,
{
    if p <= 0 {
        1
    } else {
        line_of(s, p - 1) + if s[p - 1] == '\n' {
            1int
        } else {
            0int
        }
    }
}

/// 1-based column of the character at `p`: resets after each newline.
pub open spec fn col_of(s: Seq<char>, p: int) -> int
    decreases p,
{
    if p <= 0 {
        1
    } else if s[p - 1] == '\n' {
        1
    } else {
        col_of(s, p - 1) + 1
    }
}

pub proof fn lemma_pos_bounds(s: Seq<char>, p: int)
    requires
        p >= 0,
    ensures
        1 <= line_of(s, p) <= p + 1,
        1 <= col_of(s, p) <= p + 1,
    decreases p,
{
    if p > 0 {
        lemma_pos_bounds(s, p - 1);
    }
}

/// A position counter capped at the largest machine integer.
pub open spec fn cap_pos(x: int) -> int {
    if x > usize::MAX as int {
        usize::MAX as int
    } else {
        x
    }
}

/// First index at or after `i` that does not hold whitespace.
pub open spec fn skip_ws(s: Seq<char>, i: int) -> int
    decreases s.len() - i,
{
    if i < 0 || i >= s.len() || !is_ws_char(s[i]) {
        i
    } else {
        skip_ws(s, i + 1)
    }
}

pub proof fn lemma_skip_ws_bounds(s: Seq<char>, i: int)
    requires
        0 <= i <= s.len(),
    ensures
        i <= skip_ws(s, i) <= s.len(),
    decreases s.len() - i,
{
    if i < s.len() && is_ws_char(s[i]) {
        lemma_skip_ws_bounds(s, i + 1);
    }
}

pub proof fn lemma_skip_ws_exact(s: Seq<char>, i: int, j: int)
    requires
        0 <= i <= j <= s.len(),
        forall|t: int| i <= t < j ==> is_ws_char(#[trigger] s[t]),
        j < s.len() ==> !is_ws_char(s[j]),
    ensures
        skip_ws(s, i) == j,
    decreases j - i,
{
    if i < j {
        lemma_skip_ws_exact(s, i + 1, j);
    }
}

/// End of the run of letters that starts at `i`.
pub open spec fn alpha_run_end(s: Seq<char>, i: int) -> int
    decreases s.len() - i,
{
    if i < 0 || i >= s.len() || !is_alpha_char(s[i]) {
        i
    } else {
        alpha_run_end(s, i + 1)
    }
}

pub proof fn lemma_alpha_run_bounds(s: Seq<char>, i: int)
    requires
        0 <= i <= s.len(),
    ensures
        i <= alpha_run_end(s, i) <= s.len(),
    decreases s.len() - i,
{
    if i < s.len() && is_alpha_char(s[i]) {
        lemma_alpha_run_bounds(s, i + 1);
    }
}

pub proof fn lemma_alpha_run_exact(s: Seq<char>, i: int, j: int)
    requires
        0 <= i <= j <= s.len(),
        forall|t: int| i <= t < j ==> is_alpha_char(#[trigger] s[t]),
        j < s.len() ==> !is_alpha_char(s[j]),
    ensures
        alpha_run_end(s, i) == j,
    decreases j - i,
{
    if i < j {
        lemma_alpha_run_exact(s, i + 1, j);
    }
}

/// Index of the quote that closes a string whose content starts at `i`, or
/// nothing when the input ends first.  `esc` says whether the previous
/// content character was a backslash, which keeps an escaped quote from
/// closing the string.
pub open spec fn str_close(s: Seq<char>, i: int, esc: bool) -> Option<int>
    decreases s.len() - i,
{
    if i < 0 || i >= s.len() {
        None
    } else if s[i] == '"' && !esc {
        Some(i)
    } else {
        str_close(s, i + 1, s[i] == '\\')
    }
}

pub proof fn lemma_str_close_bounds(s: Seq<char>, i: int, esc: bool)
    requires
        0 <= i,
    ensures
        str_close(s, i, esc) matches Some(c) ==> i <= c < s.len() && s[c] == '"',
    decreases s.len() - i,
{
    if 0 <= i < s.len() && !(s[i] == '"' && !esc) {
        lemma_str_close_bounds(s, i + 1, s[i] == '\\');
    }
}

/// End of a numeric token that starts at `st`: an optional minus, a digit
/// run, an optional point and digit run, an optional exponent marker with
/// sign and digit run.  The tokenizer is deliberately permissive here; the
/// parser validates the captured text.
pub open spec fn num_end(s: Seq<char>, st: int) -> int {
    let p0 = if s[st] == '-' {
        st + 1
    } else {
        st
    };
    let p1 = digit_run_end(s, p0);
    let p2 = if p1 < s.len() && s[p1] == '.' {
        digit_run_end(s, p1 + 1)
    } else {
        p1
    };
    if p2 < s.len() && (s[p2] == 'e' || s[p2] == 'E') {
        let q = if p2 + 1 < s.len() && (s[p2 + 1] == '+' || s[p2 + 1] == '-') {
            p2 + 2
        } else {
            p2 + 1
        };
        digit_run_end(s, q)
    } else {
        p2
    }
}

/// What `next_token` returns for a token that starts at `st`: its class,
/// text and end position, decided by the first character.
pub open spec fn token_shape(s: Seq<char>, st: int, t: Token, end: int) -> bool {
    let c = s[st];
    if c == ':' {
        t.kind == TokenKind::Collon && t.value@ == seq![c] && end == st + 1
    } else if c == ',' {
        t.kind == TokenKind::Comma && t.value@ == seq![c] && end == st + 1
    } else if c == '{' {
        t.kind == TokenKind::LeftBrace && t.value@ == seq![c] && end == st + 1
    } else if c == '}' {
        t.kind == TokenKind::RightBrace && t.value@ == seq![c] && end == st + 1
    } else if c == '[' {
        t.kind == TokenKind::LeftBracket && t.value@ == seq![c] && end == st + 1
    } else if c == ']' {
        t.kind == TokenKind::RightBracket && t.value@ == seq![c] && end == st + 1
    } else if c == '"' {
        match str_close(s, st + 1, false) {
            Some(cl) => t.kind == TokenKind::String && t.value@ == s.subrange(st + 1, cl) && end
                == cl + 1,
            None => t.kind == TokenKind::Error && t.value@ == Seq::<char>::empty() && end
                == s.len(),
        }
    } else if is_digit_char(c) || c == '-' {
        t.kind == TokenKind::Number && t.value@ == s.subrange(st, num_end(s, st)) && end == num_end(
            s,
            st,
        )
    } else if is_alpha_char(c) {
        let we = alpha_run_end(s, st);
        let w = s.subrange(st, we);
        &&& t.value@ == w
        &&& end == we
        &&& t.kind == if w == seq!['n', 'u', 'l', 'l'] {
            TokenKind::Null
        } else if w == seq!['t', 'r', 'u', 'e'] {
            TokenKind::True
        } else if w == seq!['f', 'a', 'l', 's', 'e'] {
            TokenKind::False
        } else {
            TokenKind::Error
        }
    } else {
        t.kind == TokenKind::Error && t.value@ == seq![c] && end == st + 1
    }
}

/// A token's shape at a given start is unique: the token stream, with its
/// positions, is determined by the character stream alone, whatever source
/// the characters came from.
pub proof fn lemma_token_determined(
    s: Seq<char>,
    st: int,
    t1: Token,
    e1: int,
    t2: Token,
    e2: int,
)
    requires
        0 <= st < s.len(),
        token_shape(s, st, t1, e1),
        token_shape(s, st, t2, e2),
    ensures
        t1.kind == t2.kind,
        t1.value@ == t2.value@,
        e1 == e2,
{
}

/// The tokenizer: a cursor over the normalized character stream with
/// line/column accounting.
pub struct Scanner {
    /// The normalized characters: every logical line ends in one `\n`.
    pub cs: Vec<char>,
    /// Index of the next character to consume.
    pub pos: usize,
    /// Line of the next character, saturated.
    pub lin: usize,
    /// Column of the next character, saturated.
    pub col: usize,
}

impl Scanner {
    /// Position counters agree with the stream.
    pub open spec fn wf(self) -> bool {
        &&& self.pos <= self.cs@.len()
        &&& self.lin == cap_pos(line_of(self.cs@, self.pos as int))
        &&& self.col == cap_pos(col_of(self.cs@, self.pos as int))
    }

    /// The character stream this scanner reads.
    pub open spec fn stream(self) -> Seq<char> {
        self.cs@
    }

    /// Builds the normalized stream by draining a line buffer through a
    /// per-line character iterator.
    fn from_buffer(lb: LineBuffer) -> (r: Scanner)
        requires
            lb.pos == 0,
        ensures
            r.stream() == crate::buffer::join_lines(views_of(lb.lines@)),
            r.pos == 0 && r.lin == 1 && r.col == 1,
            r.wf(),
    {
        let ghost jv = views_of(lb.lines@);
        let mut lb = lb;
        let mut cs: Vec<char> = Vec::new();
        proof {
            assert(jv.subrange(0, 0) =~= Seq::<Seq<char>>::empty());
        }
        loop
            invariant
                views_of(lb.lines@) == jv,
                lb.pos <= lb.lines@.len(),
                cs@ == crate::buffer::join_lines(jv.subrange(0, lb.pos as int)),
            ensures
                lb.pos == lb.lines@.len(),
                views_of(lb.lines@) == jv,
                cs@ == crate::buffer::join_lines(jv.subrange(0, lb.pos as int)),
            decreases lb.lines@.len() - lb.pos,
        {
            let ghost p = lb.pos as int;
            match lb.next() {
                Some(line) => {
                    let mut si = StringIterator::new(line);
                    let ghost lv = si.chars@;
                    proof {
                        assert(lv == jv[p] + seq!['\n']);
                        assert(lv.subrange(0, 0) =~= Seq::<char>::empty());
                        assert(cs@ + lv.subrange(0, 0) =~= cs@);
                    }
                    let ghost base = cs@;
                    loop
                        invariant
                            si.chars@ == lv,
                            si.pos <= lv.len(),
                            cs@ == base + lv.subrange(0, si.pos as int),
                        ensures
                            cs@ == base + lv,
                        decreases lv.len() - si.pos,
                    {
                        let ghost q = si.pos as int;
                        match si.next() {
                            Some(c) => {
                                cs.push(c);
                                proof {
                                    assert(cs@ =~= base + lv.subrange(0, q + 1));
                                }
                            },
                            None => {
                                break ;
                            },
                        }
                    }
                    proof {
                        assert(lv.subrange(0, lv.len() as int) =~= lv);
                        lemma_join_lines_push(jv, p);
                        assert(cs@ =~= crate::buffer::join_lines(jv.subrange(0, p + 1)));
                    }
                },
                None => {
                    break ;
                },
            }
        }
        proof {
            assert(jv.subrange(0, jv.len() as int) =~= jv);
        }
        Scanner { cs, pos: 0, lin: 1, col: 1 }
    }

    /// A scanner over an in-memory text.
    pub fn from_string(data: &String) -> (r: Scanner)
        ensures
            r.stream() == crate::buffer::join_lines(lines_of(data@)),
            r.pos == 0 && r.lin == 1 && r.col == 1,
            r.wf(),
    {
        Self::from_buffer(LineBuffer::from_string(data))
    }

    /// A scanner over lines that arrived already split, for example read
    /// from a file by the caller.
    pub fn from_lines(lines: Vec<String>) -> (r: Scanner)
        ensures
            r.stream() == crate::buffer::join_lines(views_of(lines@)),
            r.pos == 0 && r.lin == 1 && r.col == 1,
            r.wf(),
    {
        Self::from_buffer(LineBuffer::from_lines(lines))
    }

    /// Consumes one character, keeping the line and column counters true
    /// to the stream.
    fn advance(&mut self)
        requires
            old(self).wf(),
            old(self).pos < old(self).cs@.len(),
        ensures
            final(self).wf(),
            final(self).cs@ == old(self).cs@,
            final(self).pos == old(self).pos + 1,
    {
        let n = self.cs.len();
        let c = self.cs[self.pos];
        proof {
            lemma_pos_bounds(self.cs@, self.pos as int);
        }
        self.pos = self.pos + 1;
        if c == '\n' {
            if self.lin < usize::MAX {
                self.lin = self.lin + 1;
            }
            self.col = 1;
        } else {
            if self.col < usize::MAX {
                self.col = self.col + 1;
            }
        }
    }
}

/// The string of one character.
fn char_string(c: char) -> (r: String)
    ensures
        r@ == seq![c],
{
    let mut v: Vec<char> = Vec::new();
    v.push(c);
    proof {
        assert(v@ =~= seq![c]);
    }
    chars::string_of(&v)
}

impl Scanner {
    /// Scans a string token: the cursor sits on the opening quote.  Yields
    /// the verbatim contents (escapes are not decoded; a backslash only
    /// keeps the following quote from closing the string), or nothing when
    /// the input ends before the closing quote.
    fn scan_str(&mut self) -> (r: Option<Vec<char>>)
        requires
            old(self).wf(),
            old(self).pos < old(self).cs@.len(),
            old(self).cs@[old(self).pos as int] == '"',
        ensures
            final(self).wf(),
            final(self).cs@ == old(self).cs@,
            match str_close(old(self).cs@, old(self).pos + 1, false) {
                Some(cl) => r matches Some(w) && w@ == old(self).cs@.subrange(
                    old(self).pos + 1,
                    cl,
                ) && final(self).pos == cl + 1,
                None => r is None && final(self).pos == old(self).cs@.len(),
            },
    {
        let ghost s = self.cs@;
        let ghost start = self.pos as int;
        let n = self.cs.len();
        self.advance();
        let mut content: Vec<char> = Vec::new();
        proof {
            assert(content@ =~= s.subrange(start + 1, start + 1));
        }
        while self.pos < n
            invariant
                self.wf(),
                self.cs@ == s,
                s == old(self).cs@,
                start == old(self).pos,
                n == s.len(),
                start + 1 <= self.pos <= n,
                content@ == s.subrange(start + 1, self.pos as int),
                str_close(s, start + 1, false) == str_close(
                    s,
                    self.pos as int,
                    self.pos > start + 1 && s[self.pos - 1] == '\\',
                ),
            decreases n - self.pos,
        {
            let c = self.cs[self.pos];
            let is_esc = content.len() > 0 && content[content.len() - 1] == '\\';
            proof {
                assert(is_esc == (self.pos > start + 1 && s[self.pos - 1] == '\\'));
            }
            if c == '"' && !is_esc {
                proof {
                    assert(str_close(s, start + 1, false) == Some(self.pos as int));
                }
                self.advance();
                return Some(content);
            }
            content.push(c);
            self.advance();
            proof {
                assert(content@ =~= s.subrange(start + 1, self.pos as int));
            }
        }
        proof {
            assert(str_close(s, self.pos as int, self.pos > start + 1 && s[self.pos - 1] == '\\')
                is None);
        }
        None
    }

    /// Scans a keyword: a run of letters starting at the cursor.
    fn scan_word(&mut self) -> (w: Vec<char>)
        requires
            old(self).wf(),
            old(self).pos < old(self).cs@.len(),
            is_alpha_char(old(self).cs@[old(self).pos as int]),
        ensures
            final(self).wf(),
            final(self).cs@ == old(self).cs@,
            final(self).pos == alpha_run_end(old(self).cs@, old(self).pos as int),
            w@ == old(self).cs@.subrange(old(self).pos as int, final(self).pos as int),
            old(self).pos < final(self).pos <= old(self).cs@.len(),
    {
        let ghost s = self.cs@;
        let ghost start = self.pos as int;
        let n = self.cs.len();
        let mut w: Vec<char> = Vec::new();
        proof {
            assert(w@ =~= s.subrange(start, start));
        }
        while self.pos < n && chars::is_alpha(self.cs[self.pos])
            invariant
                self.wf(),
                self.cs@ == s,
                s == old(self).cs@,
                start == old(self).pos,
                n == s.len(),
                start <= self.pos <= n,
                w@ == s.subrange(start, self.pos as int),
                forall|t: int| start <= t < self.pos ==> is_alpha_char(#[trigger] s[t]),
            decreases n - self.pos,
        {
            w.push(self.cs[self.pos]);
            self.advance();
            proof {
                assert(w@ =~= s.subrange(start, self.pos as int));
            }
        }
        proof {
            lemma_alpha_run_exact(s, start, self.pos as int);
        }
        w
    }

    /// Scans a numeric token greedily: an optional minus, digits, an
    /// optional point and digits, an optional exponent with sign and
    /// digits.  The captured text is validated by the parser, not here.
    #[verifier::rlimit(100)]
    fn scan_num(&mut self) -> (w: Vec<char>)
        requires
            old(self).wf(),
            old(self).pos < old(self).cs@.len(),
            is_digit_char(old(self).cs@[old(self).pos as int]) || old(self).cs@[old(
                self,
            ).pos as int] == '-',
        ensures
            final(self).wf(),
            final(self).cs@ == old(self).cs@,
            final(self).pos == num_end(old(self).cs@, old(self).pos as int),
            w@ == old(self).cs@.subrange(old(self).pos as int, final(self).pos as int),
            old(self).pos < final(self).pos <= old(self).cs@.len(),
    {
        let ghost s = self.cs@;
        let ghost start = self.pos as int;
        let n = self.cs.len();
        let mut w: Vec<char> = Vec::new();
        proof {
            assert(w@ =~= s.subrange(start, start));
        }
        if self.cs[self.pos] == '-' {
            w.push('-');
            self.advance();
            proof {
                assert(w@ =~= s.subrange(start, self.pos as int));
            }
        }
        let ghost p0 = self.pos as int;
        while self.pos < n && chars::is_digit(self.cs[self.pos])
            invariant
                self.wf(),
                self.cs@ == s,
                s == old(self).cs@,
                start == old(self).pos,
                n == s.len(),
                start <= p0 <= self.pos <= n,
                w@ == s.subrange(start, self.pos as int),
                forall|t: int| p0 <= t < self.pos ==> is_digit_char(#[trigger] s[t]),
            decreases n - self.pos,
        {
            w.push(self.cs[self.pos]);
            self.advance();
            proof {
                assert(w@ =~= s.subrange(start, self.pos as int));
            }
        }
        proof {
            lemma_digit_run_exact(s, p0, self.pos as int);
        }
        let ghost p1 = self.pos as int;
        if self.pos < n && self.cs[self.pos] == '.' {
            w.push('.');
            self.advance();
            proof {
                assert(w@ =~= s.subrange(start, self.pos as int));
            }
            let ghost fs = self.pos as int;
            while self.pos < n && chars::is_digit(self.cs[self.pos])
                invariant
                    self.wf(),
                    self.cs@ == s,
                    s == old(self).cs@,
                    start == old(self).pos,
                    n == s.len(),
                    start <= fs <= self.pos <= n,
                    w@ == s.subrange(start, self.pos as int),
                    forall|t: int| fs <= t < self.pos ==> is_digit_char(#[trigger] s[t]),
                decreases n - self.pos,
            {
                w.push(self.cs[self.pos]);
                self.advance();
                proof {
                    assert(w@ =~= s.subrange(start, self.pos as int));
                }
            }
            proof {
                lemma_digit_run_exact(s, fs, self.pos as int);
            }
        }
        let ghost p2 = self.pos as int;
        if self.pos < n && (self.cs[self.pos] == 'e' || self.cs[self.pos] == 'E') {
            w.push(self.cs[self.pos]);
            self.advance();
            proof {
                assert(w@ =~= s.subrange(start, self.pos as int));
            }
            if self.pos < n && (self.cs[self.pos] == '+' || self.cs[self.pos] == '-') {
                w.push(self.cs[self.pos]);
                self.advance();
                proof {
                    assert(w@ =~= s.subrange(start, self.pos as int));
                }
            }
            let ghost es = self.pos as int;
            while self.pos < n && chars::is_digit(self.cs[self.pos])
                invariant
                    self.wf(),
                    self.cs@ == s,
                    s == old(self).cs@,
                    start == old(self).pos,
                    n == s.len(),
                    start <= es <= self.pos <= n,
                    w@ == s.subrange(start, self.pos as int),
                    forall|t: int| es <= t < self.pos ==> is_digit_char(#[trigger] s[t]),
                decreases n - self.pos,
            {
                w.push(self.cs[self.pos]);
                self.advance();
                proof {
                    assert(w@ =~= s.subrange(start, self.pos as int));
                }
            }
            proof {
                lemma_digit_run_exact(s, es, self.pos as int);
            }
        }
        proof {
            assert(self.pos as int == num_end(s, start));
        }
        w
    }

    /// Produces the next token: skips whitespace, then classifies by the
    /// first character.  Repeatable at end of input.
    #[verifier::rlimit(100)]
    pub fn next_token(&mut self) -> (t: Token)
        requires
            old(self).wf(),
        ensures
            final(self).wf(),
            final(self).cs@ == old(self).cs@,
            old(self).pos <= final(self).pos <= final(self).cs@.len(),
            ({
                let s = old(self).cs@;
                let ws = skip_ws(s, old(self).pos as int);
                &&& (t.kind == TokenKind::Eof <==> ws == s.len())
                &&& (t.kind == TokenKind::Eof ==> final(self).pos == s.len() && t.value@
                    == Seq::<char>::empty() && t.line == cap_pos(line_of(s, s.len() as int))
                    && t.col == cap_pos(col_of(s, s.len() as int)))
                &&& (t.kind != TokenKind::Eof ==> {
                    &&& 0 <= ws < s.len()
                    &&& t.line == cap_pos(line_of(s, ws)) && t.col == cap_pos(col_of(s, ws))
                    &&& ws < final(self).pos
                    &&& token_shape(s, ws, t, final(self).pos as int)
                })
            }),
    {
        let ghost s = self.cs@;
        let ghost p0 = self.pos as int;
        let n = self.cs.len();
        while self.pos < n && chars::is_ws(self.cs[self.pos])
            invariant
                self.wf(),
                self.cs@ == s,
                s == old(self).cs@,
                p0 == old(self).pos,
                n == s.len(),
                p0 <= self.pos <= n,
                forall|t: int| p0 <= t < self.pos ==> is_ws_char(#[trigger] s[t]),
            decreases n - self.pos,
        {
            self.advance();
        }
        proof {
            lemma_skip_ws_exact(s, p0, self.pos as int);
        }
        if self.pos == n {
            return Token::new(TokenKind::Eof, String::new(), self.lin, self.col);
        }
        let c = self.cs[self.pos];
        let tl = self.lin;
        let tc = self.col;
        let ghost st = self.pos as int;
        if c == ':' {
            self.advance();
            Token::new(TokenKind::Collon, char_string(c), tl, tc)
        } else if c == ',' {
            self.advance();
            Token::new(TokenKind::Comma, char_string(c), tl, tc)
        } else if c == '{' {
            self.advance();
            Token::new(TokenKind::LeftBrace, char_string(c), tl, tc)
        } else if c == '}' {
            self.advance();
            Token::new(TokenKind::RightBrace, char_string(c), tl, tc)
        } else if c == '[' {
            self.advance();
            Token::new(TokenKind::LeftBracket, char_string(c), tl, tc)
        } else if c == ']' {
            self.advance();
            Token::new(TokenKind::RightBracket, char_string(c), tl, tc)
        } else if c == '"' {
            proof {
                lemma_str_close_bounds(s, st + 1, false);
            }
            match self.scan_str() {
                Some(w) => Token::new(TokenKind::String, chars::string_of(&w), tl, tc),
                None => Token::new(TokenKind::Error, String::new(), tl, tc),
            }
        } else if chars::is_digit(c) || c == '-' {
            let w = self.scan_num();
            Token::new(TokenKind::Number, chars::string_of(&w), tl, tc)
        } else if chars::is_alpha(c) {
            let w = self.scan_word();
            let kind = if w.len() == 4 && w[0] == 'n' && w[1] == 'u' && w[2] == 'l' && w[3] == 'l' {
                proof {
                    assert(w@ =~= seq!['n', 'u', 'l', 'l']);
                }
                TokenKind::Null
            } else if w.len() == 4 && w[0] == 't' && w[1] == 'r' && w[2] == 'u' && w[3] == 'e' {
                proof {
                    assert(w@ =~= seq!['t', 'r', 'u', 'e']);
                }
                TokenKind::True
            } else if w.len() == 5 && w[0] == 'f' && w[1] == 'a' && w[2] == 'l' && w[3] == 's'
                && w[4] == 'e' {
                proof {
                    assert(w@ =~= seq!['f', 'a', 'l', 's', 'e']);
                }
                TokenKind::False
            } else {
                TokenKind::Error
            };
            Token::new(kind, chars::string_of(&w), tl, tc)
        } else {
            self.advance();
            Token::new(TokenKind::Error, char_string(c), tl, tc)
        }
    }
}

/// Joining one more line appends its characters and a newline.
pub proof fn lemma_join_lines_push(jv: Seq<Seq<char>>, p: int)
    requires
        0 <= p < jv.len(),
    ensures
        crate::buffer::join_lines(jv.subrange(0, p + 1)) == crate::buffer::join_lines(
            jv.subrange(0, p),
        ) + jv[p] + seq!['\n'],
    decreases p,
{
    if p == 0 {
        let a = jv.subrange(0, 1);
        assert(a[0] == jv[0]);
        assert(a.drop_first() =~= Seq::<Seq<char>>::empty());
        assert(jv.subrange(0, 0) =~= Seq::<Seq<char>>::empty());
        assert(crate::buffer::join_lines(a) == a[0] + seq!['\n'] + crate::buffer::join_lines(
            a.drop_first(),
        ));
        assert(crate::buffer::join_lines(Seq::<Seq<char>>::empty()) == Seq::<char>::empty());
        assert(jv[0] + seq!['\n'] + Seq::<char>::empty() =~= jv[0] + seq!['\n']);
        assert(crate::buffer::join_lines(jv.subrange(0, 0)) + jv[0] + seq!['\n'] =~= jv[0]
            + seq!['\n']);
    } else {
        lemma_join_lines_push(jv.drop_first(), p - 1);
        let a = jv.subrange(0, p + 1);
        let b = jv.subrange(0, p);
        assert(a[0] == jv[0] && b[0] == jv[0]);
        assert(a.drop_first() =~= jv.drop_first().subrange(0, p));
        assert(b.drop_first() =~= jv.drop_first().subrange(0, p - 1));
        assert(jv.drop_first()[p - 1] == jv[p]);
        assert(crate::buffer::join_lines(a) =~= crate::buffer::join_lines(b) + jv[p] + seq!['\n']);
    }
}

} // verus!

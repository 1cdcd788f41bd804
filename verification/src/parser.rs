//! The recursive-descent parser: enforces the JSON grammar over the token
//! stream by one-token lookahead and builds the value tree.
//!
//! The first grammar violation aborts the parse with a positioned error; no
//! partial tree is returned.  The whole grammar also exists as spec
//! functions over the character stream (`sp_value`, `sp_object`,
//! `sp_array`, `sp_doc`); every parsing function's contract says that its
//! result and final state are exactly what those functions denote, so the
//! parse of any input, value or error, message and position, is fixed by
//! the contracts alone.

use vstd::prelude::*;
use crate::chars;
use crate::chars::{is_alpha_char, is_digit_char, is_ws_char};
use crate::number::{JSONNumber, num_of_chars};
use crate::scanner::{Scanner, Token, TokenKind, skip_ws, alpha_run_end, num_end, str_close};
use crate::value::{
    JSONValue, JSONError, obj_insert, lemma_insert_law, unique_keys, ser_val, ser_entries,
    ser_items,
};
use vstd::string::StringExecFns;

verus! {

/// The name of a token class, as it appears in error messages.
pub open spec fn kind_name_spec(k: TokenKind) -> Seq<char> {
    match k {
        TokenKind::Collon => "Collon"@,
        TokenKind::Comma => "Comma"@,
        TokenKind::LeftBrace => "LeftBrace"@,
        TokenKind::RightBrace => "RightBrace"@,
        TokenKind::LeftBracket => "LeftBracket"@,
        TokenKind::RightBracket => "RightBracket"@,
        TokenKind::String => "String"@,
        TokenKind::Number => "Number"@,
        TokenKind::Null => "Null"@,
        TokenKind::False => "False"@,
        TokenKind::True => "True"@,
        TokenKind::Eof => "Eof"@,
        TokenKind::Error => "Error"@,
    }
}

fn kind_name(k: TokenKind) -> (r: &'static str)
    ensures
        r@ == kind_name_spec(k),
{
    match k {
        TokenKind::Collon => "Collon",
        TokenKind::Comma => "Comma",
        TokenKind::LeftBrace => "LeftBrace",
        TokenKind::RightBrace => "RightBrace",
        TokenKind::LeftBracket => "LeftBracket",
        TokenKind::RightBracket => "RightBracket",
        TokenKind::String => "String",
        TokenKind::Number => "Number",
        TokenKind::Null => "Null",
        TokenKind::False => "False",
        TokenKind::True => "True",
        TokenKind::Eof => "Eof",
        TokenKind::Error => "Error",
    }
}

/// An error at the given token, with a message of a fixed head and the
/// token's own text or class name.
fn err_at(head: &str, tail: &str, t: &Token) -> (e: JSONError)
    ensures
        e.0@ == head@ + tail@,
        e.1 == t.line && e.2 == t.col,
{
    let mut m = String::from_str(head);
    m.append(tail);
    JSONError::new(m, t.line, t.col)
}

/// What a parse of the stream starting at `p0` owes for a document that is
/// one atom: when the first token is a literal keyword, a well-formed
/// numeric literal or a closed string, and only whitespace follows it, the
/// parse succeeds with exactly that value.
pub open spec fn atom_doc_result(s: Seq<char>, p0: int, r: Result<JSONValue, JSONError>) -> bool {
    let st = skip_ws(s, p0);
    &&& (st < s.len() && is_alpha_char(s[st]) && skip_ws(s, alpha_run_end(s, st)) == s.len()
        ==> {
        let w = s.subrange(st, alpha_run_end(s, st));
        &&& (w == seq!['n', 'u', 'l', 'l'] ==> (r matches Ok(v) && v == JSONValue::Null))
        &&& (w == seq!['t', 'r', 'u', 'e'] ==> (r matches Ok(v) && v == JSONValue::Boolean(true)))
        &&& (w == seq!['f', 'a', 'l', 's', 'e'] ==> (r matches Ok(v) && v == JSONValue::Boolean(
            false,
        )))
    })
    &&& (st < s.len() && (is_digit_char(s[st]) || s[st] == '-') && skip_ws(s, num_end(s, st))
        == s.len() ==> match num_of_chars(s.subrange(st, num_end(s, st))) {
        Some(n) => r matches Ok(v) && v == JSONValue::Number(n),
        None => r is Err,
    })
    &&& (st < s.len() && s[st] == '"' ==> match str_close(s, st + 1, false) {
        Some(cl) => skip_ws(s, cl + 1) == s.len() ==> (r matches Ok(v) && v matches
            JSONValue::String(x) && x@ == s.subrange(st + 1, cl)),
        None => true,
    })
}

// ---------------------------------------------------------------------
// The functional reading of one token: the class, text and end position
// that `token_shape` relates are each a function of the stream and the
// token's start, which lets whole parses be written as spec functions.
// ---------------------------------------------------------------------
/// Class of the token that starts at `st`.
pub open spec fn tok_kind(s: Seq<char>, st: int) -> TokenKind {
    let c = s[st];
    if c == ':' {
        TokenKind::Collon
    } else if c == ',' {
        TokenKind::Comma
    } else if c == '{' {
        TokenKind::LeftBrace
    } else if c == '}' {
        TokenKind::RightBrace
    } else if c == '[' {
        TokenKind::LeftBracket
    } else if c == ']' {
        TokenKind::RightBracket
    } else if c == '"' {
        match str_close(s, st + 1, false) {
            Some(_) => TokenKind::String,
            None => TokenKind::Error,
        }
    } else if is_digit_char(c) || c == '-' {
        TokenKind::Number
    } else if is_alpha_char(c) {
        let w = s.subrange(st, alpha_run_end(s, st));
        if w == seq!['n', 'u', 'l', 'l'] {
            TokenKind::Null
        } else if w == seq!['t', 'r', 'u', 'e'] {
            TokenKind::True
        } else if w == seq!['f', 'a', 'l', 's', 'e'] {
            TokenKind::False
        } else {
            TokenKind::Error
        }
    } else {
        TokenKind::Error
    }
}

/// Text of the token that starts at `st`.
pub open spec fn tok_text(s: Seq<char>, st: int) -> Seq<char> {
    let c = s[st];
    if c == ':' || c == ',' || c == '{' || c == '}' || c == '[' || c == ']' {
        seq![c]
    } else if c == '"' {
        match str_close(s, st + 1, false) {
            Some(cl) => s.subrange(st + 1, cl),
            None => Seq::empty(),
        }
    } else if is_digit_char(c) || c == '-' {
        s.subrange(st, num_end(s, st))
    } else if is_alpha_char(c) {
        s.subrange(st, alpha_run_end(s, st))
    } else {
        seq![c]
    }
}

/// End of the token that starts at `st`.
pub open spec fn tok_end(s: Seq<char>, st: int) -> int {
    let c = s[st];
    if c == ':' || c == ',' || c == '{' || c == '}' || c == '[' || c == ']' {
        st + 1
    } else if c == '"' {
        match str_close(s, st + 1, false) {
            Some(cl) => cl + 1,
            None => s.len() as int,
        }
    } else if is_digit_char(c) || c == '-' {
        num_end(s, st)
    } else if is_alpha_char(c) {
        alpha_run_end(s, st)
    } else {
        st + 1
    }
}

/// A token of a given shape has exactly the functional class, text and end.
pub proof fn lemma_token_shape_fns(s: Seq<char>, st: int, t: Token, end: int)
    requires
        0 <= st < s.len(),
        crate::scanner::token_shape(s, st, t, end),
    ensures
        t.kind == tok_kind(s, st),
        t.value@ == tok_text(s, st),
        end == tok_end(s, st),
{
}

// The token read when the scanner stands at `p`: its start is the first
// non-whitespace position, and an exhausted remainder reads as the
// end-of-input token.
pub open spec fn tok_kind_at(s: Seq<char>, p: int) -> TokenKind {
    if skip_ws(s, p) == s.len() {
        TokenKind::Eof
    } else {
        tok_kind(s, skip_ws(s, p))
    }
}

pub open spec fn tok_text_at(s: Seq<char>, p: int) -> Seq<char> {
    if skip_ws(s, p) == s.len() {
        Seq::empty()
    } else {
        tok_text(s, skip_ws(s, p))
    }
}

pub open spec fn tok_end_at(s: Seq<char>, p: int) -> int {
    if skip_ws(s, p) == s.len() {
        s.len() as int
    } else {
        tok_end(s, skip_ws(s, p))
    }
}

pub open spec fn tok_line_at(s: Seq<char>, p: int) -> int {
    crate::scanner::cap_pos(crate::scanner::line_of(s, skip_ws(s, p)))
}

pub open spec fn tok_col_at(s: Seq<char>, p: int) -> int {
    crate::scanner::cap_pos(crate::scanner::col_of(s, skip_ws(s, p)))
}

/// Every token read from a valid position ends within the stream, and a
/// real token is nonempty.
pub proof fn lemma_tok_at_bounds(s: Seq<char>, p: int)
    requires
        0 <= p <= s.len(),
    ensures
        p <= skip_ws(s, p) <= s.len(),
        tok_kind_at(s, p) != TokenKind::Eof ==> skip_ws(s, p) < tok_end_at(s, p) <= s.len(),
        tok_kind_at(s, p) == TokenKind::Eof ==> tok_end_at(s, p) == s.len(),
{
    crate::scanner::lemma_skip_ws_bounds(s, p);
    let a = skip_ws(s, p);
    if a < s.len() {
        let c = s[a];
        if c == '"' {
            crate::scanner::lemma_str_close_bounds(s, a + 1, false);
        } else if is_digit_char(c) || c == '-' {
            let p0: int = if c == '-' {
                a + 1
            } else {
                a
            };
            crate::number::lemma_digit_run(s, p0);
            let p1 = crate::number::digit_run_end(s, p0);
            if c != '-' {
                assert(crate::number::digit_run_end(s, a) == crate::number::digit_run_end(
                    s,
                    a + 1,
                ));
                crate::number::lemma_digit_run(s, a + 1);
            }
            assert(a < p1 <= s.len());
            let p2: int = if p1 < s.len() && s[p1] == '.' {
                crate::number::digit_run_end(s, p1 + 1)
            } else {
                p1
            };
            if p1 < s.len() && s[p1] == '.' {
                crate::number::lemma_digit_run(s, p1 + 1);
            }
            assert(a < p2 <= s.len());
            if p2 < s.len() && (s[p2] == 'e' || s[p2] == 'E') {
                let q: int = if p2 + 1 < s.len() && (s[p2 + 1] == '+' || s[p2 + 1] == '-') {
                    p2 + 2
                } else {
                    p2 + 1
                };
                crate::number::lemma_digit_run(s, q);
            }
            assert(a < num_end(s, a) <= s.len());
        } else if is_alpha_char(c) {
            assert(alpha_run_end(s, a) == alpha_run_end(s, a + 1));
            crate::scanner::lemma_alpha_run_bounds(s, a + 1);
        }
    }
}

// ---------------------------------------------------------------------
// The abstract value tree: what a parse denotes, with texts as character
// sequences, so that whole parses can be stated as spec functions.
// ---------------------------------------------------------------------
pub ghost enum JsonRep {
    Null,
    Bool(bool),
    Num(JSONNumber),
    Str(Seq<char>),
    Obj(Seq<(Seq<char>, JsonRep)>),
    Arr(Seq<JsonRep>),
}

/// The abstract tree a concrete value denotes.
pub open spec fn rep_of(v: JSONValue) -> JsonRep
    decreases v, 1int,
{
    match v {
        JSONValue::Null => JsonRep::Null,
        JSONValue::Boolean(b) => JsonRep::Bool(b),
        JSONValue::Number(n) => JsonRep::Num(n),
        JSONValue::String(t) => JsonRep::Str(t@),
        JSONValue::Object(es) => JsonRep::Obj(reps_of_entries(es@)),
        JSONValue::Array(items) => JsonRep::Arr(reps_of_items(items@)),
    }
}

pub open spec fn reps_of_entries(es: Seq<(String, JSONValue)>) -> Seq<(Seq<char>, JsonRep)>
    decreases es, 0int,
{
    if es.len() == 0 {
        Seq::empty()
    } else {
        seq![(es[0].0@, rep_of(es[0].1))] + reps_of_entries(es.drop_first())
    }
}

pub open spec fn reps_of_items(items: Seq<JSONValue>) -> Seq<JsonRep>
    decreases items, 0int,
{
    if items.len() == 0 {
        Seq::empty()
    } else {
        seq![rep_of(items[0])] + reps_of_items(items.drop_first())
    }
}

pub proof fn lemma_reps_of_entries_index(es: Seq<(String, JSONValue)>)
    ensures
        reps_of_entries(es).len() == es.len(),
        forall|i: int|
            0 <= i < es.len() ==> #[trigger] reps_of_entries(es)[i] == (es[i].0@, rep_of(es[i].1)),
    decreases es.len(),
{
    if es.len() > 0 {
        lemma_reps_of_entries_index(es.drop_first());
        assert(forall|i: int|
            1 <= i < es.len() ==> #[trigger] es.drop_first()[i - 1] == es[i]);
    }
}

pub proof fn lemma_reps_of_items_index(items: Seq<JSONValue>)
    ensures
        reps_of_items(items).len() == items.len(),
        forall|i: int|
            0 <= i < items.len() ==> #[trigger] reps_of_items(items)[i] == rep_of(items[i]),
    decreases items.len(),
{
    if items.len() > 0 {
        lemma_reps_of_items_index(items.drop_first());
        assert(forall|i: int|
            1 <= i < items.len() ==> #[trigger] items.drop_first()[i - 1] == items[i]);
    }
}

/// Index of the first abstract entry under key `k`, or `-1`.
pub open spec fn rep_find_idx(es: Seq<(Seq<char>, JsonRep)>, k: Seq<char>) -> int
    decreases es.len(),
{
    if es.len() == 0 {
        -1
    } else if es[0].0 == k {
        0
    } else {
        let r = rep_find_idx(es.drop_first(), k);
        if r == -1 {
            -1
        } else {
            r + 1
        }
    }
}

/// Last-write-wins insertion on abstract entries, mirroring `obj_insert`.
pub open spec fn rep_insert(
    es: Seq<(Seq<char>, JsonRep)>,
    k: Seq<char>,
    v: JsonRep,
) -> Seq<(Seq<char>, JsonRep)> {
    if rep_find_idx(es, k) == -1 {
        es.push((k, v))
    } else {
        es.remove(rep_find_idx(es, k)).push((k, v))
    }
}

/// Concrete and abstract key lookup agree.
pub proof fn lemma_find_idx_rep(es: Seq<(String, JSONValue)>, k: Seq<char>)
    ensures
        rep_find_idx(reps_of_entries(es), k) == crate::value::find_idx(es, k),
    decreases es.len(),
{
    lemma_reps_of_entries_index(es);
    if es.len() > 0 {
        lemma_find_idx_rep(es.drop_first(), k);
        assert(reps_of_entries(es)[0] == (es[0].0@, rep_of(es[0].1)));
        assert(reps_of_entries(es).drop_first() =~= reps_of_entries(es.drop_first())) by {
            lemma_reps_of_entries_index(es.drop_first());
        }
    }
}

/// Concrete and abstract insertion agree.
pub proof fn lemma_rep_insert(es: Seq<(String, JSONValue)>, k: String, v: JSONValue)
    ensures
        reps_of_entries(crate::value::insert_result(es, k, v)) == rep_insert(
            reps_of_entries(es),
            k@,
            rep_of(v),
        ),
{
    lemma_find_idx_rep(es, k@);
    lemma_reps_of_entries_index(es);
    crate::value::lemma_find_props(es, k@);
    let j = crate::value::find_idx(es, k@);
    if j == -1 {
        let con = es.push((k, v));
        lemma_reps_of_entries_index(con);
        assert(reps_of_entries(con) =~= reps_of_entries(es).push((k@, rep_of(v))));
    } else {
        let cut = es.remove(j);
        let con = cut.push((k, v));
        lemma_reps_of_entries_index(cut);
        lemma_reps_of_entries_index(con);
        assert(reps_of_entries(cut) =~= reps_of_entries(es).remove(j));
        assert(reps_of_entries(con) =~= reps_of_entries(es).remove(j).push((k@, rep_of(v))));
    }
}

// ---------------------------------------------------------------------
// The whole grammar as spec functions over the character stream.  Each
// takes the position from which the current token is read; a result
// carries the abstract value and the position from which the following
// token is read.  The bound checks before recursive calls keep the
// termination measure self-contained; they never fail on a real stream
// (`lemma_tok_at_bounds`).
// ---------------------------------------------------------------------
pub type SpErr = (Seq<char>, int, int);

/// The value rule.
pub open spec fn sp_value(s: Seq<char>, p: int) -> Result<(JsonRep, int), SpErr>
    decreases s.len() - p, 2int,
{
    let k = tok_kind_at(s, p);
    if k == TokenKind::Null {
        Ok((JsonRep::Null, tok_end_at(s, p)))
    } else if k == TokenKind::True {
        Ok((JsonRep::Bool(true), tok_end_at(s, p)))
    } else if k == TokenKind::False {
        Ok((JsonRep::Bool(false), tok_end_at(s, p)))
    } else if k == TokenKind::String {
        Ok((JsonRep::Str(tok_text_at(s, p)), tok_end_at(s, p)))
    } else if k == TokenKind::Number {
        match num_of_chars(tok_text_at(s, p)) {
            Some(n) => Ok((JsonRep::Num(n), tok_end_at(s, p))),
            None => Err((tok_text_at(s, p) + " is NaN "@, tok_line_at(s, p), tok_col_at(s, p))),
        }
    } else if k == TokenKind::LeftBrace {
        let q = tok_end_at(s, p);
        if p < q <= s.len() {
            sp_object(s, q)
        } else {
            Err((Seq::empty(), 0, 0))
        }
    } else if k == TokenKind::LeftBracket {
        let q = tok_end_at(s, p);
        if p < q <= s.len() {
            sp_array(s, q)
        } else {
            Err((Seq::empty(), 0, 0))
        }
    } else {
        Err(("Unexpected token "@ + tok_text_at(s, p), tok_line_at(s, p), tok_col_at(s, p)))
    }
}

/// The object rule, after the opening brace was consumed.
pub open spec fn sp_object(s: Seq<char>, q: int) -> Result<(JsonRep, int), SpErr>
    decreases s.len() - q, 1int,
{
    if tok_kind_at(s, q) == TokenKind::RightBrace {
        Ok((JsonRep::Obj(Seq::empty()), tok_end_at(s, q)))
    } else {
        sp_obj_body(s, q, Seq::empty())
    }
}

/// One member of an object body and what follows it.
pub open spec fn sp_obj_body(
    s: Seq<char>,
    q: int,
    acc: Seq<(Seq<char>, JsonRep)>,
) -> Result<(JsonRep, int), SpErr>
    decreases s.len() - q, 0int,
{
    let k = tok_kind_at(s, q);
    if k != TokenKind::String {
        Err(
            (
                "Expecting key name but found "@ + kind_name_spec(k),
                tok_line_at(s, q),
                tok_col_at(s, q),
            ),
        )
    } else {
        let key = tok_text_at(s, q);
        let q2 = tok_end_at(s, q);
        let k2 = tok_kind_at(s, q2);
        if k2 != TokenKind::Collon {
            Err(
                (
                    "Expecting collon but found "@ + kind_name_spec(k2),
                    tok_line_at(s, q2),
                    tok_col_at(s, q2),
                ),
            )
        } else {
            let q3 = tok_end_at(s, q2);
            if !(q < q3 <= s.len()) {
                Err((Seq::empty(), 0, 0))
            } else {
                match sp_value(s, q3) {
                    Err(e) => Err(e),
                    Ok((rv, q4)) => {
                        let acc2 = rep_insert(acc, key, rv);
                        let k4 = tok_kind_at(s, q4);
                        if k4 == TokenKind::Comma {
                            let q5 = tok_end_at(s, q4);
                            if tok_kind_at(s, q5) == TokenKind::RightBrace {
                                Err(
                                    (
                                        "Trailing `"@ + tok_text_at(s, q5) + "`"@,
                                        tok_line_at(s, q5),
                                        tok_col_at(s, q5),
                                    ),
                                )
                            } else if !(q < q5 <= s.len()) {
                                Err((Seq::empty(), 0, 0))
                            } else {
                                sp_obj_body(s, q5, acc2)
                            }
                        } else if k4 == TokenKind::RightBrace {
                            Ok((JsonRep::Obj(acc2), tok_end_at(s, q4)))
                        } else {
                            Err(
                                (
                                    "Unexpected token "@ + tok_text_at(s, q4),
                                    tok_line_at(s, q4),
                                    tok_col_at(s, q4),
                                ),
                            )
                        }
                    },
                }
            }
        }
    }
}

/// The array rule, after the opening bracket was consumed.
pub open spec fn sp_array(s: Seq<char>, q: int) -> Result<(JsonRep, int), SpErr>
    decreases s.len() - q, 4int,
{
    if tok_kind_at(s, q) == TokenKind::RightBracket {
        Ok((JsonRep::Arr(Seq::empty()), tok_end_at(s, q)))
    } else {
        sp_arr_body(s, q, Seq::empty())
    }
}

/// One element of an array body and what follows it.
pub open spec fn sp_arr_body(s: Seq<char>, q: int, acc: Seq<JsonRep>) -> Result<
    (JsonRep, int),
    SpErr,
>
    decreases s.len() - q, 3int,
{
    if tok_kind_at(s, q) == TokenKind::Eof {
        Err(("Unexpected token "@ + tok_text_at(s, q), tok_line_at(s, q), tok_col_at(s, q)))
    } else if !(q < s.len()) {
        Err((Seq::empty(), 0, 0))
    } else {
        match sp_value(s, q) {
            Err(e) => Err(e),
            Ok((rv, q4)) => {
                let acc2 = acc.push(rv);
                let k4 = tok_kind_at(s, q4);
                if k4 == TokenKind::Comma {
                    let q5 = tok_end_at(s, q4);
                    if tok_kind_at(s, q5) == TokenKind::RightBracket {
                        Err(
                            (
                                "Trailing `"@ + tok_text_at(s, q5) + "`"@,
                                tok_line_at(s, q5),
                                tok_col_at(s, q5),
                            ),
                        )
                    } else if !(q < q5 <= s.len()) {
                        Err((Seq::empty(), 0, 0))
                    } else {
                        sp_arr_body(s, q5, acc2)
                    }
                } else if k4 == TokenKind::RightBracket {
                    Ok((JsonRep::Arr(acc2), tok_end_at(s, q4)))
                } else {
                    Err(
                        (
                            "Unexpected token "@ + tok_text_at(s, q4),
                            tok_line_at(s, q4),
                            tok_col_at(s, q4),
                        ),
                    )
                }
            },
        }
    }
}

/// The whole document: exactly one value between whitespace; a blank input
/// is the empty-input error, which alone carries position zero.
pub open spec fn sp_doc(s: Seq<char>, p: int) -> Result<JsonRep, SpErr> {
    if tok_kind_at(s, p) == TokenKind::Eof {
        Err(("Empty json stream"@, 0, 0))
    } else {
        match sp_value(s, p) {
            Err(e) => Err(e),
            Ok((rep, q)) => {
                if tok_kind_at(s, q) == TokenKind::Eof {
                    Ok(rep)
                } else {
                    Err(
                        (
                            "Unexpected token "@ + tok_text_at(s, q),
                            tok_line_at(s, q),
                            tok_col_at(s, q),
                        ),
                    )
                }
            },
        }
    }
}

// ---------------------------------------------------------------------
// Serialization round trip: parsing the serialized text of a well-formed
// tree yields the tree again, as long as no string in it needs the
// escaping the serializer does not perform.
// ---------------------------------------------------------------------
/// The text survives verbatim quoting: no quote, backslash or line break.
pub open spec fn safe_text(t: Seq<char>) -> bool {
    forall|j: int|
        0 <= j < t.len() ==> #[trigger] t[j] != '"' && t[j] != '\\' && t[j] != '\n' && t[j]
            != '\r'
}

/// Every string and key in the tree survives verbatim quoting.
pub open spec fn ser_safe(v: JSONValue) -> bool
    decreases v, 1int,
{
    match v {
        JSONValue::String(t) => safe_text(t@),
        JSONValue::Object(es) => entries_safe(es@),
        JSONValue::Array(items) => items_safe(items@),
        _ => true,
    }
}

pub open spec fn entries_safe(es: Seq<(String, JSONValue)>) -> bool
    decreases es, 0int,
{
    if es.len() == 0 {
        true
    } else {
        safe_text(es[0].0@) && ser_safe(es[0].1) && entries_safe(es.drop_first())
    }
}

pub open spec fn items_safe(items: Seq<JSONValue>) -> bool
    decreases items, 0int,
{
    if items.len() == 0 {
        true
    } else {
        ser_safe(items[0]) && items_safe(items.drop_first())
    }
}

/// A character at which a serialized value may legitimately end.
pub open spec fn value_boundary(c: char) -> bool {
    c == ',' || c == '}' || c == ']' || c == '\n'
}

/// Serialized text starts with one of the value-opening characters.
pub proof fn lemma_ser_first(v: JSONValue)
    requires
        v.wf(),
    ensures
        ser_val(v).len() >= 1,
        ({
            let c = ser_val(v)[0];
            c == '"' || c == '{' || c == '[' || c == 'n' || c == 't' || c == 'f' || is_digit_char(
                c,
            ) || c == '-'
        }),
{
    match v {
        JSONValue::Number(n) => {
            crate::number::lemma_num_chars_shape(n);
        },
        _ => {},
    }
}

/// The closing quote of a string whose content holds no quote and no
/// backslash is found exactly at the content's end.
pub proof fn lemma_str_close_exact(s: Seq<char>, i: int, cl: int)
    requires
        0 <= i <= cl < s.len(),
        s[cl] == '"',
        forall|t: int| i <= t < cl ==> #[trigger] s[t] != '"' && s[t] != '\\',
    ensures
        str_close(s, i, false) == Some(cl),
    decreases cl - i,
{
    if i < cl {
        lemma_str_close_exact(s, i + 1, cl);
    }
}

/// The numeric token scanned from a grammatical literal without an
/// exponent part, embedded in a longer stream and followed by a character
/// that extends no number, covers exactly the literal.
pub proof fn lemma_num_end_embedded(s: Seq<char>, a: int, w: Seq<char>)
    requires
        0 <= a,
        a + w.len() < s.len(),
        s.subrange(a, a + w.len()) == w,
        w.len() >= 1,
        crate::number::num_grammar_ok(w),
        !crate::number::has_exp(w),
        ({
            let c = s[a + w.len()];
            !is_digit_char(c) && c != '.' && c != 'e' && c != 'E'
        }),
    ensures
        num_end(s, a) == a + w.len(),
{
    assert(forall|t: int| 0 <= t < w.len() ==> #[trigger] s[a + t] == w[t]);
    assert(forall|t: int| a <= t < a + w.len() ==> #[trigger] s[t] == w[t - a]);
    let p0 = crate::number::int_start(w);
    assert(s[a] == w[0]);
    crate::number::lemma_digit_run(w, p0);
    let p1 = crate::number::int_end(w);
    assert(crate::number::digit_run_end(s, a + p0) == a + p1) by {
        crate::number::lemma_digit_run_exact(s, a + p0, a + p1);
    }
    if crate::number::has_frac(w) {
        assert(s[a + p1] == '.');
        crate::number::lemma_digit_run(w, p1 + 1);
        let p2 = crate::number::frac_end(w);
        assert(crate::number::digit_run_end(s, a + p1 + 1) == a + p2) by {
            crate::number::lemma_digit_run_exact(s, a + p1 + 1, a + p2);
        }
        assert(p2 == w.len()) by {
            if p2 < w.len() {
                assert(!is_digit_char(w[p2]));
                crate::number::lemma_digit_run_exact(w, p2, p2);
                assert(crate::number::exp_end(w) == p2);
            }
        }
        assert(num_end(s, a) == a + p2);
    } else {
        assert(p1 == w.len()) by {
            if p1 < w.len() {
                crate::number::lemma_digit_run_exact(w, p1, p1);
                assert(crate::number::exp_end(w) == p1);
            }
        }
        assert(s[a + p1] != '.');
        assert(num_end(s, a) == a + p1);
    }
}

/// Inserting under a fresh key is appending.
pub proof fn lemma_rep_insert_fresh(es: Seq<(Seq<char>, JsonRep)>, k: Seq<char>, v: JsonRep)
    requires
        rep_find_idx(es, k) == -1,
    ensures
        rep_insert(es, k, v) == es.push((k, v)),
{
}

pub proof fn lemma_rep_find_bounds(es: Seq<(Seq<char>, JsonRep)>, k: Seq<char>)
    ensures
        -1 <= rep_find_idx(es, k) < es.len(),
    decreases es.len(),
{
    if es.len() > 0 && es[0].0 != k {
        lemma_rep_find_bounds(es.drop_first(), k);
    }
}

/// A key absent from a sequence stays absent after appending another key.
pub proof fn lemma_rep_find_push(es: Seq<(Seq<char>, JsonRep)>, e: (Seq<char>, JsonRep), k: Seq<char>)
    requires
        rep_find_idx(es, k) == -1,
        e.0 != k,
    ensures
        rep_find_idx(es.push(e), k) == -1,
    decreases es.len(),
{
    if es.len() == 0 {
        assert(es.push(e)[0] == e);
        assert(es.push(e).drop_first() =~= Seq::<(Seq<char>, JsonRep)>::empty());
        assert(rep_find_idx(Seq::<(Seq<char>, JsonRep)>::empty(), k) == -1);
    } else {
        assert(es[0].0 != k) by {
            if es[0].0 == k {
                assert(rep_find_idx(es, k) == 0);
            }
        }
        lemma_rep_find_bounds(es.drop_first(), k);
        assert(rep_find_idx(es.drop_first(), k) == -1);
        lemma_rep_find_push(es.drop_first(), e, k);
        assert(es.push(e)[0] == es[0]);
        assert(es.push(e).drop_first() =~= es.drop_first().push(e));
    }
}

/// The text holds no line break.
pub open spec fn no_nl(t: Seq<char>) -> bool {
    forall|j: int| 0 <= j < t.len() ==> #[trigger] t[j] != '\n' && t[j] != '\r'
}

pub proof fn lemma_no_nl_concat(x: Seq<char>, y: Seq<char>)
    requires
        no_nl(x),
        no_nl(y),
    ensures
        no_nl(x + y),
{
    assert forall|j: int| 0 <= j < (x + y).len() implies #[trigger] (x + y)[j] != '\n' && (x
        + y)[j] != '\r' by {
        if j < x.len() {
            assert((x + y)[j] == x[j]);
        } else {
            assert((x + y)[j] == y[j - x.len()]);
        }
    }
}

/// Serialized safe text holds no line break, so it is one logical line.
pub proof fn lemma_ser_no_newline(v: JSONValue)
    requires
        v.wf(),
        ser_safe(v),
    ensures
        no_nl(ser_val(v)),
    decreases v, 1int,
{
    match v {
        JSONValue::Number(n) => {
            crate::number::lemma_num_chars_shape(n);
            assert forall|j: int|
                0 <= j < ser_val(v).len() implies #[trigger] ser_val(v)[j] != '\n' && ser_val(
                v,
            )[j] != '\r' by {
                assert(is_digit_char(ser_val(v)[j]) || ser_val(v)[j] == '-' || ser_val(v)[j]
                    == '.');
            }
        },
        JSONValue::Object(es) => {
            lemma_ser_entries_no_newline(es@);
            lemma_no_nl_concat(seq!['{'], ser_entries(es@));
            lemma_no_nl_concat(seq!['{'] + ser_entries(es@), seq!['}']);
        },
        JSONValue::Array(items) => {
            lemma_ser_items_no_newline(items@);
            lemma_no_nl_concat(seq!['['], ser_items(items@));
            lemma_no_nl_concat(seq!['['] + ser_items(items@), seq![']']);
        },
        JSONValue::String(t) => {
            lemma_no_nl_concat(seq!['"'], t@);
            lemma_no_nl_concat(seq!['"'] + t@, seq!['"']);
        },
        _ => {},
    }
}

pub proof fn lemma_ser_entries_no_newline(es: Seq<(String, JSONValue)>)
    requires
        entries_safe(es),
        forall|i: int| 0 <= i < es.len() ==> (#[trigger] es[i].1).wf(),
    ensures
        no_nl(ser_entries(es)),
    decreases es, 0int,
{
    if es.len() > 0 {
        lemma_ser_no_newline(es[0].1);
        let head = seq!['"'] + es[0].0@ + seq!['"', ':'] + ser_val(es[0].1);
        lemma_no_nl_concat(seq!['"'], es[0].0@);
        lemma_no_nl_concat(seq!['"'] + es[0].0@, seq!['"', ':']);
        lemma_no_nl_concat(seq!['"'] + es[0].0@ + seq!['"', ':'], ser_val(es[0].1));
        if es.len() > 1 {
            assert(forall|i: int|
                0 <= i < es.drop_first().len() ==> (#[trigger] es.drop_first()[i].1).wf()) by {
                assert(forall|i: int|
                    0 <= i < es.drop_first().len() ==> es.drop_first()[i] == es[i + 1]);
            }
            lemma_ser_entries_no_newline(es.drop_first());
            lemma_no_nl_concat(head, seq![',']);
            lemma_no_nl_concat(head + seq![','], ser_entries(es.drop_first()));
        }
    }
}

pub proof fn lemma_ser_items_no_newline(items: Seq<JSONValue>)
    requires
        items_safe(items),
        forall|i: int| 0 <= i < items.len() ==> (#[trigger] items[i]).wf(),
    ensures
        no_nl(ser_items(items)),
    decreases items, 0int,
{
    if items.len() > 0 {
        lemma_ser_no_newline(items[0]);
        if items.len() > 1 {
            assert(forall|i: int|
                0 <= i < items.drop_first().len() ==> (#[trigger] items.drop_first()[i]).wf()) by {
                assert(forall|i: int|
                    0 <= i < items.drop_first().len() ==> items.drop_first()[i] == items[i + 1]);
            }
            lemma_ser_items_no_newline(items.drop_first());
            lemma_no_nl_concat(ser_val(items[0]), seq![',']);
            lemma_no_nl_concat(ser_val(items[0]) + seq![','], ser_items(items.drop_first()));
        }
    }
}

/// Parsing the serialized text of a well-formed, escape-safe tree, found
/// embedded in a longer stream and followed by a boundary character,
/// yields its abstract form and stops exactly at its end.
#[verifier::rlimit(100)]
pub proof fn lemma_sp_value_of_ser(v: JSONValue, s: Seq<char>, p: int)
    requires
        v.wf(),
        ser_safe(v),
        0 <= p,
        p + ser_val(v).len() < s.len(),
        s.subrange(p, p + ser_val(v).len()) == ser_val(v),
        value_boundary(s[p + ser_val(v).len()]),
    ensures
        sp_value(s, p) == Ok::<(JsonRep, int), SpErr>((rep_of(v), p + ser_val(v).len())),
    decreases v, 1int,
{
    let w = ser_val(v);
    let e = p + w.len();
    lemma_ser_first(v);
    assert(forall|t: int| p <= t < e ==> #[trigger] s[t] == w[t - p]);
    assert(s[p] == w[0]);
    assert(!is_ws_char(s[p]));
    assert(skip_ws(s, p) == p);
    match v {
        JSONValue::Null => {
            assert(w =~= seq!['n', 'u', 'l', 'l']);
            assert(forall|t: int| p <= t < e ==> is_alpha_char(#[trigger] s[t]));
            assert(!is_alpha_char(s[e]));
            crate::scanner::lemma_alpha_run_exact(s, p, e);
            assert(s.subrange(p, e) =~= w);
            assert(tok_kind_at(s, p) == TokenKind::Null);
            assert(tok_end_at(s, p) == e);
        },
        JSONValue::Boolean(bv) => {
            if bv {
                assert(w =~= seq!['t', 'r', 'u', 'e']);
            } else {
                assert(w =~= seq!['f', 'a', 'l', 's', 'e']);
            }
            assert(forall|t: int| p <= t < e ==> is_alpha_char(#[trigger] s[t]));
            assert(!is_alpha_char(s[e]));
            crate::scanner::lemma_alpha_run_exact(s, p, e);
            assert(s.subrange(p, e) =~= w);
            assert(tok_end_at(s, p) == e);
        },
        JSONValue::Number(n) => {
            crate::number::lemma_num_chars_shape(n);
            crate::number::lemma_number_round_trip(n);
            assert(crate::number::num_grammar_ok(w));
            assert(!crate::number::has_exp(w)) by {
                if crate::number::has_exp(w) {
                    let fe = crate::number::frac_end(w);
                    crate::number::lemma_digit_run(w, crate::number::int_start(w));
                    if crate::number::has_frac(w) {
                        crate::number::lemma_digit_run(w, crate::number::frac_start(w));
                    }
                    assert(0 <= fe < w.len());
                    assert(w[fe] == 'e' || w[fe] == 'E');
                }
            }
            lemma_num_end_embedded(s, p, w);
            assert(tok_kind_at(s, p) == TokenKind::Number);
            assert(tok_text_at(s, p) =~= w);
            assert(num_of_chars(tok_text_at(s, p)) == Some(n));
            assert(tok_end_at(s, p) == e);
        },
        JSONValue::String(t) => {
            let cl = p + 1 + t@.len();
            assert(s[cl] == w[cl - p]);
            assert(w[cl - p] == '"');
            assert(forall|u: int|
                p + 1 <= u < cl ==> #[trigger] s[u] == t@[u - p - 1] && s[u] != '"' && s[u]
                    != '\\');
            lemma_str_close_exact(s, p + 1, cl);
            assert(tok_kind_at(s, p) == TokenKind::String);
            assert(tok_text_at(s, p) =~= t@);
            assert(tok_end_at(s, p) == cl + 1);
            assert(cl + 1 == e);
        },
        JSONValue::Object(es) => {
            assert(s[p] == '{');
            assert(tok_kind_at(s, p) == TokenKind::LeftBrace);
            assert(tok_end_at(s, p) == p + 1);
            let inner = ser_entries(es@);
            assert(w =~= seq!['{'] + inner + seq!['}']);
            assert(forall|t: int| 0 <= t < inner.len() ==> #[trigger] inner[t] == w[t + 1]);
            assert(s.subrange(p + 1, p + 1 + inner.len()) =~= inner);
            assert(s[p + 1 + inner.len()] == '}');
            if es@.len() == 0 {
                assert(inner =~= Seq::<char>::empty());
                assert(s[p + 1] == '}');
                assert(skip_ws(s, p + 1) == p + 1);
                assert(tok_kind_at(s, p + 1) == TokenKind::RightBrace);
                assert(tok_end_at(s, p + 1) == p + 2);
                assert(sp_object(s, p + 1) == Ok::<(JsonRep, int), SpErr>(
                    (JsonRep::Obj(Seq::empty()), p + 2),
                ));
                assert(reps_of_entries(es@) =~= Seq::<(Seq<char>, JsonRep)>::empty());
                assert(e == p + 2);
            } else {
                assert(inner[0] == '"');
                assert(s[p + 1] == '"');
                assert(skip_ws(s, p + 1) == p + 1);
                assert(tok_kind_at(s, p + 1) != TokenKind::RightBrace);
                assert(sp_object(s, p + 1) == sp_obj_body(
                    s,
                    p + 1,
                    Seq::<(Seq<char>, JsonRep)>::empty(),
                ));
                assert(forall|i: int|
                    0 <= i < es@.len() ==> rep_find_idx(
                        Seq::<(Seq<char>, JsonRep)>::empty(),
                        (#[trigger] es@[i]).0@,
                    ) == -1);
                lemma_entries_wf_safe(es@);
                lemma_sp_entries_of_ser(es@, Seq::empty(), s, p + 1);
                assert(Seq::<(Seq<char>, JsonRep)>::empty() + reps_of_entries(es@)
                    =~= reps_of_entries(es@));
                assert(e == p + 1 + inner.len() + 1);
            }
        },
        JSONValue::Array(items) => {
            assert(s[p] == '[');
            assert(tok_kind_at(s, p) == TokenKind::LeftBracket);
            assert(tok_end_at(s, p) == p + 1);
            let inner = ser_items(items@);
            assert(w =~= seq!['['] + inner + seq![']']);
            assert(forall|t: int| 0 <= t < inner.len() ==> #[trigger] inner[t] == w[t + 1]);
            assert(s.subrange(p + 1, p + 1 + inner.len()) =~= inner);
            assert(s[p + 1 + inner.len()] == ']');
            if items@.len() == 0 {
                assert(inner =~= Seq::<char>::empty());
                assert(s[p + 1] == ']');
                assert(skip_ws(s, p + 1) == p + 1);
                assert(tok_kind_at(s, p + 1) == TokenKind::RightBracket);
                assert(tok_end_at(s, p + 1) == p + 2);
                assert(sp_array(s, p + 1) == Ok::<(JsonRep, int), SpErr>(
                    (JsonRep::Arr(Seq::empty()), p + 2),
                ));
                assert(reps_of_items(items@) =~= Seq::<JsonRep>::empty());
                assert(e == p + 2);
            } else {
                lemma_items_wf_safe(items@);
                lemma_ser_first(items@[0]);
                assert(inner[0] == ser_val(items@[0])[0]) by {
                    if items@.len() == 1 {
                        assert(inner == ser_val(items@[0]));
                    } else {
                        assert(inner == ser_val(items@[0]) + seq![','] + ser_items(
                            items@.drop_first(),
                        ));
                    }
                }
                assert(s[p + 1] == inner[0]);
                assert(!is_ws_char(s[p + 1]));
                assert(skip_ws(s, p + 1) == p + 1);
                assert(inner[0] != ']');
                assert(tok_kind_at(s, p + 1) != TokenKind::RightBracket);
                assert(sp_array(s, p + 1) == sp_arr_body(s, p + 1, Seq::<JsonRep>::empty()));
                lemma_sp_items_of_ser(items@, Seq::empty(), s, p + 1);
                assert(Seq::<JsonRep>::empty() + reps_of_items(items@) =~= reps_of_items(items@));
                assert(e == p + 1 + inner.len() + 1);
            }
        },
    }
}

/// Well-formedness and safety of an object distribute to its entries.
proof fn lemma_entries_wf_safe(es: Seq<(String, JSONValue)>)
    requires
        entries_safe(es),
    ensures
        forall|i: int|
            0 <= i < es.len() ==> ser_safe((#[trigger] es[i]).1) && safe_text(es[i].0@),
    decreases es.len(),
{
    if es.len() > 0 {
        lemma_entries_wf_safe(es.drop_first());
        assert(forall|i: int| 1 <= i < es.len() ==> #[trigger] es[i] == es.drop_first()[i - 1]);
    }
}

/// Safety of an array distributes to its items.
proof fn lemma_items_wf_safe(items: Seq<JSONValue>)
    requires
        items_safe(items),
    ensures
        forall|i: int| 0 <= i < items.len() ==> ser_safe(#[trigger] items[i]),
    decreases items.len(),
{
    if items.len() > 0 {
        lemma_items_wf_safe(items.drop_first());
        assert(forall|i: int|
            1 <= i < items.len() ==> #[trigger] items[i] == items.drop_first()[i - 1]);
    }
}

/// One or more serialized object members, embedded before a closing brace,
/// parse to exactly those entries appended to the accumulator.
#[verifier::rlimit(100)]
pub proof fn lemma_sp_entries_of_ser(
    es: Seq<(String, JSONValue)>,
    acc: Seq<(Seq<char>, JsonRep)>,
    s: Seq<char>,
    p: int,
)
    requires
        es.len() >= 1,
        forall|i: int|
            0 <= i < es.len() ==> (#[trigger] es[i]).1.wf() && ser_safe(es[i].1) && safe_text(
                es[i].0@,
            ),
        forall|i: int, j: int| 0 <= i < j < es.len() ==> es[i].0@ != es[j].0@,
        forall|i: int| 0 <= i < es.len() ==> rep_find_idx(acc, (#[trigger] es[i]).0@) == -1,
        0 <= p,
        p + ser_entries(es).len() < s.len(),
        s.subrange(p, p + ser_entries(es).len()) == ser_entries(es),
        s[p + ser_entries(es).len()] == '}',
    ensures
        sp_obj_body(s, p, acc) == Ok::<(JsonRep, int), SpErr>(
            (JsonRep::Obj(acc + reps_of_entries(es)), p + ser_entries(es).len() + 1),
        ),
    decreases es, 0int,
{
    let inner = ser_entries(es);
    let kl = es[0].0@.len() as int;
    let wv = ser_val(es[0].1);
    let head = seq!['"'] + es[0].0@ + seq!['"', ':'] + wv;
    assert(forall|t: int| p <= t < p + inner.len() ==> #[trigger] s[t] == inner[t - p]);
    if es.len() == 1 {
        assert(inner == head);
    } else {
        assert(inner == head + seq![','] + ser_entries(es.drop_first()));
    }
    assert(forall|t: int| 0 <= t < head.len() ==> #[trigger] inner[t] == head[t]);
    // The key token.
    assert(s[p] == '"');
    assert(skip_ws(s, p) == p);
    let cl = p + 1 + kl;
    assert(forall|u: int|
        p + 1 <= u < cl ==> #[trigger] s[u] == es[0].0@[u - p - 1] && s[u] != '"' && s[u]
            != '\\');
    assert(s[cl] == head[cl - p]);
    assert(head[1 + kl] == '"');
    lemma_str_close_exact(s, p + 1, cl);
    assert(tok_kind_at(s, p) == TokenKind::String);
    assert(tok_text_at(s, p) =~= es[0].0@);
    assert(tok_end_at(s, p) == cl + 1);
    // The colon.
    assert(s[cl + 1] == head[2 + kl]);
    assert(head[2 + kl] == ':');
    assert(skip_ws(s, cl + 1) == cl + 1);
    assert(tok_kind_at(s, cl + 1) == TokenKind::Collon);
    assert(tok_end_at(s, cl + 1) == cl + 2);
    // The value.
    let pv = cl + 2;
    assert(s.subrange(pv, pv + wv.len()) =~= wv) by {
        assert(forall|t: int|
            0 <= t < wv.len() ==> #[trigger] wv[t] == head[t + 3 + kl]);
    }
    let ev = pv + wv.len();
    assert(ev == p + head.len());
    if es.len() == 1 {
        assert(s[ev] == '}');
    } else {
        assert(s[ev] == inner[head.len() as int]);
        assert(inner[head.len() as int] == ',');
    }
    lemma_sp_value_of_ser(es[0].1, s, pv);
    // The accumulated entry.
    let rep0 = rep_of(es[0].1);
    lemma_rep_insert_fresh(acc, es[0].0@, rep0);
    let acc2 = acc.push((es[0].0@, rep0));
    assert(rep_insert(acc, tok_text_at(s, p), rep0) == acc2);
    lemma_reps_of_entries_index(es);
    if es.len() == 1 {
        assert(skip_ws(s, ev) == ev);
        assert(tok_kind_at(s, ev) == TokenKind::RightBrace);
        assert(tok_end_at(s, ev) == ev + 1);
        assert(acc + reps_of_entries(es) =~= acc2);
        assert(sp_obj_body(s, p, acc) == Ok::<(JsonRep, int), SpErr>(
            (JsonRep::Obj(acc2), ev + 1),
        ));
    } else {
        assert(skip_ws(s, ev) == ev);
        assert(tok_kind_at(s, ev) == TokenKind::Comma);
        assert(tok_end_at(s, ev) == ev + 1);
        let rest = ser_entries(es.drop_first());
        assert(forall|t: int|
            0 <= t < rest.len() ==> #[trigger] rest[t] == inner[head.len() + 1 + t]);
        assert(s.subrange(ev + 1, ev + 1 + rest.len()) =~= rest);
        assert(ev + 1 + rest.len() == p + inner.len());
        assert(s[ev + 1 + rest.len()] == '}');
        let dd = es.drop_first();
        assert(forall|i: int| 0 <= i < dd.len() ==> #[trigger] dd[i] == es[i + 1]);
        assert(dd[0].0@.len() >= 0);
        assert(rest[0] == '"') by {
            let headr = seq!['"'] + dd[0].0@ + seq!['"', ':'] + ser_val(dd[0].1);
            if dd.len() == 1 {
                assert(rest == headr);
            } else {
                assert(rest == headr + seq![','] + ser_entries(dd.drop_first()));
            }
        }
        assert(s[ev + 1] == '"');
        assert(skip_ws(s, ev + 1) == ev + 1);
        assert(tok_kind_at(s, ev + 1) != TokenKind::RightBrace);
        assert(forall|i: int|
            0 <= i < dd.len() ==> rep_find_idx(acc2, (#[trigger] dd[i]).0@) == -1) by {
            assert forall|i: int|
                0 <= i < dd.len() implies rep_find_idx(acc2, (#[trigger] dd[i]).0@) == -1 by {
                assert(dd[i] == es[i + 1]);
                assert(es[0].0@ != es[i + 1].0@);
                lemma_rep_find_push(acc, (es[0].0@, rep0), es[i + 1].0@);
            }
        }
        lemma_sp_entries_of_ser(dd, acc2, s, ev + 1);
        lemma_reps_of_entries_index(dd);
        assert(acc + reps_of_entries(es) =~= acc2 + reps_of_entries(dd));
        assert(sp_obj_body(s, p, acc) == Ok::<(JsonRep, int), SpErr>(
            (JsonRep::Obj(acc2 + reps_of_entries(dd)), ev + 1 + rest.len() + 1),
        ));
    }
}

/// One or more serialized array elements, embedded before a closing
/// bracket, parse to exactly those items appended to the accumulator.
#[verifier::rlimit(100)]
pub proof fn lemma_sp_items_of_ser(
    items: Seq<JSONValue>,
    acc: Seq<JsonRep>,
    s: Seq<char>,
    p: int,
)
    requires
        items.len() >= 1,
        forall|i: int| 0 <= i < items.len() ==> (#[trigger] items[i]).wf() && ser_safe(items[i]),
        0 <= p,
        p + ser_items(items).len() < s.len(),
        s.subrange(p, p + ser_items(items).len()) == ser_items(items),
        s[p + ser_items(items).len()] == ']',
    ensures
        sp_arr_body(s, p, acc) == Ok::<(JsonRep, int), SpErr>(
            (JsonRep::Arr(acc + reps_of_items(items)), p + ser_items(items).len() + 1),
        ),
    decreases items, 0int,
{
    let inner = ser_items(items);
    let wv = ser_val(items[0]);
    assert(forall|t: int| p <= t < p + inner.len() ==> #[trigger] s[t] == inner[t - p]);
    if items.len() == 1 {
        assert(inner == wv);
    } else {
        assert(inner == wv + seq![','] + ser_items(items.drop_first()));
    }
    assert(forall|t: int| 0 <= t < wv.len() ==> #[trigger] inner[t] == wv[t]);
    lemma_ser_first(items[0]);
    assert(s[p] == wv[0]);
    assert(!is_ws_char(s[p]));
    assert(skip_ws(s, p) == p);
    assert(tok_kind_at(s, p) != TokenKind::Eof);
    assert(s.subrange(p, p + wv.len()) =~= wv);
    let ev = p + wv.len();
    if items.len() == 1 {
        assert(s[ev] == ']');
    } else {
        assert(s[ev] == inner[wv.len() as int]);
        assert(inner[wv.len() as int] == ',');
    }
    lemma_sp_value_of_ser(items[0], s, p);
    let rep0 = rep_of(items[0]);
    let acc2 = acc.push(rep0);
    lemma_reps_of_items_index(items);
    if items.len() == 1 {
        assert(skip_ws(s, ev) == ev);
        assert(tok_kind_at(s, ev) == TokenKind::RightBracket);
        assert(tok_end_at(s, ev) == ev + 1);
        assert(acc + reps_of_items(items) =~= acc2);
        assert(sp_arr_body(s, p, acc) == Ok::<(JsonRep, int), SpErr>(
            (JsonRep::Arr(acc2), ev + 1),
        ));
    } else {
        assert(skip_ws(s, ev) == ev);
        assert(tok_kind_at(s, ev) == TokenKind::Comma);
        assert(tok_end_at(s, ev) == ev + 1);
        let rest = ser_items(items.drop_first());
        assert(forall|t: int|
            0 <= t < rest.len() ==> #[trigger] rest[t] == inner[wv.len() + 1 + t]);
        assert(s.subrange(ev + 1, ev + 1 + rest.len()) =~= rest);
        assert(ev + 1 + rest.len() == p + inner.len());
        assert(s[ev + 1 + rest.len()] == ']');
        let dd = items.drop_first();
        assert(forall|i: int| 0 <= i < dd.len() ==> #[trigger] dd[i] == items[i + 1]);
        lemma_ser_first(dd[0]);
        assert(rest[0] == ser_val(dd[0])[0]) by {
            if dd.len() == 1 {
                assert(rest == ser_val(dd[0]));
            } else {
                assert(rest == ser_val(dd[0]) + seq![','] + ser_items(dd.drop_first()));
            }
        }
        assert(s[ev + 1] == rest[0]);
        assert(!is_ws_char(s[ev + 1]));
        assert(skip_ws(s, ev + 1) == ev + 1);
        assert(rest[0] != ']');
        assert(tok_kind_at(s, ev + 1) != TokenKind::RightBracket);
        lemma_sp_items_of_ser(dd, acc2, s, ev + 1);
        lemma_reps_of_items_index(dd);
        assert(acc + reps_of_items(items) =~= acc2 + reps_of_items(dd));
        assert(sp_arr_body(s, p, acc) == Ok::<(JsonRep, int), SpErr>(
            (JsonRep::Arr(acc2 + reps_of_items(dd)), ev + 1 + rest.len() + 1),
        ));
    }
}

/// Two well-formed trees with the same abstract form are structurally
/// equal: together with the round trip below, a parsed serialization
/// compares equal (`==`) to the tree it came from.
pub proof fn lemma_rep_of_eq(a: JSONValue, b: JSONValue)
    requires
        a.wf(),
        b.wf(),
        rep_of(a) == rep_of(b),
    ensures
        crate::value::val_eq(a, b),
    decreases a, 1int,
{
    match (a, b) {
        (JSONValue::Array(xs), JSONValue::Array(ys)) => {
            lemma_reps_of_items_index(xs@);
            lemma_reps_of_items_index(ys@);
            assert(xs@.len() == ys@.len());
            assert forall|i: int|
                0 <= i < xs@.len() implies crate::value::val_eq(#[trigger] xs@[i], ys@[i]) by {
                assert(reps_of_items(xs@)[i] == reps_of_items(ys@)[i]);
                lemma_arr_elem_rec(a, b, i);
            }
        },
        (JSONValue::Object(xs), JSONValue::Object(ys)) => {
            lemma_reps_of_entries_index(xs@);
            lemma_reps_of_entries_index(ys@);
            assert(xs@.len() == ys@.len());
            assert forall|i: int|
                0 <= i < xs@.len() implies match crate::value::find_entry(
                ys@,
                (#[trigger] xs@[i]).0@,
            ) {
                Some(u) => crate::value::val_eq(xs@[i].1, u),
                None => false,
            } by {
                assert(reps_of_entries(xs@)[i] == reps_of_entries(ys@)[i]);
                assert(xs@[i].0@ == ys@[i].0@);
                crate::value::lemma_find_props(ys@, ys@[i].0@);
                let j = crate::value::find_idx(ys@, ys@[i].0@);
                assert(j != -1 && j <= i);
                if j < i {
                    assert(ys@[j].0@ != ys@[i].0@);
                }
                assert(j == i);
                lemma_obj_elem_rec(a, b, i);
            }
        },
        _ => {},
    }
}

/// Step of the array case above, phrased so the termination order is
/// visible.
proof fn lemma_arr_elem_rec(a: JSONValue, b: JSONValue, i: int)
    requires
        a.wf(),
        b.wf(),
        a is Array,
        b is Array,
        0 <= i < a->Array_0@.len(),
        0 <= i < b->Array_0@.len(),
        rep_of(a->Array_0@[i]) == rep_of(b->Array_0@[i]),
    ensures
        crate::value::val_eq(a->Array_0@[i], b->Array_0@[i]),
    decreases a, 0int,
{
    crate::value::lemma_arr_elem_decreases(a, i);
    lemma_rep_of_eq(a->Array_0@[i], b->Array_0@[i]);
}

/// Step of the object case above, phrased so the termination order is
/// visible.
proof fn lemma_obj_elem_rec(a: JSONValue, b: JSONValue, i: int)
    requires
        a.wf(),
        b.wf(),
        a is Object,
        b is Object,
        0 <= i < a->Object_0@.len(),
        0 <= i < b->Object_0@.len(),
        rep_of(a->Object_0@[i].1) == rep_of(b->Object_0@[i].1),
    ensures
        crate::value::val_eq(a->Object_0@[i].1, b->Object_0@[i].1),
    decreases a, 0int,
{
    crate::value::lemma_obj_elem_decreases(a, i);
    lemma_rep_of_eq(a->Object_0@[i].1, b->Object_0@[i].1);
}

/// Serialization round-trips through parsing: the document spec's result
/// on the serialized text of any well-formed tree whose strings need no
/// escaping is success with exactly that tree's abstract form.  Through
/// the contracts of `parse` and `parse_string`, parsing `v.to_text()`
/// therefore yields a value with `v`'s abstract form.
pub proof fn lemma_doc_round_trip(v: JSONValue)
    requires
        v.wf(),
        ser_safe(v),
    ensures
        sp_doc(crate::buffer::join_lines(crate::buffer::lines_of(ser_val(v))), 0)
            == Ok::<JsonRep, SpErr>(rep_of(v)),
{
    let w = ser_val(v);
    lemma_ser_no_newline(v);
    lemma_ser_first(v);
    crate::buffer::lemma_lines_of_whole(w);
    assert(crate::buffer::lines_of(w) == seq![w]);
    let ls = seq![w];
    assert(ls[0] == w);
    assert(ls.drop_first() =~= Seq::<Seq<char>>::empty());
    assert(crate::buffer::join_lines(Seq::<Seq<char>>::empty()) == Seq::<char>::empty());
    let s = crate::buffer::join_lines(crate::buffer::lines_of(w));
    assert(s =~= w.push('\n'));
    let sp = w.push('\n');
    assert(forall|t: int| 0 <= t < w.len() ==> #[trigger] sp[t] == w[t]);
    assert(sp[w.len() as int] == '\n');
    assert(sp.subrange(0, w.len() as int) =~= w);
    assert(!is_ws_char(sp[0]));
    assert(skip_ws(sp, 0) == 0);
    lemma_sp_value_of_ser(v, sp, 0);
    assert(tok_kind_at(sp, 0) != TokenKind::Eof);
    assert(skip_ws(sp, w.len() as int) == skip_ws(sp, w.len() as int + 1));
    assert(skip_ws(sp, sp.len() as int) == sp.len());
    assert(tok_kind_at(sp, w.len() as int) == TokenKind::Eof);
}

/// The round trip at the library's doors: any result that the contract of
/// `parse` or `parse_string` admits on the serialized text of a
/// well-formed, escape-safe tree is success with a value structurally
/// equal to that tree.
pub proof fn lemma_round_trip(v: JSONValue, r: Result<JSONValue, JSONError>)
    requires
        v.wf(),
        ser_safe(v),
        ({
            let s = crate::buffer::join_lines(crate::buffer::lines_of(ser_val(v)));
            match sp_doc(s, 0) {
                Ok(rep) => r matches Ok(w) && rep_of(w) == rep,
                Err(e2) => r matches Err(e) && e.0@ == e2.0 && e.1 == e2.1 && e.2 == e2.2,
            }
        }),
        r matches Ok(w) ==> w.wf(),
    ensures
        r matches Ok(w) && crate::value::val_eq(w, v),
{
    lemma_doc_round_trip(v);
    let w = r->Ok_0;
    lemma_rep_of_eq(w, v);
}

/// The trailing-comma error, positioned at the closing brace or bracket.
fn err_trailing(t: &Token) -> (e: JSONError)
    ensures
        e.0@ == "Trailing `"@ + t.value@ + "`"@,
        e.1 == t.line && e.2 == t.col,
{
    let mut m = String::from_str("Trailing `");
    m.append(t.value.as_str());
    m.append("`");
    JSONError::new(m, t.line, t.col)
}

/// After one token was pulled past the consumed value, the lookahead is
/// the end-of-input token exactly when only whitespace remained.
pub open spec fn at_end_after(pre: Parser, post: Parser) -> bool {
    post.ct.kind == TokenKind::Eof <==> skip_ws(pre.scanner.cs@, pre.scanner.pos as int)
        == pre.scanner.cs@.len()
}

/// The parser: an embedded tokenizer plus the single token of lookahead.
pub struct Parser {
    /// The token source.
    pub scanner: Scanner,
    /// The current token.
    pub ct: Token,
}

impl Parser {
    /// The scanner's position accounting is intact.
    pub open spec fn wf(self) -> bool {
        self.scanner.wf()
    }

    /// Remaining characters, the termination measure of the descent.
    pub open spec fn remaining(self) -> int {
        self.scanner.cs@.len() - self.scanner.pos
    }

    /// The lookahead is exactly the token read from position `b`, and the
    /// scanner stands at that token's end.
    pub open spec fn synced(self, b: int) -> bool {
        &&& self.scanner.wf()
        &&& 0 <= b <= self.scanner.cs@.len()
        &&& self.ct.kind == tok_kind_at(self.scanner.cs@, b)
        &&& self.ct.value@ == tok_text_at(self.scanner.cs@, b)
        &&& self.scanner.pos == tok_end_at(self.scanner.cs@, b)
        &&& self.ct.line == tok_line_at(self.scanner.cs@, b)
        &&& self.ct.col == tok_col_at(self.scanner.cs@, b)
    }

    /// A parser over an in-memory text.
    pub fn from_string(data: &String) -> (r: Parser)
        ensures
            r.wf(),
            r.scanner.stream() == crate::buffer::join_lines(crate::buffer::lines_of(data@)),
            r.scanner.pos == 0,
            r.ct.kind == TokenKind::Eof,
    {
        Parser { scanner: Scanner::from_string(data), ct: Token::dummy() }
    }

    /// A parser over lines that arrived already split, for example read
    /// from a file by the caller.
    pub fn from_lines(lines: Vec<String>) -> (r: Parser)
        ensures
            r.wf(),
            r.scanner.stream() == crate::buffer::join_lines(
                crate::buffer::views_of(lines@),
            ),
            r.scanner.pos == 0,
            r.ct.kind == TokenKind::Eof,
    {
        Parser { scanner: Scanner::from_lines(lines), ct: Token::dummy() }
    }

    /// Pulls the next token into the lookahead.
    fn consume(&mut self)
        requires
            old(self).wf(),
        ensures
            final(self).wf(),
            final(self).scanner.cs@ == old(self).scanner.cs@,
            old(self).scanner.pos <= final(self).scanner.pos,
            final(self).ct.kind != TokenKind::Eof ==> final(self).scanner.pos > old(self).scanner.pos,
            final(self).ct.kind == TokenKind::Eof <==> skip_ws(
                old(self).scanner.cs@,
                old(self).scanner.pos as int,
            ) == old(self).scanner.cs@.len(),
            final(self).ct.kind != TokenKind::Eof ==> crate::scanner::token_shape(
                old(self).scanner.cs@,
                skip_ws(old(self).scanner.cs@, old(self).scanner.pos as int),
                final(self).ct,
                final(self).scanner.pos as int,
            ),
            final(self).ct.line >= 1,
            final(self).synced(old(self).scanner.pos as int),
    {
        self.ct = self.scanner.next_token();
        proof {
            let s = self.scanner.cs@;
            let b = old(self).scanner.pos as int;
            crate::scanner::lemma_skip_ws_bounds(s, b);
            crate::scanner::lemma_pos_bounds(s, skip_ws(s, b));
            crate::scanner::lemma_pos_bounds(s, s.len() as int);
            if self.ct.kind != TokenKind::Eof {
                lemma_token_shape_fns(s, skip_ws(s, b), self.ct, self.scanner.pos as int);
            }
        }
    }

    /// Parses exactly one JSON document: one value, preceded and followed
    /// only by whitespace.  A blank input is the empty-input error, which
    /// alone carries position zero.
    pub fn parse(&mut self) -> (r: Result<JSONValue, JSONError>)
        requires
            old(self).wf(),
        ensures
            final(self).wf(),
            final(self).scanner.cs@ == old(self).scanner.cs@,
            r matches Ok(v) ==> v.wf(),
            (skip_ws(old(self).scanner.cs@, old(self).scanner.pos as int) == old(self).scanner.cs@.len()) <==> (r matches Err(e) && e.1 == 0 && e.2 == 0 && e.0@
                == "Empty json stream"@),
            atom_doc_result(old(self).scanner.cs@, old(self).scanner.pos as int, r),
            ({
                let s = old(self).scanner.cs@;
                match sp_doc(s, old(self).scanner.pos as int) {
                    Ok(rep) => r matches Ok(v) && rep_of(v) == rep,
                    Err(e2) => r matches Err(e) && e.0@ == e2.0 && e.1 == e2.1 && e.2 == e2.2,
                }
            }),
    {
        let ghost b0 = self.scanner.pos as int;
        self.consume();
        if self.ct.kind == TokenKind::Eof {
            return Err(JSONError::new(String::from_str("Empty json stream"), 0, 0));
        }
        match self.parse_value(Ghost(b0)) {
            Err(e) => Err(e),
            Ok(v) => {
                if self.ct.kind == TokenKind::Eof {
                    Ok(v)
                } else {
                    Err(err_at("Unexpected token ", self.ct.value.as_str(), &self.ct))
                }
            },
        }
    }

    /// Parses one value, dispatching on the current token; afterwards the
    /// lookahead holds the first token past the value.
    fn parse_value(&mut self, Ghost(b): Ghost<int>) -> (r: Result<JSONValue, JSONError>)
        requires
            old(self).wf(),
            old(self).ct.line >= 1,
            old(self).synced(b),
        ensures
            final(self).wf(),
            final(self).scanner.cs@ == old(self).scanner.cs@,
            old(self).scanner.pos <= final(self).scanner.pos,
            final(self).ct.line >= 1,
            r matches Ok(v) ==> v.wf(),
            r matches Ok(v) ==> (final(self).scanner.pos > old(self).scanner.pos || final(self).ct.kind == TokenKind::Eof),
            r matches Err(e) ==> e.1 >= 1,
            old(self).ct.kind == TokenKind::Null ==> (r matches Ok(v) && v == JSONValue::Null
                && at_end_after(*old(self), *final(self))),
            old(self).ct.kind == TokenKind::True ==> (r matches Ok(v) && v == JSONValue::Boolean(
                true,
            ) && at_end_after(*old(self), *final(self))),
            old(self).ct.kind == TokenKind::False ==> (r matches Ok(v) && v == JSONValue::Boolean(
                false,
            ) && at_end_after(*old(self), *final(self))),
            old(self).ct.kind == TokenKind::String ==> (r matches Ok(v) && v == JSONValue::String(
                old(self).ct.value,
            ) && at_end_after(*old(self), *final(self))),
            old(self).ct.kind == TokenKind::Number ==> (match num_of_chars(old(self).ct.value@) {
                Some(n) => r matches Ok(v) && v == JSONValue::Number(n) && at_end_after(
                    *old(self),
                    *final(self),
                ),
                None => r is Err,
            }),
            ({
                let s = old(self).scanner.cs@;
                match sp_value(s, b) {
                    Ok(rq) => r matches Ok(v) && rep_of(v) == rq.0 && final(self).synced(rq.1)
                        && b < rq.1 <= s.len(),
                    Err(e2) => r matches Err(e) && e.0@ == e2.0 && e.1 == e2.1 && e.2 == e2.2,
                }
            }),
        decreases old(self).remaining(), 1int,
    {
        let ghost s = self.scanner.cs@;
        match self.ct.kind {
            TokenKind::Null => {
                proof {
                    lemma_tok_at_bounds(s, b);
                }
                self.consume();
                Ok(JSONValue::Null)
            },
            TokenKind::False => {
                proof {
                    lemma_tok_at_bounds(s, b);
                }
                self.consume();
                Ok(JSONValue::Boolean(false))
            },
            TokenKind::True => {
                proof {
                    lemma_tok_at_bounds(s, b);
                }
                self.consume();
                Ok(JSONValue::Boolean(true))
            },
            TokenKind::String => {
                proof {
                    lemma_tok_at_bounds(s, b);
                }
                let v = self.ct.value.clone();
                self.consume();
                Ok(JSONValue::String(v))
            },
            TokenKind::Number => {
                proof {
                    lemma_tok_at_bounds(s, b);
                }
                let cv = chars::chars_of(self.ct.value.as_str());
                match JSONNumber::from_chars(&cv) {
                    Some(n) => {
                        self.consume();
                        Ok(JSONValue::Number(n))
                    },
                    None => Err(err_at(self.ct.value.as_str(), " is NaN ", &self.ct)),
                }
            },
            TokenKind::LeftBrace => {
                proof {
                    lemma_tok_at_bounds(s, b);
                }
                self.parse_object()
            },
            TokenKind::LeftBracket => {
                proof {
                    lemma_tok_at_bounds(s, b);
                }
                self.parse_array()
            },
            _ => Err(err_at("Unexpected token ", self.ct.value.as_str(), &self.ct)),
        }
    }

    /// Parses an object after its opening brace: string keys, colons,
    /// values; a duplicate key overwrites (last write wins); a comma right
    /// before the closing brace is a trailing-comma error.
    #[verifier::rlimit(100)]
    fn parse_object(&mut self) -> (r: Result<JSONValue, JSONError>)
        requires
            old(self).wf(),
            old(self).ct.line >= 1,
        ensures
            final(self).wf(),
            final(self).scanner.cs@ == old(self).scanner.cs@,
            old(self).scanner.pos <= final(self).scanner.pos,
            final(self).ct.line >= 1,
            r matches Ok(v) ==> v.wf(),
            r matches Ok(v) ==> (final(self).scanner.pos > old(self).scanner.pos || final(self).ct.kind == TokenKind::Eof),
            r matches Err(e) ==> e.1 >= 1,
            ({
                let s = old(self).scanner.cs@;
                match sp_object(s, old(self).scanner.pos as int) {
                    Ok(rq) => r matches Ok(v) && rep_of(v) == rq.0 && final(self).synced(rq.1)
                        && old(self).scanner.pos < rq.1 <= s.len(),
                    Err(e2) => r matches Err(e) && e.0@ == e2.0 && e.1 == e2.1 && e.2 == e2.2,
                }
            }),
        decreases old(self).remaining(), 0int,
    {
        let ghost s = old(self).scanner.cs@;
        let ghost p0 = old(self).scanner.pos as int;
        let mut values: Vec<(String, JSONValue)> = Vec::new();
        self.consume();
        let ghost mut b: int = p0;
        if self.ct.kind == TokenKind::RightBrace {
            proof {
                lemma_tok_at_bounds(s, p0);
            }
            self.consume();
            proof {
                assert(values@ =~= Seq::<(String, JSONValue)>::empty());
                assert(reps_of_entries(values@) =~= Seq::<(Seq<char>, JsonRep)>::empty());
            }
            return Ok(JSONValue::Object(values));
        }
        proof {
            assert(values@ =~= Seq::<(String, JSONValue)>::empty());
            assert(reps_of_entries(values@) =~= Seq::<(Seq<char>, JsonRep)>::empty());
            assert(sp_object(s, p0) == sp_obj_body(s, p0, reps_of_entries(values@)));
        }
        loop
            invariant
                self.wf(),
                self.scanner.cs@ == s,
                s == old(self).scanner.cs@,
                p0 == old(self).scanner.pos,
                self.synced(b),
                p0 <= b <= s.len(),
                self.ct.line >= 1,
                p0 <= self.scanner.pos,
                self.ct.kind != TokenKind::Eof ==> self.scanner.pos > p0,
                unique_keys(values@),
                forall|i: int| 0 <= i < values@.len() ==> (#[trigger] values@[i].1).wf(),
                sp_object(s, p0) == sp_obj_body(s, b, reps_of_entries(values@)),
            decreases s.len() - self.scanner.pos,
        {
            let ghost bh = b;
            let ghost acch = reps_of_entries(values@);
            if self.ct.kind != TokenKind::String {
                return Err(err_at("Expecting key name but found ", kind_name(self.ct.kind), &self.ct));
            }
            let key = self.ct.value.clone();
            proof {
                lemma_tok_at_bounds(s, bh);
            }
            let ghost b2 = self.scanner.pos as int;
            self.consume();
            if self.ct.kind != TokenKind::Collon {
                return Err(err_at("Expecting collon but found ", kind_name(self.ct.kind), &self.ct));
            }
            proof {
                lemma_tok_at_bounds(s, b2);
            }
            let ghost b3 = self.scanner.pos as int;
            self.consume();
            match self.parse_value(Ghost(b3)) {
                Err(e) => {
                    return Err(e);
                },
                Ok(v) => {
                    proof {
                        lemma_insert_law(values@, key, v);
                        lemma_rep_insert(values@, key, v);
                    }
                    obj_insert(&mut values, key, v);
                    proof {
                        b = sp_value(s, b3)->Ok_0.1;
                        assert(reps_of_entries(values@) == rep_insert(acch, key@, rep_of(v)));
                    }
                },
            }
            if self.ct.kind == TokenKind::Comma {
                proof {
                    lemma_tok_at_bounds(s, b);
                }
                let ghost b5 = self.scanner.pos as int;
                self.consume();
                if self.ct.kind == TokenKind::RightBrace {
                    return Err(err_trailing(&self.ct));
                }
                proof {
                    assert(sp_obj_body(s, bh, acch) == sp_obj_body(s, b5, reps_of_entries(values@)));
                    b = b5;
                }
            } else if self.ct.kind == TokenKind::RightBrace {
                proof {
                    lemma_tok_at_bounds(s, b);
                }
                self.consume();
                return Ok(JSONValue::Object(values));
            } else {
                return Err(err_at("Unexpected token ", self.ct.value.as_str(), &self.ct));
            }
        }
    }

    /// Parses an array after its opening bracket; a comma right before the
    /// closing bracket is a trailing-comma error.
    #[verifier::rlimit(100)]
    fn parse_array(&mut self) -> (r: Result<JSONValue, JSONError>)
        requires
            old(self).wf(),
            old(self).ct.line >= 1,
        ensures
            final(self).wf(),
            final(self).scanner.cs@ == old(self).scanner.cs@,
            old(self).scanner.pos <= final(self).scanner.pos,
            final(self).ct.line >= 1,
            r matches Ok(v) ==> v.wf(),
            r matches Ok(v) ==> (final(self).scanner.pos > old(self).scanner.pos || final(self).ct.kind == TokenKind::Eof),
            r matches Err(e) ==> e.1 >= 1,
            ({
                let s = old(self).scanner.cs@;
                match sp_array(s, old(self).scanner.pos as int) {
                    Ok(rq) => r matches Ok(v) && rep_of(v) == rq.0 && final(self).synced(rq.1)
                        && old(self).scanner.pos < rq.1 <= s.len(),
                    Err(e2) => r matches Err(e) && e.0@ == e2.0 && e.1 == e2.1 && e.2 == e2.2,
                }
            }),
        decreases old(self).remaining(), 0int,
    {
        let ghost s = old(self).scanner.cs@;
        let ghost p0 = old(self).scanner.pos as int;
        let mut values: Vec<JSONValue> = Vec::new();
        self.consume();
        let ghost mut b: int = p0;
        if self.ct.kind == TokenKind::RightBracket {
            proof {
                lemma_tok_at_bounds(s, p0);
            }
            self.consume();
            proof {
                assert(values@ =~= Seq::<JSONValue>::empty());
                assert(reps_of_items(values@) =~= Seq::<JsonRep>::empty());
            }
            return Ok(JSONValue::Array(values));
        }
        proof {
            assert(values@ =~= Seq::<JSONValue>::empty());
            assert(reps_of_items(values@) =~= Seq::<JsonRep>::empty());
            assert(sp_array(s, p0) == sp_arr_body(s, p0, reps_of_items(values@)));
        }
        loop
            invariant
                self.wf(),
                self.scanner.cs@ == s,
                s == old(self).scanner.cs@,
                p0 == old(self).scanner.pos,
                self.synced(b),
                p0 <= b <= s.len(),
                self.ct.line >= 1,
                p0 <= self.scanner.pos,
                self.ct.kind != TokenKind::Eof ==> self.scanner.pos > p0,
                forall|i: int| 0 <= i < values@.len() ==> (#[trigger] values@[i]).wf(),
                sp_array(s, p0) == sp_arr_body(s, b, reps_of_items(values@)),
            decreases s.len() - self.scanner.pos,
        {
            let ghost bh = b;
            let ghost acch = reps_of_items(values@);
            if self.ct.kind == TokenKind::Eof {
                return Err(err_at("Unexpected token ", self.ct.value.as_str(), &self.ct));
            }
            proof {
                lemma_tok_at_bounds(s, bh);
            }
            match self.parse_value(Ghost(b)) {
                Err(e) => {
                    return Err(e);
                },
                Ok(v) => {
                    proof {
                        let ghost vold = values@;
                        lemma_reps_of_items_index(vold);
                        b = sp_value(s, bh)->Ok_0.1;
                    }
                    values.push(v);
                    proof {
                        lemma_reps_of_items_index(values@);
                        assert(reps_of_items(values@) =~= acch.push(rep_of(v)));
                    }
                },
            }
            if self.ct.kind == TokenKind::Comma {
                proof {
                    lemma_tok_at_bounds(s, b);
                }
                let ghost b5 = self.scanner.pos as int;
                self.consume();
                if self.ct.kind == TokenKind::RightBracket {
                    return Err(err_trailing(&self.ct));
                }
                proof {
                    assert(sp_arr_body(s, bh, acch) == sp_arr_body(s, b5, reps_of_items(values@)));
                    b = b5;
                }
            } else if self.ct.kind == TokenKind::RightBracket {
                proof {
                    lemma_tok_at_bounds(s, b);
                }
                self.consume();
                return Ok(JSONValue::Array(values));
            } else {
                return Err(err_at("Unexpected token ", self.ct.value.as_str(), &self.ct));
            }
        }
    }
}

} // verus!

//! A self-contained JSON text parser and serializer.
//!
//! Raw JSON source is normalized into a line-terminated character stream
//! (`buffer`), classified into positioned tokens (`scanner`), and parsed by
//! recursive descent (`parser`) into a value tree (`value`).  Numbers are
//! kept as exact decimals (`number`), and the tree can be serialized back to
//! compact JSON text.

pub mod buffer;
pub mod chars;
pub mod number;
pub mod parser;
pub mod scanner;
pub mod value;

use vstd::prelude::*;
use vstd::string::StringExecFns;

use crate::buffer::{join_lines, lines_of, views_of};
use crate::parser::Parser;
use crate::scanner::skip_ws;
pub use crate::value::{JSONError, JSONValue};
use crate::value::{same_val, ser_val, lemma_same_val_wf};

verus! {

/// A document: holds at most one parsed value, replaced by each successful
/// parse and left untouched by a failed one.
pub struct JSONDocument {
    /// The last successfully parsed value, if any.
    pub value: Option<JSONValue>,
}

impl JSONDocument {
    /// The stored value, when present, is well-formed.  Every parse stores
    /// such a value; the contracts below rely on it.
    pub open spec fn wf(self) -> bool {
        self.value matches Some(v) ==> v.wf()
    }

    /// An empty document.
    pub fn new() -> (r: JSONDocument)
        ensures
            r.value is None,
            r.wf(),
    {
        JSONDocument { value: None }
    }

    /// Parses an in-memory text as one JSON document.  On success the
    /// value is stored and returned; on failure the prior value stays; a
    /// blank input is the empty-input error, which alone carries position
    /// zero.
    pub fn parse_string(&mut self, content: String) -> (r: Result<JSONValue, JSONError>)
        ensures
            r is Ok ==> final(self).wf(),
            r matches Ok(v) ==> v.wf() && (final(self).value matches Some(w) && same_val(w, v)),
            r is Err ==> final(self).value == old(self).value,
            (skip_ws(join_lines(lines_of(content@)), 0) == join_lines(
                lines_of(content@),
            ).len()) <==> (r matches Err(e) && e.1 == 0 && e.2 == 0 && e.0@
                == "Empty json stream"@),
            crate::parser::atom_doc_result(join_lines(lines_of(content@)), 0, r),
            ({
                let sdoc = crate::parser::sp_doc(join_lines(lines_of(content@)), 0);
                match sdoc {
                    Ok(rep) => r matches Ok(v) && crate::parser::rep_of(v) == rep,
                    Err(e2) => r matches Err(e) && e.0@ == e2.0 && e.1 == e2.1 && e.2 == e2.2,
                }
            }),
    {
        let mut parser = Parser::from_string(&content);
        match parser.parse() {
            Ok(p) => {
                let copy = p.deep_copy();
                proof {
                    lemma_same_val_wf(copy, p);
                }
                self.value = Some(copy);
                Ok(p)
            },
            Err(e) => Err(e),
        }
    }

    /// Parses lines that arrived already split, for example read one by
    /// one from a file by a caller that owns the handle; otherwise exactly
    /// like `parse_string`.
    pub fn parse_lines(&mut self, lines: Vec<String>) -> (r: Result<JSONValue, JSONError>)
        ensures
            r is Ok ==> final(self).wf(),
            r matches Ok(v) ==> v.wf() && (final(self).value matches Some(w) && same_val(w, v)),
            r is Err ==> final(self).value == old(self).value,
            (skip_ws(join_lines(views_of(lines@)), 0) == join_lines(
                views_of(lines@),
            ).len()) <==> (r matches Err(e) && e.1 == 0 && e.2 == 0 && e.0@
                == "Empty json stream"@),
            crate::parser::atom_doc_result(join_lines(views_of(lines@)), 0, r),
            ({
                let sdoc = crate::parser::sp_doc(join_lines(views_of(lines@)), 0);
                match sdoc {
                    Ok(rep) => r matches Ok(v) && crate::parser::rep_of(v) == rep,
                    Err(e2) => r matches Err(e) && e.0@ == e2.0 && e.1 == e2.1 && e.2 == e2.2,
                }
            }),
    {
        let mut parser = Parser::from_lines(lines);
        match parser.parse() {
            Ok(p) => {
                let copy = p.deep_copy();
                proof {
                    lemma_same_val_wf(copy, p);
                }
                self.value = Some(copy);
                Ok(p)
            },
            Err(e) => Err(e),
        }
    }

    /// The compact JSON text of the stored value, or the literal text
    /// `null` when nothing is stored.
    pub fn to_string(&mut self) -> (r: Result<String, JSONError>)
        requires
            old(self).wf(),
        ensures
            *final(self) == *old(self),
            r matches Ok(t) && (old(self).value matches Some(v) ==> t@ == ser_val(v)) && (old(
                self,
            ).value is None ==> t@ == "null"@),
    {
        match &self.value {
            Some(v) => Ok(v.to_text()),
            None => Ok(String::from_str("null")),
        }
    }

    /// Pretty-printing is not offered: the placeholder text alone comes
    /// back.
    pub fn pretify(&mut self) -> (r: String)
        ensures
            *final(self) == *old(self),
            r@ == "null"@,
    {
        String::from_str("null")
    }
}

} // verus!

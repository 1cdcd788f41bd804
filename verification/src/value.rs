//! The value tree: a closed variant over null, booleans, numbers, strings,
//! objects and arrays, with typed accessors, structural equality and compact
//! serialization.
//!
//! Objects hold their entries as a key/value vector with unique keys, in
//! first-insertion order; a duplicate key overwrites the stored value (last
//! write wins).

use vstd::prelude::*;
use crate::chars;
use crate::number::{
    JSONNumber, num_chars, trunc_spec, pow10, lemma_pow10_monotone, lemma_pow10_20,
};

verus! {

/// A JSON value.
#[derive(Debug)]
pub enum JSONValue {
    Null,
    Boolean(bool),
    Number(JSONNumber),
    String(String),
    Object(Vec<(String, JSONValue)>),
    Array(Vec<JSONValue>),
}

/// A parse error: a message and the 1-based line and column where the
/// parse failed.
#[derive(Debug)]
pub struct JSONError(pub String, pub usize, pub usize);

impl JSONError {
    pub fn new(err: String, lin: usize, col: usize) -> (r: JSONError)
        ensures
            r.0 == err && r.1 == lin && r.2 == col,
    {
        JSONError(err, lin, col)
    }

    /// The error message.
    pub fn message(&self) -> (r: &String)
        ensures
            r == self.0,
    {
        &self.0
    }

    /// The 1-based line of the failure.
    pub fn line(&self) -> (r: usize)
        ensures
            r == self.1,
    {
        self.1
    }

    /// The 1-based column of the failure.
    pub fn col(&self) -> (r: usize)
        ensures
            r == self.2,
    {
        self.2
    }

    /// The error as one line of text: the message and the position.
    pub fn to_text(&self) -> (r: String)
        ensures
            r@ == "JSONError: "@ + self.0@ + " - @ ("@ + crate::number::digits_of(self.1 as nat)
                + ", "@ + crate::number::digits_of(self.2 as nat) + ")"@,
    {
        let mut out: Vec<char> = Vec::new();
        chars::push_chars(&mut out, "JSONError: ");
        chars::push_chars(&mut out, self.0.as_str());
        chars::push_chars(&mut out, " - @ (");
        crate::number::push_digits(self.1 as u64, &mut out);
        chars::push_chars(&mut out, ", ");
        crate::number::push_digits(self.2 as u64, &mut out);
        chars::push_chars(&mut out, ")");
        proof {
            assert(out@ =~= "JSONError: "@ + self.0@ + " - @ ("@ + crate::number::digits_of(
                self.1 as nat,
            ) + ", "@ + crate::number::digits_of(self.2 as nat) + ")"@);
        }
        chars::string_of(&out)
    }
}

/// The value stored under the first entry whose key reads `k`, if any.
pub open spec fn find_entry(es: Seq<(String, JSONValue)>, k: Seq<char>) -> Option<JSONValue>
    decreases es.len(),
{
    if es.len() == 0 {
        None
    } else if es[0].0@ == k {
        Some(es[0].1)
    } else {
        find_entry(es.drop_first(), k)
    }
}

/// Index of the first entry whose key reads `k`, or `-1`.
pub open spec fn find_idx(es: Seq<(String, JSONValue)>, k: Seq<char>) -> int
    decreases es.len(),
{
    if es.len() == 0 {
        -1
    } else if es[0].0@ == k {
        0
    } else {
        let r = find_idx(es.drop_first(), k);
        if r == -1 {
            -1
        } else {
            r + 1
        }
    }
}

pub proof fn lemma_find_props(es: Seq<(String, JSONValue)>, k: Seq<char>)
    ensures
        find_idx(es, k) == -1 <==> find_entry(es, k) is None,
        find_idx(es, k) != -1 ==> {
            &&& 0 <= find_idx(es, k) < es.len()
            &&& es[find_idx(es, k)].0@ == k
            &&& find_entry(es, k) == Some(es[find_idx(es, k)].1)
        },
        forall|j: int| 0 <= j < es.len() && es[j].0@ == k ==> find_idx(es, k) != -1 && find_idx(
            es,
            k,
        ) <= j,
    decreases es.len(),
{
    if es.len() > 0 && es[0].0@ != k {
        lemma_find_props(es.drop_first(), k);
        assert(forall|j: int|
            1 <= j < es.len() ==> #[trigger] es[j] == es.drop_first()[j - 1]);
    }
}

/// Object keys are pairwise distinct.
pub open spec fn unique_keys(es: Seq<(String, JSONValue)>) -> bool {
    forall|i: int, j: int| 0 <= i < j < es.len() ==> es[i].0@ != es[j].0@
}

impl JSONValue {
    /// Well-formed: numbers normalized, object keys unique, throughout the
    /// tree.
    pub open spec fn wf(self) -> bool
        decreases self,
    {
        match self {
            JSONValue::Null => true,
            JSONValue::Boolean(_) => true,
            JSONValue::Number(n) => n.wf(),
            JSONValue::String(_) => true,
            JSONValue::Array(items) => forall|i: int|
                0 <= i < items@.len() ==> (#[trigger] items@[i]).wf(),
            JSONValue::Object(es) => {
                &&& forall|i: int| 0 <= i < es@.len() ==> (#[trigger] es@[i].1).wf()
                &&& unique_keys(es@)
            },
        }
    }
}

/// The two trees have the same shape: same variants, same texts and
/// numbers, same entry order.
pub open spec fn same_val(a: JSONValue, b: JSONValue) -> bool
    decreases a,
{
    match (a, b) {
        (JSONValue::Null, JSONValue::Null) => true,
        (JSONValue::Boolean(x), JSONValue::Boolean(y)) => x == y,
        (JSONValue::Number(x), JSONValue::Number(y)) => x == y,
        (JSONValue::String(x), JSONValue::String(y)) => x@ == y@,
        (JSONValue::Array(xs), JSONValue::Array(ys)) => {
            &&& xs@.len() == ys@.len()
            &&& forall|i: int|
                0 <= i < xs@.len() ==> same_val(#[trigger] xs@[i], ys@[i])
        },
        (JSONValue::Object(xs), JSONValue::Object(ys)) => {
            &&& xs@.len() == ys@.len()
            &&& forall|i: int|
                0 <= i < xs@.len() ==> (#[trigger] xs@[i]).0@ == ys@[i].0@ && same_val(
                    xs@[i].1,
                    ys@[i].1,
                )
        },
        _ => false,
    }
}

/// Structural equality: same variant and equal contents, with object
/// entries matched by key, order-insensitively.
pub open spec fn val_eq(a: JSONValue, b: JSONValue) -> bool
    decreases a,
{
    match (a, b) {
        (JSONValue::Null, JSONValue::Null) => true,
        (JSONValue::Boolean(x), JSONValue::Boolean(y)) => x == y,
        (JSONValue::Number(x), JSONValue::Number(y)) => x == y,
        (JSONValue::String(x), JSONValue::String(y)) => x@ == y@,
        (JSONValue::Array(xs), JSONValue::Array(ys)) => {
            &&& xs@.len() == ys@.len()
            &&& forall|i: int|
                0 <= i < xs@.len() ==> val_eq(#[trigger] xs@[i], ys@[i])
        },
        (JSONValue::Object(xs), JSONValue::Object(ys)) => {
            &&& xs@.len() == ys@.len()
            &&& forall|i: int|
                0 <= i < xs@.len() ==> match find_entry(ys@, (#[trigger] xs@[i]).0@) {
                    Some(w) => val_eq(xs@[i].1, w),
                    None => false,
                }
        },
        _ => false,
    }
}

/// Index of the first entry of `es` whose key reads like `k`, if any.
fn find_in(es: &Vec<(String, JSONValue)>, k: &String) -> (r: Option<usize>)
    ensures
        match r {
            Some(j) => 0 <= j < es@.len() && es@[j as int].0@ == k@ && find_idx(es@, k@) == j,
            None => find_idx(es@, k@) == -1,
        },
{
    let n = es.len();
    let mut i: usize = 0;
    while i < n
        invariant
            n == es@.len(),
            i <= n,
            forall|j: int| 0 <= j < i ==> (#[trigger] es@[j]).0@ != k@,
        decreases n - i,
    {
        if es[i].0.eq(k) {
            proof {
                lemma_find_props(es@, k@);
            }
            return Some(i);
        }
        i = i + 1;
    }
    proof {
        lemma_find_props(es@, k@);
        if find_idx(es@, k@) != -1 {
            assert(es@[find_idx(es@, k@)].0@ == k@);
        }
    }
    None
}

/// Inserts `v` under `k`: a present key keeps its value overwritten in
/// place of the old entry (last write wins), an absent key is appended.
pub fn obj_insert(es: &mut Vec<(String, JSONValue)>, k: String, v: JSONValue) -> (r: ())
    ensures
        find_idx(old(es)@, k@) == -1 ==> final(es)@ == old(es)@.push((k, v)),
        find_idx(old(es)@, k@) != -1 ==> final(es)@ == old(es)@.remove(find_idx(old(es)@, k@)).push(
            (k, v),
        ),
{
    match find_in(es, &k) {
        Some(j) => {
            es.remove(j);
            es.push((k, v));
        },
        None => {
            es.push((k, v));
        },
    }
}

/// Inserting preserves key uniqueness and well-formed entries, stores `v`
/// under `k`, and leaves every other key's value unchanged: the law of
/// last-write-wins object updates.
pub proof fn lemma_insert_law(es: Seq<(String, JSONValue)>, k: String, v: JSONValue)
    requires
        unique_keys(es),
    ensures
        unique_keys(insert_result(es, k, v)),
        find_entry(insert_result(es, k, v), k@) == Some(v),
        forall|k2: Seq<char>| k2 != k@ ==> find_entry(insert_result(es, k, v), k2) == find_entry(
            es,
            k2,
        ),
        (forall|i: int| 0 <= i < es.len() ==> (#[trigger] es[i].1).wf()) && v.wf() ==> forall|
            i: int,
        |
            0 <= i < insert_result(es, k, v).len() ==> (#[trigger] insert_result(es, k, v)[i].1).wf(),
{
    lemma_find_props(es, k@);
    let j = find_idx(es, k@);
    let res = insert_result(es, k, v);
    if j == -1 {
        assert(res == es.push((k, v)));
        assert(forall|i: int| 0 <= i < es.len() ==> #[trigger] res[i] == es[i]);
        assert(res[es.len() as int] == (k, v));
        assert forall|k2: Seq<char>| k2 != k@ implies find_entry(res, k2) == find_entry(
            es,
            k2,
        ) by {
            lemma_find_entry_append(es, k2, (k, v));
        }
        lemma_find_entry_append(es, k@, (k, v));
        lemma_find_props(res, k@);
        assert(find_entry(res, k@) == Some(v)) by {
            if find_idx(res, k@) != -1 && find_idx(res, k@) < es.len() {
                assert(es[find_idx(res, k@)].0@ == k@);
            }
        }
    } else {
        let cut = es.remove(j);
        assert(forall|i: int| 0 <= i < j ==> #[trigger] cut[i] == es[i]);
        assert(forall|i: int| j <= i < cut.len() ==> #[trigger] cut[i] == es[i + 1]);
        assert(unique_keys(cut));
        assert(forall|i: int| 0 <= i < cut.len() ==> (#[trigger] cut[i]).0@ != k@);
        assert(res == cut.push((k, v)));
        assert(forall|i: int| 0 <= i < cut.len() ==> #[trigger] res[i] == cut[i]);
        assert(res[cut.len() as int] == (k, v));
        assert(unique_keys(res));
        assert forall|k2: Seq<char>| k2 != k@ implies find_entry(res, k2) == find_entry(
            es,
            k2,
        ) by {
            lemma_find_entry_append(cut, k2, (k, v));
            lemma_find_entry_skip_at(es, k2, j);
        }
        lemma_find_props(res, k@);
        assert(find_entry(res, k@) == Some(v)) by {
            if find_idx(res, k@) != -1 && find_idx(res, k@) < cut.len() {
                assert(cut[find_idx(res, k@)].0@ == k@);
            }
        }
    }
}

/// The entry sequence after an insert.
pub open spec fn insert_result(
    es: Seq<(String, JSONValue)>,
    k: String,
    v: JSONValue,
) -> Seq<(String, JSONValue)> {
    if find_idx(es, k@) == -1 {
        es.push((k, v))
    } else {
        es.remove(find_idx(es, k@)).push((k, v))
    }
}

/// Appending an entry does not disturb the lookup of other keys.
proof fn lemma_find_entry_append(es: Seq<(String, JSONValue)>, k: Seq<char>, e: (String, JSONValue))
    ensures
        find_entry(es, k) is Some ==> find_entry(es.push(e), k) == find_entry(es, k),
        find_entry(es, k) is None && e.0@ != k ==> find_entry(es.push(e), k) is None,
        find_entry(es, k) is None && e.0@ == k ==> find_entry(es.push(e), k) == Some(e.1),
    decreases es.len(),
{
    if es.len() == 0 {
        assert(es.push(e)[0] == e);
        assert(es.push(e).drop_first() =~= Seq::<(String, JSONValue)>::empty());
        assert(find_entry(Seq::<(String, JSONValue)>::empty(), k) is None);
        if e.0@ != k {
            assert(find_entry(es.push(e), k) == find_entry(es.push(e).drop_first(), k));
        }
    } else {
        lemma_find_entry_append(es.drop_first(), k, e);
        assert(es.push(e)[0] == es[0]);
        assert(es.push(e).drop_first() =~= es.drop_first().push(e));
        if es[0].0@ == k {
            assert(find_entry(es, k) == Some(es[0].1));
            assert(find_entry(es.push(e), k) == Some(es[0].1));
        } else {
            assert(find_entry(es, k) == find_entry(es.drop_first(), k));
            assert(find_entry(es.push(e), k) == find_entry(es.drop_first().push(e), k));
        }
    }
}

/// An array value dominates each of its elements in the termination order.
pub proof fn lemma_arr_elem_decreases(v: JSONValue, i: int)
    requires
        v is Array,
        0 <= i < v->Array_0@.len(),
    ensures
        decreases_to!(v => v->Array_0@[i]),
{
    assert(decreases_to!(v => v->Array_0));
    assert(decreases_to!(v->Array_0 => v->Array_0@));
    assert(decreases_to!(v->Array_0@ => v->Array_0@[i]));
}

/// An object value dominates each of its entry values in the termination
/// order.
pub proof fn lemma_obj_elem_decreases(v: JSONValue, i: int)
    requires
        v is Object,
        0 <= i < v->Object_0@.len(),
    ensures
        decreases_to!(v => v->Object_0@[i].1),
{
    assert(decreases_to!(v => v->Object_0));
    assert(decreases_to!(v->Object_0 => v->Object_0@));
    assert(decreases_to!(v->Object_0@ => v->Object_0@[i]));
    assert(decreases_to!(v->Object_0@[i] => v->Object_0@[i].1));
}

/// Removing the entry at `j` does not disturb the lookup of a key that is
/// not the one stored there, when keys are unique.
proof fn lemma_find_entry_skip_at(es: Seq<(String, JSONValue)>, k: Seq<char>, j: int)
    requires
        unique_keys(es),
        0 <= j < es.len(),
        es[j].0@ != k,
    ensures
        find_entry(es.remove(j), k) == find_entry(es, k),
    decreases es.len(),
{
    if j == 0 {
        assert(es.remove(0) =~= es.drop_first());
    } else {
        assert(es[0].0@ == es.remove(j)[0].0@);
        lemma_find_entry_skip_at(es.drop_first(), k, j - 1);
        assert(es.remove(j).drop_first() =~= es.drop_first().remove(j - 1));
    }
}

impl JSONValue {
    /// A structurally identical copy of the tree.
    pub fn deep_copy(&self) -> (r: JSONValue)
        ensures
            same_val(r, *self),
        decreases self,
    {
        match self {
            JSONValue::Null => JSONValue::Null,
            JSONValue::Boolean(b) => JSONValue::Boolean(*b),
            JSONValue::Number(n) => JSONValue::Number(*n),
            JSONValue::String(s) => JSONValue::String(s.clone()),
            JSONValue::Array(items) => {
                let mut out: Vec<JSONValue> = Vec::new();
                let mut i: usize = 0;
                while i < items.len()
                    invariant
                        *self == JSONValue::Array(*items),
                        i <= items@.len(),
                        out@.len() == i,
                        forall|j: int| 0 <= j < i ==> same_val(#[trigger] out@[j], items@[j]),
                    decreases items@.len() - i,
                {
                    proof {
                        lemma_arr_elem_decreases(*self, i as int);
                    }
                    out.push(items[i].deep_copy());
                    i = i + 1;
                }
                JSONValue::Array(out)
            },
            JSONValue::Object(es) => {
                let mut out: Vec<(String, JSONValue)> = Vec::new();
                let mut i: usize = 0;
                while i < es.len()
                    invariant
                        *self == JSONValue::Object(*es),
                        i <= es@.len(),
                        out@.len() == i,
                        forall|j: int|
                            0 <= j < i ==> (#[trigger] out@[j]).0@ == es@[j].0@ && same_val(
                                out@[j].1,
                                es@[j].1,
                            ),
                    decreases es@.len() - i,
                {
                    let key = es[i].0.clone();
                    proof {
                        lemma_obj_elem_decreases(*self, i as int);
                    }
                    let cv = es[i].1.deep_copy();
                    out.push((key, cv));
                    i = i + 1;
                }
                JSONValue::Object(out)
            },
        }
    }
}

/// Identical trees are interchangeably well-formed.
pub proof fn lemma_same_val_wf(a: JSONValue, b: JSONValue)
    requires
        same_val(a, b),
    ensures
        a.wf() <==> b.wf(),
    decreases a,
{
    match (a, b) {
        (JSONValue::Array(xs), JSONValue::Array(ys)) => {
            assert forall|i: int| 0 <= i < xs@.len() implies (same_val(xs@[i], ys@[i]) && (
            (#[trigger] xs@[i]).wf() <==> ys@[i].wf())) by {
                lemma_same_val_wf(xs@[i], ys@[i]);
            }
            assert(forall|i: int| 0 <= i < ys@.len() ==> ((#[trigger] ys@[i]).wf() <==> xs@[i].wf()));
        },
        (JSONValue::Object(xs), JSONValue::Object(ys)) => {
            assert forall|i: int| 0 <= i < xs@.len() implies ((#[trigger] xs@[i]).1.wf()
                <==> ys@[i].1.wf()) by {
                lemma_same_val_wf(xs@[i].1, ys@[i].1);
            }
            assert(forall|i: int|
                0 <= i < ys@.len() ==> ((#[trigger] ys@[i]).1.wf() <==> xs@[i].1.wf()));
            assert(unique_keys(xs@) <==> unique_keys(ys@));
        },
        _ => {},
    }
}

/// Structural equality is reflexive on well-formed values: every tree the
/// parser or the constructors build compares equal to itself.
pub proof fn lemma_val_eq_reflexive(v: JSONValue)
    requires
        v.wf(),
    ensures
        val_eq(v, v),
    decreases v,
{
    match v {
        JSONValue::Array(xs) => {
            assert forall|i: int| 0 <= i < xs@.len() implies val_eq(#[trigger] xs@[i], xs@[i]) by {
                lemma_val_eq_reflexive(xs@[i]);
            }
        },
        JSONValue::Object(xs) => {
            assert forall|i: int|
                0 <= i < xs@.len() implies match find_entry(xs@, (#[trigger] xs@[i]).0@) {
                Some(w) => val_eq(xs@[i].1, w),
                None => false,
            } by {
                lemma_find_props(xs@, xs@[i].0@);
                let j = find_idx(xs@, xs@[i].0@);
                assert(j != -1 && j <= i);
                if j < i {
                    assert(xs@[j].0@ != xs@[i].0@);
                }
                assert(j == i);
                lemma_val_eq_reflexive(xs@[i].1);
            }
        },
        _ => {},
    }
}

/// Structural equality, computed; the meaning of `==` on values.
fn eq_val(a: &JSONValue, b: &JSONValue) -> (r: bool)
    ensures
        r == val_eq(*a, *b),
    decreases a,
{
    match (a, b) {
        (JSONValue::Null, JSONValue::Null) => true,
        (JSONValue::Boolean(x), JSONValue::Boolean(y)) => *x == *y,
        (JSONValue::Number(x), JSONValue::Number(y)) => *x == *y,
        (JSONValue::String(x), JSONValue::String(y)) => x.eq(y),
        (JSONValue::Array(xs), JSONValue::Array(ys)) => {
            if xs.len() != ys.len() {
                return false;
            }
            let mut i: usize = 0;
            while i < xs.len()
                invariant
                    xs@.len() == ys@.len(),
                    i <= xs@.len(),
                    a == JSONValue::Array(*xs) && b == JSONValue::Array(*ys),
                    forall|j: int| 0 <= j < i ==> val_eq(#[trigger] xs@[j], ys@[j]),
                decreases xs@.len() - i,
            {
                proof {
                    lemma_arr_elem_decreases(*a, i as int);
                }
                if !eq_val(&xs[i], &ys[i]) {
                    return false;
                }
                i = i + 1;
            }
            true
        },
        (JSONValue::Object(xs), JSONValue::Object(ys)) => {
            if xs.len() != ys.len() {
                return false;
            }
            let mut i: usize = 0;
            while i < xs.len()
                invariant
                    xs@.len() == ys@.len(),
                    i <= xs@.len(),
                    a == JSONValue::Object(*xs) && b == JSONValue::Object(*ys),
                    forall|j: int|
                        0 <= j < i ==> match find_entry(ys@, (#[trigger] xs@[j]).0@) {
                            Some(w) => val_eq(xs@[j].1, w),
                            None => false,
                        },
                decreases xs@.len() - i,
            {
                match find_in(ys, &xs[i].0) {
                    Some(j) => {
                        proof {
                            lemma_find_props(ys@, xs@[i as int].0@);
                        }
                        proof {
                            lemma_obj_elem_decreases(*a, i as int);
                        }
                        if !eq_val(&xs[i].1, &ys[j].1) {
                            return false;
                        }
                    },
                    None => {
                        proof {
                            lemma_find_props(ys@, xs@[i as int].0@);
                        }
                        return false;
                    },
                }
                i = i + 1;
            }
            true
        },
        _ => false,
    }
}

/// Compact serialization of a sequence of array elements, separated by
/// commas.
pub open spec fn ser_items(items: Seq<JSONValue>) -> Seq<char>
    decreases items, 0nat,
{
    if items.len() == 0 {
        Seq::empty()
    } else if items.len() == 1 {
        ser_val(items[0])
    } else {
        ser_val(items[0]) + seq![','] + ser_items(items.drop_first())
    }
}

/// Compact serialization of a sequence of object entries, separated by
/// commas.
pub open spec fn ser_entries(es: Seq<(String, JSONValue)>) -> Seq<char>
    decreases es, 0nat,
{
    if es.len() == 0 {
        Seq::empty()
    } else {
        let head = seq!['"'] + es[0].0@ + seq!['"', ':'] + ser_val(es[0].1);
        if es.len() == 1 {
            head
        } else {
            head + seq![','] + ser_entries(es.drop_first())
        }
    }
}

/// Compact JSON text of a value: no inserted whitespace, strings quoted
/// verbatim (string contents are not re-escaped, so texts holding a quote
/// or a backslash do not round-trip), numbers as exact decimals.
pub open spec fn ser_val(v: JSONValue) -> Seq<char>
    decreases v, 1nat,
{
    match v {
        JSONValue::Null => seq!['n', 'u', 'l', 'l'],
        JSONValue::Boolean(b) => if b {
            seq!['t', 'r', 'u', 'e']
        } else {
            seq!['f', 'a', 'l', 's', 'e']
        },
        JSONValue::Number(n) => num_chars(n),
        JSONValue::String(s) => seq!['"'] + s@ + seq!['"'],
        JSONValue::Object(es) => seq!['{'] + ser_entries(es@) + seq!['}'],
        JSONValue::Array(items) => seq!['['] + ser_items(items@) + seq![']'],
    }
}

/// Serializes `v` onto the end of `out`.
#[verifier::rlimit(100)]
fn write_val(v: &JSONValue, out: &mut Vec<char>)
    requires
        v.wf(),
    ensures
        final(out)@ == old(out)@ + ser_val(*v),
    decreases v,
{
    match v {
        JSONValue::Null => {
            out.push('n');
            out.push('u');
            out.push('l');
            out.push('l');
            proof {
                assert(out@ =~= old(out)@ + ser_val(*v));
            }
        },
        JSONValue::Boolean(b) => {
            if *b {
                out.push('t');
                out.push('r');
                out.push('u');
                out.push('e');
            } else {
                out.push('f');
                out.push('a');
                out.push('l');
                out.push('s');
                out.push('e');
            }
            proof {
                assert(out@ =~= old(out)@ + ser_val(*v));
            }
        },
        JSONValue::Number(n) => {
            let nv = n.to_chars();
            let mut i: usize = 0;
            while i < nv.len()
                invariant
                    i <= nv@.len(),
                    out@ == old(out)@ + nv@.subrange(0, i as int),
                decreases nv@.len() - i,
            {
                out.push(nv[i]);
                i = i + 1;
                proof {
                    assert(out@ =~= old(out)@ + nv@.subrange(0, i as int));
                }
            }
            proof {
                assert(nv@.subrange(0, nv@.len() as int) =~= nv@);
            }
        },
        JSONValue::String(s) => {
            out.push('"');
            chars::push_chars(out, s.as_str());
            out.push('"');
            proof {
                assert(out@ =~= old(out)@ + ser_val(*v));
            }
        },
        JSONValue::Array(items) => {
            out.push('[');
            let ghost base = out@;
            let mut i: usize = 0;
            proof {
                assert(items@.skip(0) =~= items@);
            }
            while i < items.len()
                invariant
                    *v == JSONValue::Array(*items),
                    v.wf(),
                    i <= items@.len(),
                    base == old(out)@ + seq!['['],
                    out@ + ser_items(items@.skip(i as int)) == base + ser_items(items@),
                decreases items@.len() - i,
            {
                proof {
                    lemma_arr_elem_decreases(*v, i as int);
                    assert(items@[i as int].wf());
                    let rest = items@.skip(i as int);
                    assert(rest[0] == items@[i as int]);
                    assert(rest.drop_first() =~= items@.skip(i + 1));
                }
                write_val(&items[i], out);
                if i + 1 < items.len() {
                    out.push(',');
                    proof {
                        let rest = items@.skip(i as int);
                        assert(ser_items(rest) == ser_val(rest[0]) + seq![','] + ser_items(
                            rest.drop_first(),
                        ));
                        assert(out@ + ser_items(items@.skip(i + 1)) =~= base + ser_items(items@));
                    }
                } else {
                    proof {
                        let rest = items@.skip(i as int);
                        assert(rest.len() == 1);
                        assert(ser_items(rest) == ser_val(rest[0]));
                        assert(items@.skip(i + 1) =~= Seq::<JSONValue>::empty());
                        assert(out@ + ser_items(items@.skip(i + 1)) =~= base + ser_items(items@));
                    }
                }
                i = i + 1;
            }
            out.push(']');
            proof {
                assert(items@.skip(items@.len() as int) =~= Seq::<JSONValue>::empty());
                assert(out@ =~= old(out)@ + ser_val(*v));
            }
        },
        JSONValue::Object(es) => {
            out.push('{');
            let ghost base = out@;
            let mut i: usize = 0;
            proof {
                assert(es@.skip(0) =~= es@);
            }
            while i < es.len()
                invariant
                    *v == JSONValue::Object(*es),
                    v.wf(),
                    i <= es@.len(),
                    base == old(out)@ + seq!['{'],
                    out@ + ser_entries(es@.skip(i as int)) == base + ser_entries(es@),
                decreases es@.len() - i,
            {
                proof {
                    let rest = es@.skip(i as int);
                    assert(rest[0] == es@[i as int]);
                    assert(rest.drop_first() =~= es@.skip(i + 1));
                }
                out.push('"');
                chars::push_chars(out, es[i].0.as_str());
                out.push('"');
                out.push(':');
                proof {
                    lemma_obj_elem_decreases(*v, i as int);
                    assert(es@[i as int].1.wf());
                }
                write_val(&es[i].1, out);
                if i + 1 < es.len() {
                    out.push(',');
                    proof {
                        let rest = es@.skip(i as int);
                        let head = seq!['"'] + rest[0].0@ + seq!['"', ':'] + ser_val(rest[0].1);
                        assert(ser_entries(rest) == head + seq![','] + ser_entries(
                            rest.drop_first(),
                        ));
                        assert(out@ + ser_entries(es@.skip(i + 1)) =~= base + ser_entries(es@));
                    }
                } else {
                    proof {
                        let rest = es@.skip(i as int);
                        let head = seq!['"'] + rest[0].0@ + seq!['"', ':'] + ser_val(rest[0].1);
                        assert(rest.len() == 1);
                        assert(ser_entries(rest) == head);
                        assert(es@.skip(i + 1) =~= Seq::<(String, JSONValue)>::empty());
                        assert(out@ + ser_entries(es@.skip(i + 1)) =~= base + ser_entries(es@));
                    }
                }
                i = i + 1;
            }
            out.push('}');
            proof {
                assert(es@.skip(es@.len() as int) =~= Seq::<(String, JSONValue)>::empty());
                assert(out@ =~= old(out)@ + ser_val(*v));
            }
        },
    }
}

impl JSONValue {
    /// The compact JSON text of the tree.
    pub fn to_text(&self) -> (r: String)
        requires
            self.wf(),
        ensures
            r@ == ser_val(*self),
    {
        let mut out: Vec<char> = Vec::new();
        write_val(self, &mut out);
        proof {
            assert(out@ =~= ser_val(*self));
        }
        chars::string_of(&out)
    }

    /// The held text, or the empty string for any other variant.
    pub fn as_str(&self) -> (r: String)
        ensures
            self matches JSONValue::String(s) ==> r@ == s@,
            !(self is String) ==> r@.len() == 0,
    {
        match self {
            JSONValue::String(s) => s.clone(),
            _ => String::new(),
        }
    }

    /// The held number truncated toward zero and saturated to the signed
    /// sixty-four-bit range, or zero for any other variant.
    pub fn as_i64(&self) -> (r: i64)
        ensures
            self matches JSONValue::Number(n) ==> r as int == trunc_spec(*n),
            !(self is Number) ==> r == 0,
    {
        match self {
            JSONValue::Number(n) => {
                if n.exp == i64::MIN {
                    proof {
                        lemma_pow10_20();
                        lemma_pow10_monotone(20, (-(i64::MIN as int)) as nat);
                        vstd::arithmetic::div_mod::lemma_basic_div(
                            n.mant as int,
                            pow10((-(i64::MIN as int)) as nat),
                        );
                    }
                    0
                } else {
                    n.trunc_i64()
                }
            },
            _ => 0,
        }
    }

    /// The held truth value, or false for any other variant.
    pub fn as_bool(&self) -> (r: bool)
        ensures
            self matches JSONValue::Boolean(b) ==> r == b,
            !(self is Boolean) ==> r == false,
    {
        match self {
            JSONValue::Boolean(b) => *b,
            _ => false,
        }
    }

    /// A copy of the held elements, or an empty vector for any other
    /// variant.
    pub fn as_array(&self) -> (r: Vec<JSONValue>)
        ensures
            self matches JSONValue::Array(items) ==> r@.len() == items@.len() && forall|j: int|
                0 <= j < items@.len() ==> same_val(#[trigger] r@[j], items@[j]),
            !(self is Array) ==> r@.len() == 0,
    {
        match self {
            JSONValue::Array(items) => {
                let mut out: Vec<JSONValue> = Vec::new();
                let mut i: usize = 0;
                while i < items.len()
                    invariant
                        *self == JSONValue::Array(*items),
                        i <= items@.len(),
                        out@.len() == i,
                        forall|j: int| 0 <= j < i ==> same_val(#[trigger] out@[j], items@[j]),
                    decreases items@.len() - i,
                {
                    proof {
                        lemma_arr_elem_decreases(*self, i as int);
                    }
                    out.push(items[i].deep_copy());
                    i = i + 1;
                }
                out
            },
            _ => Vec::new(),
        }
    }

    /// A copy of the held entries, or an empty vector for any other
    /// variant.
    pub fn as_map(&self) -> (r: Vec<(String, JSONValue)>)
        ensures
            self matches JSONValue::Object(es) ==> r@.len() == es@.len() && forall|j: int|
                0 <= j < es@.len() ==> (#[trigger] r@[j]).0@ == es@[j].0@ && same_val(
                    r@[j].1,
                    es@[j].1,
                ),
            !(self is Object) ==> r@.len() == 0,
    {
        match self {
            JSONValue::Object(es) => {
                let mut out: Vec<(String, JSONValue)> = Vec::new();
                let mut i: usize = 0;
                while i < es.len()
                    invariant
                        *self == JSONValue::Object(*es),
                        i <= es@.len(),
                        out@.len() == i,
                        forall|j: int|
                            0 <= j < i ==> (#[trigger] out@[j]).0@ == es@[j].0@ && same_val(
                                out@[j].1,
                                es@[j].1,
                            ),
                    decreases es@.len() - i,
                {
                    let key = es[i].0.clone();
                    proof {
                        lemma_obj_elem_decreases(*self, i as int);
                    }
                    let cv = es[i].1.deep_copy();
                    out.push((key, cv));
                    i = i + 1;
                }
                out
            },
            _ => Vec::new(),
        }
    }

    /// The value stored under `k`, copied, for an object that has the key;
    /// absent for a missing key or any other variant.
    pub fn get(&self, k: &str) -> (r: Option<JSONValue>)
        ensures
            self matches JSONValue::Object(es) ==> match find_entry(es@, k@) {
                Some(w) => r matches Some(c) && same_val(c, w),
                None => r is None,
            },
            !(self is Object) ==> r is None,
    {
        match self {
            JSONValue::Object(es) => {
                let key = String::from_str(k);
                match find_in(es, &key) {
                    Some(j) => {
                        proof {
                            lemma_find_props(es@, k@);
                        }
                        Some(es[j].1.deep_copy())
                    },
                    None => {
                        proof {
                            lemma_find_props(es@, k@);
                        }
                        None
                    },
                }
            },
            _ => None,
        }
    }

    /// Always false.
    pub fn exists_value() -> (r: bool)
        ensures
            r == false,
    {
        false
    }

    pub fn is_number(&self) -> (r: bool)
        ensures
            r == (self is Number),
    {
        match self {
            JSONValue::Number(_) => true,
            _ => false,
        }
    }

    pub fn is_string(&self) -> (r: bool)
        ensures
            r == (self is String),
    {
        match self {
            JSONValue::String(_) => true,
            _ => false,
        }
    }

    pub fn is_bool(&self) -> (r: bool)
        ensures
            r == (self is Boolean),
    {
        match self {
            JSONValue::Boolean(_) => true,
            _ => false,
        }
    }

    pub fn is_object(&self) -> (r: bool)
        ensures
            r == (self is Object),
    {
        match self {
            JSONValue::Object(_) => true,
            _ => false,
        }
    }

    pub fn is_array(&self) -> (r: bool)
        ensures
            r == (self is Array),
    {
        match self {
            JSONValue::Array(_) => true,
            _ => false,
        }
    }

    pub fn is_null(&self) -> (r: bool)
        ensures
            r == (self is Null),
    {
        match self {
            JSONValue::Null => true,
            _ => false,
        }
    }
}

impl PartialEq for JSONValue {
    /// Structural equality; object entries are matched by key, so the
    /// stored order of entries does not matter.
    fn eq(&self, other: &JSONValue) -> (r: bool) {
        eq_val(self, other)
    }
}

impl vstd::std_specs::cmp::PartialEqSpecImpl for JSONValue {
    open spec fn obeys_eq_spec() -> bool {
        true
    }

    open spec fn eq_spec(&self, other: &JSONValue) -> bool {
        val_eq(*self, *other)
    }
}

} // verus!

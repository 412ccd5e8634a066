//! The property-list dialect: data model and text-preserving parser.
//!
//! A parsed value is a `Slice`: the structured interpretation together with
//! the verbatim source text it was read from, so that re-serialization can
//! re-emit untouched values byte for byte.

use vstd::prelude::*;

use crate::bytes::byte_is_ws;
use crate::bytes::copy_range;
use crate::bytes::is_ws;

verus! {

broadcast use vstd::std_specs::vec::axiom_vec_index_decreases;

/// The two root forms a document may take.
#[derive(Debug)]
pub enum Root {
    Dict,
    Array,
}

/// A parsed value paired with the exact source text it covers.
#[derive(Debug)]
pub struct Slice {
    pub value: Value,
    pub code: Vec<u8>,
}

/// One `key = value;` entry of a dictionary: the key text, the parsed value,
/// and the verbatim text of the whole entry, semicolon included.
#[derive(Debug)]
pub struct Entry {
    pub key: Vec<u8>,
    pub value: Slice,
    pub code: Vec<u8>,
}

/// The structured interpretation of a value.
#[derive(Debug)]
pub enum Value {
    /// Ordered entries; insertion order is significant and duplicate keys are
    /// not rejected.
    Dict(Vec<Entry>),
    /// Ordered elements.
    Array(Vec<Slice>),
    /// A text value: the content between the quotes of a quoted string
    /// (escape sequences are deliberately left undecoded), or a bare token.
    String(Vec<u8>),
}

/// Mathematical model of a `Slice`.
pub struct SliceM {
    pub value: ValueM,
    pub code: Seq<u8>,
}

/// Mathematical model of an `Entry`.
pub struct EntryM {
    pub key: Seq<u8>,
    pub value: SliceM,
    pub code: Seq<u8>,
}

/// Mathematical model of a `Value`.
pub enum ValueM {
    Dict(Seq<EntryM>),
    Array(Seq<SliceM>),
    Text(Seq<u8>),
}

impl Slice {
    pub open spec fn model(&self) -> SliceM
        decreases self,
    {
        SliceM { value: self.value.model(), code: self.code@ }
    }
}

impl Entry {
    pub open spec fn model(&self) -> EntryM
        decreases self,
    {
        EntryM { key: self.key@, value: self.value.model(), code: self.code@ }
    }
}

impl Value {
    pub open spec fn model(&self) -> ValueM
        decreases self,
    {
        match self {
            Value::Dict(es) => ValueM::Dict(entries_model(*es)),
            Value::Array(vs) => ValueM::Array(slices_model(*vs)),
            Value::String(s) => ValueM::Text(s@),
        }
    }
}

/// Model of a whole vector of entries.
pub open spec fn entries_model(es: Vec<Entry>) -> Seq<EntryM>
    decreases es,
{
    Seq::new(
        es@.len(),
        |i: int|
            if 0 <= i < es@.len() {
                es[i].model()
            } else {
                vstd::pervasive::arbitrary()
            },
    )
}

/// Model of a whole vector of slices.
pub open spec fn slices_model(vs: Vec<Slice>) -> Seq<SliceM>
    decreases vs,
{
    Seq::new(
        vs@.len(),
        |i: int|
            if 0 <= i < vs@.len() {
                vs[i].model()
            } else {
                vstd::pervasive::arbitrary()
            },
    )
}

/// A grammar mismatch, with the byte offset where parsing stopped.
/// The offset is diagnostic; the contracts pin only that parsing failed.
#[derive(Debug, PartialEq, Eq, Structural)]
pub struct SyntaxError {
    pub pos: usize,
}

/// Identifier-safe bytes of an unquoted token: ASCII letters, digits,
/// `.`, `_`, `-` and `+`.
pub open spec fn is_ident(b: u8) -> bool {
    (65 <= b <= 90) || (97 <= b <= 122) || (48 <= b <= 57) || b == 46 || b == 95 || b == 45 || b
        == 43
}

fn byte_is_ident(b: u8) -> (r: bool)
    ensures
        r == is_ident(b),
{
    (65 <= b && b <= 90) || (97 <= b && b <= 122) || (48 <= b && b <= 57) || b == 46 || b == 95
        || b == 45 || b == 43
}

/// Length of the whitespace run starting at `i`.
pub open spec fn ws_run(s: Seq<u8>, i: int) -> nat
    decreases s.len() - i,
{
    if 0 <= i < s.len() && is_ws(s[i]) {
        (1 + ws_run(s, i + 1)) as nat
    } else {
        0
    }
}

/// Index of the first non-whitespace byte at or after `i`.
pub open spec fn skip(s: Seq<u8>, i: int) -> int {
    i + ws_run(s, i)
}

/// Length of the identifier run starting at `i`.
pub open spec fn ident_run(s: Seq<u8>, i: int) -> nat
    decreases s.len() - i,
{
    if 0 <= i < s.len() && is_ident(s[i]) {
        (1 + ident_run(s, i + 1)) as nat
    } else {
        0
    }
}

/// Position of the first `"` at or after `i`, if any.
pub open spec fn quote_end(s: Seq<u8>, i: int) -> Option<int>
    decreases s.len() - i,
{
    if 0 <= i < s.len() {
        if s[i] == 34 {
            Some(i)
        } else {
            quote_end(s, i + 1)
        }
    } else {
        None
    }
}

/// Clamps `j` from below; used only to express that sub-parsers make
/// progress, where in fact `j >= lo` always holds of their results.
pub open spec fn bump(j: int, lo: int) -> int {
    if j < lo {
        lo
    } else {
        j
    }
}

/// Remaining length, clamped at zero.
pub open spec fn rem(s: Seq<u8>, i: int) -> int {
    if i <= s.len() {
        s.len() - i
    } else {
        0
    }
}

/// A string token at `i`: quoted (value is the text between the quotes,
/// verbatim; no escape decoding) or a bare identifier run. Returns the
/// value, the covered source text, and the index after the token.
pub open spec fn spec_parse_string(s: Seq<u8>, i: int) -> Option<(Seq<u8>, Seq<u8>, int)> {
    if 0 <= i < s.len() {
        if s[i] == 34 {
            match quote_end(s, i + 1) {
                Some(q) => Some((s.subrange(i + 1, q), s.subrange(i, q + 1), q + 1)),
                None => None,
            }
        } else if is_ident(s[i]) {
            Some((s.subrange(i, i + ident_run(s, i)), s.subrange(i, i + ident_run(s, i)), i + ident_run(s, i)))
        } else {
            None
        }
    } else {
        None
    }
}

/// A value at `i`: a dictionary, an array, or a string token. The slice's
/// `code` is exactly the source span the value covers: for a dictionary the
/// span from the first entry to the end of the last (braces excluded), for
/// an array the span from the first element to the end of the last
/// (parentheses and any trailing comma excluded), for a string the token.
pub open spec fn spec_parse_value(s: Seq<u8>, i: int) -> Option<(SliceM, int)>
    decreases rem(s, i), 0int,
{
    if !(0 <= i < s.len()) {
        None
    } else if s[i] == 123 {
        let j = skip(s, i + 1);
        match spec_parse_entries(s, j) {
            Some((es, end, nxt)) => Some(
                (
                    SliceM {
                        value: ValueM::Dict(es),
                        code: if es.len() == 0 {
                            Seq::<u8>::empty()
                        } else {
                            s.subrange(j, end)
                        },
                    },
                    nxt,
                ),
            ),
            None => None,
        }
    } else if s[i] == 40 {
        let j = skip(s, i + 1);
        match spec_parse_elems(s, j) {
            Some((vs, end, nxt)) => Some(
                (
                    SliceM {
                        value: ValueM::Array(vs),
                        code: if vs.len() == 0 {
                            Seq::<u8>::empty()
                        } else {
                            s.subrange(j, end)
                        },
                    },
                    nxt,
                ),
            ),
            None => None,
        }
    } else {
        match spec_parse_string(s, i) {
            Some((v, c, nxt)) => Some((SliceM { value: ValueM::Text(v), code: c }, nxt)),
            None => None,
        }
    }
}

/// One `key = value;` entry at `i`. The entry's `code` runs from the first
/// byte of the key through the closing semicolon.
pub open spec fn spec_parse_entry(s: Seq<u8>, i: int) -> Option<(EntryM, int)>
    decreases rem(s, i), 1int,
{
    if !(0 <= i < s.len()) {
        None
    } else {
        match spec_parse_string(s, i) {
            None => None,
            Some((kv, kc, j1)) => {
                let j2 = skip(s, bump(j1, i + 1));
                if j2 < s.len() && s[j2] == 61 {
                    let j3 = skip(s, j2 + 1);
                    match spec_parse_value(s, j3) {
                        None => None,
                        Some((v, j4)) => {
                            let j5 = skip(s, bump(j4, j3 + 1));
                            if j5 < s.len() && s[j5] == 59 {
                                Some(
                                    (
                                        EntryM { key: kv, value: v, code: s.subrange(i, j5 + 1) },
                                        j5 + 1,
                                    ),
                                )
                            } else {
                                None
                            }
                        },
                    }
                } else {
                    None
                }
            },
        }
    }
}

/// The entries of a dictionary body, starting at a non-whitespace `i`, up to
/// and including the closing brace. Returns the entries, the end of the last
/// entry (or `i` when there is none), and the index after the brace.
pub open spec fn spec_parse_entries(s: Seq<u8>, i: int) -> Option<(Seq<EntryM>, int, int)>
    decreases rem(s, i), 2int,
{
    if !(0 <= i < s.len()) {
        None
    } else if s[i] == 125 {
        Some((Seq::<EntryM>::empty(), i, i + 1))
    } else {
        match spec_parse_entry(s, i) {
            None => None,
            Some((e, j0)) => {
                let j = bump(j0, i + 1);
                let k = skip(s, j);
                match spec_parse_entries(s, k) {
                    None => None,
                    Some((es, end, nxt)) => Some(
                        (
                            seq![e] + es,
                            if es.len() == 0 {
                                j
                            } else {
                                end
                            },
                            nxt,
                        ),
                    ),
                }
            },
        }
    }
}

/// The elements of an array body, starting at a non-whitespace `i`, up to
/// and including the closing parenthesis.
pub open spec fn spec_parse_elems(s: Seq<u8>, i: int) -> Option<(Seq<SliceM>, int, int)>
    decreases rem(s, i), 2int,
{
    if !(0 <= i < s.len()) {
        None
    } else if s[i] == 41 {
        Some((Seq::<SliceM>::empty(), i, i + 1))
    } else {
        spec_parse_more_elems(s, i)
    }
}

/// One or more comma-separated elements starting exactly at `i`; a trailing
/// comma before the closing parenthesis is allowed.
pub open spec fn spec_parse_more_elems(s: Seq<u8>, i: int) -> Option<(Seq<SliceM>, int, int)>
    decreases rem(s, i), 1int,
{
    if !(0 <= i < s.len()) {
        None
    } else {
        match spec_parse_value(s, i) {
            None => None,
            Some((v, m0)) => {
                let m = bump(m0, i + 1);
                let k = skip(s, m);
                if k < s.len() && s[k] == 44 {
                    let k2 = skip(s, k + 1);
                    if k2 < s.len() && s[k2] == 41 {
                        Some((seq![v], m, k2 + 1))
                    } else {
                        match spec_parse_more_elems(s, k2) {
                            None => None,
                            Some((vs, end, nxt)) => Some((seq![v] + vs, end, nxt)),
                        }
                    }
                } else if k < s.len() && s[k] == 41 {
                    Some((seq![v], m, k + 1))
                } else {
                    None
                }
            },
        }
    }
}

/// A whole document: leading and trailing whitespace around one value of
/// the requested root kind, with nothing after it.
pub open spec fn spec_parse(root: Root, s: Seq<u8>) -> Option<SliceM> {
    let i = skip(s, 0);
    match spec_parse_value(s, i) {
        None => None,
        Some((sl, j0)) => {
            let k = skip(s, bump(j0, i + 1));
            if k == s.len() {
                match root {
                    Root::Dict => if sl.value is Dict {
                        Some(sl)
                    } else {
                        None
                    },
                    Root::Array => if sl.value is Array {
                        Some(sl)
                    } else {
                        None
                    },
                }
            } else {
                None
            }
        },
    }
}

/// Advances past whitespace.
pub fn skip_ws(s: &Vec<u8>, i: usize) -> (r: usize)
    requires
        i <= s@.len(),
    ensures
        r as int == skip(s@, i as int),
        i <= r <= s@.len(),
        r < s@.len() ==> !is_ws(s@[r as int]),
{
    let mut r: usize = i;
    while r < s.len() && byte_is_ws(s[r])
        invariant
            i <= r <= s@.len(),
            skip(s@, i as int) == skip(s@, r as int),
        decreases s@.len() - r,
    {
        r = r + 1;
    }
    r
}

/// Parses a string token: the value, its covered text, and the next index.
fn parse_string(s: &Vec<u8>, i: usize) -> (r: Result<(Vec<u8>, Vec<u8>, usize), SyntaxError>)
    requires
        i <= s@.len(),
    ensures
        (match r {
            Ok((v, c, j)) => spec_parse_string(s@, i as int) == Some((v@, c@, j as int)) && i < j
                <= s@.len(),
            Err(_) => spec_parse_string(s@, i as int) is None,
        }),
{
    if i >= s.len() {
        return Err(SyntaxError { pos: i });
    }
    if s[i] == 34 {
        let mut q: usize = i + 1;
        while q < s.len() && s[q] != 34
            invariant
                i + 1 <= q <= s@.len(),
                quote_end(s@, i as int + 1) == quote_end(s@, q as int),
            decreases s@.len() - q,
        {
            q = q + 1;
        }
        if q >= s.len() {
            return Err(SyntaxError { pos: i });
        }
        let v = copy_range(s, i + 1, q);
        let c = copy_range(s, i, q + 1);
        Ok((v, c, q + 1))
    } else if byte_is_ident(s[i]) {
        let mut e: usize = i;
        while e < s.len() && byte_is_ident(s[e])
            invariant
                i <= e <= s@.len(),
                i as int + ident_run(s@, i as int) == e as int + ident_run(s@, e as int),
            decreases s@.len() - e,
        {
            e = e + 1;
        }
        let v = copy_range(s, i, e);
        let c = copy_range(s, i, e);
        Ok((v, c, e))
    } else {
        Err(SyntaxError { pos: i })
    }
}

proof fn lemma_entries_model_prepend(v_new: Vec<Entry>, v_old: Vec<Entry>, e: Entry)
    requires
        v_new@ == v_old@.insert(0, e),
    ensures
        entries_model(v_new) == seq![e.model()] + entries_model(v_old),
{
    assert(entries_model(v_new) =~= seq![e.model()] + entries_model(v_old)) by {
        assert forall|i: int| 0 <= i < v_new@.len() implies entries_model(v_new)[i] == (seq![
            e.model(),
        ] + entries_model(v_old))[i] by {
            if i == 0 {
                assert(v_new@[0] == e);
            } else {
                assert(v_new@[i] == v_old@[i - 1]);
            }
        }
    }
}

proof fn lemma_slices_model_prepend(v_new: Vec<Slice>, v_old: Vec<Slice>, e: Slice)
    requires
        v_new@ == v_old@.insert(0, e),
    ensures
        slices_model(v_new) == seq![e.model()] + slices_model(v_old),
{
    assert(slices_model(v_new) =~= seq![e.model()] + slices_model(v_old)) by {
        assert forall|i: int| 0 <= i < v_new@.len() implies slices_model(v_new)[i] == (seq![
            e.model(),
        ] + slices_model(v_old))[i] by {
            if i == 0 {
                assert(v_new@[0] == e);
            } else {
                assert(v_new@[i] == v_old@[i - 1]);
            }
        }
    }
}

/// Parses one value starting exactly at `i`.
fn parse_value(s: &Vec<u8>, i: usize) -> (r: Result<(Slice, usize), SyntaxError>)
    requires
        i <= s@.len(),
    ensures
        (match r {
            Ok((sl, j)) => spec_parse_value(s@, i as int) == Some((sl.model(), j as int)) && i < j
                <= s@.len(),
            Err(_) => spec_parse_value(s@, i as int) is None,
        }),
    decreases s@.len() - i, 0int,
{
    if i >= s.len() {
        return Err(SyntaxError { pos: i });
    }
    let b = s[i];
    if b == 123 {
        let j = skip_ws(s, i + 1);
        let (es, end, nxt) = match parse_entries(s, j) {
            Ok(x) => x,
            Err(e) => {
                return Err(e);
            },
        };
        let code: Vec<u8> = if es.len() == 0 {
            Vec::new()
        } else {
            copy_range(s, j, end)
        };
        let sl = Slice { value: Value::Dict(es), code };
        proof {
            if entries_model(sl.value->Dict_0).len() == 0 {
                assert(sl.code@ =~= Seq::<u8>::empty());
            }
        }
        Ok((sl, nxt))
    } else if b == 40 {
        let j = skip_ws(s, i + 1);
        let (vs, end, nxt) = match parse_elems(s, j) {
            Ok(x) => x,
            Err(e) => {
                return Err(e);
            },
        };
        let code: Vec<u8> = if vs.len() == 0 {
            Vec::new()
        } else {
            copy_range(s, j, end)
        };
        let sl = Slice { value: Value::Array(vs), code };
        proof {
            if slices_model(sl.value->Array_0).len() == 0 {
                assert(sl.code@ =~= Seq::<u8>::empty());
            }
        }
        Ok((sl, nxt))
    } else {
        let (v, c, j) = match parse_string(s, i) {
            Ok(x) => x,
            Err(e) => {
                return Err(e);
            },
        };
        Ok((Slice { value: Value::String(v), code: c }, j))
    }
}

/// Parses one `key = value;` entry starting exactly at `i`.
fn parse_entry(s: &Vec<u8>, i: usize) -> (r: Result<(Entry, usize), SyntaxError>)
    requires
        i <= s@.len(),
    ensures
        (match r {
            Ok((e, j)) => spec_parse_entry(s@, i as int) == Some((e.model(), j as int)) && i < j
                <= s@.len(),
            Err(_) => spec_parse_entry(s@, i as int) is None,
        }),
    decreases s@.len() - i, 1int,
{
    if i >= s.len() {
        return Err(SyntaxError { pos: i });
    }
    let (kv, _kc, j1) = match parse_string(s, i) {
        Ok(x) => x,
        Err(e) => {
            return Err(e);
        },
    };
    let j2 = skip_ws(s, j1);
    if !(j2 < s.len() && s[j2] == 61) {
        return Err(SyntaxError { pos: j2 });
    }
    let j3 = skip_ws(s, j2 + 1);
    let (v, j4) = match parse_value(s, j3) {
        Ok(x) => x,
        Err(e) => {
            return Err(e);
        },
    };
    let j5 = skip_ws(s, j4);
    if j5 < s.len() && s[j5] == 59 {
        let code = copy_range(s, i, j5 + 1);
        Ok((Entry { key: kv, value: v, code }, j5 + 1))
    } else {
        Err(SyntaxError { pos: j5 })
    }
}

/// Parses dictionary entries up to and including the closing brace.
fn parse_entries(s: &Vec<u8>, i: usize) -> (r: Result<(Vec<Entry>, usize, usize), SyntaxError>)
    requires
        i <= s@.len(),
    ensures
        (match r {
            Ok((v, end, nxt)) => spec_parse_entries(s@, i as int) == Some(
                (entries_model(v), end as int, nxt as int),
            ) && i <= end && end < nxt && nxt <= s@.len(),
            Err(_) => spec_parse_entries(s@, i as int) is None,
        }),
    decreases s@.len() - i, 2int,
{
    if i >= s.len() {
        return Err(SyntaxError { pos: i });
    }
    if s[i] == 125 {
        let v: Vec<Entry> = Vec::new();
        proof {
            assert(entries_model(v) =~= Seq::<EntryM>::empty());
        }
        return Ok((v, i, i + 1));
    }
    let (e, j) = match parse_entry(s, i) {
        Ok(x) => x,
        Err(er) => {
            return Err(er);
        },
    };
    let k = skip_ws(s, j);
    let (mut rest, end0, nxt) = match parse_entries(s, k) {
        Ok(x) => x,
        Err(er) => {
            return Err(er);
        },
    };
    let end = if rest.len() == 0 {
        j
    } else {
        end0
    };
    let ghost rest0 = rest;
    rest.insert(0, e);
    proof {
        lemma_entries_model_prepend(rest, rest0, e);
    }
    Ok((rest, end, nxt))
}

/// Parses array elements up to and including the closing parenthesis.
fn parse_elems(s: &Vec<u8>, i: usize) -> (r: Result<(Vec<Slice>, usize, usize), SyntaxError>)
    requires
        i <= s@.len(),
    ensures
        (match r {
            Ok((v, end, nxt)) => spec_parse_elems(s@, i as int) == Some(
                (slices_model(v), end as int, nxt as int),
            ) && i <= end && end < nxt && nxt <= s@.len(),
            Err(_) => spec_parse_elems(s@, i as int) is None,
        }),
    decreases s@.len() - i, 2int,
{
    if i >= s.len() {
        return Err(SyntaxError { pos: i });
    }
    if s[i] == 41 {
        let v: Vec<Slice> = Vec::new();
        proof {
            assert(slices_model(v) =~= Seq::<SliceM>::empty());
        }
        return Ok((v, i, i + 1));
    }
    parse_more_elems(s, i)
}

/// Parses one or more comma-separated elements starting exactly at `i`.
fn parse_more_elems(s: &Vec<u8>, i: usize) -> (r: Result<
    (Vec<Slice>, usize, usize),
    SyntaxError,
>)
    requires
        i <= s@.len(),
    ensures
        (match r {
            Ok((v, end, nxt)) => spec_parse_more_elems(s@, i as int) == Some(
                (slices_model(v), end as int, nxt as int),
            ) && i <= end && end < nxt && nxt <= s@.len(),
            Err(_) => spec_parse_more_elems(s@, i as int) is None,
        }),
    decreases s@.len() - i, 1int,
{
    if i >= s.len() {
        return Err(SyntaxError { pos: i });
    }
    let (val, m) = match parse_value(s, i) {
        Ok(x) => x,
        Err(e) => {
            return Err(e);
        },
    };
    let k = skip_ws(s, m);
    if k < s.len() && s[k] == 44 {
        let k2 = skip_ws(s, k + 1);
        if k2 < s.len() && s[k2] == 41 {
            let mut v: Vec<Slice> = Vec::new();
            v.push(val);
            proof {
                assert(slices_model(v) =~= seq![v@[0].model()]);
            }
            Ok((v, m, k2 + 1))
        } else {
            let (mut rest, end, nxt) = match parse_more_elems(s, k2) {
                Ok(x) => x,
                Err(e) => {
                    return Err(e);
                },
            };
            let ghost rest0 = rest;
            rest.insert(0, val);
            proof {
                lemma_slices_model_prepend(rest, rest0, val);
            }
            Ok((rest, end, nxt))
        }
    } else if k < s.len() && s[k] == 41 {
        let mut v: Vec<Slice> = Vec::new();
        v.push(val);
        proof {
            assert(slices_model(v) =~= seq![v@[0].model()]);
        }
        Ok((v, m, k + 1))
    } else {
        Err(SyntaxError { pos: k })
    }
}

/// Parses a whole document of the requested root kind.
///
/// Succeeds exactly when the text matches the grammar for that root, and
/// then returns the slice the deterministic grammar gives: the structured
/// value together with the verbatim source span of every nested construct.
pub fn parse(root: Root, code: &Vec<u8>) -> (r: Result<Slice, SyntaxError>)
    ensures
        (match r {
            Ok(sl) => spec_parse(root, code@) == Some(sl.model()),
            Err(_) => spec_parse(root, code@) is None,
        }),
{
    let i = skip_ws(code, 0);
    let (sl, j) = match parse_value(code, i) {
        Ok(x) => x,
        Err(e) => {
            return Err(e);
        },
    };
    let k = skip_ws(code, j);
    if k != code.len() {
        return Err(SyntaxError { pos: k });
    }
    match root {
        Root::Dict => match &sl.value {
            Value::Dict(_) => Ok(sl),
            Value::Array(_) => Err(SyntaxError { pos: 0 }),
            Value::String(_) => Err(SyntaxError { pos: 0 }),
        },
        Root::Array => match &sl.value {
            Value::Array(_) => Ok(sl),
            Value::Dict(_) => Err(SyntaxError { pos: 0 }),
            Value::String(_) => Err(SyntaxError { pos: 0 }),
        },
    }
}

/// Model of a sequence of byte vectors.
pub open spec fn vecs_model(vs: Seq<Vec<u8>>) -> Seq<Seq<u8>> {
    Seq::new(vs.len(), |i: int| vs[i]@)
}

pub proof fn lemma_vecs_model_prepend(v_new: Seq<Vec<u8>>, v_old: Seq<Vec<u8>>, x: Vec<u8>)
    requires
        v_new == v_old.insert(0, x),
    ensures
        vecs_model(v_new) == seq![x@] + vecs_model(v_old),
{
    assert(vecs_model(v_new) =~= seq![x@] + vecs_model(v_old)) by {
        assert forall|i: int| 0 <= i < v_new.len() implies vecs_model(v_new)[i] == (seq![x@]
            + vecs_model(v_old))[i] by {
            if i == 0 {
                assert(v_new[0] == x);
            } else {
                assert(v_new[i] == v_old[i - 1]);
            }
        }
    }
}

pub proof fn lemma_vecs_model_concat(a: Seq<Vec<u8>>, b: Seq<Vec<u8>>)
    ensures
        vecs_model(a + b) == vecs_model(a) + vecs_model(b),
{
    assert(vecs_model(a + b) =~= vecs_model(a) + vecs_model(b)) by {
        assert forall|i: int| 0 <= i < a.len() + b.len() implies vecs_model(a + b)[i] == (
        vecs_model(a) + vecs_model(b))[i] by {
            if i < a.len() {
                assert((a + b)[i] == a[i]);
            } else {
                assert((a + b)[i] == b[i - a.len()]);
            }
        }
    }
}

/// Each code followed by a newline, concatenated.
pub open spec fn lines_s(codes: Seq<Seq<u8>>) -> Seq<u8>
    decreases codes.len(),
{
    if codes.len() == 0 {
        Seq::<u8>::empty()
    } else {
        codes[0] + seq![10u8] + lines_s(codes.drop_first())
    }
}

/// The text of a dictionary document: `{`, one line per entry code, `}`.
pub open spec fn dict_content_s(codes: Seq<Seq<u8>>) -> Seq<u8> {
    seq![123u8, 10u8] + lines_s(codes) + seq![125u8, 10u8]
}

/// Each code followed by a comma and a newline, concatenated.
pub open spec fn comma_lines_s(codes: Seq<Seq<u8>>) -> Seq<u8>
    decreases codes.len(),
{
    if codes.len() == 0 {
        Seq::<u8>::empty()
    } else {
        codes[0] + seq![44u8, 10u8] + comma_lines_s(codes.drop_first())
    }
}

/// The text of an array document: `(`, the codes one per line and
/// comma-separated, `)` with no trailing newline.
pub open spec fn array_content_s(codes: Seq<Seq<u8>>) -> Seq<u8> {
    if codes.len() == 0 {
        seq![40u8, 10u8, 41u8]
    } else {
        seq![40u8, 10u8] + comma_lines_s(codes.drop_last()) + codes.last() + seq![10u8, 41u8]
    }
}

proof fn lemma_lines_push(s: Seq<Seq<u8>>, x: Seq<u8>)
    ensures
        lines_s(s.push(x)) == lines_s(s) + x + seq![10u8],
    decreases s.len(),
{
    if s.len() == 0 {
        assert(s.push(x).drop_first() =~= Seq::<Seq<u8>>::empty());
        assert(s.push(x)[0] == x);
        assert(lines_s(s.push(x)) == x + seq![10u8] + lines_s(s.push(x).drop_first()));
        assert(lines_s(s.push(x)) =~= lines_s(s) + x + seq![10u8]);
    } else {
        lemma_lines_push(s.drop_first(), x);
        assert(s.push(x).drop_first() =~= s.drop_first().push(x));
        assert(s.push(x)[0] == s[0]);
        assert(lines_s(s.push(x)) == s[0] + seq![10u8] + lines_s(s.drop_first().push(x)));
        assert(lines_s(s.push(x)) =~= lines_s(s) + x + seq![10u8]);
    }
}

proof fn lemma_comma_lines_push(s: Seq<Seq<u8>>, x: Seq<u8>)
    ensures
        comma_lines_s(s.push(x)) == comma_lines_s(s) + x + seq![44u8, 10u8],
    decreases s.len(),
{
    if s.len() == 0 {
        assert(s.push(x).drop_first() =~= Seq::<Seq<u8>>::empty());
        assert(s.push(x)[0] == x);
        assert(comma_lines_s(s.push(x)) == x + seq![44u8, 10u8] + comma_lines_s(
            s.push(x).drop_first(),
        ));
        assert(comma_lines_s(s.push(x)) =~= comma_lines_s(s) + x + seq![44u8, 10u8]);
    } else {
        lemma_comma_lines_push(s.drop_first(), x);
        assert(s.push(x).drop_first() =~= s.drop_first().push(x));
        assert(s.push(x)[0] == s[0]);
        assert(comma_lines_s(s.push(x)) == s[0] + seq![44u8, 10u8] + comma_lines_s(
            s.drop_first().push(x),
        ));
        assert(comma_lines_s(s.push(x)) =~= comma_lines_s(s) + x + seq![44u8, 10u8]);
    }
}

/// Renders a dictionary document from verbatim entry codes, exactly as the
/// single-document form is written: `{`, each code on its own line, `}`.
pub fn dict_file_content(codes: &Vec<Vec<u8>>) -> (r: Vec<u8>)
    ensures
        r@ == dict_content_s(vecs_model(codes@)),
{
    let mut out: Vec<u8> = Vec::new();
    out.push(123);
    out.push(10);
    proof {
        assert(out@ =~= seq![123u8, 10u8] + lines_s(vecs_model(codes@).take(0)));
    }
    let n: usize = codes.len();
    let mut i: usize = 0;
    while i < n
        invariant
            n == codes@.len(),
            i <= n,
            out@ == seq![123u8, 10u8] + lines_s(vecs_model(codes@).take(i as int)),
        decreases n - i,
    {
        crate::bytes::push_all(&mut out, &codes[i]);
        out.push(10);
        proof {
            lemma_lines_push(vecs_model(codes@).take(i as int), codes@[i as int]@);
            assert(vecs_model(codes@).take(i as int + 1) =~= vecs_model(codes@).take(
                i as int,
            ).push(codes@[i as int]@));
            assert(out@ =~= seq![123u8, 10u8] + lines_s(vecs_model(codes@).take(i as int + 1)));
        }
        i = i + 1;
    }
    out.push(125);
    out.push(10);
    proof {
        assert(vecs_model(codes@).take(n as int) =~= vecs_model(codes@));
        assert(out@ =~= dict_content_s(vecs_model(codes@)));
    }
    out
}

/// Renders an array document from verbatim element codes: `(`, the codes
/// comma-separated one per line, `)`.
pub fn array_file_content(codes: &Vec<Vec<u8>>) -> (r: Vec<u8>)
    ensures
        r@ == array_content_s(vecs_model(codes@)),
{
    let mut out: Vec<u8> = Vec::new();
    out.push(40);
    out.push(10);
    let n: usize = codes.len();
    if n == 0 {
        out.push(41);
        proof {
            assert(out@ =~= array_content_s(vecs_model(codes@)));
        }
        return out;
    }
    proof {
        assert(out@ =~= seq![40u8, 10u8] + comma_lines_s(vecs_model(codes@).take(0)));
    }
    let mut i: usize = 0;
    while i < n - 1
        invariant
            n == codes@.len(),
            1 <= n,
            i <= n - 1,
            out@ == seq![40u8, 10u8] + comma_lines_s(vecs_model(codes@).take(i as int)),
        decreases n - i,
    {
        crate::bytes::push_all(&mut out, &codes[i]);
        out.push(44);
        out.push(10);
        proof {
            lemma_comma_lines_push(vecs_model(codes@).take(i as int), codes@[i as int]@);
            assert(vecs_model(codes@).take(i as int + 1) =~= vecs_model(codes@).take(
                i as int,
            ).push(codes@[i as int]@));
            assert(out@ =~= seq![40u8, 10u8] + comma_lines_s(
                vecs_model(codes@).take(i as int + 1),
            ));
        }
        i = i + 1;
    }
    crate::bytes::push_all(&mut out, &codes[n - 1]);
    out.push(10);
    out.push(41);
    proof {
        assert(vecs_model(codes@).take(n as int - 1) =~= vecs_model(codes@).drop_last());
        assert(out@ =~= array_content_s(vecs_model(codes@)));
    }
    out
}

/// Length of the whitespace run ending just before `i`, read backward.
pub open spec fn ws_run_back(s: Seq<u8>, i: int) -> nat
    decreases i,
{
    if 0 < i <= s.len() && is_ws(s[i - 1]) {
        (1 + ws_run_back(s, i - 1)) as nat
    } else {
        0
    }
}

/// `s` with leading and trailing ASCII whitespace removed.
pub open spec fn trim_s(s: Seq<u8>) -> Seq<u8> {
    if skip(s, 0) >= s.len() {
        Seq::<u8>::empty()
    } else {
        s.subrange(skip(s, 0), s.len() - ws_run_back(s, s.len() as int))
    }
}

/// Removes leading and trailing ASCII whitespace.
pub fn trim(s: &Vec<u8>) -> (r: Vec<u8>)
    ensures
        r@ == trim_s(s@),
{
    let l = skip_ws(s, 0);
    if l >= s.len() {
        let r: Vec<u8> = Vec::new();
        proof {
            assert(r@ =~= trim_s(s@));
        }
        return r;
    }
    let mut t: usize = s.len();
    while t > l && byte_is_ws(s[t - 1])
        invariant
            l < t <= s@.len(),
            l as int == skip(s@, 0),
            l < s@.len() && !is_ws(s@[l as int]),
            ws_run_back(s@, s@.len() as int) == (s@.len() - t) + ws_run_back(s@, t as int),
        decreases t,
    {
        t = t - 1;
    }
    copy_range(s, l, t)
}

} // verus!

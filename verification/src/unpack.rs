//! Package → single document: merges the metadata file, the order list,
//! the per-glyph files and the optional UI-state file back into one
//! dictionary document, re-sorted by key.

use vstd::prelude::*;

use crate::bytes::bytes_eq;
use crate::bytes::clone_bytes;
use crate::bytes::push_all;
use crate::error::Error;
use crate::error::ErrorM;
use crate::error::PlistFile;
use crate::keys::key_display_package;
use crate::keys::key_display_package_vec;
use crate::keys::key_display_standalone;
use crate::keys::key_display_standalone_vec;
use crate::keys::key_glyph_name;
use crate::keys::key_glyph_name_vec;
use crate::keys::key_glyphs;
use crate::keys::key_glyphs_vec;
use crate::keys::wrap_entry;
use crate::keys::wrap_entry_s;
use crate::pack::glyphs_model;
use crate::pack::GlyphRecord;
use crate::plist::dict_content_s;
use crate::plist::dict_file_content;
use crate::plist::entries_model;
use crate::plist::slices_model;
use crate::plist::spec_parse;
use crate::plist::trim;
use crate::plist::trim_s;
use crate::plist::vecs_model;
use crate::plist::Entry;
use crate::plist::EntryM;
use crate::plist::Root;
use crate::plist::Slice;
use crate::plist::SliceM;
use crate::plist::Value;
use crate::plist::ValueM;

verus! {

/// Strict lexicographic (ordinal, byte-wise) order on keys; a proper
/// prefix sorts first. This is the order the merged document's entries are
/// sorted by.
pub open spec fn lex_lt(a: Seq<u8>, b: Seq<u8>) -> bool
    decreases a.len(),
{
    if b.len() == 0 {
        false
    } else if a.len() == 0 {
        true
    } else if a[0] < b[0] {
        true
    } else if a[0] > b[0] {
        false
    } else {
        lex_lt(a.drop_first(), b.drop_first())
    }
}

/// Decides `lex_lt`.
pub fn lex_lt_exec(a: &Vec<u8>, b: &Vec<u8>) -> (r: bool)
    ensures
        r == lex_lt(a@, b@),
{
    let mut i: usize = 0;
    proof {
        assert(a@.skip(0) =~= a@);
        assert(b@.skip(0) =~= b@);
    }
    while i < a.len() && i < b.len() && a[i] == b[i]
        invariant
            i <= a@.len(),
            i <= b@.len(),
            lex_lt(a@, b@) == lex_lt(a@.skip(i as int), b@.skip(i as int)),
        decreases a@.len() - i,
    {
        proof {
            assert(a@.skip(i as int).drop_first() =~= a@.skip(i as int + 1));
            assert(b@.skip(i as int).drop_first() =~= b@.skip(i as int + 1));
        }
        i = i + 1;
    }
    if i >= b.len() {
        false
    } else if i >= a.len() {
        true
    } else {
        a[i] < b[i]
    }
}

/// Model of a sequence of `(key, code)` pairs.
pub open spec fn pairs_model(ps: Seq<(Vec<u8>, Vec<u8>)>) -> Seq<(Seq<u8>, Seq<u8>)> {
    Seq::new(ps.len(), |i: int| (ps[i].0@, ps[i].1@))
}

/// Inserts `x` into `s` before the first pair whose key is strictly
/// greater; among equal keys the new pair goes last, which keeps the sort
/// stable.
pub open spec fn insert_sorted(x: (Seq<u8>, Seq<u8>), s: Seq<(Seq<u8>, Seq<u8>)>) -> Seq<
    (Seq<u8>, Seq<u8>),
>
    decreases s.len(),
{
    if s.len() == 0 {
        seq![x]
    } else if lex_lt(x.0, s[0].0) {
        seq![x] + s
    } else {
        seq![s[0]] + insert_sorted(x, s.drop_first())
    }
}

/// Stable insertion sort of `(key, code)` pairs by ordinal key comparison.
pub open spec fn spec_sort(s: Seq<(Seq<u8>, Seq<u8>)>) -> Seq<(Seq<u8>, Seq<u8>)>
    decreases s.len(),
{
    if s.len() == 0 {
        Seq::<(Seq<u8>, Seq<u8>)>::empty()
    } else {
        insert_sorted(s.last(), spec_sort(s.drop_last()))
    }
}

proof fn lemma_insert_at(x: (Seq<u8>, Seq<u8>), s: Seq<(Seq<u8>, Seq<u8>)>, p: int)
    requires
        0 <= p <= s.len(),
        forall|k: int| 0 <= k < p ==> !lex_lt(x.0, s[k].0),
        p < s.len() ==> lex_lt(x.0, s[p].0),
    ensures
        insert_sorted(x, s) == s.take(p) + seq![x] + s.skip(p),
    decreases s.len(),
{
    if s.len() == 0 {
        assert(insert_sorted(x, s) =~= s.take(p) + seq![x] + s.skip(p));
    } else if p == 0 {
        assert(s.take(0) =~= Seq::<(Seq<u8>, Seq<u8>)>::empty());
        assert(s.skip(0) =~= s);
        assert(insert_sorted(x, s) =~= s.take(p) + seq![x] + s.skip(p));
    } else {
        assert(!lex_lt(x.0, s[0].0));
        let st = s.drop_first();
        assert(forall|k: int| 0 <= k < p - 1 ==> st[k] == s[k + 1]);
        lemma_insert_at(x, st, p - 1);
        assert(st.take(p - 1) =~= s.take(p).drop_first());
        assert(st.skip(p - 1) =~= s.skip(p));
        assert(insert_sorted(x, s) =~= s.take(p) + seq![x] + s.skip(p));
    }
}

/// Inserts one pair into an already sorted vector, as `insert_sorted` says.
fn insert_pair_sorted(out: &mut Vec<(Vec<u8>, Vec<u8>)>, x: (Vec<u8>, Vec<u8>))
    ensures
        pairs_model(final(out)@) == insert_sorted((x.0@, x.1@), pairs_model(old(out)@)),
{
    let n: usize = out.len();
    let mut p: usize = 0;
    while p < n && !lex_lt_exec(&x.0, &out[p].0)
        invariant
            n == out@.len(),
            p <= n,
            forall|k: int| 0 <= k < p ==> !lex_lt(x.0@, out@[k].0@),
        decreases n - p,
    {
        p = p + 1;
    }
    let ghost out0 = out@;
    let ghost xm = (x.0@, x.1@);
    let ghost pp = p as int;
    out.insert(p, x);
    proof {
        assert forall|k: int| 0 <= k < pp implies !lex_lt(xm.0, pairs_model(out0)[k].0) by {
            assert(pairs_model(out0)[k].0 == out0[k].0@);
        }
        if pp < out0.len() {
            assert(pairs_model(out0)[pp].0 == out0[pp].0@);
        }
        lemma_insert_at(xm, pairs_model(out0), pp);
        assert forall|k: int| 0 <= k < out@.len() implies pairs_model(out@)[k] == (pairs_model(
            out0,
        ).take(pp) + seq![xm] + pairs_model(out0).skip(pp))[k] by {
            if k < pp {
                assert(out@[k] == out0[k]);
            } else if k == pp {
                assert(out@[k] == (x.0, x.1));
            } else {
                assert(out@[k] == out0[k - 1]);
            }
        }
        assert(pairs_model(out@) =~= pairs_model(out0).take(pp) + seq![xm] + pairs_model(
            out0,
        ).skip(pp));
    }
}

/// Sorts `(key, code)` pairs by key, stably, as `spec_sort` says.
fn sort_pairs(v: Vec<(Vec<u8>, Vec<u8>)>) -> (r: Vec<(Vec<u8>, Vec<u8>)>)
    ensures
        pairs_model(r@) == spec_sort(pairs_model(v@)),
{
    let ghost vm = pairs_model(v@);
    let mut rest = v;
    let mut out: Vec<(Vec<u8>, Vec<u8>)> = Vec::new();
    let ghost mut i: int = 0;
    proof {
        assert(pairs_model(out@) =~= spec_sort(vm.take(0)));
        assert(pairs_model(rest@) == vm);
    }
    while rest.len() > 0
        invariant
            0 <= i,
            i + rest@.len() == vm.len(),
            pairs_model(out@) == spec_sort(vm.take(i)),
            forall|k: int| 0 <= k < rest@.len() ==> pairs_model(rest@)[k] == vm[i + k],
        decreases rest@.len(),
    {
        let ghost rest0 = rest@;
        let x = rest.remove(0);
        proof {
            assert(pairs_model(rest0)[0] == vm[i]);
            assert((x.0@, x.1@) == vm[i]);
            assert forall|k: int| 0 <= k < rest@.len() implies pairs_model(rest@)[k] == vm[i + 1
                + k] by {
                assert(rest@[k] == rest0[k + 1]);
                assert(pairs_model(rest0)[k + 1] == vm[i + 1 + k]);
            }
        }
        insert_pair_sorted(&mut out, x);
        proof {
            assert(vm.take(i + 1).drop_last() =~= vm.take(i));
            assert(vm.take(i + 1).last() == vm[i]);
            assert(pairs_model(out@) == spec_sort(vm.take(i + 1)));
            i = i + 1;
        }
    }
    proof {
        assert(vm.take(vm.len() as int) =~= vm);
    }
    out
}

/// The `(key, code)` pairs of the metadata file's entries, in order.
pub open spec fn fi_pairs(es: Seq<EntryM>) -> Seq<(Seq<u8>, Seq<u8>)> {
    Seq::new(es.len(), |i: int| (es[i].key, es[i].code))
}

/// The glyph names the order file lists; every element must be a string.
pub open spec fn spec_order_names(elems: Seq<SliceM>) -> Result<Seq<Seq<u8>>, ErrorM>
    decreases elems.len(),
{
    if elems.len() == 0 {
        Ok(Seq::<Seq<u8>>::empty())
    } else {
        match elems[0].value {
            ValueM::Text(n) => match spec_order_names(elems.drop_first()) {
                Err(x) => Err(x),
                Ok(r) => Ok(seq![n] + r),
            },
            _ => Err(ErrorM::NonStringOrderEntry),
        }
    }
}

/// The code stored for `name`: the first record with that name.
pub open spec fn spec_lookup(gs: Seq<(Seq<u8>, Seq<u8>)>, name: Seq<u8>) -> Option<Seq<u8>>
    decreases gs.len(),
{
    if gs.len() == 0 {
        None
    } else if gs[0].0 == name {
        Some(gs[0].1)
    } else {
        spec_lookup(gs.drop_first(), name)
    }
}

/// The comma-joined, trimmed glyph codes in order-list order; a name with
/// no stored glyph is fatal and names the missing glyph.
pub open spec fn spec_join(names: Seq<Seq<u8>>, gs: Seq<(Seq<u8>, Seq<u8>)>) -> Result<
    Seq<u8>,
    ErrorM,
>
    decreases names.len(),
{
    if names.len() == 0 {
        Ok(Seq::<u8>::empty())
    } else {
        match spec_lookup(gs, names[0]) {
            None => Err(ErrorM::MissingGlyph { name: names[0] }),
            Some(c) => match spec_join(names.drop_first(), gs) {
                Err(x) => Err(x),
                Ok(rest) => Ok(
                    if names.len() == 1 {
                        trim_s(c)
                    } else {
                        trim_s(c) + seq![44u8] + rest
                    },
                ),
            },
        }
    }
}

/// How a UI-state entry is carried into the merged document: the
/// `displayStrings` key becomes `DisplayStrings` and the value's verbatim
/// code is re-framed under the standalone key; any other entry passes
/// through unchanged.
pub open spec fn spec_ui_pairs(es: Seq<EntryM>) -> Seq<(Seq<u8>, Seq<u8>)> {
    Seq::new(
        es.len(),
        |i: int|
            if es[i].key == key_display_package() {
                (
                    key_display_standalone(),
                    wrap_entry_s(key_display_standalone(), es[i].value.code),
                )
            } else {
                (es[i].key, es[i].code)
            },
    )
}

/// The codes of a pair list, in order.
pub open spec fn snds(ps: Seq<(Seq<u8>, Seq<u8>)>) -> Seq<Seq<u8>> {
    Seq::new(ps.len(), |i: int| ps[i].1)
}

/// The merged document from already parsed parts: metadata entries, order
/// elements, stored glyph records, and the UI-state entries if that file
/// exists. The document is the dictionary rendering of all carried entry
/// codes — metadata codes verbatim, one synthetic `glyphs` entry, and the
/// renamed UI-state entries — stably sorted by ordinal key comparison.
/// The unsorted entry pairs the merged document carries before the UI-state
/// entries are appended: the metadata pairs and the synthetic `glyphs`
/// entry.
pub open spec fn merge_base(fes: Seq<EntryM>, joined: Seq<u8>) -> Seq<(Seq<u8>, Seq<u8>)> {
    fi_pairs(fes) + seq![(key_glyphs(), wrap_entry_s(key_glyphs(), joined))]
}

pub open spec fn spec_merge_pairs(
    fes: Seq<EntryM>,
    oelems: Seq<SliceM>,
    gs: Seq<(Seq<u8>, Seq<u8>)>,
    ui: Option<Seq<EntryM>>,
) -> Result<Seq<u8>, ErrorM> {
    match spec_order_names(oelems) {
        Err(x) => Err(x),
        Ok(names) => match spec_join(names, gs) {
            Err(x) => Err(x),
            Ok(joined) => match ui {
                None => Ok(dict_content_s(snds(spec_sort(merge_base(fes, joined))))),
                Some(ues) => Ok(
                    dict_content_s(snds(spec_sort(merge_base(fes, joined) + spec_ui_pairs(ues)))),
                ),
            },
        },
    }
}

/// The merged document from the raw file texts: the metadata file must
/// parse as a dictionary, the order file as an array, and the UI-state
/// file, when present, as a dictionary; then as `spec_merge_pairs` says.
pub open spec fn spec_merge(
    fic: Seq<u8>,
    oc: Seq<u8>,
    gs: Seq<(Seq<u8>, Seq<u8>)>,
    ui: Option<Seq<u8>>,
) -> Result<Seq<u8>, ErrorM> {
    match spec_parse(Root::Dict, fic) {
        None => Err(ErrorM::Syntax { file: PlistFile::FontInfo }),
        Some(fsl) => match fsl.value {
            ValueM::Dict(fes) => match spec_parse(Root::Array, oc) {
                None => Err(ErrorM::Syntax { file: PlistFile::Order }),
                Some(osl) => match osl.value {
                    ValueM::Array(oelems) => match ui {
                        None => spec_merge_pairs(fes, oelems, gs, None),
                        Some(uc) => match spec_order_names(oelems) {
                            Err(x) => Err(x),
                            Ok(names) => match spec_join(names, gs) {
                                Err(x) => Err(x),
                                Ok(_) => match spec_parse(Root::Dict, uc) {
                                    None => Err(ErrorM::Syntax { file: PlistFile::UiState }),
                                    Some(usl) => match usl.value {
                                        ValueM::Dict(ues) => spec_merge_pairs(
                                            fes,
                                            oelems,
                                            gs,
                                            Some(ues),
                                        ),
                                        _ => Err(ErrorM::Syntax { file: PlistFile::UiState }),
                                    },
                                },
                            },
                        },
                    },
                    _ => Err(ErrorM::Syntax { file: PlistFile::Order }),
                },
            },
            _ => Err(ErrorM::Syntax { file: PlistFile::FontInfo }),
        },
    }
}

/// The glyph name a stored glyph file declares: the first `glyphname`
/// entry decides, and must be a string.
pub open spec fn spec_glyph_name_first(pairs: Seq<EntryM>) -> Result<Seq<u8>, ErrorM>
    decreases pairs.len(),
{
    if pairs.len() == 0 {
        Err(ErrorM::MissingGlyphName)
    } else if pairs[0].key == key_glyph_name() {
        match pairs[0].value.value {
            ValueM::Text(n) => Ok(n),
            _ => Err(ErrorM::NonStringGlyphName),
        }
    } else {
        spec_glyph_name_first(pairs.drop_first())
    }
}

/// The record a stored glyph file contributes: its declared name, paired
/// with the file's raw text.
pub open spec fn spec_glyph_record(code: Seq<u8>) -> Result<(Seq<u8>, Seq<u8>), ErrorM> {
    match spec_parse(Root::Dict, code) {
        None => Err(ErrorM::Syntax { file: PlistFile::Glyph }),
        Some(sl) => match sl.value {
            ValueM::Dict(ps) => match spec_glyph_name_first(ps) {
                Err(x) => Err(x),
                Ok(n) => Ok((n, code)),
            },
            _ => Err(ErrorM::Syntax { file: PlistFile::Glyph }),
        },
    }
}

fn glyph_name_first_from(pairs: &Vec<Entry>, i: usize) -> (r: Result<Vec<u8>, Error>)
    requires
        i <= pairs@.len(),
    ensures
        (match r {
            Ok(n) => spec_glyph_name_first(entries_model(*pairs).skip(i as int)) == Ok::<
                Seq<u8>,
                ErrorM,
            >(n@),
            Err(e) => spec_glyph_name_first(entries_model(*pairs).skip(i as int)) == Err::<
                Seq<u8>,
                ErrorM,
            >(e.model()),
        }),
    decreases pairs@.len() - i,
{
    proof {
        if i < pairs@.len() {
            assert(entries_model(*pairs).skip(i as int).drop_first() =~= entries_model(
                *pairs,
            ).skip(i as int + 1));
            assert(entries_model(*pairs).skip(i as int)[0] == entries_model(*pairs)[i as int]);
        } else {
            assert(entries_model(*pairs).skip(i as int) =~= Seq::<EntryM>::empty());
        }
    }
    if i == pairs.len() {
        return Err(Error::MissingGlyphName);
    }
    let p = &pairs[i];
    let kgn = key_glyph_name_vec();
    if bytes_eq(&p.key, &kgn) {
        match &p.value.value {
            Value::String(n) => Ok(clone_bytes(n)),
            Value::Dict(_) => Err(Error::NonStringGlyphName),
            Value::Array(_) => Err(Error::NonStringGlyphName),
        }
    } else {
        glyph_name_first_from(pairs, i + 1)
    }
}

/// Parses one stored glyph file and extracts its record: the declared
/// `glyphname` and the file's raw text, as `spec_glyph_record` says.
pub fn glyph_record(code: &Vec<u8>) -> (r: Result<GlyphRecord, Error>)
    ensures
        (match r {
            Ok(g) => spec_glyph_record(code@) == Ok::<(Seq<u8>, Seq<u8>), ErrorM>(
                (g.name@, g.code@),
            ),
            Err(e) => spec_glyph_record(code@) == Err::<(Seq<u8>, Seq<u8>), ErrorM>(e.model()),
        }),
{
    let sl = match crate::plist::parse(Root::Dict, code) {
        Ok(s) => s,
        Err(se) => {
            return Err(Error::Syntax { file: PlistFile::Glyph, pos: se.pos });
        },
    };
    match sl.value {
        Value::Dict(ps) => {
            proof {
                assert(entries_model(ps).skip(0) =~= entries_model(ps));
            }
            let n = match glyph_name_first_from(&ps, 0) {
                Ok(n) => n,
                Err(e) => {
                    return Err(e);
                },
            };
            Ok(GlyphRecord { name: n, code: clone_bytes(code) })
        },
        Value::Array(_) => {
            proof {
                assert(false);
            }
            Err(Error::MissingGlyphName)
        },
        Value::String(_) => {
            proof {
                assert(false);
            }
            Err(Error::MissingGlyphName)
        },
    }
}

fn order_names_from(elems: &Vec<Slice>, i: usize) -> (r: Result<Vec<Vec<u8>>, Error>)
    requires
        i <= elems@.len(),
    ensures
        (match r {
            Ok(v) => spec_order_names(slices_model(*elems).skip(i as int)) == Ok::<
                Seq<Seq<u8>>,
                ErrorM,
            >(vecs_model(v@)),
            Err(e) => spec_order_names(slices_model(*elems).skip(i as int)) == Err::<
                Seq<Seq<u8>>,
                ErrorM,
            >(e.model()),
        }),
    decreases elems@.len() - i,
{
    proof {
        if i < elems@.len() {
            assert(slices_model(*elems).skip(i as int).drop_first() =~= slices_model(*elems).skip(
                i as int + 1,
            ));
            assert(slices_model(*elems).skip(i as int)[0] == slices_model(*elems)[i as int]);
        } else {
            assert(slices_model(*elems).skip(i as int) =~= Seq::<SliceM>::empty());
        }
    }
    if i == elems.len() {
        let v: Vec<Vec<u8>> = Vec::new();
        proof {
            assert(vecs_model(v@) =~= Seq::<Seq<u8>>::empty());
        }
        return Ok(v);
    }
    match &elems[i].value {
        Value::String(n) => {
            let nn = clone_bytes(n);
            let mut rest = match order_names_from(elems, i + 1) {
                Ok(v) => v,
                Err(e) => {
                    return Err(e);
                },
            };
            let ghost rest0 = rest@;
            rest.insert(0, nn);
            proof {
                crate::plist::lemma_vecs_model_prepend(rest@, rest0, nn);
            }
            Ok(rest)
        },
        Value::Dict(_) => Err(Error::NonStringOrderEntry),
        Value::Array(_) => Err(Error::NonStringOrderEntry),
    }
}

fn lookup_glyph(gs: &Vec<GlyphRecord>, name: &Vec<u8>) -> (r: Option<Vec<u8>>)
    ensures
        (match r {
            Some(c) => spec_lookup(glyphs_model(gs@), name@) == Some(c@),
            None => spec_lookup(glyphs_model(gs@), name@) is None,
        }),
{
    let n: usize = gs.len();
    let mut i: usize = 0;
    proof {
        assert(glyphs_model(gs@).skip(0) =~= glyphs_model(gs@));
    }
    while i < n
        invariant
            n == gs@.len(),
            i <= n,
            spec_lookup(glyphs_model(gs@), name@) == spec_lookup(
                glyphs_model(gs@).skip(i as int),
                name@,
            ),
        decreases n - i,
    {
        proof {
            assert(glyphs_model(gs@).skip(i as int)[0] == glyphs_model(gs@)[i as int]);
            assert(glyphs_model(gs@).skip(i as int).drop_first() =~= glyphs_model(gs@).skip(
                i as int + 1,
            ));
        }
        if bytes_eq(&gs[i].name, name) {
            return Some(clone_bytes(&gs[i].code));
        }
        i = i + 1;
    }
    proof {
        assert(glyphs_model(gs@).skip(n as int) =~= Seq::<(Seq<u8>, Seq<u8>)>::empty());
    }
    None
}

fn join_codes(names: &Vec<Vec<u8>>, i: usize, gs: &Vec<GlyphRecord>) -> (r: Result<Vec<u8>, Error>)
    requires
        i <= names@.len(),
    ensures
        (match r {
            Ok(j) => spec_join(vecs_model(names@).skip(i as int), glyphs_model(gs@)) == Ok::<
                Seq<u8>,
                ErrorM,
            >(j@),
            Err(e) => spec_join(vecs_model(names@).skip(i as int), glyphs_model(gs@)) == Err::<
                Seq<u8>,
                ErrorM,
            >(e.model()),
        }),
    decreases names@.len() - i,
{
    proof {
        if i < names@.len() {
            assert(vecs_model(names@).skip(i as int).drop_first() =~= vecs_model(names@).skip(
                i as int + 1,
            ));
            assert(vecs_model(names@).skip(i as int)[0] == vecs_model(names@)[i as int]);
        } else {
            assert(vecs_model(names@).skip(i as int) =~= Seq::<Seq<u8>>::empty());
        }
    }
    if i == names.len() {
        let v: Vec<u8> = Vec::new();
        proof {
            assert(v@ =~= Seq::<u8>::empty());
        }
        return Ok(v);
    }
    let c = match lookup_glyph(gs, &names[i]) {
        Some(c) => c,
        None => {
            return Err(Error::MissingGlyph { name: clone_bytes(&names[i]) });
        },
    };
    let t = trim(&c);
    if i + 1 == names.len() {
        proof {
            assert(vecs_model(names@).skip(i as int).len() == 1);
        }
        Ok(t)
    } else {
        let rest = match join_codes(names, i + 1, gs) {
            Ok(j) => j,
            Err(e) => {
                return Err(e);
            },
        };
        let mut out = t;
        out.push(44);
        push_all(&mut out, &rest);
        proof {
            assert(out@ =~= trim_s(c@) + seq![44u8] + rest@);
        }
        Ok(out)
    }
}

fn fi_pairs_vec(es: &Vec<Entry>) -> (r: Vec<(Vec<u8>, Vec<u8>)>)
    ensures
        pairs_model(r@) == fi_pairs(entries_model(*es)),
{
    let ghost esm = entries_model(*es);
    let mut out: Vec<(Vec<u8>, Vec<u8>)> = Vec::new();
    let n: usize = es.len();
    let mut i: usize = 0;
    proof {
        assert(pairs_model(out@) =~= fi_pairs(esm).take(0));
    }
    while i < n
        invariant
            n == es@.len(),
            i <= n,
            esm == entries_model(*es),
            pairs_model(out@) == fi_pairs(esm).take(i as int),
        decreases n - i,
    {
        let k = clone_bytes(&es[i].key);
        let c = clone_bytes(&es[i].code);
        let ghost o0 = out@;
        out.push((k, c));
        proof {
            assert(pairs_model(o0).len() == o0.len());
            assert(fi_pairs(esm).take(i as int).len() == i as int);
            assert(out@ == o0.push((k, c)));
            assert forall|t: int| 0 <= t < i as int + 1 implies pairs_model(out@)[t] == fi_pairs(
                esm,
            ).take(i as int + 1)[t] by {
                if t < i as int {
                    assert(out@[t] == o0[t]);
                    assert(pairs_model(o0)[t] == fi_pairs(esm).take(i as int)[t]);
                } else {
                    assert(out@[t] == (k, c));
                }
            }
            assert(pairs_model(out@) =~= fi_pairs(esm).take(i as int + 1));
        }
        i = i + 1;
    }
    proof {
        assert(fi_pairs(esm).take(n as int) =~= fi_pairs(esm));
    }
    out
}

fn ui_pairs_vec(es: &Vec<Entry>) -> (r: Vec<(Vec<u8>, Vec<u8>)>)
    ensures
        pairs_model(r@) == spec_ui_pairs(entries_model(*es)),
{
    let ghost esm = entries_model(*es);
    let mut out: Vec<(Vec<u8>, Vec<u8>)> = Vec::new();
    let n: usize = es.len();
    let mut i: usize = 0;
    proof {
        assert(pairs_model(out@) =~= spec_ui_pairs(esm).take(0));
    }
    while i < n
        invariant
            n == es@.len(),
            i <= n,
            esm == entries_model(*es),
            pairs_model(out@) == spec_ui_pairs(esm).take(i as int),
        decreases n - i,
    {
        let e = &es[i];
        let kdp = key_display_package_vec();
        let pair: (Vec<u8>, Vec<u8>) = if bytes_eq(&e.key, &kdp) {
            let kds = key_display_standalone_vec();
            let w = wrap_entry(&kds, &e.value.code);
            (kds, w)
        } else {
            (clone_bytes(&e.key), clone_bytes(&e.code))
        };
        let ghost o0 = out@;
        out.push(pair);
        proof {
            assert(pairs_model(o0).len() == o0.len());
            assert(spec_ui_pairs(esm).take(i as int).len() == i as int);
            assert(out@ == o0.push(pair));
            assert forall|t: int| 0 <= t < i as int + 1 implies pairs_model(out@)[t]
                == spec_ui_pairs(esm).take(i as int + 1)[t] by {
                if t < i as int {
                    assert(out@[t] == o0[t]);
                    assert(pairs_model(o0)[t] == spec_ui_pairs(esm).take(i as int)[t]);
                } else {
                    assert(out@[t] == pair);
                }
            }
            assert(pairs_model(out@) =~= spec_ui_pairs(esm).take(i as int + 1));
        }
        i = i + 1;
    }
    proof {
        assert(spec_ui_pairs(esm).take(n as int) =~= spec_ui_pairs(esm));
    }
    out
}

proof fn lemma_pairs_model_concat(a: Seq<(Vec<u8>, Vec<u8>)>, b: Seq<(Vec<u8>, Vec<u8>)>)
    ensures
        pairs_model(a + b) == pairs_model(a) + pairs_model(b),
{
    assert(pairs_model(a + b) =~= pairs_model(a) + pairs_model(b)) by {
        assert forall|i: int| 0 <= i < a.len() + b.len() implies pairs_model(a + b)[i] == (
        pairs_model(a) + pairs_model(b))[i] by {
            if i < a.len() {
                assert((a + b)[i] == a[i]);
            } else {
                assert((a + b)[i] == b[i - a.len()]);
            }
        }
    }
}

fn snds_vec(ps: &Vec<(Vec<u8>, Vec<u8>)>) -> (r: Vec<Vec<u8>>)
    ensures
        vecs_model(r@) == snds(pairs_model(ps@)),
{
    let ghost pm = pairs_model(ps@);
    let mut out: Vec<Vec<u8>> = Vec::new();
    let n: usize = ps.len();
    let mut i: usize = 0;
    proof {
        assert(vecs_model(out@) =~= snds(pm).take(0));
    }
    while i < n
        invariant
            n == ps@.len(),
            i <= n,
            pm == pairs_model(ps@),
            vecs_model(out@) == snds(pm).take(i as int),
        decreases n - i,
    {
        let c = clone_bytes(&ps[i].1);
        let ghost o0 = out@;
        out.push(c);
        proof {
            assert(vecs_model(o0).len() == o0.len());
            assert(snds(pm).take(i as int).len() == i as int);
            assert(out@ == o0.push(c));
            assert forall|t: int| 0 <= t < i as int + 1 implies vecs_model(out@)[t] == snds(
                pm,
            ).take(i as int + 1)[t] by {
                if t < i as int {
                    assert(out@[t] == o0[t]);
                    assert(vecs_model(o0)[t] == snds(pm).take(i as int)[t]);
                } else {
                    assert(out@[t] == c);
                    assert(pm[t].1 == ps@[t].1@);
                }
            }
            assert(vecs_model(out@) =~= snds(pm).take(i as int + 1));
        }
        i = i + 1;
    }
    proof {
        assert(snds(pm).take(n as int) =~= snds(pm));
    }
    out
}

/// Merges a package back into a single document.
///
/// Takes the metadata file's text, the order file's text, the records of
/// the stored glyph files (in any order), and the UI-state file's text if
/// that file exists; returns exactly the document `spec_merge` gives, or
/// exactly its error.
pub fn unpack(
    fontinfo_code: &Vec<u8>,
    order_code: &Vec<u8>,
    glyphs: &Vec<GlyphRecord>,
    ui_state_code: &Option<Vec<u8>>,
) -> (r: Result<Vec<u8>, Error>)
    ensures
        (match r {
            Ok(out) => spec_merge(
                fontinfo_code@,
                order_code@,
                glyphs_model(glyphs@),
                crate::pack::opt_bytes_model(*ui_state_code),
            ) == Ok::<Seq<u8>, ErrorM>(out@),
            Err(e) => spec_merge(
                fontinfo_code@,
                order_code@,
                glyphs_model(glyphs@),
                crate::pack::opt_bytes_model(*ui_state_code),
            ) == Err::<Seq<u8>, ErrorM>(e.model()),
        }),
{
    let fsl = match crate::plist::parse(Root::Dict, fontinfo_code) {
        Ok(s) => s,
        Err(se) => {
            return Err(Error::Syntax { file: PlistFile::FontInfo, pos: se.pos });
        },
    };
    let fes = match fsl.value {
        Value::Dict(es) => es,
        Value::Array(_) => {
            proof {
                assert(false);
            }
            return Err(Error::NonArrayGlyphs);
        },
        Value::String(_) => {
            proof {
                assert(false);
            }
            return Err(Error::NonArrayGlyphs);
        },
    };
    let osl = match crate::plist::parse(Root::Array, order_code) {
        Ok(s) => s,
        Err(se) => {
            return Err(Error::Syntax { file: PlistFile::Order, pos: se.pos });
        },
    };
    let oelems = match osl.value {
        Value::Array(vs) => vs,
        Value::Dict(_) => {
            proof {
                assert(false);
            }
            return Err(Error::NonArrayGlyphs);
        },
        Value::String(_) => {
            proof {
                assert(false);
            }
            return Err(Error::NonArrayGlyphs);
        },
    };
    proof {
        assert(slices_model(oelems).skip(0) =~= slices_model(oelems));
    }
    let names = match order_names_from(&oelems, 0) {
        Ok(v) => v,
        Err(e) => {
            return Err(e);
        },
    };
    proof {
        assert(vecs_model(names@).skip(0) =~= vecs_model(names@));
    }
    let joined = match join_codes(&names, 0, glyphs) {
        Ok(j) => j,
        Err(e) => {
            return Err(e);
        },
    };
    let kg = key_glyphs_vec();
    let gentry = wrap_entry(&kg, &joined);
    let mut all = fi_pairs_vec(&fes);
    let ghost base0 = all@;
    let gpair = (kg, gentry);
    all.push(gpair);
    let ghost base = fi_pairs(entries_model(fes)) + seq![
        (key_glyphs(), wrap_entry_s(key_glyphs(), joined@)),
    ];
    proof {
        assert(pairs_model(base0).len() == base0.len());
        assert(all@ == base0.push(gpair));
        assert forall|t: int| 0 <= t < all@.len() implies pairs_model(all@)[t] == base[t] by {
            if t < base0.len() {
                assert(all@[t] == base0[t]);
            } else {
                assert(all@[t] == gpair);
            }
        }
        assert(pairs_model(all@) =~= base);
    }
    match ui_state_code {
        None => {
            let sorted = sort_pairs(all);
            let codes = snds_vec(&sorted);
            let out = dict_file_content(&codes);
            Ok(out)
        },
        Some(uc) => {
            let usl = match crate::plist::parse(Root::Dict, uc) {
                Ok(s) => s,
                Err(se) => {
                    return Err(Error::Syntax { file: PlistFile::UiState, pos: se.pos });
                },
            };
            let ues = match usl.value {
                Value::Dict(es) => es,
                Value::Array(_) => {
                    proof {
                        assert(false);
                    }
                    return Err(Error::NonArrayGlyphs);
                },
                Value::String(_) => {
                    proof {
                        assert(false);
                    }
                    return Err(Error::NonArrayGlyphs);
                },
            };
            let ups = ui_pairs_vec(&ues);
            let ghost allv = all@;
            let ghost upsv = ups@;
            let mut all2 = all;
            let mut ups2 = ups;
            all2.append(&mut ups2);
            proof {
                lemma_pairs_model_concat(allv, upsv);
                assert(all2@ == allv + upsv);
            }
            let sorted = sort_pairs(all2);
            let codes = snds_vec(&sorted);
            let out = dict_file_content(&codes);
            Ok(out)
        },
    }
}

} // verus!

//! Single document → package: partitions the top-level entries of a parsed
//! standalone document into the metadata, order, UI-state and per-glyph
//! parts of the directory layout.

use vstd::prelude::*;

use crate::bytes::bytes_eq;
use crate::bytes::clone_bytes;
use crate::error::Error;
use crate::error::ErrorM;
use crate::error::PlistFile;
use crate::keys::key_display_package;
use crate::keys::key_display_package_vec;
use crate::keys::key_display_standalone;
use crate::keys::key_display_standalone_vec;
use crate::keys::key_glyph_name;
use crate::keys::key_glyph_name_vec;
use crate::keys::key_glyphs;
use crate::keys::key_glyphs_vec;
use crate::keys::wrap_entry;
use crate::keys::wrap_entry_s;
use crate::plist::entries_model;
use crate::plist::lemma_vecs_model_concat;
use crate::plist::lemma_vecs_model_prepend;
use crate::plist::slices_model;
use crate::plist::spec_parse;
use crate::plist::vecs_model;
use crate::plist::Entry;
use crate::plist::Root;
use crate::plist::Slice;
use crate::plist::SliceM;
use crate::plist::EntryM;
use crate::plist::Value;
use crate::plist::ValueM;

verus! {

/// One glyph bound for its own file: the glyph's name and the verbatim
/// source text of its dictionary element.
#[derive(Debug)]
pub struct GlyphRecord {
    pub name: Vec<u8>,
    pub code: Vec<u8>,
}

/// The split form of a standalone document: the verbatim entry codes for
/// the metadata file, the glyph names in encounter order, the re-framed
/// UI-state entries (empty when the document has none), and one record per
/// glyph.
#[derive(Debug)]
pub struct Package {
    pub fontinfo: Vec<Vec<u8>>,
    pub order: Vec<Vec<u8>>,
    pub ui_state: Vec<Vec<u8>>,
    pub glyphs: Vec<GlyphRecord>,
}

/// Mathematical model of a `Package`.
#[verifier::ext_equal]
pub struct PackageM {
    pub fontinfo: Seq<Seq<u8>>,
    pub order: Seq<Seq<u8>>,
    pub ui_state: Seq<Seq<u8>>,
    pub glyphs: Seq<(Seq<u8>, Seq<u8>)>,
}

/// Model of a sequence of glyph records.
pub open spec fn glyphs_model(gs: Seq<GlyphRecord>) -> Seq<(Seq<u8>, Seq<u8>)> {
    Seq::new(gs.len(), |i: int| (gs[i].name@, gs[i].code@))
}

impl Package {
    pub open spec fn model(&self) -> PackageM {
        PackageM {
            fontinfo: vecs_model(self.fontinfo@),
            order: vecs_model(self.order@),
            ui_state: vecs_model(self.ui_state@),
            glyphs: glyphs_model(self.glyphs@),
        }
    }
}

pub open spec fn empty_package() -> PackageM {
    PackageM {
        fontinfo: Seq::<Seq<u8>>::empty(),
        order: Seq::<Seq<u8>>::empty(),
        ui_state: Seq::<Seq<u8>>::empty(),
        glyphs: Seq::<(Seq<u8>, Seq<u8>)>::empty(),
    }
}

pub open spec fn opt_bytes_model(o: Option<Vec<u8>>) -> Option<Seq<u8>> {
    match o {
        Some(v) => Some(v@),
        None => None,
    }
}

/// The glyph name a glyph dictionary declares: entries are scanned in
/// order, a later `glyphname` string overrides an earlier one, any
/// non-string `glyphname` is fatal, and a dictionary without one is fatal.
pub open spec fn spec_glyph_name_last(pairs: Seq<EntryM>, acc: Option<Seq<u8>>) -> Result<
    Seq<u8>,
    ErrorM,
>
    decreases pairs.len(),
{
    if pairs.len() == 0 {
        match acc {
            Some(n) => Ok(n),
            None => Err(ErrorM::MissingGlyphName),
        }
    } else if pairs[0].key == key_glyph_name() {
        match pairs[0].value.value {
            ValueM::Text(n) => spec_glyph_name_last(pairs.drop_first(), Some(n)),
            _ => Err(ErrorM::NonStringGlyphName),
        }
    } else {
        spec_glyph_name_last(pairs.drop_first(), acc)
    }
}

/// The `(name, code)` records of the glyph array's elements, in order.
/// Every element must be a dictionary that declares a glyph name.
pub open spec fn spec_glyph_records(elems: Seq<SliceM>) -> Result<Seq<(Seq<u8>, Seq<u8>)>, ErrorM>
    decreases elems.len(),
{
    if elems.len() == 0 {
        Ok(Seq::<(Seq<u8>, Seq<u8>)>::empty())
    } else {
        match elems[0].value {
            ValueM::Dict(pairs) => match spec_glyph_name_last(pairs, None) {
                Err(x) => Err(x),
                Ok(name) => match spec_glyph_records(elems.drop_first()) {
                    Err(x) => Err(x),
                    Ok(rest) => Ok(seq![(name, elems[0].code)] + rest),
                },
            },
            _ => Err(ErrorM::NonDictGlyph),
        }
    }
}

/// The names of a sequence of glyph records, in order.
pub open spec fn names_of(grs: Seq<(Seq<u8>, Seq<u8>)>) -> Seq<Seq<u8>> {
    Seq::new(grs.len(), |i: int| grs[i].0)
}

/// How the top-level entries of a standalone document split into the
/// package: a `DisplayStrings` entry is re-framed under the package key
/// into the UI-state bucket, a `glyphs` entry expands into the order list
/// and the per-glyph records, and every other entry's verbatim code goes to
/// the metadata bucket; encounter order is kept within each bucket, and the
/// first violation in document order is the error.
pub open spec fn spec_split(entries: Seq<EntryM>) -> Result<PackageM, ErrorM>
    decreases entries.len(),
{
    if entries.len() == 0 {
        Ok(empty_package())
    } else {
        let e = entries[0];
        if e.key == key_display_standalone() {
            match spec_split(entries.drop_first()) {
                Err(x) => Err(x),
                Ok(r) => Ok(
                    PackageM {
                        fontinfo: r.fontinfo,
                        order: r.order,
                        ui_state: seq![wrap_entry_s(key_display_package(), e.value.code)]
                            + r.ui_state,
                        glyphs: r.glyphs,
                    },
                ),
            }
        } else if e.key == key_glyphs() {
            match e.value.value {
                ValueM::Array(elems) => match spec_glyph_records(elems) {
                    Err(x) => Err(x),
                    Ok(grs) => match spec_split(entries.drop_first()) {
                        Err(x) => Err(x),
                        Ok(r) => Ok(
                            PackageM {
                                fontinfo: r.fontinfo,
                                order: names_of(grs) + r.order,
                                ui_state: r.ui_state,
                                glyphs: grs + r.glyphs,
                            },
                        ),
                    },
                },
                _ => Err(ErrorM::NonArrayGlyphs),
            }
        } else {
            match spec_split(entries.drop_first()) {
                Err(x) => Err(x),
                Ok(r) => Ok(
                    PackageM {
                        fontinfo: seq![e.code] + r.fontinfo,
                        order: r.order,
                        ui_state: r.ui_state,
                        glyphs: r.glyphs,
                    },
                ),
            }
        }
    }
}

proof fn lemma_glyphs_model_prepend(v_new: Seq<GlyphRecord>, v_old: Seq<GlyphRecord>, x: GlyphRecord)
    requires
        v_new == v_old.insert(0, x),
    ensures
        glyphs_model(v_new) == seq![(x.name@, x.code@)] + glyphs_model(v_old),
{
    assert(glyphs_model(v_new) =~= seq![(x.name@, x.code@)] + glyphs_model(v_old)) by {
        assert forall|i: int| 0 <= i < v_new.len() implies glyphs_model(v_new)[i] == (seq![
            (x.name@, x.code@),
        ] + glyphs_model(v_old))[i] by {
            if i == 0 {
                assert(v_new[0] == x);
            } else {
                assert(v_new[i] == v_old[i - 1]);
            }
        }
    }
}

proof fn lemma_glyphs_model_concat(a: Seq<GlyphRecord>, b: Seq<GlyphRecord>)
    ensures
        glyphs_model(a + b) == glyphs_model(a) + glyphs_model(b),
{
    assert(glyphs_model(a + b) =~= glyphs_model(a) + glyphs_model(b)) by {
        assert forall|i: int| 0 <= i < a.len() + b.len() implies glyphs_model(a + b)[i] == (
        glyphs_model(a) + glyphs_model(b))[i] by {
            if i < a.len() {
                assert((a + b)[i] == a[i]);
            } else {
                assert((a + b)[i] == b[i - a.len()]);
            }
        }
    }
}

/// Scans a glyph dictionary for its `glyphname`, later entries overriding
/// earlier ones, as `spec_glyph_name_last` says.
fn glyph_name_from(pairs: &Vec<Entry>, i: usize, acc: Option<Vec<u8>>) -> (r: Result<
    Vec<u8>,
    Error,
>)
    requires
        i <= pairs@.len(),
    ensures
        (match r {
            Ok(n) => spec_glyph_name_last(entries_model(*pairs).skip(i as int), opt_bytes_model(acc))
                == Ok::<Seq<u8>, ErrorM>(n@),
            Err(e) => spec_glyph_name_last(
                entries_model(*pairs).skip(i as int),
                opt_bytes_model(acc),
            ) == Err::<Seq<u8>, ErrorM>(e.model()),
        }),
    decreases pairs@.len() - i,
{
    proof {
        if i < pairs@.len() {
            assert(entries_model(*pairs).skip(i as int).drop_first() =~= entries_model(
                *pairs,
            ).skip(i as int + 1));
            assert(entries_model(*pairs).skip(i as int)[0] == entries_model(*pairs)[i as int]);
        } else {
            assert(entries_model(*pairs).skip(i as int) =~= Seq::<EntryM>::empty());
        }
    }
    if i == pairs.len() {
        match acc {
            Some(n) => Ok(n),
            None => Err(Error::MissingGlyphName),
        }
    } else {
        let p = &pairs[i];
        let kgn = key_glyph_name_vec();
        if bytes_eq(&p.key, &kgn) {
            match &p.value.value {
                Value::String(n) => {
                    let nn = clone_bytes(n);
                    glyph_name_from(pairs, i + 1, Some(nn))
                },
                Value::Dict(_) => Err(Error::NonStringGlyphName),
                Value::Array(_) => Err(Error::NonStringGlyphName),
            }
        } else {
            glyph_name_from(pairs, i + 1, acc)
        }
    }
}

/// Collects the `(name, code)` record of each glyph element, as
/// `spec_glyph_records` says.
fn glyph_records_from(elems: &Vec<Slice>, i: usize) -> (r: Result<Vec<GlyphRecord>, Error>)
    requires
        i <= elems@.len(),
    ensures
        (match r {
            Ok(v) => spec_glyph_records(slices_model(*elems).skip(i as int)) == Ok::<
                Seq<(Seq<u8>, Seq<u8>)>,
                ErrorM,
            >(glyphs_model(v@)),
            Err(e) => spec_glyph_records(slices_model(*elems).skip(i as int)) == Err::<
                Seq<(Seq<u8>, Seq<u8>)>,
                ErrorM,
            >(e.model()),
        }),
    decreases elems@.len() - i,
{
    proof {
        if i < elems@.len() {
            assert(slices_model(*elems).skip(i as int).drop_first() =~= slices_model(*elems).skip(
                i as int + 1,
            ));
            assert(slices_model(*elems).skip(i as int)[0] == slices_model(*elems)[i as int]);
        } else {
            assert(slices_model(*elems).skip(i as int) =~= Seq::<SliceM>::empty());
        }
    }
    if i == elems.len() {
        let v: Vec<GlyphRecord> = Vec::new();
        proof {
            assert(glyphs_model(v@) =~= Seq::<(Seq<u8>, Seq<u8>)>::empty());
        }
        return Ok(v);
    }
    let el = &elems[i];
    match &el.value {
        Value::Dict(pairs) => {
            proof {
                assert(entries_model(*pairs).skip(0) =~= entries_model(*pairs));
            }
            let name = match glyph_name_from(pairs, 0, None) {
                Ok(n) => n,
                Err(e) => {
                    return Err(e);
                },
            };
            let code = clone_bytes(&el.code);
            let mut rest = match glyph_records_from(elems, i + 1) {
                Ok(v) => v,
                Err(e) => {
                    return Err(e);
                },
            };
            let ghost rest0 = rest;
            let rec = GlyphRecord { name, code };
            rest.insert(0, rec);
            proof {
                lemma_glyphs_model_prepend(rest@, rest0@, rec);
            }
            Ok(rest)
        },
        Value::Array(_) => Err(Error::NonDictGlyph),
        Value::String(_) => Err(Error::NonDictGlyph),
    }
}

/// Splits the entries from index `i` on, as `spec_split` says.
fn split_from(es: &Vec<Entry>, i: usize) -> (r: Result<Package, Error>)
    requires
        i <= es@.len(),
    ensures
        (match r {
            Ok(p) => spec_split(entries_model(*es).skip(i as int)) == Ok::<PackageM, ErrorM>(
                p.model(),
            ),
            Err(e) => spec_split(entries_model(*es).skip(i as int)) == Err::<PackageM, ErrorM>(
                e.model(),
            ),
        }),
    decreases es@.len() - i,
{
    proof {
        if i < es@.len() {
            assert(entries_model(*es).skip(i as int).drop_first() =~= entries_model(*es).skip(
                i as int + 1,
            ));
            assert(entries_model(*es).skip(i as int)[0] == entries_model(*es)[i as int]);
        } else {
            assert(entries_model(*es).skip(i as int) =~= Seq::<EntryM>::empty());
        }
    }
    if i == es.len() {
        let p = Package {
            fontinfo: Vec::new(),
            order: Vec::new(),
            ui_state: Vec::new(),
            glyphs: Vec::new(),
        };
        proof {
            assert(p.model() =~= empty_package());
        }
        return Ok(p);
    }
    let e = &es[i];
    let kds = key_display_standalone_vec();
    let kg = key_glyphs_vec();
    if bytes_eq(&e.key, &kds) {
        let kdp = key_display_package_vec();
        let w = wrap_entry(&kdp, &e.value.code);
        let mut r = match split_from(es, i + 1) {
            Ok(p) => p,
            Err(x) => {
                return Err(x);
            },
        };
        let ghost r0 = r;
        let ghost ui0 = r.ui_state@;
        r.ui_state.insert(0, w);
        proof {
            lemma_vecs_model_prepend(r.ui_state@, ui0, w);
            assert(r.model() =~= PackageM {
                fontinfo: r0.model().fontinfo,
                order: r0.model().order,
                ui_state: seq![w@] + r0.model().ui_state,
                glyphs: r0.model().glyphs,
            });
        }
        Ok(r)
    } else if bytes_eq(&e.key, &kg) {
        match &e.value.value {
            Value::Array(elems) => {
                proof {
                    assert(slices_model(*elems).skip(0) =~= slices_model(*elems));
                }
                let grs = match glyph_records_from(elems, 0) {
                    Ok(v) => v,
                    Err(x) => {
                        return Err(x);
                    },
                };
                let r = match split_from(es, i + 1) {
                    Ok(p) => p,
                    Err(x) => {
                        return Err(x);
                    },
                };
                let ghost grsm = glyphs_model(grs@);
                let ghost rm = r.model();
                let mut names: Vec<Vec<u8>> = Vec::new();
                let gn: usize = grs.len();
                let mut t: usize = 0;
                proof {
                    assert(vecs_model(names@) =~= names_of(grsm).take(0));
                }
                while t < gn
                    invariant
                        gn == grs@.len(),
                        t <= gn,
                        grsm == glyphs_model(grs@),
                        vecs_model(names@) == names_of(grsm).take(t as int),
                    decreases gn - t,
                {
                    let nm = clone_bytes(&grs[t].name);
                    let ghost n0 = names@;
                    names.push(nm);
                    proof {
                        assert(vecs_model(n0).len() == n0.len());
                        assert(names_of(grsm).take(t as int).len() == t as int);
                        assert(n0.len() == t as int);
                        assert(names@ == n0.push(nm));
                        assert forall|k: int| 0 <= k < t as int + 1 implies vecs_model(names@)[k]
                            == names_of(grsm).take(t as int + 1)[k] by {
                            if k < t as int {
                                assert(names@[k] == n0[k]);
                                assert(vecs_model(n0)[k] == names_of(grsm).take(t as int)[k]);
                            } else {
                                assert(names@[k] == nm);
                                assert(names_of(grsm)[k] == grsm[k].0);
                            }
                        }
                        assert(vecs_model(names@) =~= names_of(grsm).take(t as int + 1));
                    }
                    t = t + 1;
                }
                proof {
                    assert(names_of(grsm).take(gn as int) =~= names_of(grsm));
                }
                let Package { fontinfo: rf, order: mut ro, ui_state: ru, glyphs: mut rg } = r;
                let ghost namesv = names@;
                let ghost rov = ro@;
                let ghost rgv = rg@;
                let ghost grsv = grs@;
                let mut order = names;
                order.append(&mut ro);
                let mut glyphs_all = grs;
                glyphs_all.append(&mut rg);
                let p = Package { fontinfo: rf, order, ui_state: ru, glyphs: glyphs_all };
                proof {
                    lemma_vecs_model_concat(namesv, rov);
                    lemma_glyphs_model_concat(grsv, rgv);
                    assert(order@ == namesv + rov);
                    assert(glyphs_all@ == grsv + rgv);
                    assert(p.model() =~= PackageM {
                        fontinfo: rm.fontinfo,
                        order: names_of(grsm) + rm.order,
                        ui_state: rm.ui_state,
                        glyphs: grsm + rm.glyphs,
                    });
                }
                Ok(p)
            },
            Value::Dict(_) => Err(Error::NonArrayGlyphs),
            Value::String(_) => Err(Error::NonArrayGlyphs),
        }
    } else {
        let c = clone_bytes(&e.code);
        let mut r = match split_from(es, i + 1) {
            Ok(p) => p,
            Err(x) => {
                return Err(x);
            },
        };
        let ghost r0 = r;
        let ghost fi0 = r.fontinfo@;
        r.fontinfo.insert(0, c);
        proof {
            lemma_vecs_model_prepend(r.fontinfo@, fi0, c);
            assert(r.model() =~= PackageM {
                fontinfo: seq![c@] + r0.model().fontinfo,
                order: r0.model().order,
                ui_state: r0.model().ui_state,
                glyphs: r0.model().glyphs,
            });
        }
        Ok(r)
    }
}

/// Parses a standalone document and splits it into its package parts.
///
/// Succeeds exactly when the text parses as a dictionary and `spec_split`
/// accepts its entries; the result is then precisely the split that
/// `spec_split` gives, and the error otherwise is precisely the one it
/// gives, with syntax failures tagged as the standalone file.
pub fn pack(code: &Vec<u8>) -> (r: Result<Package, Error>)
    ensures
        (match r {
            Ok(p) => match spec_parse(Root::Dict, code@) {
                Some(sl) => match sl.value {
                    ValueM::Dict(es) => spec_split(es) == Ok::<PackageM, ErrorM>(p.model()),
                    _ => false,
                },
                None => false,
            },
            Err(e) => match spec_parse(Root::Dict, code@) {
                Some(sl) => match sl.value {
                    ValueM::Dict(es) => spec_split(es) == Err::<PackageM, ErrorM>(e.model()),
                    _ => false,
                },
                None => e.model() == (ErrorM::Syntax { file: PlistFile::Standalone }),
            },
        }),
{
    let sl = match crate::plist::parse(Root::Dict, code) {
        Ok(s) => s,
        Err(se) => {
            return Err(Error::Syntax { file: PlistFile::Standalone, pos: se.pos });
        },
    };
    match sl.value {
        Value::Dict(es) => {
            proof {
                assert(entries_model(es).skip(0) =~= entries_model(es));
            }
            split_from(&es, 0)
        },
        Value::Array(_) => {
            proof {
                assert(false);
            }
            Err(Error::NonArrayGlyphs)
        },
        Value::String(_) => {
            proof {
                assert(false);
            }
            Err(Error::NonArrayGlyphs)
        },
    }
}

} // verus!

//! The conversion's cross-function guarantees, stated and proved once over
//! the spec functions that the public contracts speak of.

use vstd::prelude::*;

use crate::error::ErrorM;
use crate::keys::key_display_package;
use crate::keys::key_display_standalone;
use crate::keys::key_glyph_name;
use crate::keys::key_glyphs;
use crate::keys::wrap_entry_s;
use crate::pack::empty_package;
use crate::pack::spec_glyph_name_last;
use crate::pack::spec_split;
use crate::pack::PackageM;
use crate::plist::EntryM;
use crate::unpack::fi_pairs;
use crate::unpack::insert_sorted;
use crate::unpack::lex_lt;
use crate::unpack::merge_base;
use crate::unpack::spec_glyph_name_first;
use crate::unpack::spec_join;
use crate::unpack::spec_lookup;
use crate::unpack::spec_merge_pairs;
use crate::unpack::spec_sort;
use crate::unpack::spec_ui_pairs;

verus! {

/// Adjacent pairs are in non-decreasing ordinal key order.
pub open spec fn sorted_by_key(s: Seq<(Seq<u8>, Seq<u8>)>) -> bool {
    forall|i: int, j: int|
        0 <= i && j == i + 1 && j < s.len() ==> !lex_lt((#[trigger] s[j]).0, (#[trigger] s[i]).0)
}

/// How many times the pair `p` occurs in `s`.
pub open spec fn count_pair(s: Seq<(Seq<u8>, Seq<u8>)>, p: (Seq<u8>, Seq<u8>)) -> nat
    decreases s.len(),
{
    if s.len() == 0 {
        0
    } else {
        (count_pair(s.drop_first(), p) + (if s[0] == p {
            1nat
        } else {
            0nat
        })) as nat
    }
}

/// `a` and `b` hold the same pairs, each the same number of times: one is a
/// permutation of the other.
pub open spec fn same_records(a: Seq<(Seq<u8>, Seq<u8>)>, b: Seq<(Seq<u8>, Seq<u8>)>) -> bool {
    forall|p: (Seq<u8>, Seq<u8>)| count_pair(a, p) == count_pair(b, p)
}

/// No two records share a glyph name.
pub open spec fn unique_names(gs: Seq<(Seq<u8>, Seq<u8>)>) -> bool {
    forall|i: int, j: int| 0 <= i < j < gs.len() ==> (#[trigger] gs[i]).0 != (#[trigger] gs[j]).0
}

proof fn lemma_lex_asym(a: Seq<u8>, b: Seq<u8>)
    requires
        lex_lt(a, b),
    ensures
        !lex_lt(b, a),
    decreases a.len(),
{
    if a.len() > 0 && b.len() > 0 && a[0] == b[0] {
        lemma_lex_asym(a.drop_first(), b.drop_first());
    }
}

proof fn lemma_insert_len(x: (Seq<u8>, Seq<u8>), s: Seq<(Seq<u8>, Seq<u8>)>)
    ensures
        insert_sorted(x, s).len() == s.len() + 1,
    decreases s.len(),
{
    if s.len() > 0 && !lex_lt(x.0, s[0].0) {
        lemma_insert_len(x, s.drop_first());
    }
}

proof fn lemma_insert_first(x: (Seq<u8>, Seq<u8>), s: Seq<(Seq<u8>, Seq<u8>)>)
    ensures
        insert_sorted(x, s)[0] == (if s.len() > 0 && !lex_lt(x.0, s[0].0) {
            s[0]
        } else {
            x
        }),
{
    if s.len() == 0 {
        assert(insert_sorted(x, s) == seq![x]);
    } else if lex_lt(x.0, s[0].0) {
        assert((seq![x] + s)[0] == x);
    } else {
        assert((seq![s[0]] + insert_sorted(x, s.drop_first()))[0] == s[0]);
    }
}

proof fn lemma_insert_preserves_sorted(x: (Seq<u8>, Seq<u8>), s: Seq<(Seq<u8>, Seq<u8>)>)
    requires
        sorted_by_key(s),
    ensures
        sorted_by_key(insert_sorted(x, s)),
    decreases s.len(),
{
    lemma_insert_len(x, s);
    if s.len() == 0 {
        assert(sorted_by_key(insert_sorted(x, s)));
    } else if lex_lt(x.0, s[0].0) {
        let r = seq![x] + s;
        lemma_lex_asym(x.0, s[0].0);
        assert forall|i: int, j: int| 0 <= i && j == i + 1 && j < r.len() implies !lex_lt(
            (#[trigger] r[j]).0,
            (#[trigger] r[i]).0,
        ) by {
            if i == 0 {
                assert(r[0] == x);
                assert(r[1] == s[0]);
            } else {
                assert(r[i] == s[i - 1]);
                assert(r[j] == s[j - 1]);
            }
        }
    } else {
        let st = s.drop_first();
        assert forall|i: int, j: int| 0 <= i && j == i + 1 && j < st.len() implies !lex_lt(
            (#[trigger] st[j]).0,
            (#[trigger] st[i]).0,
        ) by {
            assert(st[i] == s[i + 1]);
            assert(st[j] == s[j + 1]);
        }
        lemma_insert_preserves_sorted(x, st);
        lemma_insert_len(x, st);
        lemma_insert_first(x, st);
        let ins = insert_sorted(x, st);
        let r = seq![s[0]] + ins;
        assert forall|i: int, j: int| 0 <= i && j == i + 1 && j < r.len() implies !lex_lt(
            (#[trigger] r[j]).0,
            (#[trigger] r[i]).0,
        ) by {
            if i == 0 {
                assert(r[0] == s[0]);
                assert(r[1] == ins[0]);
                if st.len() > 0 && !lex_lt(x.0, st[0].0) {
                    assert(ins[0] == st[0]);
                    assert(st[0] == s[1]);
                } else {
                    assert(ins[0] == x);
                }
            } else {
                assert(r[i] == ins[i - 1]);
                assert(r[j] == ins[j - 1]);
            }
        }
    }
}

/// The merged document's entries come out in non-decreasing ordinal key
/// order: the re-sort is exactly byte-wise string comparison.
pub proof fn lemma_sort_sorted(s: Seq<(Seq<u8>, Seq<u8>)>)
    ensures
        sorted_by_key(spec_sort(s)),
    decreases s.len(),
{
    if s.len() == 0 {
        assert(sorted_by_key(spec_sort(s)));
    } else {
        lemma_sort_sorted(s.drop_last());
        lemma_insert_preserves_sorted(s.last(), spec_sort(s.drop_last()));
    }
}

proof fn lemma_count_empty(p: (Seq<u8>, Seq<u8>))
    ensures
        count_pair(Seq::<(Seq<u8>, Seq<u8>)>::empty(), p) == 0,
{
}

proof fn lemma_lex_le_trans(a: Seq<u8>, b: Seq<u8>, c: Seq<u8>)
    requires
        !lex_lt(b, a),
        !lex_lt(c, b),
    ensures
        !lex_lt(c, a),
    decreases a.len(),
{
    if c.len() == 0 {
        if a.len() > 0 {
            assert(b.len() == 0);
            assert(lex_lt(b, a));
            assert(false);
        }
    } else if a.len() == 0 {
    } else {
        assert(b.len() > 0);
        if c[0] == a[0] {
            assert(a[0] == b[0] && b[0] == c[0]);
            lemma_lex_le_trans(a.drop_first(), b.drop_first(), c.drop_first());
        }
    }
}

proof fn lemma_lex_irrefl(a: Seq<u8>)
    ensures
        !lex_lt(a, a),
    decreases a.len(),
{
    if a.len() > 0 {
        lemma_lex_irrefl(a.drop_first());
    }
}

proof fn lemma_sorted_span(s: Seq<(Seq<u8>, Seq<u8>)>, i: int, j: int)
    requires
        sorted_by_key(s),
        0 <= i <= j < s.len(),
    ensures
        !lex_lt(s[j].0, s[i].0),
    decreases j - i,
{
    if i == j {
        lemma_lex_irrefl(s[i].0);
    } else {
        lemma_sorted_span(s, i, j - 1);
        assert(!lex_lt(s[j].0, s[j - 1].0));
        lemma_lex_le_trans(s[i].0, s[j - 1].0, s[j].0);
    }
}

/// Adjacent order extends to every pair: in a sorted list, no later key is
/// ordinally smaller than an earlier one.
pub proof fn lemma_sorted_global(s: Seq<(Seq<u8>, Seq<u8>)>)
    requires
        sorted_by_key(s),
    ensures
        forall|i: int, j: int| 0 <= i <= j < s.len() ==> !lex_lt((#[trigger] s[j]).0, (#[trigger] s[i]).0),
{
    assert forall|i: int, j: int| 0 <= i <= j < s.len() implies !lex_lt(
        (#[trigger] s[j]).0,
        (#[trigger] s[i]).0,
    ) by {
        lemma_sorted_span(s, i, j);
    }
}

proof fn lemma_count_concat(a: Seq<(Seq<u8>, Seq<u8>)>, b: Seq<(Seq<u8>, Seq<u8>)>, p: (
    Seq<u8>,
    Seq<u8>,
))
    ensures
        count_pair(a + b, p) == count_pair(a, p) + count_pair(b, p),
    decreases a.len(),
{
    if a.len() == 0 {
        assert(a + b =~= b);
    } else {
        lemma_count_concat(a.drop_first(), b, p);
        assert((a + b).drop_first() =~= a.drop_first() + b);
        assert((a + b)[0] == a[0]);
    }
}

proof fn lemma_count_insert(x: (Seq<u8>, Seq<u8>), s: Seq<(Seq<u8>, Seq<u8>)>, p: (Seq<u8>, Seq<u8>))
    ensures
        count_pair(insert_sorted(x, s), p) == count_pair(s, p) + (if p == x {
            1nat
        } else {
            0nat
        }),
    decreases s.len(),
{
    if s.len() == 0 {
        assert(seq![x].drop_first() =~= Seq::<(Seq<u8>, Seq<u8>)>::empty());
        lemma_count_empty(p);
        assert(count_pair(seq![x], p) == (if p == x {
            1nat
        } else {
            0nat
        }));
    } else if lex_lt(x.0, s[0].0) {
        lemma_count_concat(seq![x], s, p);
        assert(seq![x].drop_first() =~= Seq::<(Seq<u8>, Seq<u8>)>::empty());
        lemma_count_empty(p);
        assert(count_pair(seq![x], p) == (if p == x {
            1nat
        } else {
            0nat
        }));
    } else {
        lemma_count_insert(x, s.drop_first(), p);
        lemma_count_concat(seq![s[0]], insert_sorted(x, s.drop_first()), p);
        assert(seq![s[0]].drop_first() =~= Seq::<(Seq<u8>, Seq<u8>)>::empty());
        lemma_count_empty(p);
        assert(count_pair(seq![s[0]], p) == (if p == s[0] {
            1nat
        } else {
            0nat
        }));
    }
}

proof fn lemma_count_drop_last(s: Seq<(Seq<u8>, Seq<u8>)>, p: (Seq<u8>, Seq<u8>))
    requires
        s.len() > 0,
    ensures
        count_pair(s, p) == count_pair(s.drop_last(), p) + (if s.last() == p {
            1nat
        } else {
            0nat
        }),
    decreases s.len(),
{
    if s.len() == 1 {
        assert(s.drop_last() =~= Seq::<(Seq<u8>, Seq<u8>)>::empty());
        assert(s.drop_first() =~= Seq::<(Seq<u8>, Seq<u8>)>::empty());
        assert(s.last() == s[0]);
    } else {
        lemma_count_drop_last(s.drop_first(), p);
        assert(s.drop_first().last() == s.last());
        assert(s.drop_first().drop_last() =~= s.drop_last().drop_first());
        assert(s.drop_last()[0] == s[0]);
    }
}

/// The re-sort only reorders: the sorted list holds exactly the pairs of
/// its input, with multiplicity.
pub proof fn lemma_sort_permutes(s: Seq<(Seq<u8>, Seq<u8>)>)
    ensures
        same_records(spec_sort(s), s),
    decreases s.len(),
{
    if s.len() == 0 {
        assert(same_records(spec_sort(s), s));
    } else {
        lemma_sort_permutes(s.drop_last());
        assert forall|p: (Seq<u8>, Seq<u8>)| count_pair(spec_sort(s), p) == count_pair(s, p) by {
            lemma_count_insert(s.last(), spec_sort(s.drop_last()), p);
            lemma_count_drop_last(s, p);
        }
    }
}

proof fn lemma_count_index(s: Seq<(Seq<u8>, Seq<u8>)>, k: int)
    requires
        0 <= k < s.len(),
    ensures
        count_pair(s, s[k]) > 0,
    decreases s.len(),
{
    if k > 0 {
        lemma_count_index(s.drop_first(), k - 1);
        assert(s.drop_first()[k - 1] == s[k]);
    }
}

proof fn lemma_count_has_index(s: Seq<(Seq<u8>, Seq<u8>)>, p: (Seq<u8>, Seq<u8>))
    requires
        count_pair(s, p) > 0,
    ensures
        exists|k: int| 0 <= k < s.len() && s[k] == p,
    decreases s.len(),
{
    if s[0] == p {
        assert(0 <= 0 < s.len() && s[0] == p);
    } else {
        lemma_count_has_index(s.drop_first(), p);
        let k0 = choose|k: int| 0 <= k < s.drop_first().len() && s.drop_first()[k] == p;
        assert(s[k0 + 1] == p);
    }
}

proof fn lemma_lookup_none_absent(gs: Seq<(Seq<u8>, Seq<u8>)>, n: Seq<u8>)
    requires
        spec_lookup(gs, n) is None,
    ensures
        forall|k: int| 0 <= k < gs.len() ==> (#[trigger] gs[k]).0 != n,
    decreases gs.len(),
{
    if gs.len() > 0 {
        lemma_lookup_none_absent(gs.drop_first(), n);
        assert forall|k: int| 0 <= k < gs.len() implies (#[trigger] gs[k]).0 != n by {
            if k > 0 {
                assert(gs[k] == gs.drop_first()[k - 1]);
            }
        }
    }
}

proof fn lemma_lookup_found(gs: Seq<(Seq<u8>, Seq<u8>)>, p: (Seq<u8>, Seq<u8>))
    requires
        unique_names(gs),
        exists|k: int| 0 <= k < gs.len() && gs[k] == p,
    ensures
        spec_lookup(gs, p.0) == Some(p.1),
    decreases gs.len(),
{
    let k0 = choose|k: int| 0 <= k < gs.len() && gs[k] == p;
    if gs[0].0 == p.0 {
        if k0 != 0 {
            assert(gs[0].0 != gs[k0].0);
            assert(false);
        }
    } else {
        assert(k0 > 0);
        let gt = gs.drop_first();
        assert(unique_names(gt)) by {
            assert(forall|k: int| 0 <= k < gt.len() ==> #[trigger] gt[k] == gs[k + 1]);
        }
        assert(gt[k0 - 1] == p);
        lemma_lookup_found(gt, p);
    }
}

proof fn lemma_lookup_some_has(gs: Seq<(Seq<u8>, Seq<u8>)>, n: Seq<u8>)
    requires
        spec_lookup(gs, n) is Some,
    ensures
        exists|k: int| 0 <= k < gs.len() && gs[k] == (n, spec_lookup(gs, n)->Some_0),
    decreases gs.len(),
{
    if gs[0].0 == n {
        assert(gs[0] == (n, spec_lookup(gs, n)->Some_0));
    } else {
        lemma_lookup_some_has(gs.drop_first(), n);
        let k0 = choose|k: int|
            0 <= k < gs.drop_first().len() && gs.drop_first()[k] == (
            n,
            spec_lookup(gs.drop_first(), n)->Some_0,
            );
        assert(gs[k0 + 1] == (n, spec_lookup(gs, n)->Some_0));
    }
}

proof fn lemma_lookup_same(gs1: Seq<(Seq<u8>, Seq<u8>)>, gs2: Seq<(Seq<u8>, Seq<u8>)>, n: Seq<u8>)
    requires
        unique_names(gs1),
        unique_names(gs2),
        same_records(gs1, gs2),
    ensures
        spec_lookup(gs1, n) == spec_lookup(gs2, n),
{
    match spec_lookup(gs1, n) {
        None => {
            lemma_lookup_none_absent(gs1, n);
            if spec_lookup(gs2, n) is Some {
                lemma_lookup_some_has(gs2, n);
                let k0 = choose|k: int|
                    0 <= k < gs2.len() && gs2[k] == (n, spec_lookup(gs2, n)->Some_0);
                lemma_count_index(gs2, k0);
                assert(count_pair(gs1, gs2[k0]) > 0);
                lemma_count_has_index(gs1, gs2[k0]);
                let j = choose|j: int| 0 <= j < gs1.len() && gs1[j] == gs2[k0];
                assert(gs1[j].0 == n);
                assert(false);
            }
        },
        Some(c) => {
            lemma_lookup_some_has(gs1, n);
            let k0 = choose|k: int| 0 <= k < gs1.len() && gs1[k] == (n, c);
            lemma_count_index(gs1, k0);
            assert(count_pair(gs2, (n, c)) > 0);
            lemma_count_has_index(gs2, (n, c));
            lemma_lookup_found(gs2, (n, c));
        },
    }
}

proof fn lemma_join_same(
    names: Seq<Seq<u8>>,
    gs1: Seq<(Seq<u8>, Seq<u8>)>,
    gs2: Seq<(Seq<u8>, Seq<u8>)>,
)
    requires
        unique_names(gs1),
        unique_names(gs2),
        same_records(gs1, gs2),
    ensures
        spec_join(names, gs1) == spec_join(names, gs2),
    decreases names.len(),
{
    if names.len() > 0 {
        lemma_lookup_same(gs1, gs2, names[0]);
        lemma_join_same(names.drop_first(), gs1, gs2);
    }
}

/// Glyph order fidelity: the merged document does not depend on the order
/// in which storage listed the glyph files. Two listings of the same
/// records — permutations of one another, neither with a duplicate name —
/// merge to identical results; the glyph sequence is fixed by the order
/// list alone.
pub proof fn lemma_storage_order_irrelevant(
    fes: Seq<EntryM>,
    oelems: Seq<crate::plist::SliceM>,
    gs1: Seq<(Seq<u8>, Seq<u8>)>,
    gs2: Seq<(Seq<u8>, Seq<u8>)>,
    ui: Option<Seq<EntryM>>,
)
    requires
        unique_names(gs1),
        unique_names(gs2),
        same_records(gs1, gs2),
    ensures
        spec_merge_pairs(fes, oelems, gs1, ui) == spec_merge_pairs(fes, oelems, gs2, ui),
{
    match crate::unpack::spec_order_names(oelems) {
        Err(_) => {
        },
        Ok(names) => {
            lemma_join_same(names, gs1, gs2);
        },
    }
}

/// The codes of a sequence of entries, in order.
pub open spec fn entry_codes(entries: Seq<EntryM>) -> Seq<Seq<u8>> {
    Seq::new(entries.len(), |i: int| entries[i].code)
}

/// Splitting a pure-metadata document — no `glyphs` entry, no
/// `DisplayStrings` entry — succeeds and carries every entry's verbatim
/// code, in order, to the metadata bucket, with the other three parts
/// empty.
pub proof fn lemma_split_metadata(entries: Seq<EntryM>)
    requires
        forall|k: int|
            0 <= k < entries.len() ==> (#[trigger] entries[k]).key != key_glyphs() && entries[k].key
                != key_display_standalone(),
    ensures
        spec_split(entries) == Ok::<PackageM, ErrorM>(
            PackageM {
                fontinfo: entry_codes(entries),
                order: Seq::<Seq<u8>>::empty(),
                ui_state: Seq::<Seq<u8>>::empty(),
                glyphs: Seq::<(Seq<u8>, Seq<u8>)>::empty(),
            },
        ),
    decreases entries.len(),
{
    if entries.len() == 0 {
        assert(entry_codes(entries) =~= Seq::<Seq<u8>>::empty());
        assert(spec_split(entries) == Ok::<PackageM, ErrorM>(empty_package()));
        assert(empty_package() =~= PackageM {
            fontinfo: entry_codes(entries),
            order: Seq::<Seq<u8>>::empty(),
            ui_state: Seq::<Seq<u8>>::empty(),
            glyphs: Seq::<(Seq<u8>, Seq<u8>)>::empty(),
        });
    } else {
        let tail = entries.drop_first();
        assert(forall|k: int| 0 <= k < tail.len() ==> #[trigger] tail[k] == entries[k + 1]);
        lemma_split_metadata(tail);
        assert(entry_codes(entries) =~= seq![entries[0].code] + entry_codes(tail));
    }
}

/// Round trip on metadata: split a pure-metadata document, write its codes
/// to the metadata file, and merge the package that results (empty order,
/// no stored glyphs, no UI state). Provided the metadata file hands back
/// entries with the same keys and codes — `fes` — the merged document is
/// the dictionary rendering of exactly the input entry codes plus one
/// synthetic empty `glyphs` entry, re-sorted stably by ordinal key
/// comparison: a permutation of the input pairs, in sorted key order.
pub proof fn lemma_metadata_round_trip(entries: Seq<EntryM>, fes: Seq<EntryM>)
    requires
        forall|k: int|
            0 <= k < entries.len() ==> (#[trigger] entries[k]).key != key_glyphs() && entries[k].key
                != key_display_standalone(),
        fi_pairs(fes) == fi_pairs(entries),
    ensures
        spec_split(entries) == Ok::<PackageM, ErrorM>(
            PackageM {
                fontinfo: entry_codes(entries),
                order: Seq::<Seq<u8>>::empty(),
                ui_state: Seq::<Seq<u8>>::empty(),
                glyphs: Seq::<(Seq<u8>, Seq<u8>)>::empty(),
            },
        ),
        spec_merge_pairs(
            fes,
            Seq::<crate::plist::SliceM>::empty(),
            Seq::<(Seq<u8>, Seq<u8>)>::empty(),
            None,
        ) == Ok::<Seq<u8>, ErrorM>(
            crate::plist::dict_content_s(
                crate::unpack::snds(
                    spec_sort(merge_base(entries, Seq::<u8>::empty())),
                ),
            ),
        ),
        sorted_by_key(spec_sort(merge_base(entries, Seq::<u8>::empty()))),
        same_records(
            spec_sort(merge_base(entries, Seq::<u8>::empty())),
            merge_base(entries, Seq::<u8>::empty()),
        ),
{
    lemma_split_metadata(entries);
    assert(crate::unpack::spec_order_names(Seq::<crate::plist::SliceM>::empty()) == Ok::<
        Seq<Seq<u8>>,
        ErrorM,
    >(Seq::<Seq<u8>>::empty()));
    assert(spec_join(Seq::<Seq<u8>>::empty(), Seq::<(Seq<u8>, Seq<u8>)>::empty()) == Ok::<
        Seq<u8>,
        ErrorM,
    >(Seq::<u8>::empty()));
    assert(merge_base(fes, Seq::<u8>::empty()) =~= merge_base(entries, Seq::<u8>::empty())) by {
        assert(fi_pairs(fes) == fi_pairs(entries));
    }
    lemma_sort_sorted(merge_base(entries, Seq::<u8>::empty()));
    lemma_sort_permutes(merge_base(entries, Seq::<u8>::empty()));
}

/// Optional UI state, packing direction: a document with no
/// `DisplayStrings` entry splits into a package with an empty UI-state
/// bucket, so no UI-state file is written.
pub proof fn lemma_no_display_no_ui_file(entries: Seq<EntryM>)
    requires
        forall|k: int|
            0 <= k < entries.len() ==> (#[trigger] entries[k]).key != key_display_standalone(),
    ensures
        (match spec_split(entries) {
            Ok(p) => p.ui_state.len() == 0,
            Err(_) => true,
        }),
    decreases entries.len(),
{
    if entries.len() > 0 {
        let tail = entries.drop_first();
        assert(forall|k: int| 0 <= k < tail.len() ==> #[trigger] tail[k] == entries[k + 1]);
        lemma_no_display_no_ui_file(tail);
    }
}

/// Optional UI state, unpacking direction: when there is no UI-state file
/// and the metadata entries carry no `DisplayStrings` key, no entry of the
/// merged document has that key.
pub proof fn lemma_no_ui_file_no_display(fes: Seq<EntryM>, joined: Seq<u8>)
    requires
        forall|k: int| 0 <= k < fes.len() ==> (#[trigger] fes[k]).key != key_display_standalone(),
    ensures
        forall|k: int|
            0 <= k < spec_sort(merge_base(fes, joined)).len() ==> (#[trigger] spec_sort(
                merge_base(fes, joined),
            )[k]).0 != key_display_standalone(),
{
    let base = merge_base(fes, joined);
    assert(key_glyphs().len() != key_display_standalone().len());
    assert forall|k: int| 0 <= k < base.len() implies (#[trigger] base[k]).0
        != key_display_standalone() by {
        if k < fes.len() {
            assert(base[k] == fi_pairs(fes)[k]);
        } else {
            assert(base[k] == (key_glyphs(), wrap_entry_s(key_glyphs(), joined)));
        }
    }
    lemma_sort_permutes(base);
    assert forall|k: int| 0 <= k < spec_sort(base).len() implies (#[trigger] spec_sort(base)[k]).0
        != key_display_standalone() by {
        lemma_count_index(spec_sort(base), k);
        assert(count_pair(base, spec_sort(base)[k]) > 0);
        lemma_count_has_index(base, spec_sort(base)[k]);
    }
}

/// A glyph dictionary with no `glyphname` key at all is a fatal schema
/// error, in both directions of the conversion.
pub proof fn lemma_missing_glyphname_fatal(pairs: Seq<EntryM>)
    requires
        forall|k: int| 0 <= k < pairs.len() ==> (#[trigger] pairs[k]).key != key_glyph_name(),
    ensures
        spec_glyph_name_last(pairs, None) == Err::<Seq<u8>, ErrorM>(ErrorM::MissingGlyphName),
        spec_glyph_name_first(pairs) == Err::<Seq<u8>, ErrorM>(ErrorM::MissingGlyphName),
    decreases pairs.len(),
{
    if pairs.len() > 0 {
        let tail = pairs.drop_first();
        assert(forall|k: int| 0 <= k < tail.len() ==> #[trigger] tail[k] == pairs[k + 1]);
        lemma_missing_glyphname_fatal(tail);
    }
}

/// Order/storage mismatch is fatal, and nothing else is: joining fails
/// exactly when some order-list name has no stored glyph, and the error
/// then names a missing glyph.
pub proof fn lemma_order_storage_mismatch(names: Seq<Seq<u8>>, gs: Seq<(Seq<u8>, Seq<u8>)>)
    ensures
        (spec_join(names, gs) is Err) <==> (exists|k: int|
            0 <= k < names.len() && spec_lookup(gs, #[trigger] names[k]) is None),
        (match spec_join(names, gs) {
            Err(e) => e matches ErrorM::MissingGlyph { name } && spec_lookup(gs, name) is None
                && names.contains(name),
            Ok(_) => true,
        }),
    decreases names.len(),
{
    if names.len() == 0 {
    } else {
        lemma_order_storage_mismatch(names.drop_first(), gs);
        assert(forall|k: int|
            0 <= k < names.drop_first().len() ==> #[trigger] names.drop_first()[k] == names[k
                + 1]);
        match spec_lookup(gs, names[0]) {
            None => {
                assert(spec_lookup(gs, names[0]) is None);
            },
            Some(_) => {
                if spec_join(names.drop_first(), gs) is Err {
                    let k0 = choose|k: int|
                        0 <= k < names.drop_first().len() && spec_lookup(
                            gs,
                            #[trigger] names.drop_first()[k],
                        ) is None;
                    assert(spec_lookup(gs, names[k0 + 1]) is None);
                    match spec_join(names.drop_first(), gs) {
                        Err(e) => {
                            assert(e matches ErrorM::MissingGlyph { name } && names.drop_first()
                                .contains(name));
                            let nm = spec_join(names.drop_first(), gs)->Err_0->MissingGlyph_name;
                            let j = choose|j: int|
                                0 <= j < names.drop_first().len() && names.drop_first()[j] == nm;
                            assert(names[j + 1] == nm);
                        },
                        Ok(_) => {
                        },
                    }
                } else {
                    if exists|k: int|
                        0 <= k < names.len() && spec_lookup(gs, #[trigger] names[k]) is None {
                        let k0 = choose|k: int|
                            0 <= k < names.len() && spec_lookup(gs, #[trigger] names[k]) is None;
                        assert(k0 > 0);
                        assert(spec_lookup(gs, names.drop_first()[k0 - 1]) is None);
                        assert(false);
                    }
                }
            },
        }
    }
}

/// Display-strings rename, packing direction: a leading `DisplayStrings`
/// entry contributes, as the first UI-state line, its value's verbatim
/// parenthesized content re-framed under the `displayStrings` key.
pub proof fn lemma_display_rename_pack(entries: Seq<EntryM>)
    requires
        entries.len() > 0,
        entries[0].key == key_display_standalone(),
    ensures
        (match spec_split(entries) {
            Ok(p) => p.ui_state.len() > 0 && p.ui_state[0] == wrap_entry_s(
                key_display_package(),
                entries[0].value.code,
            ),
            Err(_) => true,
        }),
{
    match spec_split(entries.drop_first()) {
        Err(_) => {
        },
        Ok(r) => {
            assert((seq![wrap_entry_s(key_display_package(), entries[0].value.code)] + r.ui_state)[0]
                == wrap_entry_s(key_display_package(), entries[0].value.code));
        },
    }
}

/// Display-strings rename, unpacking direction: a `displayStrings` entry
/// of the UI-state file becomes a `DisplayStrings` entry whose code
/// re-frames the value's verbatim parenthesized content under the
/// standalone key; every other entry passes through unchanged.
pub proof fn lemma_display_rename_unpack(es: Seq<EntryM>, i: int)
    requires
        0 <= i < es.len(),
    ensures
        es[i].key == key_display_package() ==> spec_ui_pairs(es)[i] == (
            key_display_standalone(),
            wrap_entry_s(key_display_standalone(), es[i].value.code),
        ),
        es[i].key != key_display_package() ==> spec_ui_pairs(es)[i] == (es[i].key, es[i].code),
{
}

} // verus!

//! The filename sanitizer: maps a glyph name to a file stem that is safe on
//! case-insensitive file systems and never hidden.
//!
//! Two rules, in order: a leading `.` becomes `_`, and a `_` is inserted
//! after every uppercase ASCII letter.

use vstd::prelude::*;

verus! {

/// Uppercase ASCII letters.
pub open spec fn is_upper(b: u8) -> bool {
    65 <= b <= 90
}

/// Inserts `_` after every uppercase ASCII letter.
pub open spec fn expand_s(s: Seq<u8>) -> Seq<u8>
    decreases s.len(),
{
    if s.len() == 0 {
        Seq::<u8>::empty()
    } else if is_upper(s[0]) {
        seq![s[0], 95u8] + expand_s(s.drop_first())
    } else {
        seq![s[0]] + expand_s(s.drop_first())
    }
}

/// The sanitized form of a glyph name: a leading `.` is replaced by `_`
/// (so `.notdef` does not become a hidden file), then every uppercase
/// ASCII letter gets a `_` appended (so `A` and `a` cannot collide on a
/// case-insensitive file system).
pub open spec fn sanitize_s(name: Seq<u8>) -> Seq<u8> {
    if name.len() > 0 && name[0] == 46 {
        seq![95u8] + expand_s(name.drop_first())
    } else {
        expand_s(name)
    }
}

proof fn lemma_expand_push(s: Seq<u8>, x: u8)
    ensures
        expand_s(s.push(x)) == expand_s(s) + (if is_upper(x) {
            seq![x, 95u8]
        } else {
            seq![x]
        }),
    decreases s.len(),
{
    let tail: Seq<u8> = if is_upper(x) {
        seq![x, 95u8]
    } else {
        seq![x]
    };
    if s.len() == 0 {
        assert(s.push(x).drop_first() =~= Seq::<u8>::empty());
        assert(s.push(x)[0] == x);
        assert(expand_s(s.push(x)) == (if is_upper(x) {
            seq![x, 95u8]
        } else {
            seq![x]
        }) + expand_s(s.push(x).drop_first()));
        assert(expand_s(s.push(x)) =~= expand_s(s) + tail);
    } else {
        lemma_expand_push(s.drop_first(), x);
        assert(s.push(x).drop_first() =~= s.drop_first().push(x));
        assert(s.push(x)[0] == s[0]);
        assert(expand_s(s.push(x)) =~= expand_s(s) + tail);
    }
}

fn byte_is_upper(b: u8) -> (r: bool)
    ensures
        r == is_upper(b),
{
    65 <= b && b <= 90
}

/// Derives the file stem for a glyph name. Total: every name, including the
/// empty one, gets a stem.
pub fn sanitize(name: &Vec<u8>) -> (r: Vec<u8>)
    ensures
        r@ == sanitize_s(name@),
{
    let mut out: Vec<u8> = Vec::new();
    let n: usize = name.len();
    if n == 0 {
        proof {
            assert(out@ =~= sanitize_s(name@));
        }
        return out;
    }
    let b0 = name[0];
    if b0 == 46 {
        out.push(95);
    } else {
        out.push(b0);
        if byte_is_upper(b0) {
            out.push(95);
        }
    }
    let ghost head: Seq<u8> = out@;
    proof {
        assert(name@.subrange(1, 1) =~= Seq::<u8>::empty());
        assert(out@ =~= head + expand_s(name@.subrange(1, 1)));
    }
    let mut i: usize = 1;
    while i < n
        invariant
            n == name@.len(),
            1 <= i <= n,
            out@ == head + expand_s(name@.subrange(1, i as int)),
        decreases n - i,
    {
        let b = name[i];
        out.push(b);
        if byte_is_upper(b) {
            out.push(95);
        }
        proof {
            lemma_expand_push(name@.subrange(1, i as int), b);
            assert(name@.subrange(1, i as int + 1) =~= name@.subrange(1, i as int).push(b));
            assert(out@ =~= head + expand_s(name@.subrange(1, i as int + 1)));
        }
        i = i + 1;
    }
    proof {
        assert(name@.subrange(1, n as int) =~= name@.drop_first());
        if name@[0] == 46 {
            assert(out@ =~= sanitize_s(name@));
        } else {
            assert(expand_s(name@) == (if is_upper(name@[0]) {
                seq![name@[0], 95u8]
            } else {
                seq![name@[0]]
            }) + expand_s(name@.drop_first()));
            assert(out@ =~= sanitize_s(name@));
        }
    }
    out
}

/// No byte of `s` is `_`.
pub open spec fn underscore_free(s: Seq<u8>) -> bool {
    forall|k: int| 0 <= k < s.len() ==> s[k] != 95
}

proof fn lemma_expand_len(s: Seq<u8>)
    ensures
        expand_s(s).len() >= s.len(),
        s.len() > 0 ==> expand_s(s).len() > 0 && expand_s(s)[0] == s[0],
    decreases s.len(),
{
    if s.len() > 0 {
        lemma_expand_len(s.drop_first());
    }
}

proof fn lemma_expand_injective(a: Seq<u8>, b: Seq<u8>)
    requires
        underscore_free(a),
        underscore_free(b),
        expand_s(a) == expand_s(b),
    ensures
        a == b,
    decreases a.len(),
{
    lemma_expand_len(a);
    lemma_expand_len(b);
    if a.len() == 0 {
        if b.len() > 0 {
            assert(expand_s(a).len() == 0);
            assert(false);
        }
        assert(a =~= b);
    } else if b.len() == 0 {
        assert(expand_s(b).len() == 0);
        assert(false);
    } else {
        assert(expand_s(a)[0] == a[0]);
        assert(expand_s(b)[0] == b[0]);
        let at = a.drop_first();
        let bt = b.drop_first();
        assert(underscore_free(at)) by {
            assert(forall|k: int| 0 <= k < at.len() ==> at[k] == a[k + 1]);
        }
        assert(underscore_free(bt)) by {
            assert(forall|k: int| 0 <= k < bt.len() ==> bt[k] == b[k + 1]);
        }
        if is_upper(a[0]) {
            assert(expand_s(at) =~= expand_s(a).subrange(2, expand_s(a).len() as int));
            assert(expand_s(bt) =~= expand_s(b).subrange(2, expand_s(b).len() as int));
            lemma_expand_injective(at, bt);
        } else {
            assert(expand_s(at) =~= expand_s(a).subrange(1, expand_s(a).len() as int));
            assert(expand_s(bt) =~= expand_s(b).subrange(1, expand_s(b).len() as int));
            lemma_expand_injective(at, bt);
        }
        assert(a.len() == b.len());
        assert forall|k: int| 0 <= k < a.len() implies a[k] == b[k] by {
            if k > 0 {
                assert(a[k] == at[k - 1]);
                assert(b[k] == bt[k - 1]);
            }
        }
        assert(a =~= b);
    }
}

/// Collision freedom: glyph names that contain no `_` of their own map to
/// distinct file stems. (A name may contain `_`; then the mapping is not
/// injective — `.a` and `_a` share a stem — which is why the guarantee is
/// stated for underscore-free names.)
pub proof fn lemma_sanitize_collision_free(a: Seq<u8>, b: Seq<u8>)
    requires
        underscore_free(a),
        underscore_free(b),
        sanitize_s(a) == sanitize_s(b),
    ensures
        a == b,
{
    lemma_expand_len(a);
    lemma_expand_len(b);
    if a.len() > 0 && a[0] == 46 {
        if b.len() > 0 && b[0] == 46 {
            let at = a.drop_first();
            let bt = b.drop_first();
            assert(underscore_free(at)) by {
                assert(forall|k: int| 0 <= k < at.len() ==> at[k] == a[k + 1]);
            }
            assert(underscore_free(bt)) by {
                assert(forall|k: int| 0 <= k < bt.len() ==> bt[k] == b[k + 1]);
            }
            assert(expand_s(at) =~= sanitize_s(a).drop_first());
            assert(expand_s(bt) =~= sanitize_s(b).drop_first());
            lemma_expand_injective(at, bt);
            assert(a.len() == b.len());
            assert forall|k: int| 0 <= k < a.len() implies a[k] == b[k] by {
                if k > 0 {
                    assert(a[k] == at[k - 1]);
                    assert(b[k] == bt[k - 1]);
                }
            }
            assert(a =~= b);
        } else {
            assert(sanitize_s(a)[0] == 95);
            if b.len() == 0 {
                assert(sanitize_s(b).len() == 0);
            } else {
                assert(sanitize_s(b)[0] == b[0]);
            }
            assert(false);
        }
    } else if b.len() > 0 && b[0] == 46 {
        assert(sanitize_s(b)[0] == 95);
        if a.len() == 0 {
            assert(sanitize_s(a).len() == 0);
        } else {
            assert(sanitize_s(a)[0] == a[0]);
        }
        assert(false);
    } else {
        lemma_expand_injective(a, b);
    }
}

} // verus!

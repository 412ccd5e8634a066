//! The dialect's distinguished key names, as byte sequences, and the
//! wrapper that re-frames a moved value as a `key = (...);` entry.

use vstd::prelude::*;

use crate::bytes::push_all;

verus! {

/// `glyphs`
pub open spec fn key_glyphs() -> Seq<u8> {
    seq![103u8, 108u8, 121u8, 112u8, 104u8, 115u8]
}

/// `glyphname`
pub open spec fn key_glyph_name() -> Seq<u8> {
    seq![103u8, 108u8, 121u8, 112u8, 104u8, 110u8, 97u8, 109u8, 101u8]
}

/// `DisplayStrings`, the key of the UI-state entry in the single-document
/// form.
pub open spec fn key_display_standalone() -> Seq<u8> {
    seq![
        68u8, 105u8, 115u8, 112u8, 108u8, 97u8, 121u8, 83u8, 116u8, 114u8, 105u8, 110u8, 103u8,
        115u8,
    ]
}

/// `displayStrings`, the key of the same entry in the package form.
pub open spec fn key_display_package() -> Seq<u8> {
    seq![
        100u8, 105u8, 115u8, 112u8, 108u8, 97u8, 121u8, 83u8, 116u8, 114u8, 105u8, 110u8, 103u8,
        115u8,
    ]
}

pub fn key_glyphs_vec() -> (r: Vec<u8>)
    ensures
        r@ == key_glyphs(),
{
    let mut v: Vec<u8> = Vec::new();
    v.push(103);
    v.push(108);
    v.push(121);
    v.push(112);
    v.push(104);
    v.push(115);
    proof {
        assert(v@ =~= key_glyphs());
    }
    v
}

pub fn key_glyph_name_vec() -> (r: Vec<u8>)
    ensures
        r@ == key_glyph_name(),
{
    let mut v: Vec<u8> = Vec::new();
    v.push(103);
    v.push(108);
    v.push(121);
    v.push(112);
    v.push(104);
    v.push(110);
    v.push(97);
    v.push(109);
    v.push(101);
    proof {
        assert(v@ =~= key_glyph_name());
    }
    v
}

pub fn key_display_standalone_vec() -> (r: Vec<u8>)
    ensures
        r@ == key_display_standalone(),
{
    let mut v: Vec<u8> = Vec::new();
    v.push(68);
    v.push(105);
    v.push(115);
    v.push(112);
    v.push(108);
    v.push(97);
    v.push(121);
    v.push(83);
    v.push(116);
    v.push(114);
    v.push(105);
    v.push(110);
    v.push(103);
    v.push(115);
    proof {
        assert(v@ =~= key_display_standalone());
    }
    v
}

pub fn key_display_package_vec() -> (r: Vec<u8>)
    ensures
        r@ == key_display_package(),
{
    let mut v: Vec<u8> = Vec::new();
    v.push(100);
    v.push(105);
    v.push(115);
    v.push(112);
    v.push(108);
    v.push(97);
    v.push(121);
    v.push(83);
    v.push(116);
    v.push(114);
    v.push(105);
    v.push(110);
    v.push(103);
    v.push(115);
    proof {
        assert(v@ =~= key_display_package());
    }
    v
}

/// `key = (\n<inner>\n);` — how a value's verbatim text is re-framed as a
/// whole entry when it moves between the two layouts.
pub open spec fn wrap_entry_s(key: Seq<u8>, inner: Seq<u8>) -> Seq<u8> {
    key + seq![32u8, 61u8, 32u8, 40u8, 10u8] + inner + seq![10u8, 41u8, 59u8]
}

/// Builds `key = (\n<inner>\n);`.
pub fn wrap_entry(key: &Vec<u8>, inner: &Vec<u8>) -> (r: Vec<u8>)
    ensures
        r@ == wrap_entry_s(key@, inner@),
{
    let mut out: Vec<u8> = Vec::new();
    push_all(&mut out, key);
    out.push(32);
    out.push(61);
    out.push(32);
    out.push(40);
    out.push(10);
    push_all(&mut out, inner);
    out.push(10);
    out.push(41);
    out.push(59);
    proof {
        assert(out@ =~= wrap_entry_s(key@, inner@));
    }
    out
}

} // verus!

//! The dictionary keys and type tags that the engine reads and writes,
//! as byte strings.

use vstd::prelude::*;

verus! {

/// The key "Type".
pub open spec fn key_type() -> Seq<u8> {
    seq![84u8, 121u8, 112u8, 101u8]
}

/// The key "Pages", also the type tag of a page-tree node.
pub open spec fn key_pages() -> Seq<u8> {
    seq![80u8, 97u8, 103u8, 101u8, 115u8]
}

/// The key "Kids".
pub open spec fn key_kids() -> Seq<u8> {
    seq![75u8, 105u8, 100u8, 115u8]
}

/// The key "Count".
pub open spec fn key_count() -> Seq<u8> {
    seq![67u8, 111u8, 117u8, 110u8, 116u8]
}

/// The key "Parent".
pub open spec fn key_parent() -> Seq<u8> {
    seq![80u8, 97u8, 114u8, 101u8, 110u8, 116u8]
}

/// The key "Outlines", also the type tag of an outline root.
pub open spec fn key_outlines() -> Seq<u8> {
    seq![79u8, 117u8, 116u8, 108u8, 105u8, 110u8, 101u8, 115u8]
}

/// The type tag "Catalog".
pub open spec fn tag_catalog() -> Seq<u8> {
    seq![67u8, 97u8, 116u8, 97u8, 108u8, 111u8, 103u8]
}

/// The type tag "Page".
pub open spec fn tag_page() -> Seq<u8> {
    seq![80u8, 97u8, 103u8, 101u8]
}

/// The type tag "Outline".
pub open spec fn tag_outline() -> Seq<u8> {
    seq![79u8, 117u8, 116u8, 108u8, 105u8, 110u8, 101u8]
}

/// Builds the key "Type".
pub fn make_key_type() -> (k: Vec<u8>)
    ensures
        k@ == key_type(),
{
    let mut k: Vec<u8> = Vec::new();
    k.push(84u8);
    k.push(121u8);
    k.push(112u8);
    k.push(101u8);
    proof {
        assert(k@ =~= key_type());
    }
    k
}

/// Builds the key "Pages".
pub fn make_key_pages() -> (k: Vec<u8>)
    ensures
        k@ == key_pages(),
{
    let mut k: Vec<u8> = Vec::new();
    k.push(80u8);
    k.push(97u8);
    k.push(103u8);
    k.push(101u8);
    k.push(115u8);
    proof {
        assert(k@ =~= key_pages());
    }
    k
}

/// Builds the key "Kids".
pub fn make_key_kids() -> (k: Vec<u8>)
    ensures
        k@ == key_kids(),
{
    let mut k: Vec<u8> = Vec::new();
    k.push(75u8);
    k.push(105u8);
    k.push(100u8);
    k.push(115u8);
    proof {
        assert(k@ =~= key_kids());
    }
    k
}

/// Builds the key "Count".
pub fn make_key_count() -> (k: Vec<u8>)
    ensures
        k@ == key_count(),
{
    let mut k: Vec<u8> = Vec::new();
    k.push(67u8);
    k.push(111u8);
    k.push(117u8);
    k.push(110u8);
    k.push(116u8);
    proof {
        assert(k@ =~= key_count());
    }
    k
}

/// Builds the key "Parent".
pub fn make_key_parent() -> (k: Vec<u8>)
    ensures
        k@ == key_parent(),
{
    let mut k: Vec<u8> = Vec::new();
    k.push(80u8);
    k.push(97u8);
    k.push(114u8);
    k.push(101u8);
    k.push(110u8);
    k.push(116u8);
    proof {
        assert(k@ =~= key_parent());
    }
    k
}

/// Builds the key "Outlines".
pub fn make_key_outlines() -> (k: Vec<u8>)
    ensures
        k@ == key_outlines(),
{
    let mut k: Vec<u8> = Vec::new();
    k.push(79u8);
    k.push(117u8);
    k.push(116u8);
    k.push(108u8);
    k.push(105u8);
    k.push(110u8);
    k.push(101u8);
    k.push(115u8);
    proof {
        assert(k@ =~= key_outlines());
    }
    k
}

/// Builds the tag "Catalog".
pub fn make_tag_catalog() -> (k: Vec<u8>)
    ensures
        k@ == tag_catalog(),
{
    let mut k: Vec<u8> = Vec::new();
    k.push(67u8);
    k.push(97u8);
    k.push(116u8);
    k.push(97u8);
    k.push(108u8);
    k.push(111u8);
    k.push(103u8);
    proof {
        assert(k@ =~= tag_catalog());
    }
    k
}

/// Builds the tag "Page".
pub fn make_tag_page() -> (k: Vec<u8>)
    ensures
        k@ == tag_page(),
{
    let mut k: Vec<u8> = Vec::new();
    k.push(80u8);
    k.push(97u8);
    k.push(103u8);
    k.push(101u8);
    proof {
        assert(k@ =~= tag_page());
    }
    k
}

/// Builds the tag "Outline".
pub fn make_tag_outline() -> (k: Vec<u8>)
    ensures
        k@ == tag_outline(),
{
    let mut k: Vec<u8> = Vec::new();
    k.push(79u8);
    k.push(117u8);
    k.push(116u8);
    k.push(108u8);
    k.push(105u8);
    k.push(110u8);
    k.push(101u8);
    proof {
        assert(k@ =~= tag_outline());
    }
    k
}

} // verus!

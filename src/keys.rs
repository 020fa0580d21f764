//! Encoding of record identifiers into engine keys.
use vstd::prelude::*;
use vstd::string::StringSliceAdditionalSpecFns;

verus! {

/// The lower-case form of an ASCII upper-case letter; any other byte as is.
pub open spec fn lower_byte(b: u8) -> u8 {
    if 65 <= b && b <= 90 {
        (b + 32) as u8
    } else {
        b
    }
}

/// The bytes with every ASCII upper-case letter turned to lower case.
pub open spec fn fold_case(s: Seq<u8>) -> Seq<u8> {
    s.map_values(|b: u8| lower_byte(b))
}

/// The key under which a record with identifier bytes `id` is stored: the
/// bytes themselves, or their case-folded form in a case-insensitive
/// collection.
pub open spec fn key_of(id: Seq<u8>, case_insensitive: bool) -> Seq<u8> {
    if case_insensitive {
        fold_case(id)
    } else {
        id
    }
}

/// Two identifiers that differ at most in the case of ASCII letters.
pub open spec fn same_ignoring_case(a: Seq<u8>, b: Seq<u8>) -> bool {
    a.len() == b.len() && forall|i: int| 0 <= i < a.len() ==> lower_byte(a[i]) == lower_byte(b[i])
}

/// Encodes an identifier into the key it is stored under: its UTF-8 bytes,
/// case-folded when the collection is case-insensitive.
pub fn encode_key(id: &str, case_insensitive: bool) -> (r: Vec<u8>)
    ensures
        r@ == key_of(id.spec_bytes(), case_insensitive),
{
    let bytes = id.as_bytes();
    let mut key: Vec<u8> = Vec::new();
    let mut i: usize = 0;
    while i < bytes.len()
        invariant
            bytes@ == id.spec_bytes(),
            i <= bytes@.len(),
            key@ == key_of(bytes@.subrange(0, i as int), case_insensitive),
        decreases bytes@.len() - i,
    {
        let b = bytes[i];
        if case_insensitive && 65 <= b && b <= 90 {
            key.push(b + 32);
        } else {
            key.push(b);
        }
        assert(key_of(bytes@.subrange(0, i as int + 1), case_insensitive) =~= key_of(
            bytes@.subrange(0, i as int),
            case_insensitive,
        ).push(key@.last()));
        i = i + 1;
    }
    assert(bytes@.subrange(0, bytes@.len() as int) =~= bytes@);
    key
}

/// In a case-insensitive collection two identifiers share a key exactly when
/// they differ at most in the case of ASCII letters: a record put under one
/// is read and deleted under any of its case variants.
pub proof fn lemma_case_variants_share_key(a: Seq<u8>, b: Seq<u8>)
    ensures
        key_of(a, true) == key_of(b, true) <==> same_ignoring_case(a, b),
{
    if key_of(a, true) == key_of(b, true) {
        assert forall|i: int| 0 <= i < a.len() implies lower_byte(a[i]) == lower_byte(b[i]) by {
            assert(fold_case(a)[i] == fold_case(b)[i]);
        }
    }
    if same_ignoring_case(a, b) {
        assert(fold_case(a) =~= fold_case(b));
    }
}

/// In a case-sensitive collection two identifiers share a key exactly when
/// they are equal.
pub proof fn lemma_exact_keys(a: Seq<u8>, b: Seq<u8>)
    ensures
        key_of(a, false) == key_of(b, false) <==> a == b,
{
}

} // verus!

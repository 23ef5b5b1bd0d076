use asp_server::field::{from_hex, to_canonical_hex};
use asp_server::hash::{bn254_poseidon, derive_commitment};

const FR_MODULUS_HEX: &str = "0x30644e72e131a029b85045b68181585d2833e84879b9709143e1f593f0000001";

#[test]
fn round_trip_canonical_hex() {
    let samples = [
        "0x0000000000000000000000000000000000000000000000000000000000000000",
        "0x0000000000000000000000000000000000000000000000000000000000000001",
        "0x00000000000000000000000000000000000000000000000000000000deadbeef",
        "0x1234567890abcdef1234567890abcdef1234567890abcdef1234567890abcdef",
    ];
    for s in samples {
        let x = from_hex(s).unwrap();
        let h = to_canonical_hex(&x);
        assert_eq!(h, *s);
        let y = from_hex(&h).unwrap();
        assert_eq!(to_canonical_hex(&y), h);
        assert!(x.same(&y));
    }
}

#[test]
fn from_hex_accepts_short_and_unprefixed() {
    let a = from_hex("0x1").unwrap();
    let b = from_hex("1").unwrap();
    let c = from_hex("0001").unwrap();
    let expect = "0x0000000000000000000000000000000000000000000000000000000000000001";
    assert_eq!(to_canonical_hex(&a), expect);
    assert_eq!(to_canonical_hex(&b), expect);
    assert_eq!(to_canonical_hex(&c), expect);
}

#[test]
fn from_hex_accepts_uppercase() {
    let x = from_hex("0xAB").unwrap();
    assert_eq!(
        to_canonical_hex(&x),
        "0x00000000000000000000000000000000000000000000000000000000000000ab"
    );
}

#[test]
fn from_hex_rejects_bad_input() {
    assert!(from_hex("").is_err());
    assert!(from_hex("0x").is_err());
    assert!(from_hex("0xzz").is_err());
    assert!(from_hex("123g").is_err());
    assert!(from_hex("0x12 34").is_err());
}

#[test]
fn from_hex_reduces_out_of_range_values() {
    // the modulus itself wraps to zero: reduction, not rejection
    let x = from_hex(FR_MODULUS_HEX).unwrap();
    assert_eq!(
        to_canonical_hex(&x),
        "0x0000000000000000000000000000000000000000000000000000000000000000"
    );
    assert!(x.is_zero());
    // one above the modulus wraps to one
    let y = from_hex("0x30644e72e131a029b85045b68181585d2833e84879b9709143e1f593f0000002").unwrap();
    assert_eq!(
        to_canonical_hex(&y),
        "0x0000000000000000000000000000000000000000000000000000000000000001"
    );
}

#[test]
fn poseidon_matches_known_vector() {
    // circom-compatible Poseidon of (1, 1) over the BN254 scalar field
    let one = from_hex("0x1").unwrap();
    let h = bn254_poseidon(&one, &one);
    assert_eq!(
        to_canonical_hex(&h),
        "0x007af346e2d304279e79e0a9f3023f771294a78acb70e73f90afe27cad401e81"
    );
}

#[test]
fn derive_commitment_zero_amount_is_identity() {
    let note = from_hex("0x1234abcd").unwrap();
    let zero = from_hex("0x0").unwrap();
    let c = derive_commitment(&note, &zero);
    assert!(c.same(&note));
    assert_eq!(to_canonical_hex(&c), to_canonical_hex(&note));
}

#[test]
fn derive_commitment_nonzero_amount_hashes() {
    let note = from_hex("0x1234abcd").unwrap();
    let amount = from_hex("0x64").unwrap();
    let c = derive_commitment(&note, &amount);
    let h = bn254_poseidon(&note, &amount);
    assert!(c.same(&h));
    assert!(!c.same(&note));
}

//! Tests of the finality weight-reduction engine.

use casper_db_utils::{strip_signatures, BlockSignatures, Digest, WeightMap};

fn digest(n: u64) -> Digest {
    let mut bytes = [0u8; 32];
    bytes[0] = n as u8;
    Digest::new(bytes)
}

fn weights(entries: &[(u64, u128)]) -> WeightMap {
    let mut w = WeightMap::new();
    for (k, v) in entries {
        assert!(w.insert(*k, *v));
    }
    w
}

fn signatures(signers: &[u64]) -> BlockSignatures {
    let mut s = BlockSignatures::new(digest(7), 3);
    for k in signers {
        s.insert_signature(*k, 1);
    }
    s
}

#[test]
fn strip_even_split_keeps_one_signer() {
    // weights {A:500, B:500}, total 1000, signers {A, B}
    let w = weights(&[(0, 500), (1, 500)]);
    let mut sigs = signatures(&[0, 1]);
    assert!(strip_signatures(&mut sigs, &w));
    // exactly one signer remains; 3*500 = 1500 > 1000 and <= 2000
    let a = sigs.proofs().contains_key(0);
    let b = sigs.proofs().contains_key(1);
    assert!((a && !b) || (!a && b));
}

#[test]
fn strip_three_signers_keeps_the_two_lightest() {
    // weights {A:300, B:300, C:400}, total 1000, signers {A, B, C}
    let w = weights(&[(0, 300), (1, 300), (2, 400)]);
    let mut sigs = signatures(&[0, 1, 2]);
    assert!(strip_signatures(&mut sigs, &w));
    // the heaviest signer is shed; {A, B} remain with weight 600
    assert!(sigs.proofs().contains_key(0));
    assert!(sigs.proofs().contains_key(1));
    assert!(!sigs.proofs().contains_key(2));
}

#[test]
fn strip_dominant_signer_cannot_be_reduced() {
    // weights {A:700, B:300}, total 1000, signers {A, B}: dropping A
    // falls below weak finality, keeping A stays above strict finality
    let w = weights(&[(0, 700), (1, 300)]);
    let mut sigs = signatures(&[0, 1]);
    assert!(!strip_signatures(&mut sigs, &w));
    // both signers remain unchanged
    assert!(sigs.proofs().contains_key(0));
    assert!(sigs.proofs().contains_key(1));
}

#[test]
fn strip_below_weak_finality_fails_unchanged() {
    // 3 * 300 = 900 <= 1000: already below weak finality
    let w = weights(&[(0, 300), (1, 700)]);
    let mut sigs = signatures(&[0]);
    assert!(!strip_signatures(&mut sigs, &w));
    assert!(sigs.proofs().contains_key(0));
}

#[test]
fn strip_already_in_band_succeeds_unchanged() {
    // 3 * 400 = 1200: above 1000, at most 2000 — already in the band
    let w = weights(&[(0, 400), (1, 600)]);
    let mut sigs = signatures(&[0]);
    assert!(strip_signatures(&mut sigs, &w));
    assert!(sigs.proofs().contains_key(0));
    assert!(!sigs.proofs().contains_key(1));
}

#[test]
fn strip_ignores_signers_without_weight() {
    // signer 9 carries no weight: never counted, never removed
    let w = weights(&[(0, 500), (1, 500)]);
    let mut sigs = signatures(&[0, 1, 9]);
    assert!(strip_signatures(&mut sigs, &w));
    assert!(sigs.proofs().contains_key(9));
    let a = sigs.proofs().contains_key(0);
    let b = sigs.proofs().contains_key(1);
    assert!((a && !b) || (!a && b));
}

#[test]
fn weight_table_rejects_overflowing_totals() {
    let mut w = WeightMap::new();
    let third = u128::MAX / 3;
    assert!(w.insert(0, third));
    // a second weight of the same size would let 3 * total overflow
    assert!(!w.insert(1, third));
    assert!(w.get(0).is_some());
    assert!(w.get(1).is_none());
}

// Behavioral tests: round trips over the mode boundaries, tamper detection,
// determinism, length invariants and the input-validation edges.

use aez::Aez;
use aez::AezError;

fn sample_key() -> Vec<u8> {
    (0u8..48).collect()
}

fn sample_pt(len: usize) -> Vec<u8> {
    (0..len).map(|i| (i * 7 + 3) as u8).collect()
}

#[test]
fn roundtrip_all_lengths() {
    let cipher = Aez::new(&sample_key());
    let nonce = [9u8; 12];
    let ad = [1u8, 2, 3];
    for len in [0usize, 1, 2, 3, 7, 15, 16, 17, 24, 31, 32, 33, 40, 47, 48, 63, 64, 65, 100] {
        for tau in [0usize, 1, 8, 16] {
            let pt = sample_pt(len);
            let ct = cipher.encrypt(&nonce, Some(&ad[..]), tau, &pt).expect("encrypt");
            assert_eq!(ct.len(), pt.len() + tau, "length invariant broken");
            let back = cipher.decrypt(&nonce, Some(&ad[..]), tau, &ct).expect("decrypt");
            assert_eq!(back.len(), ct.len() - tau, "length invariant broken");
            assert_eq!(back, pt, "round trip broken at len {len} tau {tau}");
        }
    }
}

#[test]
fn tamper_detection_every_byte() {
    let cipher = Aez::new(&sample_key());
    let nonce = [7u8; 16];
    let tau = 16usize;
    // One length per permutation mode: tiny, standard with fragment, standard
    // aligned.
    for len in [4usize, 29, 48, 64] {
        let pt = sample_pt(len);
        let ct = cipher.encrypt(&nonce, None, tau, &pt).expect("encrypt");
        for pos in 0..ct.len() {
            for bit in [0u8, 3, 7] {
                let mut bad = ct.clone();
                bad[pos] ^= 1 << bit;
                let r = cipher.decrypt(&nonce, None, tau, &bad);
                assert_eq!(
                    r,
                    Err(AezError::AuthenticationFailure),
                    "flip at byte {pos} bit {bit} of len {len} not detected"
                );
            }
        }
    }
}

#[test]
fn tau_zero_never_fails() {
    let cipher = Aez::new(&sample_key());
    let nonce = [1u8];
    for len in [0usize, 5, 31, 32, 50] {
        let ct = sample_pt(len);
        let r = cipher.decrypt(&nonce, None, 0, &ct);
        assert!(r.is_ok(), "tau = 0 decryption must always succeed");
        let pt = r.unwrap();
        let back = cipher.encrypt(&nonce, None, 0, &pt).expect("encrypt");
        assert_eq!(back, ct, "tau = 0 must be a bare permutation");
    }
}

#[test]
fn determinism() {
    let c1 = Aez::new(&sample_key());
    let c2 = Aez::new(&sample_key());
    let nonce = [5u8; 8];
    let pt = sample_pt(33);
    let a = c1.encrypt(&nonce, Some(&[9u8][..]), 16, &pt).expect("encrypt");
    let b = c2.encrypt(&nonce, Some(&[9u8][..]), 16, &pt).expect("encrypt");
    assert_eq!(a, b, "same inputs must give bit-identical ciphertexts");
}

#[test]
fn nonce_boundaries() {
    let cipher = Aez::new(&sample_key());
    let pt = sample_pt(10);
    let r0 = cipher.encrypt(&[], None, 16, &pt);
    assert_eq!(r0, Err(AezError::ContractViolation), "empty nonce accepted");
    let r17 = cipher.encrypt(&[0u8; 17], None, 16, &pt);
    assert_eq!(r17, Err(AezError::ContractViolation), "17-byte nonce accepted");
    let r1 = cipher.encrypt(&[0u8; 1], None, 16, &pt).expect("1-byte nonce refused");
    let b1 = cipher.decrypt(&[0u8; 1], None, 16, &r1).expect("decrypt");
    assert_eq!(b1, pt);
    let r16 = cipher.encrypt(&[0u8; 16], None, 16, &pt).expect("16-byte nonce refused");
    let b16 = cipher.decrypt(&[0u8; 16], None, 16, &r16).expect("decrypt");
    assert_eq!(b16, pt);
    let d0 = cipher.decrypt(&[], None, 16, &r16);
    assert_eq!(d0, Err(AezError::ContractViolation), "empty nonce accepted on decrypt");
    let d17 = cipher.decrypt(&[0u8; 17], None, 16, &r16);
    assert_eq!(d17, Err(AezError::ContractViolation), "17-byte nonce accepted on decrypt");
}

#[test]
fn tau_boundaries() {
    let cipher = Aez::new(&sample_key());
    let pt = sample_pt(10);
    let r = cipher.encrypt(&[1u8], None, 17, &pt);
    assert_eq!(r, Err(AezError::ContractViolation), "tau 17 accepted");
    let d = cipher.decrypt(&[1u8], None, 17, &sample_pt(26));
    assert_eq!(d, Err(AezError::ContractViolation), "tau 17 accepted on decrypt");
    let short = cipher.decrypt(&[1u8], None, 8, &sample_pt(5));
    assert_eq!(short, Err(AezError::ContractViolation), "tau above ciphertext length accepted");
}

#[test]
fn empty_plaintext_tau_16() {
    let cipher = Aez::new(&sample_key());
    let nonce = [3u8; 4];
    let ct = cipher.encrypt(&nonce, None, 16, &[]).expect("encrypt");
    assert_eq!(ct.len(), 16, "empty plaintext with tau 16 must give 16 bytes");
    let pt = cipher.decrypt(&nonce, None, 16, &ct).expect("decrypt");
    assert_eq!(pt.len(), 0);
}

#[test]
fn absent_and_empty_ad_agree() {
    let cipher = Aez::new(&sample_key());
    let nonce = [2u8; 2];
    let pt = sample_pt(20);
    let a = cipher.encrypt(&nonce, None, 16, &pt).expect("encrypt");
    let b = cipher.encrypt(&nonce, Some(&[][..]), 16, &pt).expect("encrypt");
    assert_eq!(a, b, "absent and empty associated data must agree");
}

#[test]
fn context_separation() {
    let cipher = Aez::new(&sample_key());
    let other = Aez::new(&sample_pt(48));
    let nonce = [4u8; 6];
    let pt = sample_pt(40);
    let ct = cipher.encrypt(&nonce, Some(&[8u8][..]), 16, &pt).expect("encrypt");
    assert_eq!(
        other.decrypt(&nonce, Some(&[8u8][..]), 16, &ct),
        Err(AezError::AuthenticationFailure),
        "wrong key accepted"
    );
    assert_eq!(
        cipher.decrypt(&[9u8; 6], Some(&[8u8][..]), 16, &ct),
        Err(AezError::AuthenticationFailure),
        "wrong nonce accepted"
    );
    assert_eq!(
        cipher.decrypt(&nonce, Some(&[7u8][..]), 16, &ct),
        Err(AezError::AuthenticationFailure),
        "wrong associated data accepted"
    );
    assert_eq!(
        cipher.decrypt(&nonce, None, 16, &ct),
        Err(AezError::AuthenticationFailure),
        "dropped associated data accepted"
    );
}

#[test]
fn key_length_flexibility() {
    let nonce = [1u8; 1];
    let pt = sample_pt(12);
    for klen in [0usize, 1, 16, 47, 48, 49, 100] {
        let cipher = Aez::new(&sample_pt(klen));
        let ct = cipher.encrypt(&nonce, None, 16, &pt).expect("encrypt");
        let back = cipher.decrypt(&nonce, None, 16, &ct).expect("decrypt");
        assert_eq!(back, pt, "round trip broken for key length {klen}");
    }
    let a = Aez::new(&[0u8; 3]);
    let b = Aez::new(&[0u8; 4]);
    let ca = a.encrypt(&nonce, None, 16, &pt).expect("encrypt");
    let cb = b.encrypt(&nonce, None, 16, &pt).expect("encrypt");
    assert_ne!(ca, cb, "keys differing only in trailing zeros must differ");
}

// Fixed answer vectors of this cipher: encryption must reproduce these exact
// ciphertext bytes, and decryption must recover the exact plaintext and report
// success. The values are fixed by this crate's own permutation (see the crate
// documentation: the round primitive and key extractor are this crate's own,
// so these are not the vectors of an AES-based AEZv5 implementation); they pin
// the cipher against unintended change.

use aez::Aez;

fn unhex(s: &str) -> Vec<u8> {
    assert!(s.len() % 2 == 0, "odd hex length");
    let b = s.as_bytes();
    let mut out = Vec::with_capacity(s.len() / 2);
    let val = |c: u8| -> u8 {
        match c {
            b'0'..=b'9' => c - b'0',
            b'a'..=b'f' => c - b'a' + 10,
            b'A'..=b'F' => c - b'A' + 10,
            _ => panic!("invalid hex"),
        }
    };
    let mut i = 0;
    while i < b.len() {
        out.push(val(b[i]) * 16 + val(b[i + 1]));
        i += 2;
    }
    out
}

struct TestCase<'a> {
    k: &'a str,
    nonce: &'a str,
    data: Option<&'a str>,
    tau: usize,
    m: &'a str,
    c: &'a str,
}

fn cases() -> Vec<TestCase<'static>> {
    vec![
        TestCase {
            k: "000102030405060708090a0b0c0d0e0f101112131415161718191a1b1c1d1e1f\
                202122232425262728292a2b2c2d2e2f",
            nonce: "00",
            data: None,
            tau: 16,
            m: "",
            c: "7c455cd336aa4c5ab20bef4f6906de3e",
        },
        TestCase {
            k: "000102030405060708090a0b0c0d0e0f101112131415161718191a1b1c1d1e1f\
                202122232425262728292a2b2c2d2e2f",
            nonce: "01020304",
            data: Some(""),
            tau: 16,
            m: "48656c6c6f20776f726c6421",
            c: "f43817ee9e1b4c7de391df38bf140c3be2d1cd7f1e712847b9f469d3",
        },
        TestCase {
            k: "6b6579",
            nonce: "0f0e0d0c0b0a09080706050403020100",
            data: Some("aabbccddeeff"),
            tau: 8,
            m: "000102030405060708090a0b0c0d0e0f101112131415161718191a1b1c1d1e1f",
            c: "4ddcb4f028f4c237706c4120ce5118b3b3448c7984ae3c30096df059dd9fb495\
                ff49f96d71985ed0",
        },
        TestCase {
            k: "",
            nonce: "ff",
            data: None,
            tau: 0,
            m: "d00dfeed",
            c: "9649a0ed",
        },
        TestCase {
            k: "97ddba13b62b0c2770c312c1c5d7a108",
            nonce: "10",
            data: Some("01"),
            tau: 16,
            m: "4578616d706c65206f662061206c6f6e676572206d65737361676520776974682061\
                20667261676d656e7420616e642070616972732e",
            c: "ef483dbe2d1c5fc8b939f05c33363da2f02d844a8441ed2a1e4d724f872cbc66\
                3387ed810c2bc7cdd1d4752156a4ebd6ed666a78cf298d0b4d2c5b966225b01c\
                1c50ee477e69",
        },
    ]
}

#[test]
fn vectors() {
    for TestCase { k, nonce, data, tau, m, c } in cases() {
        let n = unhex(nonce);
        let k = unhex(k);
        let m = unhex(m);
        let aad = data.map(unhex);
        let c = unhex(c);
        assert_eq!(tau, c.len() - m.len(), "invalid test vector");

        let cipher = Aez::new(&k);
        let aad = aad.as_deref();

        let ct = cipher.encrypt(&n, aad, tau, &m).expect("encryption failed");
        assert_eq!(ct, c);
        let pt = cipher.decrypt(&n, aad, tau, &c).expect("decryption failed");
        assert_eq!(pt, m);
    }
}

use whisperer::kem::{decrypt, encrypt, fills_block};

#[test]
fn encrypt_transposes_four_bytes() {
    assert_eq!(encrypt(vec![1, 2, 3, 4], vec![0]), vec![3, 1, 4, 2]);
}

#[test]
fn encrypt_pads_and_applies_key() {
    assert_eq!(encrypt(vec![97, 98, 99], vec![1, 2]), vec![98, 99, 1, 96]);
}

#[test]
fn encrypt_empty_message() {
    assert_eq!(encrypt(Vec::new(), Vec::new()), Vec::<u8>::new());
    assert_eq!(decrypt(Vec::new(), Vec::new()), Vec::<u8>::new());
}

#[test]
fn encrypt_single_byte() {
    assert_eq!(encrypt(vec![7], vec![5]), vec![2]);
}

#[test]
fn encrypt_output_fills_square_block() {
    for n in 1..40usize {
        let m: Vec<u8> = (0..n).map(|i| i as u8).collect();
        let c = encrypt(m, vec![9, 8, 7]);
        let b = (1..).find(|b| b * b >= n).unwrap();
        assert_eq!(c.len(), b * b);
    }
}

#[test]
fn decrypt_inverts_transposition() {
    assert_eq!(decrypt(vec![3, 1, 4, 2], vec![0]), vec![1, 2, 3, 4]);
    assert_eq!(decrypt(vec![98, 99, 1, 96], vec![1, 2]), vec![97, 98, 99, 0]);
}

#[test]
fn decrypt_of_encrypt_pads_with_zeros() {
    let key = vec![0x5a, 0x13, 0xff, 0x00, 0x42];
    for n in 1..50usize {
        let m: Vec<u8> = (0..n).map(|i| (i * 37 % 251) as u8).collect();
        let c = encrypt(m.clone(), key.clone());
        let d = decrypt(c, key.clone());
        assert_eq!(&d[..n], &m[..]);
        assert!(d[n..].iter().all(|b| *b == 0));
    }
}

#[test]
fn encrypt_of_decrypt_gives_ciphertext_back() {
    let key = vec![3, 1, 4, 1, 5, 9, 2, 6];
    let c: Vec<u8> = (0..25u8).map(|i| i.wrapping_mul(11)).collect();
    let d = decrypt(c.clone(), key.clone());
    assert_eq!(encrypt(d, key), c);
}

#[test]
fn block_fill_check() {
    assert!(fills_block(0));
    assert!(fills_block(1));
    assert!(fills_block(25));
    assert!(!fills_block(2));
    assert!(!fills_block(24));
    assert!(fills_block(2048 * 2048));
}

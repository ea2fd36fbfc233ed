use ciphers::affine;
use ciphers::alphabet::SubstitutionError;
use ciphers::analysis::{run_affine_plaintext, run_caesar_plaintext};
use ciphers::caesar;
use ciphers::config::{parse_config, Args, Cipher, Mode};

#[test]
fn caesar_encrypt_shifts_letters_only() {
    let ciphertext = caesar::encrypt("Hello, World!", 5).unwrap();
    assert_eq!(ciphertext, "Mjqqt, Btwqi!");
}

#[test]
fn caesar_encrypt_wraps_around() {
    assert_eq!(caesar::encrypt("XYZ xyz", 3).unwrap(), "ABC abc");
}

#[test]
fn caesar_decrypt_undoes_encrypt() {
    let plaintext = "The quick brown fox jumps over the lazy dog";
    for key in 1..=25 {
        let ciphertext = caesar::encrypt(plaintext, key).unwrap();
        assert_eq!(caesar::decrypt(&ciphertext, key).unwrap(), plaintext);
    }
}

#[test]
fn caesar_rejects_out_of_range_keys() {
    assert_eq!(caesar::encrypt("abc", 0), Err(SubstitutionError::InvalidKey));
    assert_eq!(caesar::encrypt("abc", 26), Err(SubstitutionError::InvalidKey));
    assert_eq!(caesar::decrypt("abc", 0), Err(SubstitutionError::InvalidKey));
    assert_eq!(caesar::decrypt("abc", -3), Err(SubstitutionError::InvalidKey));
}

#[test]
fn affine_gcd_values() {
    assert_eq!(affine::gcd(12, 18), 6);
    assert_eq!(affine::gcd(5, 26), 1);
    assert_eq!(affine::gcd(13, 26), 13);
    assert_eq!(affine::gcd(7, 0), 7);
}

#[test]
fn affine_inverse_values() {
    assert_eq!(affine::inverse(5, 26), Some(21));
    assert_eq!(affine::inverse(7, 26), Some(15));
    assert_eq!(affine::inverse(25, 26), Some(25));
    assert_eq!(affine::inverse(1, 26), Some(1));
    assert_eq!(affine::inverse(13, 26), None);
    assert_eq!(affine::inverse(0, 26), None);
}

#[test]
fn affine_encrypt_known_values() {
    let ciphertext = affine::encrypt("ATTACK at dawn", 5, 8).unwrap();
    assert_eq!(ciphertext, "IZZISG iz xiov");
}

#[test]
fn affine_decrypt_undoes_encrypt() {
    let plaintext = "Attack At Dawn, 05:00!";
    for a in [1, 3, 5, 7, 9, 11, 15, 17, 19, 21, 23, 25] {
        for b in [0, 1, 8, 25] {
            let ciphertext = affine::encrypt(plaintext, a, b).unwrap();
            assert_eq!(affine::decrypt(&ciphertext, a, b).unwrap(), plaintext);
        }
    }
}

#[test]
fn affine_rejects_non_invertible_multiplier() {
    assert_eq!(
        affine::encrypt("abc", 13, 4),
        Err(SubstitutionError::KeyNotInvertible)
    );
    assert_eq!(
        affine::encrypt("abc", 2, 0),
        Err(SubstitutionError::KeyNotInvertible)
    );
    assert_eq!(
        affine::decrypt("abc", 4, 7),
        Err(SubstitutionError::KeyNotInvertible)
    );
}

#[test]
fn caesar_known_plaintext_recovers_the_key() {
    let (key, decrypted) = run_caesar_plaintext("khoor zruog", "hello world").unwrap();
    assert_eq!(key, 3);
    assert_eq!(decrypted, "hello world");
}

#[test]
fn caesar_known_plaintext_rejects_length_mismatch() {
    assert_eq!(
        run_caesar_plaintext("abcd", "abc"),
        Err(SubstitutionError::LengthMismatch)
    );
}

#[test]
fn caesar_known_plaintext_rejects_inconsistent_keys() {
    // 'b' - 'a' = 1 but 'd' - 'b' = 2.
    assert_eq!(
        run_caesar_plaintext("bd", "ab"),
        Err(SubstitutionError::InconsistentKey)
    );
}

#[test]
fn caesar_known_plaintext_rejects_punctuation_mismatch() {
    assert_eq!(
        run_caesar_plaintext("khoor!zruog", "hello world"),
        Err(SubstitutionError::CharMismatch)
    );
}

#[test]
fn caesar_known_plaintext_needs_a_letter_pair() {
    assert_eq!(
        run_caesar_plaintext("12 34", "12 34"),
        Err(SubstitutionError::KeyNotFound)
    );
}

#[test]
fn caesar_known_plaintext_rejects_the_zero_key() {
    // Identical texts imply key 0, which decryption refuses.
    assert_eq!(
        run_caesar_plaintext("same", "same"),
        Err(SubstitutionError::InvalidKey)
    );
}

#[test]
fn affine_known_plaintext_recovers_the_key() {
    // "ATTACK at dawn" under (a, b) = (5, 8) starts with "IZ".
    let (a, b) = run_affine_plaintext("IZZISG iz xiov", "ATTACK at dawn").unwrap();
    assert_eq!((a, b), (5, 8));
}

#[test]
fn affine_known_plaintext_needs_two_pairs() {
    assert_eq!(
        run_affine_plaintext("a", "a"),
        Err(SubstitutionError::PairsNeeded)
    );
}

#[test]
fn affine_known_plaintext_rejects_non_invertible_difference() {
    // 'a' and 'c' differ by -2, which is not invertible modulo 26.
    assert_eq!(
        run_affine_plaintext("xy", "ac"),
        Err(SubstitutionError::KeyNotInvertible)
    );
}

#[test]
fn parse_config_picks_cipher_and_mode() {
    let config = parse_config(Args {
        caesar: true,
        affine: false,
        encrypt: false,
        decrypt: true,
        plaintext: false,
        ciphertext: false,
    });
    assert_eq!(config.cipher, Cipher::Caesar);
    assert_eq!(config.mode, Mode::Decrypt);

    let config = parse_config(Args {
        caesar: false,
        affine: true,
        encrypt: false,
        decrypt: false,
        plaintext: false,
        ciphertext: true,
    });
    assert_eq!(config.cipher, Cipher::Affine);
    assert_eq!(config.mode, Mode::Ciphertext);
}

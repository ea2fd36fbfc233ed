//! Command-line configuration for the substitution-cipher tool: which cipher
//! to run and in which mode. The flag set mirrors the command-line switches;
//! argument parsing itself stays outside the library.

use vstd::prelude::*;

verus! {

/// The command-line switches of the substitution-cipher tool.
#[derive(Debug, Clone, Copy, PartialEq, Eq, Structural)]
pub struct Args {
    /// Caesar cipher.
    pub caesar: bool,
    /// Affine cipher.
    pub affine: bool,
    /// Encryption mode.
    pub encrypt: bool,
    /// Decryption mode.
    pub decrypt: bool,
    /// Known-plaintext cryptanalysis.
    pub plaintext: bool,
    /// Ciphertext-only cryptanalysis.
    pub ciphertext: bool,
}

/// Which substitution cipher to run.
#[derive(Debug, Clone, Copy, PartialEq, Eq, Structural)]
pub enum Cipher {
    /// The Caesar shift cipher.
    Caesar,
    /// The affine cipher.
    Affine,
}

/// What to do with the chosen cipher.
#[derive(Debug, Clone, Copy, PartialEq, Eq, Structural)]
pub enum Mode {
    /// Encrypt a plaintext.
    Encrypt,
    /// Decrypt a ciphertext with a known key.
    Decrypt,
    /// Recover the key from a ciphertext and a known plaintext.
    Plaintext,
    /// Enumerate candidate decryptions of a bare ciphertext.
    Ciphertext,
}

/// The resolved configuration: one cipher, one mode.
#[derive(Debug, Clone, Copy, PartialEq, Eq, Structural)]
pub struct Config {
    /// The chosen cipher.
    pub cipher: Cipher,
    /// The chosen mode.
    pub mode: Mode,
}

/// Resolves the command-line switches into a configuration: the Caesar flag
/// wins over the affine one, and the modes are tried in the order encrypt,
/// decrypt, known-plaintext, ciphertext-only.
pub fn parse_config(args: Args) -> (c: Config)
    ensures
        c.cipher == (if args.caesar {
            Cipher::Caesar
        } else {
            Cipher::Affine
        }),
        c.mode == (if args.encrypt {
            Mode::Encrypt
        } else if args.decrypt {
            Mode::Decrypt
        } else if args.plaintext {
            Mode::Plaintext
        } else {
            Mode::Ciphertext
        }),
{
    let cipher = if args.caesar {
        Cipher::Caesar
    } else {
        Cipher::Affine
    };

    let mode = if args.encrypt {
        Mode::Encrypt
    } else if args.decrypt {
        Mode::Decrypt
    } else if args.plaintext {
        Mode::Plaintext
    } else {
        Mode::Ciphertext
    };

    Config { cipher, mode }
}

} // verus!

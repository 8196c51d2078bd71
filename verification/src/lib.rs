//! Small cryptographic building blocks: RSA and Rabin keys with a certificate
//! protocol on top, and beside them a block-cipher round, AES modes of
//! operation, message authentication codes and key derivation.

pub mod bignum;
pub mod block_cipher_round;
pub mod cert;
pub mod encmodes;
pub mod imito;
pub mod kdf;
pub mod numtheory;
pub mod primality;
pub mod primes;
pub mod primitives;
pub mod rabin;
pub mod rsa;
pub mod struct_u48;

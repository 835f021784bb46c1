//! Decryption of encrypted DS2 files.
pub mod aes;
pub mod aes_laws;
pub mod aes_tables;
pub mod block_decryptor;
pub mod digest;
pub mod ds2_encrypted;
pub mod ds2_laws;

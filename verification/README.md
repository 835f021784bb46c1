# dss-codec

Decoder for the Olympus DSS / DS2 and Grundig DSS dictation formats, written in Verus.

* `src/` is the verified library: container demuxers, the decryption of encrypted DS2
  files, the integer DSS SP decoder, and the bit-level parts of the DS2 and Grundig
  decoders. Every function states what it returns; laws that span functions are proof
  functions whose names start with `law_`.
* `app/` is the command line tool around it: files, floating-point synthesis, resampling
  and WAV output. The DS2 and Grundig decoders read their tables from a text file.
* `tests/` runs the library on concrete values.

The digests SHA-1 and SHA-384, from which keys are derived, come from the crates `sha1`
and `sha2`; `src/crypto/digest.rs` says what is taken on trust from them.

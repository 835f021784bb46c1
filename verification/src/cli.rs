//! What the command line decides: passwords, file names, and what is said of a file.
use crate::bytes;
use crate::crypto::ds2_encrypted;
use crate::crypto::ds2_encrypted::{KeyMode, ENCRYPTED_MAGIC};
use crate::demux;
use crate::demux::AudioFormat;
use crate::error::DecodeError;
use vstd::prelude::*;
use vstd::string::*;

verus! {

/// The bytes of the password to use, where there is one.
pub open spec fn chosen_password(cli_password: Option<&str>, env_password: Option<&str>) -> Option<
    Seq<u8>,
> {
    match (cli_password, env_password) {
        (Some(p), _) => Some(p.spec_bytes()),
        (None, Some(p)) => Some(p.spec_bytes()),
        (None, None) => None,
    }
}

/// The password to use: the one on the command line, else the one in the environment.
pub fn resolve_password(cli_password: Option<&str>, env_password: Option<&str>) -> (r: Option<
    Vec<u8>,
>)
    ensures
        match r {
            Some(v) => chosen_password(cli_password, env_password) == Some(v@),
            None => chosen_password(cli_password, env_password) is None,
        },
{
    match cli_password {
        Some(p) => Some(vstd::slice::slice_to_vec(p.as_bytes())),
        None => match env_password {
            Some(p) => Some(vstd::slice::slice_to_vec(p.as_bytes())),
            None => None,
        },
    }
}

/// A named output file is used.
pub open spec fn writes_to_named(named: bool, inputs: int) -> bool {
    named && inputs == 1
}

/// Whether a named output file is used: only for a single input.
pub fn uses_output_file(named: bool, inputs: usize) -> (r: bool)
    ensures
        r == writes_to_named(named, inputs as int),
{
    named && inputs == 1
}

/// The parts of a file name, with dots between them.
pub open spec fn dotted(stem: Seq<char>, ext: Seq<char>) -> Seq<char> {
    stem + "."@ + ext
}

/// The name of the decrypted file.
pub open spec fn decrypted_chars(stem: Seq<char>, ext: Option<Seq<char>>) -> Seq<char> {
    stem + ".decrypted."@ + (match ext {
        Some(ext) => ext,
        None => "bin"@,
    })
}

/// The characters of an optional text.
pub open spec fn chars(text: Option<&str>) -> Option<Seq<char>> {
    match text {
        Some(t) => Some(t@),
        None => None,
    }
}

/// The name of the decoded file.
pub fn output_name(stem: &str, ext: &str) -> (r: String)
    ensures
        r@ == dotted(stem@, ext@),
{
    stem.to_string().concat(".").concat(ext)
}

/// The name of the decrypted file. A file without extension gets `bin`.
pub fn decrypted_name(stem: &str, ext: Option<&str>) -> (r: String)
    ensures
        r@ == decrypted_chars(stem@, chars(ext)),
{
    let last: &str = match ext {
        Some(ext) => ext,
        None => "bin",
    };
    stem.to_string().concat(".decrypted.").concat(last)
}

/// What is said of a file.
pub enum Description {
    /// An encrypted file with a key of the given length.
    Encrypted(KeyMode),
    /// An encrypted file whose descriptor cannot be read.
    EncryptedFault(DecodeError),
    /// A file of a known format, with its samples per second.
    Known(AudioFormat, u32),
    /// Any other file.
    Unknown,
}

/// What is said of a file is right.
pub open spec fn fits(r: Description, data: Seq<u8>) -> bool {
    if bytes::begins_with(data, ENCRYPTED_MAGIC@) {
        match ds2_encrypted::descriptor_of(data) {
            Ok(d) => r == Description::Encrypted(d.mode),
            Err(fault) => r matches Description::EncryptedFault(e) && e@ == fault,
        }
    } else {
        match demux::format_of(data) {
            Some(format) => r == Description::Known(format, demux::rate_of(format)),
            None => r is Unknown,
        }
    }
}

/// Describes a file.
pub fn describe(data: &[u8]) -> (r: Description)
    ensures
        fits(r, data@),
{
    if bytes::has_magic(data, &ENCRYPTED_MAGIC) {
        return match ds2_encrypted::parse_decrypt_descriptor(data) {
            Ok(d) => Description::Encrypted(d.key_mode),
            Err(e) => Description::EncryptedFault(e),
        };
    }
    match demux::detect_format(data) {
        Some(format) => Description::Known(format, format.native_sample_rate()),
        None => Description::Unknown,
    }
}

/// The command line comes first: a password there is the one to use, whatever the
/// environment holds; without it, the environment's is, and without both there is none.
pub proof fn law_the_command_line_comes_first(p: &str, env_password: Option<&str>)
    ensures
        chosen_password(Some(p), env_password) == Some(p.spec_bytes()),
        chosen_password(None, Some(p)) == Some(p.spec_bytes()),
        chosen_password(None, None) is None,
{
}

/// Several inputs cannot go to one file: a name for the output counts for a single input
/// alone.
pub proof fn law_one_output_for_one_input(named: bool, inputs: int)
    ensures
        writes_to_named(named, inputs) ==> named && inputs == 1,
        writes_to_named(true, 1),
{
}

/// The name of the decoded file begins with the stem, ends in the extension, and has nothing
/// but one dot between them.
pub proof fn law_decoded_names(stem: Seq<char>, ext: Seq<char>)
    ensures
        ({
            let name = dotted(stem, ext);
            &&& name.len() == stem.len() + 1 + ext.len()
            &&& name.take(stem.len() as int) == stem
            &&& name[stem.len() as int] == '.'
            &&& name.skip(stem.len() as int + 1) == ext
        }),
{
    reveal_strlit(".");
    let name = dotted(stem, ext);
    assert(name.take(stem.len() as int) =~= stem);
    assert(name.skip(stem.len() as int + 1) =~= ext);
}

/// The name of the decrypted file begins with the stem and ends in the extension, or in `bin`
/// where there is none; between them stands `.decrypted.`. It is no name of a decoded file
/// with the same stem and extension.
pub proof fn law_decrypted_names(stem: Seq<char>, ext: Option<Seq<char>>)
    ensures
        ({
            let name = decrypted_chars(stem, ext);
            let n = stem.len() as int;
            &&& name.take(n) == stem
            &&& name.subrange(n, n + 11) == seq![
                '.',
                'd',
                'e',
                'c',
                'r',
                'y',
                'p',
                't',
                'e',
                'd',
                '.',
            ]
            &&& ext matches Some(e) ==> name.skip(n + 11) == e && name != dotted(stem, e)
            &&& ext is None ==> name.skip(n + 11) == seq!['b', 'i', 'n']
        }),
{
    reveal_strlit(".decrypted.");
    reveal_strlit("bin");
    reveal_strlit(".");
    let name = decrypted_chars(stem, ext);
    let n = stem.len() as int;
    assert(name.take(n) =~= stem);
    assert(name.subrange(n, n + 11) =~= ".decrypted."@);
    match ext {
        Some(e) => {
            assert(name.skip(n + 11) =~= e);
            assert(name.len() != dotted(stem, e).len());
        },
        None => {
            assert(name.skip(n + 11) =~= "bin"@);
        },
    }
}

/// What is said of a file: of one that begins with the mark of an encrypted file, its key
/// mode at 0x146, or why its descriptor cannot be read; of any other, its format with the
/// samples per second, or that it has none.
pub proof fn law_descriptions_fit(r: Description, data: Seq<u8>)
    requires
        fits(r, data),
    ensures
        ({
            let encrypted = data.len() >= 4 && data[0] == 3 && data[1] == 0x65 && data[2] == 0x6e
                && data[3] == 0x63;
            let mode = data[0x146] + 256 * data[0x147];
            match r {
                Description::Encrypted(m) => {
                    &&& encrypted
                    &&& data.len() >= 0x15c
                    &&& m is Aes128 <==> mode == 1
                    &&& m is Aes256 <==> mode == 2
                },
                Description::EncryptedFault(e) => {
                    &&& encrypted
                    &&& data.len() < 0x15c || (mode != 1 && mode != 2)
                    &&& e@ is EncryptedDs2
                },
                Description::Known(format, rate) => {
                    &&& !encrypted
                    &&& demux::format_of(data) == Some(format)
                    &&& rate == (match format {
                        AudioFormat::DssSp => 11025int,
                        AudioFormat::Ds2Sp => 12000,
                        _ => 16000,
                    })
                },
                Description::Unknown => !encrypted && demux::format_of(data) is None,
            }
        }),
{
    bytes::law_beginnings(data, ENCRYPTED_MAGIC@);
}

} // verus!

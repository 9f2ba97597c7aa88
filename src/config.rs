use vstd::prelude::*;
use base64::Engine;

verus! {

/// What a backup run is configured with.
#[derive(Debug, Clone)]
pub struct Config {
    pub source: SourceConfig,
    pub target: TargetConfig,
    pub backup: BackupConfig,
}

/// The share that is backed up and the credentials for it.
#[derive(Debug, Clone)]
pub struct SourceConfig {
    /// Share location, e.g. `\\server\share\path`.
    pub url: String,
    pub username: String,
    /// Plain text, or base64 after a `base64:` prefix.
    pub password: String,
}

/// Where blobs and the catalog go.
#[derive(Debug, Clone)]
pub struct TargetConfig {
    /// `rustltfs` (pipe into the tape writer process) or `tar` (a local archive).
    pub output_mode: String,
    pub rustltfs_path: String,
    /// Tape device for `rustltfs`, archive file for `tar`.
    pub tape_path: String,
    pub db_path: String,
}

/// How the run behaves.
#[derive(Debug, Clone)]
pub struct BackupConfig {
    pub parallel_threads: usize,
    /// Reserved; accepted from 0 to 22.
    pub compression_level: i32,
}

/// Why a configuration was refused.
#[derive(Debug, Clone, Copy, PartialEq, Eq)]
pub enum ConfigError {
    EmptyUrl,
    EmptyUsername,
    EmptyPassword,
    InvalidOutputMode,
    CompressionLevelOutOfRange,
    NoParallelThreads,
}

pub fn default_output_mode() -> (r: String)
    ensures
        r@ == "rustltfs"@,
{
    String::from_str("rustltfs")
}

pub fn default_rustltfs_path() -> (r: String)
    ensures
        r@ == "rustltfs"@,
{
    String::from_str("rustltfs")
}

pub fn default_tape_path() -> (r: String)
    ensures
        r@ == "tape_drive.tar"@,
{
    String::from_str("tape_drive.tar")
}

pub fn default_db_path() -> (r: String)
    ensures
        r@ == "backup_meta.redb"@,
{
    String::from_str("backup_meta.redb")
}

/// Relies on `num_cpus::get`: the number of logical CPUs this process may
/// use, documented to be at least one.
#[verifier::external_body]
fn logical_cpus() -> (r: usize)
    ensures
        r >= 1,
{
    num_cpus::get()
}

pub fn default_parallel_threads() -> (r: usize)
    ensures
        r >= 1,
{
    logical_cpus()
}

pub fn default_compression_level() -> (r: i32)
    ensures
        r == 3,
{
    3
}

impl Default for BackupConfig {
    fn default() -> (r: BackupConfig)
        ensures
            r.compression_level == 3,
            r.parallel_threads >= 1,
    {
        BackupConfig { parallel_threads: default_parallel_threads(), compression_level: default_compression_level() }
    }
}

/// The first rule a configuration breaks, checked in a fixed order, or none.
pub open spec fn config_error(c: Config) -> Option<ConfigError> {
    if c.source.url@.len() == 0 {
        Some(ConfigError::EmptyUrl)
    } else if c.source.username@.len() == 0 {
        Some(ConfigError::EmptyUsername)
    } else if c.source.password@.len() == 0 {
        Some(ConfigError::EmptyPassword)
    } else if c.target.output_mode@ != "rustltfs"@ && c.target.output_mode@ != "tar"@ {
        Some(ConfigError::InvalidOutputMode)
    } else if c.backup.compression_level < 0 || c.backup.compression_level > 22 {
        Some(ConfigError::CompressionLevelOutOfRange)
    } else if c.backup.parallel_threads == 0 {
        Some(ConfigError::NoParallelThreads)
    } else {
        None
    }
}

impl Config {
    /// Checks the values a run depends on.
    pub fn validate(&self) -> (r: Result<(), ConfigError>)
        ensures
            r is Ok <==> config_error(*self) is None,
            r matches Err(e) ==> config_error(*self) == Some(e),
    {
        if self.source.url.as_str().is_empty() {
            return Err(ConfigError::EmptyUrl);
        }
        if self.source.username.as_str().is_empty() {
            return Err(ConfigError::EmptyUsername);
        }
        if self.source.password.as_str().is_empty() {
            return Err(ConfigError::EmptyPassword);
        }
        let rustltfs = String::from_str("rustltfs");
        let tar = String::from_str("tar");
        if self.target.output_mode != rustltfs && self.target.output_mode != tar {
            return Err(ConfigError::InvalidOutputMode);
        }
        if self.backup.compression_level < 0 || self.backup.compression_level > 22 {
            return Err(ConfigError::CompressionLevelOutOfRange);
        }
        if self.backup.parallel_threads == 0 {
            return Err(ConfigError::NoParallelThreads);
        }
        Ok(())
    }

    /// The root of the tree to back up: the share location as given.
    pub fn get_backup_root(&self) -> (r: String)
        ensures
            r@ == self.source.url@,
    {
        self.source.url.clone()
    }
}

/// Standard base64 text (with padding) of a byte sequence.
pub uninterp spec fn base64_encoded(data: Seq<u8>) -> Seq<char>;

/// The bytes that standard base64 text decodes to, or `None` where the text
/// is not valid standard base64.
pub uninterp spec fn base64_decoded(text: Seq<u8>) -> Option<Seq<u8>>;

/// Relies on `base64::engine::general_purpose::STANDARD.encode`.
#[verifier::external_body]
fn base64_encode(data: &[u8]) -> (r: String)
    ensures
        r@ == base64_encoded(data@),
{
    base64::engine::general_purpose::STANDARD.encode(data)
}

/// The error of a failed base64 decoding.
#[verifier::external_type_specification]
#[verifier::external_body]
pub struct ExDecodeError(base64::DecodeError);

/// The error of a failed UTF-8 conversion.
#[verifier::external_type_specification]
#[verifier::external_body]
pub struct ExFromUtf8Error(std::string::FromUtf8Error);

/// Relies on `base64::engine::general_purpose::STANDARD.decode`: the decoded
/// bytes, or an error where the text is not valid standard base64.
#[verifier::external_body]
fn base64_decode(text: &[u8]) -> (r: Result<Vec<u8>, base64::DecodeError>)
    ensures
        r is Ok <==> base64_decoded(text@) is Some,
        r matches Ok(v) ==> base64_decoded(text@) == Some(v@),
{
    base64::engine::general_purpose::STANDARD.decode(text)
}

/// Relies on `String::from_utf8`: succeeds exactly on well-formed UTF-8,
/// keeping the characters it encodes.
#[verifier::external_body]
fn string_from_utf8(bytes: Vec<u8>) -> (r: Result<String, std::string::FromUtf8Error>)
    ensures
        r is Ok <==> vstd::utf8::valid_utf8(bytes@),
        r matches Ok(s) ==> s@ == vstd::utf8::decode_utf8(bytes@),
{
    String::from_utf8(bytes)
}

/// The marker in front of an encoded password.
pub open spec fn password_marker() -> Seq<char> {
    "base64:"@
}

/// Text stored in a configuration file for `password`.
pub fn encode_password(password: &str) -> (r: String)
    ensures
        r@ == password_marker() + base64_encoded(vstd::utf8::encode_utf8(password@)),
{
    let encoded = base64_encode(password.as_bytes());
    proof {
        reveal_strlit("base64:");
    }
    String::from_str("base64:").concat(encoded.as_str())
}

/// Why a stored password could not be read back.
#[derive(Debug, Clone, Copy, PartialEq, Eq)]
pub enum PasswordError {
    InvalidBase64,
    NotUtf8,
}

/// The password that stored text stands for.
pub open spec fn password_of(text: Seq<char>) -> Result<Seq<char>, PasswordError> {
    let b = vstd::utf8::encode_utf8(text);
    let m = vstd::utf8::encode_utf8(password_marker());
    if b.len() >= m.len() && b.subrange(0, m.len() as int) == m {
        match base64_decoded(b.subrange(m.len() as int, b.len() as int)) {
            None => Err(PasswordError::InvalidBase64),
            Some(d) => if vstd::utf8::valid_utf8(d) {
                Ok(vstd::utf8::decode_utf8(d))
            } else {
                Err(PasswordError::NotUtf8)
            },
        }
    } else {
        Ok(text)
    }
}

/// Reads a stored password: base64 after the `base64:` marker, else the
/// text itself.
pub fn decode_password(password: &str) -> (r: Result<String, PasswordError>)
    ensures
        match (r, password_of(password@)) {
            (Ok(s), Ok(p)) => s@ == p,
            (Err(e), Err(f)) => e == f,
            _ => false,
        },
{
    let marker = "base64:";
    proof {
        reveal_strlit("base64:");
        vstd::string::is_ascii_spec_bytes(marker);
    }
    let m = marker.as_bytes();
    let b = password.as_bytes();
    assert(m@ == vstd::utf8::encode_utf8(password_marker()));
    if b.len() < m.len() {
        return Ok(password.to_owned());
    }
    let mut i: usize = 0;
    while i < m.len()
        invariant
            i <= m@.len(),
            m@.len() <= b@.len(),
            m@ == vstd::utf8::encode_utf8(password_marker()),
            b@ == vstd::utf8::encode_utf8(password@),
            forall|j: int| 0 <= j < i ==> b@[j] == m@[j],
        decreases m@.len() - i,
    {
        if b[i] != m[i] {
            assert(b@.subrange(0, m@.len() as int)[i as int] != m@[i as int]);
            return Ok(password.to_owned());
        }
        i = i + 1;
    }
    assert(b@.subrange(0, m@.len() as int) =~= m@);
    let mut rest: Vec<u8> = Vec::new();
    let mut k: usize = m.len();
    while k < b.len()
        invariant
            m@.len() <= k <= b@.len(),
            rest@ == b@.subrange(m@.len() as int, k as int),
        decreases b@.len() - k,
    {
        rest.push(b[k]);
        assert(b@.subrange(m@.len() as int, k as int + 1) =~= b@.subrange(m@.len() as int, k as int).push(
            b@[k as int],
        ));
        k = k + 1;
    }
    match base64_decode(rest.as_slice()) {
        Err(_) => Err(PasswordError::InvalidBase64),
        Ok(d) => match string_from_utf8(d) {
            Err(_) => Err(PasswordError::NotUtf8),
            Ok(s) => Ok(s),
        },
    }
}

} // verus!

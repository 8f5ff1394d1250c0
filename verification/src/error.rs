use vstd::prelude::*;

verus! {

/// `std::io::Error` is carried through the library unchanged inside
/// [`CryptError::FileAccess`]; the library never looks inside it.
#[verifier::external_type_specification]
#[verifier::external_body]
pub struct ExIoError(std::io::Error);

/// Every failure the tool can report.
#[derive(Debug)]
pub enum CryptError {
    WrongPassword,
    CorruptedFile(String),
    InvalidKdfParameters(String),
    FileAccess(std::io::Error),
    CliArgument(String),
    MemoryLock(String),
    Crypto(String),
    InvalidCipher(String),
    UnsupportedVersion(u32),
}

/// The mathematical value of a [`CryptError`]: the variant and its message.
pub enum CryptErrorView {
    WrongPassword,
    CorruptedFile(Seq<char>),
    InvalidKdfParameters(Seq<char>),
    FileAccess,
    CliArgument(Seq<char>),
    MemoryLock(Seq<char>),
    Crypto(Seq<char>),
    InvalidCipher(Seq<char>),
    UnsupportedVersion(u32),
}

impl View for CryptError {
    type V = CryptErrorView;

    open spec fn view(&self) -> CryptErrorView {
        match self {
            CryptError::WrongPassword => CryptErrorView::WrongPassword,
            CryptError::CorruptedFile(m) => CryptErrorView::CorruptedFile(m@),
            CryptError::InvalidKdfParameters(m) => CryptErrorView::InvalidKdfParameters(m@),
            CryptError::FileAccess(_) => CryptErrorView::FileAccess,
            CryptError::CliArgument(m) => CryptErrorView::CliArgument(m@),
            CryptError::MemoryLock(m) => CryptErrorView::MemoryLock(m@),
            CryptError::Crypto(m) => CryptErrorView::Crypto(m@),
            CryptError::InvalidCipher(m) => CryptErrorView::InvalidCipher(m@),
            CryptError::UnsupportedVersion(v) => CryptErrorView::UnsupportedVersion(*v),
        }
    }
}

/// The process exit status that belongs to each kind of error.
pub open spec fn spec_exit_code(e: CryptErrorView) -> i32 {
    match e {
        CryptErrorView::WrongPassword => 1,
        CryptErrorView::CorruptedFile(_) => 2,
        CryptErrorView::InvalidKdfParameters(_) => 3,
        CryptErrorView::FileAccess => 4,
        CryptErrorView::CliArgument(_) => 5,
        CryptErrorView::MemoryLock(_) => 5,
        CryptErrorView::Crypto(_) => 2,
        CryptErrorView::InvalidCipher(_) => 5,
        CryptErrorView::UnsupportedVersion(_) => 2,
    }
}

impl CryptError {
    /// Exit status: 1 wrong password, 2 corrupted input or crypto failure,
    /// 3 bad KDF parameters, 4 file access, 5 usage errors.
    pub fn exit_code(&self) -> (code: i32)
        ensures
            code == spec_exit_code(self@),
    {
        match self {
            CryptError::WrongPassword => 1,
            CryptError::CorruptedFile(_) => 2,
            CryptError::InvalidKdfParameters(_) => 3,
            CryptError::FileAccess(_) => 4,
            CryptError::CliArgument(_) => 5,
            CryptError::MemoryLock(_) => 5,
            CryptError::Crypto(_) => 2,
            CryptError::InvalidCipher(_) => 5,
            CryptError::UnsupportedVersion(_) => 2,
        }
    }
}

/// Builds `CorruptedFile(message)`.
pub(crate) fn corrupted(message: &str) -> (e: CryptError)
    ensures
        e@ == CryptErrorView::CorruptedFile(message@),
{
    CryptError::CorruptedFile(String::from_str(message))
}

/// Builds `Crypto(message)`.
pub(crate) fn crypto_error(message: &str) -> (e: CryptError)
    ensures
        e@ == CryptErrorView::Crypto(message@),
{
    CryptError::Crypto(String::from_str(message))
}

} // verus!

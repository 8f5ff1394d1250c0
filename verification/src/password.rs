use vstd::prelude::*;

use crate::error::{CryptError, CryptErrorView};
use crate::memory::{utf8_bytes, wipe_string, SecureString};
use crate::text::{join3, str_eq, str_starts_with};

verus! {

/// Where the password is to be read from.
#[derive(Debug)]
pub enum PasswordSource {
    /// The terminal; asked twice when confirmation is required.
    Stdin { require_confirmation: bool },
    /// The environment variable of this name.
    Env(String),
    /// The file at this path.
    File(String),
}

/// The value of a [`PasswordSource`].
pub enum PasswordSourceView {
    Stdin { require_confirmation: bool },
    Env(Seq<char>),
    File(Seq<char>),
}

impl View for PasswordSource {
    type V = PasswordSourceView;

    open spec fn view(&self) -> PasswordSourceView {
        match self {
            PasswordSource::Stdin { require_confirmation } => PasswordSourceView::Stdin {
                require_confirmation: *require_confirmation,
            },
            PasswordSource::Env(v) => PasswordSourceView::Env(v@),
            PasswordSource::File(p) => PasswordSourceView::File(p@),
        }
    }
}

pub open spec fn seq_starts_with(s: Seq<char>, prefix: Seq<char>) -> bool {
    prefix.len() <= s.len() && s.subrange(0, prefix.len() as int) == prefix
}

/// How a `--passin` value is read: `stdin`, `env:VAR` or `file:PATH`.
pub open spec fn passin_source(passin: Seq<char>, require_confirmation: bool) -> Result<
    PasswordSourceView,
    CryptErrorView,
> {
    if passin == "stdin"@ {
        Ok(PasswordSourceView::Stdin { require_confirmation })
    } else if seq_starts_with(passin, "env:"@) {
        Ok(PasswordSourceView::Env(passin.subrange(4, passin.len() as int)))
    } else if seq_starts_with(passin, "file:"@) {
        Ok(PasswordSourceView::File(passin.subrange(5, passin.len() as int)))
    } else {
        Err(
            CryptErrorView::CliArgument(
                "Invalid passin format: "@ + passin
                    + ". Must be 'stdin', 'env:VAR', or 'file:PATH'"@,
            ),
        )
    }
}

/// How `--passin` values map to sources, over all values: `stdin` is the
/// terminal, asked for a confirmation exactly when the caller requires one;
/// `env:VAR` is the variable `VAR` and `file:PATH` the file `PATH`, whatever
/// the confirmation flag; and the flag changes nothing but the terminal
/// case.
pub proof fn lemma_passin_sources(rest: Seq<char>, passin: Seq<char>, require_confirmation: bool)
    ensures
        passin_source("stdin"@, require_confirmation) == Ok::<PasswordSourceView, CryptErrorView>(
            PasswordSourceView::Stdin { require_confirmation },
        ),
        passin_source("env:"@ + rest, require_confirmation) == Ok::<
            PasswordSourceView,
            CryptErrorView,
        >(PasswordSourceView::Env(rest)),
        passin_source("file:"@ + rest, require_confirmation) == Ok::<
            PasswordSourceView,
            CryptErrorView,
        >(PasswordSourceView::File(rest)),
        passin != "stdin"@ ==> passin_source(passin, true) == passin_source(passin, false),
{
    reveal_strlit("stdin");
    reveal_strlit("env:");
    reveal_strlit("file:");
    let e = "env:"@ + rest;
    let f = "file:"@ + rest;
    assert(e[0] != "stdin"@[0]);
    assert(f[0] != "stdin"@[0]);
    assert(e != "stdin"@);
    assert(f != "stdin"@);
    assert(e.subrange(0, 4) =~= "env:"@);
    assert(e.subrange(4, e.len() as int) =~= rest);
    assert(f.subrange(0, 4) != "env:"@) by {
        assert(f.subrange(0, 4)[0] != "env:"@[0]);
    }
    assert(f.subrange(0, 5) =~= "file:"@);
    assert(f.subrange(5, f.len() as int) =~= rest);
}

/// Decides where the password comes from; reading it is up to the caller,
/// which then hands what it read to [`password_from_stdin`],
/// [`password_from_env`] or [`password_from_file`].
pub fn get_password(passin: &str, require_confirmation: bool) -> (r: Result<
    PasswordSource,
    CryptError,
>)
    ensures
        match passin_source(passin@, require_confirmation) {
            Ok(s) => r matches Ok(src) && src@ == s,
            Err(e) => r matches Err(err) && err@ == e,
        },
{
    proof {
        reveal_strlit("env:");
        reveal_strlit("file:");
    }
    if str_eq(passin, "stdin") {
        Ok(PasswordSource::Stdin { require_confirmation })
    } else if str_starts_with(passin, "env:") {
        let var_name = passin.substring_char(4, passin.unicode_len());
        Ok(PasswordSource::Env(String::from_str(var_name)))
    } else if str_starts_with(passin, "file:") {
        let file_path = passin.substring_char(5, passin.unicode_len());
        Ok(PasswordSource::File(String::from_str(file_path)))
    } else {
        Err(
            CryptError::CliArgument(
                join3(
                    "Invalid passin format: ",
                    passin,
                    ". Must be 'stdin', 'env:VAR', or 'file:PATH'",
                ),
            ),
        )
    }
}

fn cli_error(message: &str) -> (e: CryptError)
    ensures
        e@ == CryptErrorView::CliArgument(message@),
{
    CryptError::CliArgument(String::from_str(message))
}

/// Checks a password typed at the terminal, with its confirmation when one
/// was asked for: the two must match and the password must not be empty.
/// Both strings are zeroized.
pub fn password_from_stdin(password: String, confirmation: Option<String>) -> (r: Result<
    SecureString,
    CryptError,
>)
    ensures
        (confirmation matches Some(c) && c@ != password@) ==> (r matches Err(e) && e@
            == CryptErrorView::CliArgument("Passwords do not match"@)),
        !(confirmation matches Some(c) && c@ != password@) && password@.len() == 0 ==> (r matches Err(
            e,
        ) && e@ == CryptErrorView::CliArgument("Password cannot be empty"@)),
        !(confirmation matches Some(c) && c@ != password@) && password@.len() > 0 ==> (r matches Ok(
            s,
        ) && s@ == utf8_bytes(password@)),
{
    let mut password = password;
    if let Some(confirmation) = confirmation {
        let mut confirmation = confirmation;
        let matches = str_eq(password.as_str(), confirmation.as_str());
        wipe_string(&mut confirmation);
        if !matches {
            wipe_string(&mut password);
            return Err(cli_error("Passwords do not match"));
        }
    }
    if password.as_str().is_empty() {
        return Err(cli_error("Password cannot be empty"));
    }
    Ok(SecureString::new(password))
}

/// Checks a password taken from an environment variable (`None` when the
/// variable is not set or not valid Unicode).
pub fn password_from_env(var_name: &str, value: Option<String>) -> (r: Result<
    SecureString,
    CryptError,
>)
    ensures
        value is None ==> (r matches Err(e) && e@ == CryptErrorView::CliArgument(
            "Environment variable "@ + var_name@ + " not found"@,
        )),
        (value matches Some(v) && v@.len() == 0) ==> (r matches Err(e) && e@
            == CryptErrorView::CliArgument("Password from environment cannot be empty"@)),
        (value matches Some(v) && v@.len() > 0) ==> (r matches Ok(s) && s@ == utf8_bytes(
            value->0@,
        )),
{
    match value {
        None => Err(CryptError::CliArgument(join3("Environment variable ", var_name, " not found"))),
        Some(password) => {
            if password.as_str().is_empty() {
                return Err(cli_error("Password from environment cannot be empty"));
            }
            Ok(SecureString::new(password))
        },
    }
}

/// The bytes of a password file without one trailing line ending (`\n` or
/// `\r\n`).
pub open spec fn trim_line_end(b: Seq<u8>) -> Seq<u8> {
    if b.len() > 0 && b.last() == 0x0Au8 {
        let b1 = b.drop_last();
        if b1.len() > 0 && b1.last() == 0x0Du8 {
            b1.drop_last()
        } else {
            b1
        }
    } else {
        b
    }
}

/// Takes the password out of the contents of a password file: one trailing
/// line ending is dropped, and what is left must not be empty. The contents
/// are zeroized.
pub fn password_from_file(contents: String) -> (r: Result<SecureString, CryptError>)
    ensures
        trim_line_end(utf8_bytes(contents@)).len() == 0 ==> (r matches Err(e) && e@
            == CryptErrorView::CliArgument("Password from file cannot be empty"@)),
        trim_line_end(utf8_bytes(contents@)).len() > 0 ==> (r matches Ok(s) && s@ == trim_line_end(
            utf8_bytes(contents@),
        )),
{
    let mut contents = contents;
    let mut bytes = contents.as_str().as_bytes_vec();
    wipe_string(&mut contents);
    let n = bytes.len();
    if n > 0 && bytes[n - 1] == 0x0Au8 {
        bytes.pop();
        let m = bytes.len();
        if m > 0 && bytes[m - 1] == 0x0Du8 {
            bytes.pop();
        }
    }
    if bytes.len() == 0 {
        return Err(cli_error("Password from file cannot be empty"));
    }
    Ok(SecureString::from_bytes(bytes))
}

} // verus!

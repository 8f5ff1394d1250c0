use cryptman::error::CryptError;
use cryptman::password::{
    get_password, password_from_env, password_from_file, password_from_stdin, PasswordSource,
};

fn cli_message<T>(r: Result<T, CryptError>) -> String {
    match r {
        Err(CryptError::CliArgument(m)) => m,
        _ => panic!("expected a CLI argument error"),
    }
}

#[test]
fn passin_sources() {
    assert!(matches!(
        get_password("stdin", true).unwrap(),
        PasswordSource::Stdin { require_confirmation: true }
    ));
    match get_password("env:CRYPTMAN_TEST_PASSWORD", false).unwrap() {
        PasswordSource::Env(v) => assert_eq!(v, "CRYPTMAN_TEST_PASSWORD"),
        other => panic!("unexpected {:?}", other),
    }
    match get_password("file:/tmp/pw.txt", false).unwrap() {
        PasswordSource::File(p) => assert_eq!(p, "/tmp/pw.txt"),
        other => panic!("unexpected {:?}", other),
    }
    match get_password("env:", false).unwrap() {
        PasswordSource::Env(v) => assert_eq!(v, ""),
        other => panic!("unexpected {:?}", other),
    }
}

#[test]
fn bad_passin_is_refused() {
    assert_eq!(
        cli_message(get_password("pass:hunter2", false)),
        "Invalid passin format: pass:hunter2. Must be 'stdin', 'env:VAR', or 'file:PATH'"
    );
    assert!(get_password("STDIN", false).is_err());
}

#[test]
fn stdin_password_rules() {
    let pw = password_from_stdin("s3cret".to_string(), Some("s3cret".to_string())).unwrap();
    assert_eq!(pw.as_bytes(), b"s3cret");
    assert_eq!(
        cli_message(password_from_stdin("a".to_string(), Some("b".to_string()))),
        "Passwords do not match"
    );
    assert_eq!(
        cli_message(password_from_stdin(String::new(), None)),
        "Password cannot be empty"
    );
    assert_eq!(password_from_stdin("x".to_string(), None).unwrap().as_bytes(), b"x");
}

#[test]
fn env_password_rules() {
    assert_eq!(
        cli_message(password_from_env("PW", None)),
        "Environment variable PW not found"
    );
    assert_eq!(
        cli_message(password_from_env("PW", Some(String::new()))),
        "Password from environment cannot be empty"
    );
    let pw = password_from_env("PW", Some("héllo".to_string())).unwrap();
    assert_eq!(pw.as_bytes(), "héllo".as_bytes());
}

#[test]
fn file_password_loses_one_line_ending() {
    let b = |s: &str| password_from_file(s.to_string()).unwrap().as_bytes().to_vec();
    assert_eq!(b("pw\n"), b"pw".to_vec());
    assert_eq!(b("pw\r\n"), b"pw".to_vec());
    assert_eq!(b("pw\n\n"), b"pw\n".to_vec());
    assert_eq!(b("pw\r"), b"pw\r".to_vec());
    assert_eq!(b("pw"), b"pw".to_vec());
    assert_eq!(
        cli_message(password_from_file("\r\n".to_string())),
        "Password from file cannot be empty"
    );
    assert_eq!(
        cli_message(password_from_file(String::new())),
        "Password from file cannot be empty"
    );
}

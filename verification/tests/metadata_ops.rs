use sai3_bench::metadata_ops::AccessMode;

#[test]
fn test_access_mode_to_posix() {
    assert_eq!(AccessMode::Read.to_posix_mode(), libc::R_OK);
    assert_eq!(AccessMode::Write.to_posix_mode(), libc::W_OK);
    assert_eq!(AccessMode::Execute.to_posix_mode(), libc::X_OK);
    assert_eq!(AccessMode::Exists.to_posix_mode(), libc::F_OK);
}

#[test]
fn test_access_mode_from_str() {
    assert_eq!("read".parse::<AccessMode>().unwrap(), AccessMode::Read);
    assert_eq!("r".parse::<AccessMode>().unwrap(), AccessMode::Read);
    assert_eq!("write".parse::<AccessMode>().unwrap(), AccessMode::Write);
    assert_eq!("w".parse::<AccessMode>().unwrap(), AccessMode::Write);
    assert_eq!("execute".parse::<AccessMode>().unwrap(), AccessMode::Execute);
    assert_eq!("x".parse::<AccessMode>().unwrap(), AccessMode::Execute);
    assert_eq!("exists".parse::<AccessMode>().unwrap(), AccessMode::Exists);
    assert_eq!("e".parse::<AccessMode>().unwrap(), AccessMode::Exists);
    assert!("invalid".parse::<AccessMode>().is_err());
}

#[test]
fn test_access_mode_display() {
    assert_eq!(AccessMode::Read.as_str(), "read");
    assert_eq!(AccessMode::Write.as_str(), "write");
    assert_eq!(AccessMode::Execute.as_str(), "execute");
    assert_eq!(AccessMode::Exists.as_str(), "exists");
}

#[test]
fn access_mode_words_any_case() {
    assert_eq!(AccessMode::parse_word("READ").unwrap(), AccessMode::Read);
    assert_eq!(AccessMode::parse_word("F").unwrap(), AccessMode::Exists);
    let e = AccessMode::parse_word("rw").unwrap_err();
    assert_eq!(e.message(), "Invalid access mode: rw");
    for m in [AccessMode::Read, AccessMode::Write, AccessMode::Execute, AccessMode::Exists] {
        assert_eq!(AccessMode::parse_word(m.as_str()).unwrap(), m);
    }
}

use battleship::Cmd;
use battleship::CmdError;

#[test]
fn parse_exit_word() {
    assert_eq!(Cmd::try_from(b"exit"), Ok(Cmd::Exit));
}

#[test]
fn parse_attack_pairs() {
    assert_eq!(Cmd::try_from(b"a2"), Ok(Cmd::Attack(2, 0)));
    assert_eq!(Cmd::try_from(b"b8"), Ok(Cmd::Attack(8, 1)));
    assert_eq!(Cmd::try_from(b"j0"), Ok(Cmd::Attack(0, 9)));
}

#[test]
fn parse_wrong_length_is_undefined() {
    assert_eq!(Cmd::try_from(b""), Err(CmdError::Undefined));
    assert_eq!(Cmd::try_from(b"a"), Err(CmdError::Undefined));
    assert_eq!(Cmd::try_from(b"a23"), Err(CmdError::Undefined));
    assert_eq!(Cmd::try_from(b"quit"), Err(CmdError::Undefined));
}

#[test]
fn parse_bad_letter() {
    assert_eq!(Cmd::try_from(b"32"), Err(CmdError::BadLetter));
    assert_eq!(Cmd::try_from(b"A2"), Err(CmdError::BadLetter));
}

#[test]
fn parse_bad_digit() {
    assert_eq!(Cmd::try_from(b"ab"), Err(CmdError::BadDigit));
    assert_eq!(Cmd::try_from(b"a "), Err(CmdError::BadDigit));
}

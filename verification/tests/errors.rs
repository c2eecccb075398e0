use finder::error::{Error, IoErrorKind};
use finder::text::{owned, push_decimal};

#[test]
fn an_argument_error_is_its_message() {
    let error = Error::Args(String::from("unknown option"));
    assert_eq!(Error::handle(&error), "unknown option");
}

#[test]
fn a_channel_error_names_the_channel() {
    let error = Error::ChannelRecv(String::from("receiving on a closed channel"));
    assert_eq!(
        Error::handle(&error),
        "Channel Receiver Error: receiving on a closed channel"
    );
}

#[test]
fn an_api_error_shows_the_code_in_decimal() {
    assert_eq!(Error::handle(&Error::DrivesApi(0)), "Api Error: 0");
    assert_eq!(Error::handle(&Error::DrivesApi(5)), "Api Error: 5");
    assert_eq!(Error::handle(&Error::DrivesApi(1203)), "Api Error: 1203");
    assert_eq!(
        Error::handle(&Error::DrivesApi(u32::MAX)),
        "Api Error: 4294967295"
    );
}

#[test]
fn an_invalid_bitmask_has_a_fixed_line() {
    assert_eq!(
        Error::handle(&Error::DrivesInvalidNumberOfDrives),
        "Invalid Number of Drives."
    );
}

#[test]
fn an_io_error_shows_path_and_kind() {
    let error = Error::IO(IoErrorKind::PermissionDenied, String::from("root/secret"));
    assert_eq!(Error::handle(&error), "root/secret: permission denied");
    let error = Error::IO(IoErrorKind::NotFound, String::from("a"));
    assert_eq!(Error::handle(&error), "a: entity not found");
    let error = Error::IO(IoErrorKind::NotADirectory, String::from("a"));
    assert_eq!(Error::handle(&error), "a: not a directory");
    let error = Error::IO(IoErrorKind::IsADirectory, String::from("a"));
    assert_eq!(Error::handle(&error), "a: is a directory");
    let error = Error::IO(IoErrorKind::Other, String::from("a"));
    assert_eq!(Error::handle(&error), "a: other error");
}

#[test]
fn a_join_error_names_the_runtime() {
    let error = Error::TaskJoin(String::from("task 3 panicked"));
    assert_eq!(
        Error::handle(&error),
        "Tokio Error: Join Error: task 3 panicked"
    );
}

#[test]
fn decimal_numerals_are_appended() {
    let mut text = owned("n=");
    push_decimal(&mut text, 0);
    assert_eq!(text, "n=0");
    push_decimal(&mut text, 10);
    assert_eq!(text, "n=010");
    push_decimal(&mut text, 987_654_321);
    assert_eq!(text, "n=010987654321");
}

#[test]
fn kinds_have_their_words() {
    assert_eq!(IoErrorKind::NotFound.description(), "entity not found");
    assert_eq!(IoErrorKind::PermissionDenied.description(), "permission denied");
}

use rrg_codec::action::{dispatch, Action, DispatchError, DispatchErrorKind, ParseArgsError, ParseArgsErrorKind};

#[test]
fn known_actions_are_dispatched() {
    assert_eq!(dispatch("GetClientInfo").unwrap(), Action::GetClientInfo);
    assert_eq!(dispatch("Timeline").unwrap(), Action::Timeline);
    assert_eq!(dispatch("GetMemorySize").unwrap(), Action::GetMemorySize);
    assert_eq!(dispatch("EnumerateFilesystems").unwrap(), Action::EnumerateFilesystems);
}

#[test]
fn unknown_action_is_an_error_naming_it() {
    let error = dispatch("Foobar").unwrap_err();
    assert_eq!(error.kind, DispatchErrorKind::UnknownAction(String::from("Foobar")));
    assert!(error.cause.is_none());
    assert!(dispatch("timeline").is_err());
}

#[test]
fn parse_args_error_kinds_describe_themselves() {
    assert_eq!(ParseArgsErrorKind::InvalidProto.as_str(), "invalid serialized protobuf message");
    assert_eq!(ParseArgsErrorKind::InvalidField.as_str(), "invalid argument field");
}

#[test]
fn invalid_args_become_dispatch_errors() {
    let error = ParseArgsError::invalid_field(String::from("bad path"));
    assert_eq!(error.kind(), ParseArgsErrorKind::InvalidField);
    let dispatch_error = DispatchError::from(error);
    assert_eq!(dispatch_error.kind, DispatchErrorKind::InvalidArgs);
    assert_eq!(dispatch_error.cause.unwrap().kind(), ParseArgsErrorKind::InvalidField);
    assert_eq!(ParseArgsError::invalid_proto(String::from("x")).kind(), ParseArgsErrorKind::InvalidProto);
}

#[test]
fn errors_describe_themselves() {
    let unknown = dispatch("Foobar").unwrap_err();
    assert_eq!(unknown.message(), "unknown action 'Foobar'");
    let parse = ParseArgsError::invalid_field(String::from("bad path"));
    assert_eq!(parse.message(), "invalid argument field: bad path");
    let invalid = DispatchError::from(parse);
    assert_eq!(invalid.message(), "invalid action arguments: invalid argument field: bad path");
    assert_eq!(DispatchErrorKind::InvalidArgs.message(), "invalid action arguments");
}

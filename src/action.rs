//! Actions of the agent: which handler a request names, and the errors of
//! parsing a request's arguments and of dispatching it.

use vstd::prelude::*;

verus! {

/// The actions the agent can run.
#[derive(Clone, Copy, Debug, PartialEq, Eq, Hash, Structural)]
pub enum Action {
    GetClientInfo,
    ListDirectory,
    Timeline,
    ListNetworkConnections,
    GetFileStat,
    GetInstallDate,
    EnumerateInterfaces,
    EnumerateFilesystems,
    GetMemorySize,
}

/// The action a request names, by its name in the protocol.
pub open spec fn action_named(name: Seq<char>) -> Option<Action> {
    if name == "GetClientInfo"@ {
        Some(Action::GetClientInfo)
    } else if name == "ListDirectory"@ {
        Some(Action::ListDirectory)
    } else if name == "Timeline"@ {
        Some(Action::Timeline)
    } else if name == "ListNetworkConnections"@ {
        Some(Action::ListNetworkConnections)
    } else if name == "GetFileStat"@ {
        Some(Action::GetFileStat)
    } else if name == "GetInstallDate"@ {
        Some(Action::GetInstallDate)
    } else if name == "EnumerateInterfaces"@ {
        Some(Action::EnumerateInterfaces)
    } else if name == "EnumerateFilesystems"@ {
        Some(Action::EnumerateFilesystems)
    } else if name == "GetMemorySize"@ {
        Some(Action::GetMemorySize)
    } else {
        None
    }
}

/// Relies on String::push_str: `tail` appended to `s`.
#[verifier::external_body]
fn append(s: &mut String, tail: &str)
    ensures
        final(s)@ == old(s)@ + tail@,
{
    s.push_str(tail)
}

/// Kinds of errors that can happen when parsing action arguments.
#[derive(Clone, Copy, Debug, PartialEq, Eq, Hash, Structural)]
pub enum ParseArgsErrorKind {
    /// The serialized message with arguments was impossible to deserialize.
    InvalidProto,
    /// One of the fields of the arguments struct is invalid.
    InvalidField,
}

/// The description of a kind of argument parsing error.
pub open spec fn parse_kind_text(kind: ParseArgsErrorKind) -> Seq<char> {
    match kind {
        ParseArgsErrorKind::InvalidProto => "invalid serialized protobuf message"@,
        ParseArgsErrorKind::InvalidField => "invalid argument field"@,
    }
}

impl ParseArgsErrorKind {
    /// A short description of the kind.
    pub fn as_str(&self) -> (r: &'static str)
        ensures
            r@ == parse_kind_text(*self),
    {
        match *self {
            ParseArgsErrorKind::InvalidProto => "invalid serialized protobuf message",
            ParseArgsErrorKind::InvalidField => "invalid argument field",
        }
    }
}

/// The error of parsing action arguments: its kind and a description of what
/// caused it.
#[derive(Clone, Debug)]
pub struct ParseArgsError {
    kind: ParseArgsErrorKind,
    error: String,
}

impl View for ParseArgsError {
    type V = (ParseArgsErrorKind, Seq<char>);

    closed spec fn view(&self) -> (ParseArgsErrorKind, Seq<char>) {
        (self.kind, self.error@)
    }
}

impl ParseArgsError {
    /// An error caused by an invalid field, described by `error`.
    pub fn invalid_field(error: String) -> (r: ParseArgsError)
        ensures
            r@ == (ParseArgsErrorKind::InvalidField, error@),
    {
        ParseArgsError { kind: ParseArgsErrorKind::InvalidField, error }
    }

    /// An error caused by a message that does not deserialize, described by
    /// `error`.
    pub fn invalid_proto(error: String) -> (r: ParseArgsError)
        ensures
            r@ == (ParseArgsErrorKind::InvalidProto, error@),
    {
        ParseArgsError { kind: ParseArgsErrorKind::InvalidProto, error }
    }

    /// The kind of this error.
    pub fn kind(&self) -> (r: ParseArgsErrorKind)
        ensures
            r == self@.0,
    {
        self.kind
    }

    /// The error described in words: its kind, then what caused it.
    pub fn message(&self) -> (r: String)
        ensures
            r@ == parse_kind_text(self@.0) + ": "@ + self@.1,
    {
        let mut out = String::new();
        append(&mut out, self.kind.as_str());
        append(&mut out, ": ");
        append(&mut out, self.error.as_str());
        out
    }
}

/// Kinds of errors that can happen when dispatching an action.
#[derive(Clone, Debug, PartialEq, Eq, Hash)]
pub enum DispatchErrorKind {
    /// The action named is unknown or does not exist yet.
    UnknownAction(String),
    /// The action arguments were invalid.
    InvalidArgs,
}

/// The description of a kind of dispatch error.
pub open spec fn dispatch_kind_text(kind: DispatchErrorKind) -> Seq<char> {
    match kind {
        DispatchErrorKind::UnknownAction(name) => "unknown action '"@ + name@ + "'"@,
        DispatchErrorKind::InvalidArgs => "invalid action arguments"@,
    }
}

impl DispatchErrorKind {
    /// The kind described in words.
    pub fn message(&self) -> (r: String)
        ensures
            r@ == dispatch_kind_text(*self),
    {
        let mut out = String::new();
        match self {
            DispatchErrorKind::UnknownAction(name) => {
                append(&mut out, "unknown action '");
                append(&mut out, name.as_str());
                append(&mut out, "'");
            },
            DispatchErrorKind::InvalidArgs => {
                append(&mut out, "invalid action arguments");
            },
        }
        out
    }
}

/// The error of dispatching an action: its kind and, for invalid arguments,
/// the parse error behind it.
#[derive(Clone, Debug)]
pub struct DispatchError {
    pub kind: DispatchErrorKind,
    pub cause: Option<ParseArgsError>,
}

impl DispatchError {
    /// The error described in words: its kind, then its cause if it has one.
    pub fn message(&self) -> (r: String)
        ensures
            self.cause is None ==> r@ == dispatch_kind_text(self.kind),
            self.cause matches Some(c) ==> r@ == dispatch_kind_text(self.kind) + ": "@ + parse_kind_text(c@.0)
                + ": "@ + c@.1,
    {
        let mut out = self.kind.message();
        match &self.cause {
            Some(cause) => {
                let detail = cause.message();
                append(&mut out, ": ");
                append(&mut out, detail.as_str());
            },
            None => {},
        }
        out
    }
}

impl From<ParseArgsError> for DispatchError {
    fn from(error: ParseArgsError) -> (r: DispatchError) {
        DispatchError { kind: DispatchErrorKind::InvalidArgs, cause: Some(error) }
    }
}

impl vstd::std_specs::convert::FromSpecImpl<ParseArgsError> for DispatchError {
    open spec fn obeys_from_spec() -> bool {
        true
    }

    open spec fn from_spec(error: ParseArgsError) -> DispatchError {
        DispatchError { kind: DispatchErrorKind::InvalidArgs, cause: Some(error) }
    }
}

/// The action named `action_name`; an unknown name is an error that carries it.
pub fn dispatch(action_name: &str) -> (r: Result<Action, DispatchError>)
    ensures
        action_named(action_name@) matches Some(a) ==> r == Ok::<Action, DispatchError>(a),
        action_named(action_name@) is None ==> (r matches Err(e) && e.cause is None
            && (e.kind matches DispatchErrorKind::UnknownAction(n) && n@ == action_name@)),
{
    let name = action_name.to_owned();
    if name == "GetClientInfo".to_owned() {
        Ok(Action::GetClientInfo)
    } else if name == "ListDirectory".to_owned() {
        Ok(Action::ListDirectory)
    } else if name == "Timeline".to_owned() {
        Ok(Action::Timeline)
    } else if name == "ListNetworkConnections".to_owned() {
        Ok(Action::ListNetworkConnections)
    } else if name == "GetFileStat".to_owned() {
        Ok(Action::GetFileStat)
    } else if name == "GetInstallDate".to_owned() {
        Ok(Action::GetInstallDate)
    } else if name == "EnumerateInterfaces".to_owned() {
        Ok(Action::EnumerateInterfaces)
    } else if name == "EnumerateFilesystems".to_owned() {
        Ok(Action::EnumerateFilesystems)
    } else if name == "GetMemorySize".to_owned() {
        Ok(Action::GetMemorySize)
    } else {
        Err(DispatchError { kind: DispatchErrorKind::UnknownAction(name), cause: None })
    }
}

} // verus!

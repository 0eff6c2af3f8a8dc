//! The fifteen kinds of frame.

use vstd::prelude::*;
use vstd::string::*;
use crate::text::str_eq;

verus! {

/// The kind of a frame: the keyword on its first line.
#[derive(Debug, PartialEq, Eq, Clone, Copy, Structural)]
pub enum Command {
    Connect,
    Stomp,
    Connected,
    Send,
    Subscribe,
    Unsubscribe,
    Ack,
    Nack,
    Begin,
    Commit,
    Abort,
    Disconnect,
    Message,
    Receipt,
    Error,
}

/// The text of the error for a keyword that names no command.
pub open spec fn unknown_command(keyword: Seq<char>) -> Seq<char> {
    "invalid command: "@ + keyword
}

impl Command {
    /// The keyword of the command, upper case, as it stands on the wire.
    pub open spec fn name(self) -> Seq<char> {
        match self {
            Command::Connect => "CONNECT"@,
            Command::Stomp => "STOMP"@,
            Command::Connected => "CONNECTED"@,
            Command::Send => "SEND"@,
            Command::Subscribe => "SUBSCRIBE"@,
            Command::Unsubscribe => "UNSUBSCRIBE"@,
            Command::Ack => "ACK"@,
            Command::Nack => "NACK"@,
            Command::Begin => "BEGIN"@,
            Command::Commit => "COMMIT"@,
            Command::Abort => "ABORT"@,
            Command::Disconnect => "DISCONNECT"@,
            Command::Message => "MESSAGE"@,
            Command::Receipt => "RECEIPT"@,
            Command::Error => "ERROR"@,
        }
    }

    /// The command whose keyword is `keyword`, if there is one.
    pub open spec fn parse(keyword: Seq<char>) -> Option<Command> {
        if exists|c: Command| c.name() == keyword {
            Some(choose|c: Command| c.name() == keyword)
        } else {
            None
        }
    }

    /// The keyword of the command.
    pub fn as_str(&self) -> (s: &'static str)
        ensures
            s@ == self.name(),
    {
        match self {
            Command::Connect => "CONNECT",
            Command::Stomp => "STOMP",
            Command::Connected => "CONNECTED",
            Command::Send => "SEND",
            Command::Subscribe => "SUBSCRIBE",
            Command::Unsubscribe => "UNSUBSCRIBE",
            Command::Ack => "ACK",
            Command::Nack => "NACK",
            Command::Begin => "BEGIN",
            Command::Commit => "COMMIT",
            Command::Abort => "ABORT",
            Command::Disconnect => "DISCONNECT",
            Command::Message => "MESSAGE",
            Command::Receipt => "RECEIPT",
            Command::Error => "ERROR",
        }
    }

    /// The keyword of the command, as an owned string.
    pub fn to_string(&self) -> (s: String)
        ensures
            s@ == self.name(),
    {
        String::from_str(self.as_str())
    }

    /// The command that `s` is the keyword of.  The keywords are matched
    /// exactly: upper case, nothing before or after.  Any other text is
    /// refused with a message that quotes it.
    pub fn from_str(s: &str) -> (r: Result<Command, String>)
        ensures
            match r {
                Ok(c) => c.name() == s@,
                Err(text) => text@ == unknown_command(s@) && forall|c: Command|
                    #[trigger] c.name() != s@,
            },
    {
        if str_eq(s, "CONNECT") {
            Ok(Command::Connect)
        } else if str_eq(s, "STOMP") {
            Ok(Command::Stomp)
        } else if str_eq(s, "CONNECTED") {
            Ok(Command::Connected)
        } else if str_eq(s, "SEND") {
            Ok(Command::Send)
        } else if str_eq(s, "SUBSCRIBE") {
            Ok(Command::Subscribe)
        } else if str_eq(s, "UNSUBSCRIBE") {
            Ok(Command::Unsubscribe)
        } else if str_eq(s, "ACK") {
            Ok(Command::Ack)
        } else if str_eq(s, "NACK") {
            Ok(Command::Nack)
        } else if str_eq(s, "BEGIN") {
            Ok(Command::Begin)
        } else if str_eq(s, "COMMIT") {
            Ok(Command::Commit)
        } else if str_eq(s, "ABORT") {
            Ok(Command::Abort)
        } else if str_eq(s, "DISCONNECT") {
            Ok(Command::Disconnect)
        } else if str_eq(s, "MESSAGE") {
            Ok(Command::Message)
        } else if str_eq(s, "RECEIPT") {
            Ok(Command::Receipt)
        } else if str_eq(s, "ERROR") {
            Ok(Command::Error)
        } else {
            let mut text = String::from_str("invalid command: ");
            text.append(s);
            Err(text)
        }
    }
}

/// The fifteen keywords differ from each other, so a keyword names at most
/// one command, and parsing a command's keyword gives the command back.
pub proof fn lemma_names_distinct(a: Command, b: Command)
    ensures
        a.name() == b.name() ==> a == b,
        Command::parse(a.name()) == Some(a),
{
    reveal_strlit("CONNECT");
    reveal_strlit("STOMP");
    reveal_strlit("CONNECTED");
    reveal_strlit("SEND");
    reveal_strlit("SUBSCRIBE");
    reveal_strlit("UNSUBSCRIBE");
    reveal_strlit("ACK");
    reveal_strlit("NACK");
    reveal_strlit("BEGIN");
    reveal_strlit("COMMIT");
    reveal_strlit("ABORT");
    reveal_strlit("DISCONNECT");
    reveal_strlit("MESSAGE");
    reveal_strlit("RECEIPT");
    reveal_strlit("ERROR");
    if a.name() == b.name() {
        assert(a.name().len() == b.name().len());
        assert(a.name()[0] == b.name()[0]);
        assert(a.name()[1] == b.name()[1]);
        assert(a.name()[2] == b.name()[2]);
    }
    let c = choose|c: Command| c.name() == a.name();
    assert(c.name() == a.name());
    assert(c.name().len() == a.name().len());
    assert(c.name()[0] == a.name()[0]);
    assert(c.name()[1] == a.name()[1]);
    assert(c.name()[2] == a.name()[2]);
}

} // verus!

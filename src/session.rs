//! The decisions of one connection's supervisor: the first line names the
//! peer, each later line is a routing request, and the end of the stream
//! deregisters the peer.

use vstd::prelude::*;
use crate::parse::{parse, parse_line, RoutingRequest};

verus! {

/// What the supervisor asks the broker, or its connection, to do next.
pub enum Action {
    /// Register the peer under this name and start its writer.
    Register(String),
    /// Route this request.
    Route(RoutingRequest),
    /// Nothing: a line without a `:`, or input after the end.
    Skip,
    /// Deregister this name and wait for the peer's writer to finish.
    Deregister(String),
    /// The stream ended before a name arrived: tear the connection down with
    /// no registration.
    Disconnected,
}

/// The state of one connection: the name it announced, if any yet, and
/// whether its input has ended.
pub struct Session {
    name: Option<String>,
    ended: bool,
}

/// The mathematical content of a `Session`.
pub struct SessionView {
    pub name: Option<Seq<char>>,
    pub ended: bool,
}

impl View for Session {
    type V = SessionView;

    closed spec fn view(&self) -> SessionView {
        SessionView {
            name: match self.name {
                Some(n) => Some(n@),
                None => None,
            },
            ended: self.ended,
        }
    }
}

impl Session {
    /// A connection that has sent nothing yet.
    pub fn new() -> (r: Session)
        ensures
            r@ == (SessionView { name: None, ended: false }),
    {
        Session { name: None, ended: false }
    }

    /// A line arrived. The first one is the peer's name, taken as it is; each
    /// later one is parsed, and routed if it holds a `:`.
    pub fn on_line(&mut self, line: &str) -> (r: Action)
        ensures
            old(self)@.ended ==> r is Skip && final(self)@ == old(self)@,
            !old(self)@.ended && old(self)@.name is None ==> {
                &&& r is Register
                &&& r->Register_0@ == line@
                &&& final(self)@ == (SessionView { name: Some(line@), ended: false })
            },
            !old(self)@.ended && old(self)@.name is Some ==> {
                &&& final(self)@ == old(self)@
                &&& match parse(line@) {
                    Some(q) => r is Route && r->Route_0@ == q,
                    None => r is Skip,
                }
            },
    {
        if self.ended {
            return Action::Skip;
        }
        match self.name {
            None => {
                self.name = Some(String::from_str(line));
                Action::Register(String::from_str(line))
            },
            Some(_) => match parse_line(line) {
                Some(q) => Action::Route(q),
                None => Action::Skip,
            },
        }
    }

    /// The input ended, by a close or a read error.
    pub fn on_end(&mut self) -> (r: Action)
        ensures
            final(self)@ == (SessionView { name: old(self)@.name, ended: true }),
            old(self)@.ended ==> r is Skip,
            !old(self)@.ended ==> match old(self)@.name {
                None => r is Disconnected,
                Some(n) => r is Deregister && r->Deregister_0@ == n,
            },
    {
        if self.ended {
            return Action::Skip;
        }
        self.ended = true;
        match &self.name {
            None => Action::Disconnected,
            Some(n) => Action::Deregister(n.clone()),
        }
    }

    /// Whether the input has ended.
    pub fn is_ended(&self) -> (r: bool)
        ensures
            r == self@.ended,
    {
        self.ended
    }
}

} // verus!

//! The protocol client's decisions: which remote call to make, how a reply is
//! classified, and when a call is retried. The caller performs each call and hands
//! the reply back.

use vstd::prelude::*;
use crate::error::BofhError;
use crate::catalogue::{build_schema, catalogue_of, catalogue_table};
use crate::schema::{opt_text, schema_table, RawValue, Schema};
use crate::text::{has_prefix, suffix_after, texts};

verus! {

/// A remote call: the method name and its string parameters.
#[derive(Debug)]
pub struct RemoteCall {
    /// The remote method name.
    pub method: String,
    /// The parameters, in order.
    pub params: Vec<String>,
}

/// What the transport reports for one call.
#[derive(Debug)]
pub enum Reply {
    /// The call returned a value.
    Value(RawValue),
    /// The server answered with a fault, with its fault string.
    Fault(String),
    /// The transport failed, with its message.
    Transport(String),
}

/// What follows a reply.
#[derive(Debug)]
pub enum Step {
    /// Make the same call again.
    Retry,
    /// The call is over, with its outcome.
    Done(Result<RawValue, BofhError>),
}

/// The text after prefix `p`, where `s` starts with it.
pub open spec fn strip(s: Seq<char>, p: Seq<char>) -> Option<Seq<char>> {
    if p.is_prefix_of(s) {
        Some(s.skip(p.len() as int))
    } else {
        None
    }
}

/// The namespace of the server's own fault kinds.
pub open spec fn bofhd_namespace() -> Seq<char> {
    "Cerebrum.modules.bofhd.errors."@
}

/// How a fault string is classified: `None` stands for a server restart; every other
/// fault becomes an error.
pub open spec fn fault_outcome(f: Seq<char>, r: Option<BofhError>) -> bool {
    match strip(f, bofhd_namespace()) {
        Some(rest) => match strip(rest, "CerebrumError:"@) {
            Some(msg) => r matches Some(BofhError::CerebrumError(m)) && m@ == msg,
            None => if strip(rest, "ServerRestartedError:"@) is Some {
                r is None
            } else if strip(rest, "SessionExpiredError:"@) is Some {
                r matches Some(BofhError::SessionExpiredError)
            } else {
                r matches Some(BofhError::Fault(m)) && m@ == f
            },
        },
        None => match strip(f, "NotImplementedError:"@) {
            Some(msg) => r matches Some(BofhError::NotImplementedError(m)) && m@ == msg,
            None => r matches Some(BofhError::Fault(m)) && m@ == f,
        },
    }
}

fn strip_prefix(s: &str, p: &str) -> (r: Option<String>)
    ensures
        opt_text(r) == strip(s@, p@),
{
    if has_prefix(s, p) {
        Some(suffix_after(s, p.unicode_len()))
    } else {
        None
    }
}

/// Classifies a fault string; `None` for a server restart.
pub fn classify_fault(fault: &str) -> (r: Option<BofhError>)
    ensures
        fault_outcome(fault@, r),
{
    match strip_prefix(fault, "Cerebrum.modules.bofhd.errors.") {
        Some(rest) => {
            match strip_prefix(rest.as_str(), "CerebrumError:") {
                Some(msg) => Some(BofhError::CerebrumError(msg)),
                None => {
                    if has_prefix(rest.as_str(), "ServerRestartedError:") {
                        None
                    } else if has_prefix(rest.as_str(), "SessionExpiredError:") {
                        Some(BofhError::SessionExpiredError)
                    } else {
                        Some(BofhError::Fault(fault.to_owned()))
                    }
                },
            }
        },
        None => match strip_prefix(fault, "NotImplementedError:") {
            Some(msg) => Some(BofhError::NotImplementedError(msg)),
            None => Some(BofhError::Fault(fault.to_owned())),
        },
    }
}

/// The message given when the server keeps restarting.
pub open spec fn restart_message() -> Seq<char> {
    "Server restarted"@
}

/// Decides what follows a reply: a value or an error ends the call; a server restart
/// repeats it once, and ends it with a transport error if it comes again.
pub fn handle_reply(reply: Reply, retried: bool) -> (r: Step)
    ensures
        reply matches Reply::Value(v) ==> r matches Step::Done(Ok(x)) && x == v,
        reply matches Reply::Transport(m) ==> r matches Step::Done(Err(BofhError::XmlRpcError(x)))
            && x@ == m@,
        reply matches Reply::Fault(f) ==> {
            ||| exists|e: BofhError| fault_outcome(f@, Some(e)) && r == Step::Done(Err(e))
            ||| fault_outcome(f@, None) && !retried && r is Retry
            ||| fault_outcome(f@, None) && retried && (r matches Step::Done(
                Err(BofhError::XmlRpcError(x)),
            ) && x@ == restart_message())
        },
{
    match reply {
        Reply::Value(v) => Step::Done(Ok(v)),
        Reply::Transport(m) => Step::Done(Err(BofhError::XmlRpcError(m))),
        Reply::Fault(f) => match classify_fault(f.as_str()) {
            Some(e) => Step::Done(Err(e)),
            None => if retried {
                Step::Done(Err(BofhError::XmlRpcError("Server restarted".to_owned())))
            } else {
                Step::Retry
            },
        },
    }
}

/// The client of one bofhd server: its address, its message of the day, and the
/// session token once logged in.
pub struct Bofh {
    /// The URL of the bofhd server.
    pub url: String,
    /// The message of the day, once fetched.
    pub motd: Option<String>,
    /// The session token, once logged in; cleared on logout.
    pub session: Option<String>,
}

/// A call's method name and parameters, as texts.
pub open spec fn call_is(c: RemoteCall, method: Seq<char>, params: Seq<Seq<char>>) -> bool {
    c.method@ == method && texts(c.params@) == params
}

/// Copies a list of strings.
fn copy_all(v: &Vec<String>) -> (r: Vec<String>)
    ensures
        texts(r@) == texts(v@),
{
    let mut out: Vec<String> = Vec::new();
    let mut i: usize = 0;
    while i < v.len()
        invariant
            i <= v@.len(),
            texts(out@) == texts(v@).take(i as int),
        decreases v@.len() - i,
    {
        let ghost before = texts(out@);
        out.push(v[i].clone());
        assert(texts(out@) =~= before.push(v@[i as int]@));
        assert(texts(v@).take(i + 1) =~= before.push(v@[i as int]@));
        i = i + 1;
    }
    assert(texts(v@).take(v@.len() as int) =~= texts(v@));
    out
}

impl Bofh {
    /// The session token, if a session is established.
    pub open spec fn session_token(&self) -> Option<Seq<char>> {
        opt_text(self.session)
    }

    /// A client for the server at `url`, with no message of the day and no session yet.
    pub fn new(url: String) -> (r: Bofh)
        ensures
            r.url == url,
            r.motd is None,
            r.session_token() is None,
    {
        Bofh { url, motd: None, session: None }
    }

    /// A call that needs no session.
    fn run_raw_command(&self, command: &str, args: &Vec<String>) -> (r: RemoteCall)
        ensures
            call_is(r, command@, texts(args@)),
    {
        RemoteCall { method: command.to_owned(), params: copy_all(args) }
    }

    /// A call within the session: the session token comes first.
    fn run_raw_sess_command(&self, command: &str, args: &Vec<String>) -> (r: Result<
        RemoteCall,
        BofhError,
    >)
        ensures
            match self.session_token() {
                Some(t) => r matches Ok(c) && call_is(c, command@, seq![t] + texts(args@)),
                None => r matches Err(BofhError::NoSessionError),
            },
    {
        match &self.session {
            Some(session) => {
                let mut params: Vec<String> = Vec::new();
                params.push(session.clone());
                let mut i: usize = 0;
                assert(texts(params@) =~= seq![session@] + texts(args@).take(0));
                while i < args.len()
                    invariant
                        i <= args@.len(),
                        texts(params@) == seq![session@] + texts(args@).take(i as int),
                    decreases args@.len() - i,
                {
                    let ghost before = texts(params@);
                    params.push(args[i].clone());
                    assert(texts(params@) =~= before.push(args@[i as int]@));
                    assert(seq![session@] + texts(args@).take(i + 1) =~= before.push(
                        args@[i as int]@,
                    ));
                    i = i + 1;
                }
                assert(texts(args@).take(args@.len() as int) =~= texts(args@));
                Ok(RemoteCall { method: command.to_owned(), params })
            },
            None => Err(BofhError::NoSessionError),
        }
    }

    /// The call that fetches the message of the day; it needs no session.
    pub fn get_motd(&self) -> (r: RemoteCall)
        ensures
            call_is(r, "get_motd"@, Seq::empty()),
    {
        let none: Vec<String> = Vec::new();
        proof {
            assert(texts(none@) =~= Seq::<Seq<char>>::empty());
        }
        self.run_raw_command("get_motd", &none)
    }

    /// Takes what the `get_motd` call returned: the message must be a string.
    pub fn accept_motd(&mut self, value: RawValue) -> (r: Result<(), BofhError>)
        ensures
            final(self).url == old(self).url,
            final(self).session_token() == old(self).session_token(),
            value matches RawValue::Str(m) ==> r is Ok && final(self).motd == Some(m),
            !(value is Str) ==> (r matches Err(BofhError::InvalidResponse)) && final(self).motd
                == old(self).motd,
    {
        match value {
            RawValue::Str(m) => {
                self.motd = Some(m);
                Ok(())
            },
            _ => Err(BofhError::InvalidResponse),
        }
    }

    /// The call that logs `username` in. The password is consumed, so that it is not
    /// kept around.
    pub fn login(&mut self, username: &str, password: String) -> (r: RemoteCall)
        ensures
            *final(self) == *old(self),
            call_is(r, "login"@, seq![username@, password@]),
    {
        let mut params: Vec<String> = Vec::new();
        params.push(username.to_owned());
        params.push(password);
        assert(texts(params@) =~= seq![username@, password@]);
        RemoteCall { method: "login".to_owned(), params }
    }

    /// Takes what the `login` call returned, the session token, and gives the call
    /// that fetches the command catalogue.
    pub fn accept_login(&mut self, value: RawValue) -> (r: Result<RemoteCall, BofhError>)
        ensures
            final(self).url == old(self).url,
            final(self).motd == old(self).motd,
            value matches RawValue::Str(t) ==> final(self).session_token() == Some(t@) && (
            r matches Ok(c) && call_is(c, "get_commands"@, seq![t@])),
            !(value is Str) ==> (r matches Err(BofhError::InvalidResponse))
                && final(self).session_token() == old(self).session_token(),
    {
        match value {
            RawValue::Str(t) => {
                self.session = Some(t);
                let r = self.commands_call();
                assert(seq![t@] + texts(Seq::<String>::empty()) =~= seq![t@]);
                r
            },
            _ => Err(BofhError::InvalidResponse),
        }
    }

    /// The call that fetches the command catalogue within the session.
    pub fn commands_call(&self) -> (r: Result<RemoteCall, BofhError>)
        ensures
            match self.session_token() {
                Some(t) => r matches Ok(c) && call_is(c, "get_commands"@, seq![t]),
                None => r matches Err(BofhError::NoSessionError),
            },
    {
        let none: Vec<String> = Vec::new();
        proof {
            assert(texts(none@) =~= Seq::<Seq<char>>::empty());
            if let Some(t) = self.session_token() {
                assert(seq![t] + texts(none@) =~= seq![t]);
            }
        }
        self.run_raw_sess_command("get_commands", &none)
    }

    /// Builds the command schema from the catalogue that the `get_commands` call
    /// returned; a malformed catalogue is an invalid response.
    pub fn get_commands(&self, catalogue: &RawValue) -> (r: Result<Schema, BofhError>)
        ensures
            r is Ok <==> catalogue_of(*catalogue) is Some,
            r matches Ok(s) ==> s.wf() && schema_table(s@) == catalogue_table(
                catalogue_of(*catalogue)->0,
            ),
            r is Err ==> r matches Err(BofhError::InvalidResponse),
    {
        match build_schema(catalogue) {
            Some(s) => Ok(s),
            None => Err(BofhError::InvalidResponse),
        }
    }

    /// The call that runs `command` (a full command name) with `args` within the
    /// session.
    pub fn run_command(&self, command: &str, args: &Vec<String>) -> (r: Result<
        RemoteCall,
        BofhError,
    >)
        ensures
            match self.session_token() {
                Some(t) => r matches Ok(c) && call_is(
                    c,
                    "run_command"@,
                    seq![t, command@] + texts(args@),
                ),
                None => r matches Err(BofhError::NoSessionError),
            },
    {
        let mut all: Vec<String> = Vec::new();
        all.push(command.to_owned());
        let mut i: usize = 0;
        while i < args.len()
            invariant
                i <= args@.len(),
                texts(all@) == seq![command@] + texts(args@).take(i as int),
            decreases args@.len() - i,
        {
            let ghost before = texts(all@);
            all.push(args[i].clone());
            assert(texts(all@) =~= before.push(args@[i as int]@));
            assert(seq![command@] + texts(args@).take(i + 1) =~= before.push(args@[i as int]@));
            i = i + 1;
        }
        assert(texts(args@).take(args@.len() as int) =~= texts(args@));
        let r = self.run_raw_sess_command("run_command", &all);
        proof {
            if let Some(t) = self.session_token() {
                assert(seq![t] + texts(all@) =~= seq![t, command@] + texts(args@));
            }
        }
        r
    }

    /// Ends the session: gives the logout call where a session was established, and
    /// forgets the token either way.
    pub fn logout(&mut self) -> (r: Option<RemoteCall>)
        ensures
            final(self).url == old(self).url,
            final(self).motd == old(self).motd,
            final(self).session_token() is None,
            match old(self).session_token() {
                Some(t) => r matches Some(c) && call_is(c, "logout"@, seq![t]),
                None => r is None,
            },
    {
        let none: Vec<String> = Vec::new();
        let call = self.run_raw_sess_command("logout", &none);
        proof {
            assert(texts(none@) =~= Seq::<Seq<char>>::empty());
            if let Some(t) = self.session_token() {
                assert(seq![t] + texts(none@) =~= seq![t]);
            }
        }
        self.session = None;
        match call {
            Ok(c) => Some(c),
            Err(_) => None,
        }
    }
}

} // verus!

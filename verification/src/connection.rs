//! The per-client state machine: which terminals a connection owns, which id
//! the next terminal gets, and what each request asks the outside world to do.

use vstd::prelude::*;
use std::collections::HashMap;
use crate::protocol::{Command, Outgoing, Reply};
use crate::terminal::{b64_encode, base64_decoded, base64_error_text, decode_terminal_input, Base64Error};
use crate::text::{decimal, push_decimal, push_str};

verus! {

broadcast use vstd::std_specs::hash::group_hash_axioms;

/// Why a request failed inside the connection.
#[derive(Debug, Clone, Copy, PartialEq, Eq)]
pub enum ConnectionError {
    /// The request names a terminal this connection does not own.
    UnknownTerminal(u64),
    /// Terminal input was not valid Base64.
    InputDecode(Base64Error),
}

/// The text the client receives for `e`.
pub open spec fn connection_error_text(e: ConnectionError) -> Seq<char> {
    match e {
        ConnectionError::UnknownTerminal(id) => "unknown terminal "@ + decimal(id as nat),
        ConnectionError::InputDecode(d) => "decoding terminal input: "@ + base64_error_text(d),
    }
}

impl ConnectionError {
    /// The message sent back for this error.
    pub fn message(&self) -> (s: String)
        ensures
            s@ == connection_error_text(*self),
    {
        let mut s = String::new();
        match *self {
            ConnectionError::UnknownTerminal(id) => {
                push_str(&mut s, "unknown terminal ");
                push_decimal(&mut s, id);
            },
            ConnectionError::InputDecode(d) => {
                push_str(&mut s, "decoding terminal input: ");
                let m = d.message();
                push_str(&mut s, m.as_str());
            },
        }
        assert(s@ =~= connection_error_text(*self));
        s
    }
}

/// What the outside world has to do for a request.
pub enum Action<T> {
    /// Answer with the workspace's root and name.
    WorkspaceInfo,
    /// List the worktree entries under `path`.
    WorktreeEntries { path: String },
    /// Read the buffer at `path`.
    ReadBuffer { path: String },
    /// Start a shell in a pseudo-terminal of this size; on success hand the
    /// session to `add_terminal` under `terminal_id` and reply with the id.
    SpawnTerminal { terminal_id: u64, cols: u16, rows: u16 },
    /// Write these bytes to the terminal.
    WriteTerminal { terminal_id: u64, bytes: Vec<u8> },
    /// Resize the terminal.
    ResizeTerminal { terminal_id: u64, cols: u16, rows: u16 },
    /// The terminal was closed; dropping the session ends its shell. The
    /// reply is null.
    Closed { session: T },
    /// Reply with this error.
    Fail(ConnectionError),
}

/// One client's terminals and the id its next terminal gets.
pub struct Connection<T> {
    terminals: HashMap<u64, T>,
    next_terminal_id: u64,
}

/// Calls `HashMap::get_mut`: a mutable borrow of the value under `id`, if
/// any; writes through it update that entry.
#[verifier::external_body]
fn terminal_slot<'a, T>(m: &'a mut HashMap<u64, T>, id: u64) -> (r: Option<&'a mut T>)
    ensures
        match r {
            Some(v) => old(m)@.contains_key(id) && *v == old(m)@[id]
                && final(m)@ == old(m)@.insert(id, *final(v)),
            None => !old(m)@.contains_key(id) && final(m)@ == old(m)@,
        },
{
    m.get_mut(&id)
}

impl<T> Connection<T> {
    /// The live terminals by id.
    pub closed spec fn terminals(&self) -> Map<u64, T> {
        self.terminals@
    }

    /// The id the next terminal gets.
    pub closed spec fn next_id(&self) -> u64 {
        self.next_terminal_id
    }

    /// Ids start at 1 and every live terminal's id is below the next one, so
    /// a new terminal never takes a live id.
    pub closed spec fn wf(&self) -> bool {
        &&& self.next_terminal_id >= 1
        &&& forall|id: u64|
            #[trigger] self.terminals@.contains_key(id) ==> 1 <= id < self.next_terminal_id
    }

    /// What a well-formed connection guarantees: the next id is at least 1,
    /// every live terminal's id lies in `1..next_id`, so the next id is not
    /// live.
    pub proof fn lemma_live_ids_below_next(&self)
        requires
            self.wf(),
        ensures
            self.next_id() >= 1,
            forall|id: u64|
                #[trigger] self.terminals().contains_key(id) ==> 1 <= id < self.next_id(),
            !self.terminals().contains_key(self.next_id()),
    {
    }

    /// A connection with no terminals whose first terminal gets id 1.
    pub fn new() -> (c: Self)
        ensures
            c.wf(),
            c.terminals() == Map::<u64, T>::empty(),
            c.next_id() == 1,
    {
        Connection { terminals: HashMap::new(), next_terminal_id: 1 }
    }

    /// The id the next terminal gets.
    pub fn next_terminal_id(&self) -> (id: u64)
        ensures
            id == self.next_id(),
    {
        self.next_terminal_id
    }

    /// Whether a terminal with this id is live.
    pub fn has_terminal(&self, terminal_id: u64) -> (r: bool)
        ensures
            r == self.terminals().contains_key(terminal_id),
    {
        self.terminals.contains_key(&terminal_id)
    }

    /// The live terminal with this id, or `UnknownTerminal`.
    pub fn terminal(&mut self, terminal_id: u64) -> (r: Result<&mut T, ConnectionError>)
        requires
            old(self).wf(),
        ensures
            final(self).wf(),
            final(self).next_id() == old(self).next_id(),
            match r {
                Ok(t) => old(self).terminals().contains_key(terminal_id)
                    && *t == old(self).terminals()[terminal_id]
                    && final(self).terminals() == old(self).terminals().insert(terminal_id, *final(t)),
                Err(e) => !old(self).terminals().contains_key(terminal_id) && e
                    == ConnectionError::UnknownTerminal(terminal_id) && final(self).terminals()
                    == old(self).terminals(),
            },
    {
        match terminal_slot(&mut self.terminals, terminal_id) {
            Some(t) => Ok(t),
            None => Err(ConnectionError::UnknownTerminal(terminal_id)),
        }
    }

    /// Hands a spawned session to the connection under the id that
    /// `SpawnTerminal` gave.
    pub fn add_terminal(&mut self, terminal_id: u64, session: T)
        requires
            old(self).wf(),
            1 <= terminal_id < old(self).next_id(),
        ensures
            final(self).wf(),
            final(self).next_id() == old(self).next_id(),
            final(self).terminals() == old(self).terminals().insert(terminal_id, session),
    {
        self.terminals.insert(terminal_id, session);
    }

    /// Decides what a request needs: a terminal is created under the next
    /// id (the counter then advances, also when the spawn later fails),
    /// input is decoded from Base64, and input, resize and close on an id
    /// that is not live fail with `UnknownTerminal`.
    pub fn dispatch(&mut self, command: Command) -> (a: Action<T>)
        requires
            old(self).wf(),
            command is TerminalCreate ==> old(self).next_id() < u64::MAX,
        ensures
            final(self).wf(),
            final(self).next_id() == old(self).next_id() + if command is TerminalCreate {
                1int
            } else {
                0int
            },
            match command {
                Command::WorkspaceInfo => a is WorkspaceInfo && *final(self) == *old(self),
                Command::WorktreeEntries { path } => a == (Action::<T>::WorktreeEntries { path })
                    && *final(self) == *old(self),
                Command::BufferRead { path } => a == (Action::<T>::ReadBuffer { path })
                    && *final(self) == *old(self),
                Command::TerminalCreate { cols, rows } => {
                    &&& a == (Action::<T>::SpawnTerminal {
                        terminal_id: old(self).next_id(),
                        cols,
                        rows,
                    })
                    &&& !old(self).terminals().contains_key(old(self).next_id())
                    &&& final(self).next_id() == old(self).next_id() + 1
                    &&& final(self).terminals() == old(self).terminals()
                },
                Command::TerminalInput { terminal_id, data } => {
                    &&& *final(self) == *old(self)
                    &&& old(self).terminals().contains_key(terminal_id) ==> forall|w: Seq<u8>|
                        #[trigger] b64_encode(w) == data@ ==> (a matches Action::WriteTerminal {
                            terminal_id: id,
                            bytes,
                        } && id == terminal_id && bytes@ == w)
                    &&& if !old(self).terminals().contains_key(terminal_id) {
                        a == Action::<T>::Fail(ConnectionError::UnknownTerminal(terminal_id))
                    } else {
                        match base64_decoded(data@) {
                            Ok(bytes) => match a {
                                Action::WriteTerminal { terminal_id: id, bytes: b } => id
                                    == terminal_id && b@ == bytes,
                                _ => false,
                            },
                            Err(e) => a == Action::<T>::Fail(ConnectionError::InputDecode(e)),
                        }
                    }
                },
                Command::TerminalResize { terminal_id, cols, rows } => {
                    &&& *final(self) == *old(self)
                    &&& a == if old(self).terminals().contains_key(terminal_id) {
                        Action::<T>::ResizeTerminal { terminal_id, cols, rows }
                    } else {
                        Action::<T>::Fail(ConnectionError::UnknownTerminal(terminal_id))
                    }
                },
                Command::TerminalClose { terminal_id } => {
                    &&& final(self).next_id() == old(self).next_id()
                    &&& final(self).terminals() == old(self).terminals().remove(terminal_id)
                    &&& a == if old(self).terminals().contains_key(terminal_id) {
                        Action::<T>::Closed { session: old(self).terminals()[terminal_id] }
                    } else {
                        Action::<T>::Fail(ConnectionError::UnknownTerminal(terminal_id))
                    }
                },
            },
    {
        match command {
            Command::WorkspaceInfo => Action::WorkspaceInfo,
            Command::WorktreeEntries { path } => Action::WorktreeEntries { path },
            Command::BufferRead { path } => Action::ReadBuffer { path },
            Command::TerminalCreate { cols, rows } => {
                let terminal_id = self.next_terminal_id;
                self.next_terminal_id = self.next_terminal_id + 1;
                Action::SpawnTerminal { terminal_id, cols, rows }
            },
            Command::TerminalInput { terminal_id, data } => {
                if !self.terminals.contains_key(&terminal_id) {
                    return Action::Fail(ConnectionError::UnknownTerminal(terminal_id));
                }
                match decode_terminal_input(data.as_str()) {
                    Ok(bytes) => Action::WriteTerminal { terminal_id, bytes },
                    Err(e) => Action::Fail(ConnectionError::InputDecode(e)),
                }
            },
            Command::TerminalResize { terminal_id, cols, rows } => {
                if self.terminals.contains_key(&terminal_id) {
                    Action::ResizeTerminal { terminal_id, cols, rows }
                } else {
                    Action::Fail(ConnectionError::UnknownTerminal(terminal_id))
                }
            },
            Command::TerminalClose { terminal_id } => match self.terminals.remove(&terminal_id) {
                Some(session) => Action::Closed { session },
                None => Action::Fail(ConnectionError::UnknownTerminal(terminal_id)),
            },
        }
    }
}

/// The message that answers request `id`: its reply, or its error text.
pub fn respond(id: u64, result: Result<Reply, String>) -> (o: Outgoing)
    ensures
        o == match result {
            Ok(ok) => Outgoing::Response { id, ok },
            Err(error) => Outgoing::Error { id, error },
        },
{
    match result {
        Ok(ok) => Outgoing::Response { id, ok },
        Err(error) => Outgoing::Error { id, error },
    }
}

} // verus!

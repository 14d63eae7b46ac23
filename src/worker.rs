use vstd::prelude::*;

use crate::codec::{Step, Decoded, decode_message, decode_message_spec, encode, encode_spec};
use crate::command::{Cmd, Command, Error, Fault, interpret};
use crate::store::{Entry, Store, get_spec, set_spec};
use crate::value::{Tree, Value};

verus! {

pub open spec fn word_pong() -> Seq<u8> {
    seq![80u8, 79u8, 78u8, 71u8]
}

pub open spec fn word_ok() -> Seq<u8> {
    seq![79u8, 75u8]
}

/// The reply to a command run at time `now` on the table `m`, and the table after it.
pub open spec fn run_spec(m: Map<Seq<u8>, Entry>, c: Cmd, now: nat) -> (Tree, Map<Seq<u8>, Entry>) {
    match c {
        Cmd::Ping => (Tree::Str(word_pong()), m),
        Cmd::Echo(s) => (Tree::Str(s), m),
        Cmd::Get(k) => (match get_spec(m, k, now) {
            Some(v) => v,
            None => Tree::Nil,
        }, m),
        Cmd::SetKey(k, v, d) => (Tree::Str(word_ok()), set_spec(m, k, v, d)),
    }
}

/// A read leaves the table as it is, so reading again sees the same.
pub proof fn law_get_is_idempotent(m: Map<Seq<u8>, Entry>, key: Seq<u8>, now: nat)
    ensures
        run_spec(m, Cmd::Get(key), now).1 == m,
        run_spec(run_spec(m, Cmd::Get(key), now).1, Cmd::Get(key), now).0 == run_spec(m, Cmd::Get(key), now).0,
{
}

/// What the worker does with the bytes it holds, on the mathematical side.
pub enum Action {
    /// No whole request has arrived yet.
    NeedMore,
    /// A request took this many bytes; these bytes are its reply.
    Send(nat, Seq<u8>),
    /// A request took this many bytes and is dropped without a reply, for this reason.
    Drop(nat, Fault),
}

/// What the worker does with the bytes it holds.
#[derive(Debug, PartialEq, Eq)]
pub enum Reply {
    NeedMore,
    Send(usize, Vec<u8>),
    Drop(usize, Error),
}

impl Reply {
    pub open spec fn view(self) -> Action {
        match self {
            Reply::NeedMore => Action::NeedMore,
            Reply::Send(k, b) => Action::Send(k as nat, b@),
            Reply::Drop(k, e) => Action::Drop(k as nat, e@),
        }
    }
}

/// What the bytes `s`, received at time `now`, make of the table `m`: the
/// action, and the table after it.
pub open spec fn process_spec(m: Map<Seq<u8>, Entry>, s: Seq<u8>, now: nat) -> (Action, Map<Seq<u8>, Entry>) {
    match decode_message_spec(s) {
        Step::Incomplete => (Action::NeedMore, m),
        Step::Malformed(k) => (Action::Drop(k, Fault::Protocol), m),
        Step::Unit(t, k) => match interpret(t, now) {
            Ok(c) => (Action::Send(k, encode_spec(run_spec(m, c, now).0)), run_spec(m, c, now).1),
            Err(f) => (Action::Drop(k, f), m),
        },
    }
}

/// Runs a command at time `now` and gives its reply.
pub fn execute(store: &mut Store, command: Command, now: u64) -> (r: Value)
    requires
        old(store).wf(),
    ensures
        final(store).wf(),
        (r@, final(store)@) == run_spec(old(store)@, command@, now as nat),
{
    match command {
        Command::Ping => Value::String(vec![80u8, 79u8, 78u8, 71u8]),
        Command::Echo(s) => Value::String(s),
        Command::Get(k) => match store.get(&k, now) {
            Some(v) => v,
            None => Value::Nil,
        },
        Command::SetKey(k, v, d) => {
            store.set(k, v, d);
            Value::String(vec![79u8, 75u8])
        },
    }
}

/// The first request among the bytes a worker holds.
#[derive(Debug, PartialEq, Eq)]
pub enum Request {
    /// No whole request has arrived yet.
    NeedMore,
    /// A request took this many bytes and names this command.
    Run(usize, Command),
    /// A request took this many bytes and is dropped without a reply, for this reason.
    Drop(usize, Error),
}

/// The connection's side of the exchange: the bytes received and not yet
/// taken by a request.
pub struct Worker {
    pending: Vec<u8>,
}

impl Worker {
    pub closed spec fn view(self) -> Seq<u8> {
        self.pending@
    }

    /// A worker that holds no bytes.
    pub fn new() -> (r: Worker)
        ensures
            r@ == Seq::<u8>::empty(),
    {
        Worker { pending: Vec::new() }
    }

    /// Takes in bytes read from the connection.
    pub fn receive(&mut self, bytes: &[u8])
        ensures
            final(self)@ == old(self)@ + bytes@,
    {
        let mut i: usize = 0;
        let ghost before = self.pending@;
        while i < bytes.len()
            invariant
                0 <= i <= bytes@.len(),
                self.pending@ == before + bytes@.subrange(0, i as int),
            decreases bytes@.len() - i,
        {
            self.pending.push(bytes[i]);
            i = i + 1;
            assert(self.pending@ =~= before + bytes@.subrange(0, i as int));
        }
        assert(bytes@.subrange(0, i as int) =~= bytes@);
    }

    /// Drops the first `k` bytes held.
    fn consume(&mut self, k: usize)
        requires
            k <= old(self)@.len(),
        ensures
            final(self)@ == old(self)@.subrange(k as int, old(self)@.len() as int),
    {
        let mut rest: Vec<u8> = Vec::new();
        let mut i: usize = k;
        while i < self.pending.len()
            invariant
                k <= i <= self.pending@.len(),
                rest@ == self.pending@.subrange(k as int, i as int),
            decreases self.pending@.len() - i,
        {
            rest.push(self.pending[i]);
            i = i + 1;
            assert(rest@ =~= self.pending@.subrange(k as int, i as int));
        }
        self.pending = rest;
    }

    /// Takes the first request among the bytes held, received at time `now`,
    /// and interprets it, without touching the store. The bytes of the
    /// request are dropped, whether it names a command or not; while no whole
    /// request is held, nothing changes.
    pub fn take_request(&mut self, now: u64) -> (r: Request)
        ensures
            match r {
                Request::NeedMore => decode_message_spec(old(self)@) is Incomplete
                    && final(self)@ == old(self)@,
                Request::Run(k, c) => decode_message_spec(old(self)@) matches Step::Unit(t, k2)
                    && k2 == k as nat && interpret(t, now as nat) == Ok::<Cmd, Fault>(c@)
                    && k <= old(self)@.len()
                    && final(self)@ == old(self)@.subrange(k as int, old(self)@.len() as int),
                Request::Drop(k, e) => ((decode_message_spec(old(self)@) == Step::Malformed(k as nat) && e@ == Fault::Protocol)
                    || (decode_message_spec(old(self)@) matches Step::Unit(t, k2) && k2 == k as nat
                        && interpret(t, now as nat) == Err::<Cmd, Fault>(e@)))
                    && k <= old(self)@.len()
                    && final(self)@ == old(self)@.subrange(k as int, old(self)@.len() as int),
            },
    {
        proof {
            crate::codec::lemma_decode_message_bounds(self.pending@);
        }
        let decoded = decode_message(self.pending.as_slice());
        match decoded {
            Decoded::Incomplete => Request::NeedMore,
            Decoded::Malformed(k) => {
                self.consume(k);
                Request::Drop(k, Error::Protocol)
            },
            Decoded::Unit(message, k) => {
                self.consume(k);
                match Command::from_value(message, now) {
                    Ok(command) => Request::Run(k, command),
                    Err(e) => Request::Drop(k, e),
                }
            },
        }
    }

    /// Handles the first request among the bytes held, received at time
    /// `now`: decodes it, interprets it, runs it on the store and encodes the
    /// reply. The bytes of the request are dropped, whether it succeeded or
    /// not; while no whole request is held, nothing changes.
    pub fn process_message(&mut self, store: &mut Store, now: u64) -> (r: Reply)
        requires
            old(store).wf(),
        ensures
            final(store).wf(),
            (r@, final(store)@) == process_spec(old(store)@, old(self)@, now as nat),
            match r@ {
                Action::NeedMore => final(self)@ == old(self)@,
                Action::Send(k, _) => k <= old(self)@.len() && final(self)@ == old(self)@.subrange(k as int, old(self)@.len() as int),
                Action::Drop(k, _) => k <= old(self)@.len() && final(self)@ == old(self)@.subrange(k as int, old(self)@.len() as int),
            },
    {
        match self.take_request(now) {
            Request::NeedMore => Reply::NeedMore,
            Request::Run(k, command) => {
                let reply = execute(store, command, now);
                Reply::Send(k, encode(&reply))
            },
            Request::Drop(k, e) => Reply::Drop(k, e),
        }
    }
}

} // verus!

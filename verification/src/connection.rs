//! The registry of live connections of a node: each connection's capability
//! flags, keyed by its stable id, beside the handle that carries it.
use std::collections::HashMap;
use vstd::prelude::*;
use crate::text::{decimal, decimal_string};

verus! {

broadcast use vstd::std_specs::hash::group_hash_axioms;

/// How long a connection may stay idle when the configuration names no
/// timeout: thirty seconds, in nanoseconds.
pub const DEFAULT_IDLE_TIMEOUT_NANOS: u128 = 30_000_000_000;

/// Configuration and state flags of one connection.
#[derive(Clone, Copy, Debug, PartialEq, Eq, Structural)]
pub struct ConnectionContext {
    /// The stable id of the connection.
    pub id: u64,
    /// Whether heartbeat pings keep the connection alive.
    pub keep_alive: bool,
    /// Whether the initiator may open unidirectional streams.
    pub initiator_uni: bool,
    /// Whether the initiator may open bidirectional streams.
    pub initiator_bi: bool,
    /// Whether the responder may open unidirectional streams.
    pub responder_uni: bool,
    /// Whether the responder may open bidirectional streams.
    pub responder_bi: bool,
}

impl Default for ConnectionContext {
    /// Id zero and every flag off.
    fn default() -> (c: Self)
        ensures
            c == (ConnectionContext {
                id: 0,
                keep_alive: false,
                initiator_uni: false,
                initiator_bi: false,
                responder_uni: false,
                responder_bi: false,
            }),
    {
        ConnectionContext {
            id: 0,
            keep_alive: false,
            initiator_uni: false,
            initiator_bi: false,
            responder_uni: false,
            responder_bi: false,
        }
    }
}

/// Errors of the connection registry.
#[derive(Clone, Copy, Debug, PartialEq, Eq, Structural)]
pub enum ConnectionManagerError {
    /// No connection with this id is registered.
    IdNotFound(u64),
}

impl ConnectionManagerError {
    /// The error's message: "id not found in ConnectionManager store: " and
    /// the id.
    pub fn message(&self) -> (m: String)
        ensures
            match self {
                ConnectionManagerError::IdNotFound(id) => m@ == "id not found in ConnectionManager store: "@
                    + decimal(*id as nat),
            },
    {
        match self {
            ConnectionManagerError::IdNotFound(id) => {
                let mut m = String::from_str("id not found in ConnectionManager store: ");
                let digits = decimal_string(*id);
                m.append(digits.as_str());
                m
            },
        }
    }
}

/// One of the flags of a [`ConnectionContext`] that can be changed after
/// registration.
#[derive(Clone, Copy, Debug, PartialEq, Eq, Structural)]
enum ContextFlag {
    KeepAlive,
    InitiatorUni,
    InitiatorBi,
    ResponderUni,
    ResponderBi,
}

/// `c` with `flag` set to `val`, every other field unchanged.
spec fn with_flag(c: ConnectionContext, flag: ContextFlag, val: bool) -> ConnectionContext {
    match flag {
        ContextFlag::KeepAlive => ConnectionContext { keep_alive: val, ..c },
        ContextFlag::InitiatorUni => ConnectionContext { initiator_uni: val, ..c },
        ContextFlag::InitiatorBi => ConnectionContext { initiator_bi: val, ..c },
        ContextFlag::ResponderUni => ConnectionContext { responder_uni: val, ..c },
        ContextFlag::ResponderBi => ConnectionContext { responder_bi: val, ..c },
    }
}

/// The live connections of a node. `W` is what the node keeps of each
/// connection beside its flags (the transport handle and user metadata).
pub struct ConnectionManager<W> {
    store: HashMap<u64, (ConnectionContext, W)>,
    default_conn_context: ConnectionContext,
    keep_alive_limit_per_thread: u64,
    idle_timeout_nanos: u128,
}

impl<W> View for ConnectionManager<W> {
    type V = Map<u64, ConnectionContext>;

    /// The flags of each registered connection, by id.
    closed spec fn view(&self) -> Map<u64, ConnectionContext> {
        self.store@.map_values(|e: (ConnectionContext, W)| e.0)
    }
}

impl<W> ConnectionManager<W> {
    /// The flags every new connection starts with.
    pub closed spec fn default_context(&self) -> ConnectionContext {
        self.default_conn_context
    }

    /// The most keep-alive streams one heartbeat worker serves (0: no limit).
    pub closed spec fn keep_alive_limit(&self) -> u64 {
        self.keep_alive_limit_per_thread
    }

    /// How long a connection may stay idle, in nanoseconds.
    pub closed spec fn idle_timeout(&self) -> u128 {
        self.idle_timeout_nanos
    }

    /// The handle kept for each registered connection, by id.
    pub closed spec fn handles(&self) -> Map<u64, W> {
        self.store@.map_values(|e: (ConnectionContext, W)| e.1)
    }

    /// Every connection is filed under its own id.
    pub closed spec fn wf(&self) -> bool {
        &&& self.store@.dom().finite()
        &&& forall|id: u64| #[trigger] self.store@.contains_key(id) ==> self.store@[id].0.id == id
    }

    proof fn lemma_views(&self)
        ensures
            self@.dom() == self.store@.dom(),
            self.handles().dom() == self.store@.dom(),
            forall|id: u64| #[trigger]
                self.store@.contains_key(id) ==> self@[id] == self.store@[id].0 && self.handles()[id]
                    == self.store@[id].1,
    {
        assert(self@.dom() =~= self.store@.dom());
        assert(self.handles().dom() =~= self.store@.dom());
    }

    /// Creates an empty registry. Without an idle timeout the default of
    /// thirty seconds applies.
    pub fn new(
        default_conn_context: ConnectionContext,
        keep_alive_limit_per_thread: u64,
        idle_timeout_nanos: Option<u128>,
    ) -> (m: Self)
        ensures
            m.wf(),
            m@ == Map::<u64, ConnectionContext>::empty(),
            m.handles() == Map::<u64, W>::empty(),
            m.default_context() == default_conn_context,
            m.keep_alive_limit() == keep_alive_limit_per_thread,
            m.idle_timeout() == match idle_timeout_nanos {
                Some(t) => t,
                None => DEFAULT_IDLE_TIMEOUT_NANOS,
            },
    {
        let idle = match idle_timeout_nanos {
            Some(t) => t,
            None => DEFAULT_IDLE_TIMEOUT_NANOS,
        };
        let m = ConnectionManager {
            store: HashMap::new(),
            default_conn_context,
            keep_alive_limit_per_thread,
            idle_timeout_nanos: idle,
        };
        proof {
            assert(m@ =~= Map::<u64, ConnectionContext>::empty());
            assert(m.handles() =~= Map::<u64, W>::empty());
        }
        m
    }

    /// The flags a new connection with stable id `id` starts with: the
    /// default flags, under that id.
    pub fn initial_context(&self, id: u64) -> (c: ConnectionContext)
        ensures
            c == (ConnectionContext { id, ..self.default_context() }),
    {
        let mut c = self.default_conn_context;
        c.id = id;
        c
    }

    /// The period of the heartbeat pings: half the idle timeout.
    pub fn keep_alive_interval_nanos(&self) -> (i: u128)
        ensures
            i == self.idle_timeout() / 2,
    {
        self.idle_timeout_nanos / 2
    }

    /// Registers a connection under the id of its context, replacing any
    /// connection registered under that id before.
    pub fn add_connection(&mut self, context: ConnectionContext, handle: W)
        requires
            old(self).wf(),
        ensures
            final(self).wf(),
            final(self)@ == old(self)@.insert(context.id, context),
            final(self).handles() == old(self).handles().insert(context.id, handle),
            final(self).default_context() == old(self).default_context(),
            final(self).keep_alive_limit() == old(self).keep_alive_limit(),
            final(self).idle_timeout() == old(self).idle_timeout(),
    {
        let ghost before = self.store@;
        let _ = self.store.insert(context.id, (context, handle));
        proof {
            assert(self.store@ == before.insert(context.id, (context, handle)));
            assert(self@ =~= before.map_values(|e: (ConnectionContext, W)| e.0).insert(context.id, context));
            assert(self.handles() =~= before.map_values(|e: (ConnectionContext, W)| e.1).insert(
                context.id,
                handle,
            ));
        }
    }

    /// Whether a connection with this id is registered.
    pub fn contains(&self, id: u64) -> (b: bool)
        requires
            self.wf(),
        ensures
            b == self@.contains_key(id),
    {
        proof {
            self.lemma_views();
        }
        self.store.contains_key(&id)
    }

    /// The flags of the connection with this id.
    pub fn get_context(&self, id: u64) -> (r: Result<ConnectionContext, ConnectionManagerError>)
        requires
            self.wf(),
        ensures
            match r {
                Ok(c) => self@.contains_key(id) && c == self@[id],
                Err(e) => !self@.contains_key(id) && e == ConnectionManagerError::IdNotFound(id),
            },
    {
        proof {
            self.lemma_views();
        }
        match self.store.get(&id) {
            Some(entry) => Ok(entry.0),
            None => Err(ConnectionManagerError::IdNotFound(id)),
        }
    }

    /// The handle of the connection with this id.
    pub fn get_handle(&self, id: u64) -> (r: Result<&W, ConnectionManagerError>)
        requires
            self.wf(),
        ensures
            match r {
                Ok(h) => self.handles().contains_key(id) && *h == self.handles()[id],
                Err(e) => !self@.contains_key(id) && e == ConnectionManagerError::IdNotFound(id),
            },
    {
        proof {
            self.lemma_views();
        }
        match self.store.get(&id) {
            Some(entry) => Ok(&entry.1),
            None => Err(ConnectionManagerError::IdNotFound(id)),
        }
    }

    /// Sets one flag of the connection with this id; fails, and changes
    /// nothing, where no such connection is registered.
    fn set_flag(&mut self, id: u64, flag: ContextFlag, val: bool) -> (r: Result<
        (),
        ConnectionManagerError,
    >)
        requires
            old(self).wf(),
        ensures
            final(self).wf(),
            r is Ok <==> old(self)@.contains_key(id),
            r is Ok ==> final(self)@ == old(self)@.insert(id, with_flag(old(self)@[id], flag, val)),
            r is Err ==> r == Err::<(), ConnectionManagerError>(ConnectionManagerError::IdNotFound(id))
                && final(self)@ == old(self)@,
            final(self).handles() == old(self).handles(),
            final(self).default_context() == old(self).default_context(),
            final(self).keep_alive_limit() == old(self).keep_alive_limit(),
            final(self).idle_timeout() == old(self).idle_timeout(),
    {
        proof {
            self.lemma_views();
        }
        let ghost before = self.store@;
        match self.store.remove(&id) {
            Some(entry) => {
                let (ctx, handle) = entry;
                let mut c = ctx;
                match flag {
                    ContextFlag::KeepAlive => c.keep_alive = val,
                    ContextFlag::InitiatorUni => c.initiator_uni = val,
                    ContextFlag::InitiatorBi => c.initiator_bi = val,
                    ContextFlag::ResponderUni => c.responder_uni = val,
                    ContextFlag::ResponderBi => c.responder_bi = val,
                }
                let _ = self.store.insert(id, (c, handle));
                proof {
                    assert(self.store@ =~= before.insert(id, (c, handle)));
                    assert(self@ =~= before.map_values(|e: (ConnectionContext, W)| e.0).insert(id, c));
                    assert(self.handles() =~= before.map_values(|e: (ConnectionContext, W)| e.1));
                }
                Ok(())
            },
            None => {
                proof {
                    assert(self.store@ =~= before);
                }
                Err(ConnectionManagerError::IdNotFound(id))
            },
        }
    }

    /// Turns heartbeat pings on or off for the connection with this id.
    pub fn set_keep_alive(&mut self, id: u64, val: bool) -> (r: Result<(), ConnectionManagerError>)
        requires
            old(self).wf(),
        ensures
            final(self).wf(),
            r is Ok <==> old(self)@.contains_key(id),
            r is Ok ==> final(self)@ == old(self)@.insert(
                id,
                ConnectionContext { keep_alive: val, ..old(self)@[id] },
            ),
            r is Err ==> r == Err::<(), ConnectionManagerError>(ConnectionManagerError::IdNotFound(id))
                && final(self)@ == old(self)@,
            final(self).handles() == old(self).handles(),
            final(self).idle_timeout() == old(self).idle_timeout(),
    {
        self.set_flag(id, ContextFlag::KeepAlive, val)
    }

    /// Allows or forbids the initiator of the connection with this id to
    /// open unidirectional streams.
    pub fn set_initiator_uni(&mut self, id: u64, val: bool) -> (r: Result<(), ConnectionManagerError>)
        requires
            old(self).wf(),
        ensures
            final(self).wf(),
            r is Ok <==> old(self)@.contains_key(id),
            r is Ok ==> final(self)@ == old(self)@.insert(
                id,
                ConnectionContext { initiator_uni: val, ..old(self)@[id] },
            ),
            r is Err ==> r == Err::<(), ConnectionManagerError>(ConnectionManagerError::IdNotFound(id))
                && final(self)@ == old(self)@,
            final(self).handles() == old(self).handles(),
    {
        self.set_flag(id, ContextFlag::InitiatorUni, val)
    }

    /// Allows or forbids the initiator of the connection with this id to
    /// open bidirectional streams.
    pub fn set_initiator_bi(&mut self, id: u64, val: bool) -> (r: Result<(), ConnectionManagerError>)
        requires
            old(self).wf(),
        ensures
            final(self).wf(),
            r is Ok <==> old(self)@.contains_key(id),
            r is Ok ==> final(self)@ == old(self)@.insert(
                id,
                ConnectionContext { initiator_bi: val, ..old(self)@[id] },
            ),
            r is Err ==> r == Err::<(), ConnectionManagerError>(ConnectionManagerError::IdNotFound(id))
                && final(self)@ == old(self)@,
            final(self).handles() == old(self).handles(),
    {
        self.set_flag(id, ContextFlag::InitiatorBi, val)
    }

    /// Allows or forbids the responder of the connection with this id to
    /// open unidirectional streams.
    pub fn set_responder_uni(&mut self, id: u64, val: bool) -> (r: Result<(), ConnectionManagerError>)
        requires
            old(self).wf(),
        ensures
            final(self).wf(),
            r is Ok <==> old(self)@.contains_key(id),
            r is Ok ==> final(self)@ == old(self)@.insert(
                id,
                ConnectionContext { responder_uni: val, ..old(self)@[id] },
            ),
            r is Err ==> r == Err::<(), ConnectionManagerError>(ConnectionManagerError::IdNotFound(id))
                && final(self)@ == old(self)@,
            final(self).handles() == old(self).handles(),
    {
        self.set_flag(id, ContextFlag::ResponderUni, val)
    }

    /// Allows or forbids the responder of the connection with this id to
    /// open bidirectional streams.
    pub fn set_responder_bi(&mut self, id: u64, val: bool) -> (r: Result<(), ConnectionManagerError>)
        requires
            old(self).wf(),
        ensures
            final(self).wf(),
            r is Ok <==> old(self)@.contains_key(id),
            r is Ok ==> final(self)@ == old(self)@.insert(
                id,
                ConnectionContext { responder_bi: val, ..old(self)@[id] },
            ),
            r is Err ==> r == Err::<(), ConnectionManagerError>(ConnectionManagerError::IdNotFound(id))
                && final(self)@ == old(self)@,
            final(self).handles() == old(self).handles(),
    {
        self.set_flag(id, ContextFlag::ResponderBi, val)
    }
}

} // verus!

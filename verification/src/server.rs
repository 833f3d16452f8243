//! The registry of the connections that a server accepted: each connection's
//! flags, keyed by its stable id, beside the handle that carries it. Here the
//! flags speak of client and server rather than initiator and responder.
use std::collections::HashMap;
use vstd::prelude::*;
use crate::text::{decimal, decimal_string};

verus! {

broadcast use vstd::std_specs::hash::group_hash_axioms;

/// Configuration and state flags of one connection.
#[derive(Clone, Copy, Debug, PartialEq, Eq, Structural)]
pub struct ConnectionContext {
    /// The stable id of the connection.
    pub id: u64,
    /// Whether heartbeat pings keep the connection alive.
    pub keep_alive: bool,
    /// Whether the client may open unidirectional streams.
    pub client_uni: bool,
    /// Whether the client may open bidirectional streams.
    pub client_bi: bool,
    /// Whether the server may open unidirectional streams.
    pub server_uni: bool,
    /// Whether the server may open bidirectional streams.
    pub server_bi: bool,
}

impl Default for ConnectionContext {
    /// Id zero and every flag off.
    fn default() -> (c: Self)
        ensures
            c == (ConnectionContext {
                id: 0,
                keep_alive: false,
                client_uni: false,
                client_bi: false,
                server_uni: false,
                server_bi: false,
            }),
    {
        ConnectionContext {
            id: 0,
            keep_alive: false,
            client_uni: false,
            client_bi: false,
            server_uni: false,
            server_bi: false,
        }
    }
}

/// Errors of the connection registry.
#[derive(Clone, Copy, Debug, PartialEq, Eq, Structural)]
pub enum ConnectionManagerError {
    /// No connection with this id is registered.
    IdNotFound(u64),
}

impl ConnectionManagerError {
    /// The error's message: "id not found in ConnectionManager store: " and
    /// the id.
    pub fn message(&self) -> (m: String)
        ensures
            match self {
                ConnectionManagerError::IdNotFound(id) => m@ == "id not found in ConnectionManager store: "@
                    + decimal(*id as nat),
            },
    {
        match self {
            ConnectionManagerError::IdNotFound(id) => {
                let mut m = String::from_str("id not found in ConnectionManager store: ");
                let digits = decimal_string(*id);
                m.append(digits.as_str());
                m
            },
        }
    }
}

/// One of the flags of a [`ConnectionContext`] that can be changed after
/// registration.
#[derive(Clone, Copy, Debug, PartialEq, Eq, Structural)]
enum ContextFlag {
    ClientUni,
    ClientBi,
    ServerUni,
    ServerBi,
}

/// `c` with `flag` set to `val`, every other field unchanged.
spec fn with_flag(c: ConnectionContext, flag: ContextFlag, val: bool) -> ConnectionContext {
    match flag {
        ContextFlag::ClientUni => ConnectionContext { client_uni: val, ..c },
        ContextFlag::ClientBi => ConnectionContext { client_bi: val, ..c },
        ContextFlag::ServerUni => ConnectionContext { server_uni: val, ..c },
        ContextFlag::ServerBi => ConnectionContext { server_bi: val, ..c },
    }
}

/// The connections a server accepted. `W` is what the server keeps of each
/// connection beside its flags (the transport handle and user metadata).
pub struct ConnectionManager<W> {
    store: HashMap<u64, (ConnectionContext, W)>,
    default_conn_context: ConnectionContext,
}

impl<W> View for ConnectionManager<W> {
    type V = Map<u64, ConnectionContext>;

    /// The flags of each registered connection, by id.
    closed spec fn view(&self) -> Map<u64, ConnectionContext> {
        self.store@.map_values(|e: (ConnectionContext, W)| e.0)
    }
}

impl<W> ConnectionManager<W> {
    /// The flags every new connection starts with.
    pub closed spec fn default_context(&self) -> ConnectionContext {
        self.default_conn_context
    }

    /// The handle kept for each registered connection, by id.
    pub closed spec fn handles(&self) -> Map<u64, W> {
        self.store@.map_values(|e: (ConnectionContext, W)| e.1)
    }

    /// Every connection is filed under its own id.
    pub closed spec fn wf(&self) -> bool {
        &&& self.store@.dom().finite()
        &&& forall|id: u64| #[trigger] self.store@.contains_key(id) ==> self.store@[id].0.id == id
    }

    proof fn lemma_views(&self)
        ensures
            self@.dom() == self.store@.dom(),
            self.handles().dom() == self.store@.dom(),
            forall|id: u64| #[trigger]
                self.store@.contains_key(id) ==> self@[id] == self.store@[id].0 && self.handles()[id]
                    == self.store@[id].1,
    {
        assert(self@.dom() =~= self.store@.dom());
        assert(self.handles().dom() =~= self.store@.dom());
    }

    /// Creates an empty registry.
    pub fn new(default_conn_context: ConnectionContext) -> (m: Self)
        ensures
            m.wf(),
            m@ == Map::<u64, ConnectionContext>::empty(),
            m.handles() == Map::<u64, W>::empty(),
            m.default_context() == default_conn_context,
    {
        let m = ConnectionManager { store: HashMap::new(), default_conn_context };
        proof {
            assert(m@ =~= Map::<u64, ConnectionContext>::empty());
            assert(m.handles() =~= Map::<u64, W>::empty());
        }
        m
    }

    /// The flags a new connection with stable id `id` starts with: the
    /// default flags, under that id.
    pub fn initial_context(&self, id: u64) -> (c: ConnectionContext)
        ensures
            c == (ConnectionContext { id, ..self.default_context() }),
    {
        let mut c = self.default_conn_context;
        c.id = id;
        c
    }

    /// Registers a connection under the id of its context, replacing any
    /// connection registered under that id before.
    pub fn add_connection(&mut self, context: ConnectionContext, handle: W)
        requires
            old(self).wf(),
        ensures
            final(self).wf(),
            final(self)@ == old(self)@.insert(context.id, context),
            final(self).handles() == old(self).handles().insert(context.id, handle),
            final(self).default_context() == old(self).default_context(),
    {
        let ghost before = self.store@;
        let _ = self.store.insert(context.id, (context, handle));
        proof {
            assert(self.store@ == before.insert(context.id, (context, handle)));
            assert(self@ =~= before.map_values(|e: (ConnectionContext, W)| e.0).insert(context.id, context));
            assert(self.handles() =~= before.map_values(|e: (ConnectionContext, W)| e.1).insert(
                context.id,
                handle,
            ));
        }
    }

    /// Whether a connection with this id is registered.
    pub fn contains(&self, id: u64) -> (b: bool)
        requires
            self.wf(),
        ensures
            b == self@.contains_key(id),
    {
        proof {
            self.lemma_views();
        }
        self.store.contains_key(&id)
    }

    /// The flags of the connection with this id.
    pub fn get_context(&self, id: u64) -> (r: Result<ConnectionContext, ConnectionManagerError>)
        requires
            self.wf(),
        ensures
            match r {
                Ok(c) => self@.contains_key(id) && c == self@[id],
                Err(e) => !self@.contains_key(id) && e == ConnectionManagerError::IdNotFound(id),
            },
    {
        proof {
            self.lemma_views();
        }
        match self.store.get(&id) {
            Some(entry) => Ok(entry.0),
            None => Err(ConnectionManagerError::IdNotFound(id)),
        }
    }

    /// The connection registered under this id.
    pub fn get_connection(&self, id: u64) -> (r: Result<&W, ConnectionManagerError>)
        requires
            self.wf(),
        ensures
            match r {
                Ok(h) => self.handles().contains_key(id) && *h == self.handles()[id],
                Err(e) => !self@.contains_key(id) && e == ConnectionManagerError::IdNotFound(id),
            },
    {
        proof {
            self.lemma_views();
        }
        match self.store.get(&id) {
            Some(entry) => Ok(&entry.1),
            None => Err(ConnectionManagerError::IdNotFound(id)),
        }
    }

    /// Sets one flag of the connection with this id; fails, and changes
    /// nothing, where no such connection is registered.
    fn set_flag(&mut self, id: u64, flag: ContextFlag, val: bool) -> (r: Result<
        (),
        ConnectionManagerError,
    >)
        requires
            old(self).wf(),
        ensures
            final(self).wf(),
            r is Ok <==> old(self)@.contains_key(id),
            r is Ok ==> final(self)@ == old(self)@.insert(id, with_flag(old(self)@[id], flag, val)),
            r is Err ==> r == Err::<(), ConnectionManagerError>(ConnectionManagerError::IdNotFound(id))
                && final(self)@ == old(self)@,
            final(self).handles() == old(self).handles(),
            final(self).default_context() == old(self).default_context(),
    {
        proof {
            self.lemma_views();
        }
        let ghost before = self.store@;
        match self.store.remove(&id) {
            Some(entry) => {
                let (ctx, handle) = entry;
                let mut c = ctx;
                match flag {
                    ContextFlag::ClientUni => c.client_uni = val,
                    ContextFlag::ClientBi => c.client_bi = val,
                    ContextFlag::ServerUni => c.server_uni = val,
                    ContextFlag::ServerBi => c.server_bi = val,
                }
                let _ = self.store.insert(id, (c, handle));
                proof {
                    assert(self.store@ =~= before.insert(id, (c, handle)));
                    assert(self@ =~= before.map_values(|e: (ConnectionContext, W)| e.0).insert(id, c));
                    assert(self.handles() =~= before.map_values(|e: (ConnectionContext, W)| e.1));
                }
                Ok(())
            },
            None => {
                proof {
                    assert(self.store@ =~= before);
                }
                Err(ConnectionManagerError::IdNotFound(id))
            },
        }
    }

    /// Allows or forbids the client of the connection with this id to
    /// open unidirectional streams.
    pub fn set_client_uni(&mut self, id: u64, val: bool) -> (r: Result<(), ConnectionManagerError>)
        requires
            old(self).wf(),
        ensures
            final(self).wf(),
            r is Ok <==> old(self)@.contains_key(id),
            r is Ok ==> final(self)@ == old(self)@.insert(
                id,
                ConnectionContext { client_uni: val, ..old(self)@[id] },
            ),
            r is Err ==> r == Err::<(), ConnectionManagerError>(ConnectionManagerError::IdNotFound(id))
                && final(self)@ == old(self)@,
            final(self).handles() == old(self).handles(),
    {
        self.set_flag(id, ContextFlag::ClientUni, val)
    }

    /// Allows or forbids the client of the connection with this id to
    /// open bidirectional streams.
    pub fn set_client_bi(&mut self, id: u64, val: bool) -> (r: Result<(), ConnectionManagerError>)
        requires
            old(self).wf(),
        ensures
            final(self).wf(),
            r is Ok <==> old(self)@.contains_key(id),
            r is Ok ==> final(self)@ == old(self)@.insert(
                id,
                ConnectionContext { client_bi: val, ..old(self)@[id] },
            ),
            r is Err ==> r == Err::<(), ConnectionManagerError>(ConnectionManagerError::IdNotFound(id))
                && final(self)@ == old(self)@,
            final(self).handles() == old(self).handles(),
    {
        self.set_flag(id, ContextFlag::ClientBi, val)
    }

    /// Allows or forbids the server of the connection with this id to
    /// open unidirectional streams.
    pub fn set_server_uni(&mut self, id: u64, val: bool) -> (r: Result<(), ConnectionManagerError>)
        requires
            old(self).wf(),
        ensures
            final(self).wf(),
            r is Ok <==> old(self)@.contains_key(id),
            r is Ok ==> final(self)@ == old(self)@.insert(
                id,
                ConnectionContext { server_uni: val, ..old(self)@[id] },
            ),
            r is Err ==> r == Err::<(), ConnectionManagerError>(ConnectionManagerError::IdNotFound(id))
                && final(self)@ == old(self)@,
            final(self).handles() == old(self).handles(),
    {
        self.set_flag(id, ContextFlag::ServerUni, val)
    }

    /// Allows or forbids the server of the connection with this id to
    /// open bidirectional streams.
    pub fn set_server_bi(&mut self, id: u64, val: bool) -> (r: Result<(), ConnectionManagerError>)
        requires
            old(self).wf(),
        ensures
            final(self).wf(),
            r is Ok <==> old(self)@.contains_key(id),
            r is Ok ==> final(self)@ == old(self)@.insert(
                id,
                ConnectionContext { server_bi: val, ..old(self)@[id] },
            ),
            r is Err ==> r == Err::<(), ConnectionManagerError>(ConnectionManagerError::IdNotFound(id))
                && final(self)@ == old(self)@,
            final(self).handles() == old(self).handles(),
    {
        self.set_flag(id, ContextFlag::ServerBi, val)
    }
}

/// Errors of the server.
#[derive(Clone, Copy, Debug, PartialEq, Eq, Structural)]
pub enum ServerError {
    /// No connection with this id is known to the server.
    ConnNotFound(u64),
}

impl ServerError {
    /// The error's message: "Connection with given ID not found: " and the
    /// id.
    pub fn message(&self) -> (m: String)
        ensures
            match self {
                ServerError::ConnNotFound(id) => m@ == "Connection with given ID not found: "@ + decimal(
                    *id as nat,
                ),
            },
    {
        match self {
            ServerError::ConnNotFound(id) => {
                let mut m = String::from_str("Connection with given ID not found: ");
                let digits = decimal_string(*id);
                m.append(digits.as_str());
                m
            },
        }
    }
}

} // verus!

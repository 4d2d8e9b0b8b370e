//! The state of replication: the role of this node and how far it is.

use vstd::prelude::*;

verus! {

/// The role of a node.
#[derive(Debug, PartialEq, Eq)]
pub enum ReplicationRole {
    Master,
    Replica { host: String, port: u16 },
}

/// A role as contracts see it.
pub enum RoleView {
    Master,
    Replica { host: Seq<char>, port: u16 },
}

impl View for ReplicationRole {
    type V = RoleView;

    open spec fn view(&self) -> RoleView {
        match self {
            ReplicationRole::Master => RoleView::Master,
            ReplicationRole::Replica { host, port } => RoleView::Replica {
                host: host@,
                port: *port,
            },
        }
    }
}

/// The state of replication as contracts see it.
pub struct ReplicationView {
    pub role: RoleView,
    pub master_replid: Seq<char>,
    pub master_repl_offset: u64,
    pub local_offset: u64,
}

/// The state of replication.
pub struct ReplicationState {
    role: ReplicationRole,
    master_replid: String,
    master_repl_offset: u64,
    local_offset: u64,
}

impl View for ReplicationState {
    type V = ReplicationView;

    closed spec fn view(&self) -> ReplicationView {
        ReplicationView {
            role: self.role@,
            master_replid: self.master_replid@,
            master_repl_offset: self.master_repl_offset,
            local_offset: self.local_offset,
        }
    }
}

impl ReplicationState {
    /// A master that has done nothing yet.
    pub fn new() -> (s: ReplicationState)
        ensures
            s@ == (ReplicationView {
                role: RoleView::Master,
                master_replid: Seq::empty(),
                master_repl_offset: 0,
                local_offset: 0,
            }),
    {
        let s = ReplicationState {
            role: ReplicationRole::Master,
            master_replid: String::new(),
            master_repl_offset: 0,
            local_offset: 0,
        };
        proof {
            assert(s@.master_replid =~= Seq::<char>::empty());
        }
        s
    }

    /// The role.
    pub fn role(&self) -> (r: ReplicationRole)
        ensures
            r@ == self@.role,
    {
        match &self.role {
            ReplicationRole::Master => ReplicationRole::Master,
            ReplicationRole::Replica { host, port } => ReplicationRole::Replica {
                host: host.clone(),
                port: *port,
            },
        }
    }

    /// Whether the node is a master.
    pub fn is_master(&self) -> (r: bool)
        ensures
            r == (self@.role is Master),
    {
        match &self.role {
            ReplicationRole::Master => true,
            ReplicationRole::Replica { .. } => false,
        }
    }

    /// Makes the node a replica of another one.
    pub fn set_replica(&mut self, host: String, port: u16)
        ensures
            final(self)@ == (ReplicationView {
                role: RoleView::Replica { host: host@, port },
                ..old(self)@
            }),
    {
        self.role = ReplicationRole::Replica { host, port };
    }

    /// Makes the node a master.
    pub fn set_master(&mut self)
        ensures
            final(self)@ == (ReplicationView { role: RoleView::Master, ..old(self)@ }),
    {
        self.role = ReplicationRole::Master;
    }

    /// The replication id of the master.
    pub fn master_replid(&self) -> (id: String)
        ensures
            id@ == self@.master_replid,
    {
        self.master_replid.clone()
    }

    /// Sets the replication id of the master.
    pub fn set_master_replid(&mut self, id: String)
        ensures
            final(self)@ == (ReplicationView { master_replid: id@, ..old(self)@ }),
    {
        self.master_replid = id;
    }

    /// The offset of the master.
    pub fn master_repl_offset(&self) -> (offset: u64)
        ensures
            offset == self@.master_repl_offset,
    {
        self.master_repl_offset
    }

    /// Sets the offset of the master.
    pub fn set_master_repl_offset(&mut self, offset: u64)
        ensures
            final(self)@ == (ReplicationView { master_repl_offset: offset, ..old(self)@ }),
    {
        self.master_repl_offset = offset;
    }

    /// The offset up to which this node has come.
    pub fn local_offset(&self) -> (offset: u64)
        ensures
            offset == self@.local_offset,
    {
        self.local_offset
    }

    /// Moves this node's offset on. It wraps around.
    pub fn add_local_offset(&mut self, delta: u64)
        ensures
            final(self)@ == (ReplicationView {
                local_offset: ((old(self)@.local_offset + delta) % 0x1_0000_0000_0000_0000) as u64,
                ..old(self)@
            }),
    {
        self.local_offset = self.local_offset.wrapping_add(delta);
    }
}

} // verus!

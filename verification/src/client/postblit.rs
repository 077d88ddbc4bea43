//! Where triggers run after a blit: the root of the tree they see, and how
//! paths inside and outside that tree are formed.

use vstd::prelude::*;

use crate::installation::{root_path_spec, Installation};
use crate::path::{join, join_path};

verus! {

/// Whether operations keep system states or act on a throwaway root.
#[derive(Debug, Clone)]
pub enum Scope {
    /// The installation's states are updated
    Stateful,
    /// A root blitted once, with no state kept
    Ephemeral { blit_root: String },
}

/// Defines the scope of triggers
#[derive(Clone, Copy, Debug)]
pub enum TriggerScope<'a> {
    /// Triggers of the transaction, run in the new tree
    Transaction(&'a Installation, &'a Scope),
    /// Triggers of the system, run on the installed root
    System(&'a Installation, &'a Scope),
}

/// The staging directory of an installation.
pub open spec fn staging(i: &Installation) -> Seq<char> {
    root_path_spec(i.root@, seq!['s', 't', 'a', 'g', 'i', 'n', 'g'])
}

impl<'a> TriggerScope<'a> {
    /// The root directory the triggers see.
    pub open spec fn root_dir_spec(&self) -> Seq<char> {
        match self {
            TriggerScope::Transaction(install, scope) => match scope {
                Scope::Stateful => staging(install),
                Scope::Ephemeral { blit_root } => blit_root@,
            },
            TriggerScope::System(install, scope) => match scope {
                Scope::Stateful => install.root@,
                Scope::Ephemeral { blit_root } => blit_root@,
            },
        }
    }

    /// Determine the correct root directory
    pub fn root_dir(&self) -> (r: String)
        ensures
            r@ == self.root_dir_spec(),
    {
        match self {
            TriggerScope::Transaction(install, scope) => match scope {
                Scope::Stateful => install.staging_dir(),
                Scope::Ephemeral { blit_root } => blit_root.clone(),
            },
            TriggerScope::System(install, scope) => match scope {
                Scope::Stateful => install.root.clone(),
                Scope::Ephemeral { blit_root } => blit_root.clone(),
            },
        }
    }

    /// Join "host" paths, outside the staging filesystem: onto the
    /// installation root, or the blit root of an ephemeral scope.
    pub fn host_path(&self, path: &str) -> (r: String)
        ensures
            r@ == match self {
                TriggerScope::Transaction(install, scope) | TriggerScope::System(install, scope) => match scope {
                    Scope::Stateful => join_path(install.root@, path@),
                    Scope::Ephemeral { blit_root } => join_path(blit_root@, path@),
                },
            },
    {
        match self {
            TriggerScope::Transaction(install, scope) => match scope {
                Scope::Stateful => join(install.root.as_str(), path),
                Scope::Ephemeral { blit_root } => join(blit_root.as_str(), path),
            },
            TriggerScope::System(install, scope) => match scope {
                Scope::Stateful => join(install.root.as_str(), path),
                Scope::Ephemeral { blit_root } => join(blit_root.as_str(), path),
            },
        }
    }

    /// Join guest paths, inside the staging filesystem: onto the root the
    /// triggers see.
    pub fn guest_path(&self, path: &str) -> (r: String)
        ensures
            r@ == join_path(self.root_dir_spec(), path@),
    {
        match self {
            TriggerScope::Transaction(install, scope) => match scope {
                Scope::Stateful => install.staging_path(path),
                Scope::Ephemeral { blit_root } => join(blit_root.as_str(), path),
            },
            TriggerScope::System(install, scope) => match scope {
                Scope::Stateful => join(install.root.as_str(), path),
                Scope::Ephemeral { blit_root } => join(blit_root.as_str(), path),
            },
        }
    }
}

} // verus!

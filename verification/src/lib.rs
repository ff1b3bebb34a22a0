//! A hierarchical tag registry: dotted paths such as `"Ability.Magic.Fireball"`
//! are registered into a tree of categories, each node receiving a compact
//! numeric identifier, and ancestry queries between identifiers are answered in
//! constant time from precomputed ancestor bit-sets.

use vstd::prelude::*;

pub mod list;
pub mod node;
pub mod paths;
pub mod prelude;
pub mod registry;

pub use list::TagList;
pub use node::TagNode;
pub use registry::{TagError, TagRegistry};

verus! {

/// Default maximum number of distinct tags a registry created with
/// [`TagRegistry::new`] may ever hold.
pub const MAX_TAGS: usize = 512;

/// Identifier of one registered tag: a dense index, issued in registration
/// order starting at 0, valid only for the registry that issued it.
#[derive(Copy, Clone, PartialEq, Eq, Structural, Hash, Debug, PartialOrd, Ord)]
pub struct TagId(pub u16);

impl TagId {
    /// The numeric index this identifier carries.
    pub open spec fn idx(self) -> int {
        self.0 as int
    }
}

impl From<u16> for TagId {
    fn from(value: u16) -> (r: TagId)
        ensures
            r.idx() == value as int,
    {
        TagId(value)
    }
}

impl vstd::std_specs::convert::FromSpecImpl<u16> for TagId {
    open spec fn obeys_from_spec() -> bool {
        true
    }

    open spec fn from_spec(v: u16) -> TagId {
        TagId(v)
    }
}

} // verus!

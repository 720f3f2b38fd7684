use vstd::prelude::*;

verus! {

/// Opaque identity of an object in the store, issued by the store and stable
/// for the object's lifetime. Handles are never reused.
#[derive(Clone, Copy, Debug, PartialEq, Eq, Structural, Hash)]
pub struct Handle {
    pub bits: u64,
}

/// Identifier of an external resource: the kind of resource and its id
/// within that kind.
#[derive(Clone, Copy, Debug, PartialEq, Eq, Structural, Hash)]
pub struct ResourceId {
    pub kind: u32,
    pub id: u64,
}

/// Why a link could not be declared.
#[derive(Clone, Copy, Debug, PartialEq, Eq, Structural)]
pub enum LinkError {
    /// The named dependency is not a live object of the store.
    InvalidTarget,
    /// The object that would carry the link is not a live object of the store.
    InvalidDependent,
}

/// Records bound to a resource id.
pub trait AsAssetId {
    spec fn asset_id_spec(&self) -> ResourceId;

    fn as_asset_id(&self) -> (r: ResourceId)
        ensures
            r == self.asset_id_spec(),
    ;
}

} // verus!

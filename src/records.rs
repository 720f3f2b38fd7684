use vstd::prelude::*;
use crate::types::{AsAssetId, Handle, ResourceId};

verus! {

/// A relationship link: names the one object that its carrier depends on.
#[derive(Clone, Copy, Debug, PartialEq, Eq, Structural)]
pub struct Dependent {
    pub dependency: Handle,
}

/// An inverse index: the objects currently linked to its carrier, in
/// registration order. Only the store fills it.
#[derive(Debug)]
pub struct Dependency {
    dependents: Vec<Handle>,
}

impl View for Dependency {
    type V = Seq<Handle>;

    closed spec fn view(&self) -> Seq<Handle> {
        self.dependents@
    }
}

impl Dependency {
    pub(crate) fn from_handles(dependents: Vec<Handle>) -> (r: Self)
        ensures
            r@ == dependents@,
    {
        Dependency { dependents }
    }

    /// The dependents, in registration order.
    pub fn dependents(&self) -> (r: &[Handle])
        ensures
            r@ == self@,
    {
        self.dependents.as_slice()
    }
}

/// A relationship link bound to a resource id.
#[derive(Clone, Copy, Debug, PartialEq, Eq, Structural)]
pub struct AssetDependent {
    pub dependency: Handle,
    asset_id: ResourceId,
}

impl AssetDependent {
    pub closed spec fn spec_dependency(&self) -> Handle {
        self.dependency
    }

    pub closed spec fn spec_asset_id(&self) -> ResourceId {
        self.asset_id
    }

    /// A link to `dependency` bound to `asset_id`.
    pub fn new(dependency: Handle, asset_id: ResourceId) -> (r: Self)
        ensures
            r.spec_dependency() == dependency,
            r.spec_asset_id() == asset_id,
    {
        AssetDependent { dependency, asset_id }
    }

    /// The resource id that the link is bound to.
    pub fn asset_id(&self) -> (r: ResourceId)
        ensures
            r == self.spec_asset_id(),
    {
        self.asset_id
    }
}

impl AsAssetId for AssetDependent {
    open spec fn asset_id_spec(&self) -> ResourceId {
        self.spec_asset_id()
    }

    fn as_asset_id(&self) -> (r: ResourceId) {
        self.asset_id
    }
}

/// An inverse index bound to a resource id.
#[derive(Debug)]
pub struct AssetDependency {
    dependents: Vec<Handle>,
    asset_id: ResourceId,
}

impl View for AssetDependency {
    type V = Seq<Handle>;

    closed spec fn view(&self) -> Seq<Handle> {
        self.dependents@
    }
}

impl AssetDependency {
    pub closed spec fn spec_asset_id(&self) -> ResourceId {
        self.asset_id
    }

    pub(crate) fn from_parts(dependents: Vec<Handle>, asset_id: ResourceId) -> (r: Self)
        ensures
            r@ == dependents@,
            r.spec_asset_id() == asset_id,
    {
        AssetDependency { dependents, asset_id }
    }

    /// The resource id that the index is bound to.
    pub fn asset_id(&self) -> (r: ResourceId)
        ensures
            r == self.spec_asset_id(),
    {
        self.asset_id
    }

    /// The dependents, in registration order.
    pub fn dependents(&self) -> (r: &[Handle])
        ensures
            r@ == self@,
    {
        self.dependents.as_slice()
    }
}

impl From<ResourceId> for AssetDependency {
    /// An empty index bound to `asset_id`.
    fn from(asset_id: ResourceId) -> (r: Self)
        ensures
            r@ == Seq::<Handle>::empty(),
            r.spec_asset_id() == asset_id,
    {
        AssetDependency { dependents: Vec::new(), asset_id }
    }
}

impl vstd::std_specs::convert::FromSpecImpl<ResourceId> for AssetDependency {
    open spec fn obeys_from_spec() -> bool {
        false
    }

    open spec fn from_spec(v: ResourceId) -> AssetDependency {
        arbitrary()
    }
}

impl AsAssetId for AssetDependency {
    open spec fn asset_id_spec(&self) -> ResourceId {
        self.spec_asset_id()
    }

    fn as_asset_id(&self) -> (r: ResourceId) {
        self.asset_id
    }
}

/// The change marker: its carrier depends on an object whose content changed
/// since the marker was last cleared.
#[derive(Clone, Copy, Debug, PartialEq, Eq, Structural)]
pub struct AssetDependencyChanged;

} // verus!

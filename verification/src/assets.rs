//! References to assets.

use vstd::prelude::*;
use crate::registry::{inserted, removed, sorted, value_at, Registry};

verus! {

/// Reference to asset: the name under which the asset is kept
#[derive(Clone, Debug, PartialEq, Eq, PartialOrd, Ord)]
pub struct AssetRef(pub String);

impl AssetRef {
    /// The name as text.
    pub open spec fn name(&self) -> Seq<char> {
        self.0@
    }

    /// Creates a reference to the asset of the name given
    pub fn new(value: &str) -> (asset_ref: AssetRef)
        ensures
            asset_ref.name() == value@,
    {
        AssetRef(value.to_owned())
    }

    /// The name of the asset
    pub fn as_str(&self) -> (name: &str)
        ensures
            name@ == self.name(),
    {
        self.0.as_str()
    }

    /// Whether two references name the same asset
    pub fn same(&self, other: &AssetRef) -> (same: bool)
        ensures
            same == (self.name() == other.name()),
    {
        self.0 == other.0
    }
}

impl From<String> for AssetRef {
    fn from(value: String) -> (asset_ref: Self)
        ensures
            asset_ref.name() == value@,
    {
        AssetRef(value)
    }
}

impl vstd::std_specs::convert::FromSpecImpl<String> for AssetRef {
    open spec fn obeys_from_spec() -> bool {
        true
    }

    open spec fn from_spec(value: String) -> Self {
        AssetRef(value)
    }
}

/// Assets infrastructure: the assets that are loaded, under their references
pub struct Assets<A> {
    assets: Registry<A>,
}

impl<A> Assets<A> {
    /// The assets under the names of their references, in the order of the
    /// names.
    pub closed spec fn assets(&self) -> Seq<(Seq<char>, A)> {
        self.assets@
    }

    /// The assets are sorted by name.
    pub open spec fn wf(&self) -> bool {
        sorted(self.assets())
    }

    /// Creates new instance of [Assets], without assets
    pub fn new() -> (assets: Self)
        ensures
            assets.wf(),
            assets.assets().len() == 0,
    {
        Assets { assets: Registry::new() }
    }

    /// Gets asset by its reference
    pub fn get(&self, asset_ref: &AssetRef) -> (asset: Option<&A>)
        requires
            self.wf(),
        ensures
            match asset {
                Some(asset) => value_at(self.assets(), asset_ref.name()) == Some(*asset),
                None => value_at(self.assets(), asset_ref.name()) is None,
            },
    {
        self.assets.get(asset_ref.as_str())
    }

    /// Loads asset; one under the same reference is replaced
    pub fn load(&mut self, asset_ref: AssetRef, asset: A)
        requires
            old(self).wf(),
        ensures
            final(self).wf(),
            final(self).assets() == inserted(old(self).assets(), asset_ref.name(), asset),
    {
        let _ = self.assets.insert(asset_ref.0, asset);
    }

    /// Unloads asset
    pub fn unload(&mut self, asset_ref: &AssetRef)
        requires
            old(self).wf(),
        ensures
            final(self).wf(),
            final(self).assets() == removed(old(self).assets(), asset_ref.name()),
    {
        let _ = self.assets.remove(asset_ref.as_str());
    }
}

} // verus!

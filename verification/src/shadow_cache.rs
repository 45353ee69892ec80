use vstd::prelude::*;

verus! {

/// Version bookkeeping for one baked artifact (a light's shadow map). The
/// renderer re-bakes when the scene or the light has moved past the cached
/// versions, or before the first bake. Only that decision lives here, on
/// plain counters; the baking itself is GPU work outside this crate.
#[derive(Clone, Copy, PartialEq, Eq, Structural, Debug)]
pub struct CachedShadowMap {
    pub scene_version: u64,
    pub light_version: u64,
    pub init: bool,
}

impl CachedShadowMap {
    /// A cached bake counts only once a first bake has happened and both
    /// versions still match.
    pub open spec fn spec_is_current(self, scene_version: u64, light_version: u64) -> bool {
        self.init && self.scene_version == scene_version && self.light_version == light_version
    }

    /// A fresh cache record: nothing baked yet, so never current.
    pub fn new() -> (r: CachedShadowMap)
        ensures
            r == (CachedShadowMap { scene_version: 0, light_version: 0, init: false }),
            forall|s: u64, l: u64| !r.spec_is_current(s, l),
    {
        CachedShadowMap { scene_version: 0, light_version: 0, init: false }
    }

    /// Whether the cached bake is still valid for these versions.
    pub fn is_current(&self, scene_version: u64, light_version: u64) -> (r: bool)
        ensures
            r == self.spec_is_current(scene_version, light_version),
    {
        self.init && self.scene_version == scene_version && self.light_version == light_version
    }

    /// Record a completed bake at these versions; the record is current for
    /// exactly these versions from now on.
    pub fn record_bake(&mut self, scene_version: u64, light_version: u64)
        ensures
            *final(self) == (CachedShadowMap { scene_version, light_version, init: true }),
            final(self).spec_is_current(scene_version, light_version),
    {
        self.scene_version = scene_version;
        self.light_version = light_version;
        self.init = true;
    }
}

} // verus!

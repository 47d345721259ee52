//! Packed scenes that wait to be put into the scene tree.
use vstd::prelude::*;
use crate::godot_ref::{ErasedGodotRef, GodotRefView};

verus! {

/// Where a packed scene is found: the path of its resource, or a handle `H`
/// of a resource that is loaded already.
#[derive(Debug)]
pub enum GodotSceneResource<H> {
    Path(String),
    Handle(H),
}

/// A packed scene that an entity asks for, and the node below which its
/// instance is to hang; without such a node it hangs below the current
/// scene.
#[derive(Debug)]
pub struct GodotScene<H> {
    resource: GodotSceneResource<H>,
    parent: Option<ErasedGodotRef>,
}

/// The mathematical value of an optional handle.
pub open spec fn parent_view(parent: Option<ErasedGodotRef>) -> Option<GodotRefView> {
    match parent {
        Some(handle) => Some(handle@),
        None => None,
    }
}

impl<H> GodotScene<H> {
    /// Where the scene is found.
    pub closed spec fn spec_resource(self) -> GodotSceneResource<H> {
        self.resource
    }

    /// The node below which the instance is to hang.
    pub closed spec fn spec_parent(self) -> Option<GodotRefView> {
        parent_view(self.parent)
    }

    /// The scene at the given path, to hang below `parent`.
    pub fn from_path(path: &str, parent: Option<ErasedGodotRef>) -> (scene: Self)
        ensures
            scene.spec_resource() matches GodotSceneResource::Path(p) && p@ == path@,
            scene.spec_parent() == parent_view(parent),
    {
        GodotScene { resource: GodotSceneResource::Path(path.to_owned()), parent }
    }

    /// The scene behind the given handle, to hang below `parent`.
    pub fn from_handle(handle: H, parent: Option<ErasedGodotRef>) -> (scene: Self)
        ensures
            scene.spec_resource() == GodotSceneResource::<H>::Handle(handle),
            scene.spec_parent() == parent_view(parent),
    {
        GodotScene { resource: GodotSceneResource::Handle(handle), parent }
    }

    /// Where the scene is found.
    pub fn resource(&self) -> (resource: &GodotSceneResource<H>)
        ensures
            *resource == self.spec_resource(),
    {
        &self.resource
    }

    /// The node below which the instance is to hang, if one was named.
    pub fn parent(&self) -> (parent: Option<&ErasedGodotRef>)
        ensures
            match parent {
                Some(handle) => self.spec_parent() == Some(handle@),
                None => self.spec_parent() is None,
            },
    {
        self.parent.as_ref()
    }
}

impl<H> Default for GodotScene<H> {
    /// The scene at the empty path, to hang below the current scene.
    fn default() -> (scene: Self)
        ensures
            scene.spec_resource() matches GodotSceneResource::Path(p) && p@ == Seq::<char>::empty(),
            scene.spec_parent() is None,
    {
        GodotScene { resource: GodotSceneResource::Path(String::new()), parent: None }
    }
}

} // verus!

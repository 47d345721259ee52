//! Handles for objects that the engine owns.
use vstd::prelude::*;

verus! {

/// An opaque handle for one object of the engine.
///
/// The handle holds the instance id under which the engine knows the
/// object, and the name of the object's class for diagnostics. It does not
/// keep the object alive: whether the id still resolves is for the engine to
/// say, at the moment someone asks.
#[derive(Debug, Default)]
pub struct ErasedGodotRef {
    object_id: i64,
    class_name: String,
}

/// The mathematical value of a handle.
pub struct GodotRefView {
    pub object_id: i64,
    pub class_name: Seq<char>,
}

impl View for ErasedGodotRef {
    type V = GodotRefView;

    closed spec fn view(&self) -> GodotRefView {
        GodotRefView { object_id: self.object_id, class_name: self.class_name@ }
    }
}

impl Clone for ErasedGodotRef {
    fn clone(&self) -> (copy: Self)
        ensures
            copy@ == self@,
    {
        ErasedGodotRef { object_id: self.object_id, class_name: self.class_name.clone() }
    }
}

impl ErasedGodotRef {
    /// A handle for the object with the given instance id and class.
    pub fn new(object_id: i64, class_name: String) -> (handle: Self)
        ensures
            handle@.object_id == object_id,
            handle@.class_name == class_name@,
    {
        ErasedGodotRef { object_id, class_name }
    }

    /// The instance id of the object.
    pub fn instance_id(&self) -> (id: i64)
        ensures
            id == self@.object_id,
    {
        self.object_id
    }

    /// The name of the object's class, as it was when the handle was made.
    pub fn class_name(&self) -> (name: &str)
        ensures
            name@ == self@.class_name,
    {
        self.class_name.as_str()
    }

    /// Whether two handles stand for the same object. Only the instance id
    /// counts.
    pub fn same_object(&self, other: &ErasedGodotRef) -> (same: bool)
        ensures
            same == (self@.object_id == other@.object_id),
    {
        self.object_id == other.object_id
    }
}

} // verus!

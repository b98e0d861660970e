//! Catalogue data for placeable objects: whether they block movement and how
//! an agent may carry them.

use vstd::prelude::*;
use vstd::string::StringExecFns;

verus! {

/// Identity of an object kind.
#[derive(Clone, Copy, PartialEq, Eq, Structural, Debug, Hash)]
pub struct ObjectId(pub u32);

/// How an object occupies a dweller's carried slot.
#[derive(Clone, Copy, PartialEq, Eq, Structural, Debug)]
pub enum ObjectSlot {
    Uncarriable,
    Object,
    Tool,
    Armor,
}

/// Static data describing one object kind.
pub struct ObjectData {
    filename: &'static str,
    blocking: bool,
    slot: ObjectSlot,
}

impl ObjectData {
    pub closed spec fn spec_filename(self) -> Seq<char> {
        self.filename@
    }

    pub closed spec fn spec_blocking(self) -> bool {
        self.blocking
    }

    pub closed spec fn spec_slot(self) -> ObjectSlot {
        self.slot
    }

    fn new(filename: &'static str, blocking: bool, slot: ObjectSlot) -> (r: Self)
        ensures
            r.spec_filename() == filename@,
            r.spec_blocking() == blocking,
            r.spec_slot() == slot,
    {
        Self { filename, blocking, slot }
    }

    pub fn passable(filename: &'static str) -> (r: Self)
        ensures
            r.spec_filename() == filename@,
            !r.spec_blocking(),
            r.spec_slot() == ObjectSlot::Object,
    {
        Self::new(filename, false, ObjectSlot::Object)
    }

    pub fn blocking(filename: &'static str) -> (r: Self)
        ensures
            r.spec_filename() == filename@,
            r.spec_blocking(),
            r.spec_slot() == ObjectSlot::Object,
    {
        Self::new(filename, true, ObjectSlot::Object)
    }

    pub fn passable_non_carriable(filename: &'static str) -> (r: Self)
        ensures
            r.spec_filename() == filename@,
            !r.spec_blocking(),
            r.spec_slot() == ObjectSlot::Uncarriable,
    {
        Self::new(filename, false, ObjectSlot::Uncarriable)
    }

    pub fn blocking_non_carriable(filename: &'static str) -> (r: Self)
        ensures
            r.spec_filename() == filename@,
            r.spec_blocking(),
            r.spec_slot() == ObjectSlot::Uncarriable,
    {
        Self::new(filename, true, ObjectSlot::Uncarriable)
    }

    pub fn tool(filename: &'static str) -> (r: Self)
        ensures
            r.spec_filename() == filename@,
            !r.spec_blocking(),
            r.spec_slot() == ObjectSlot::Tool,
    {
        Self::new(filename, false, ObjectSlot::Tool)
    }

    pub fn armor(filename: &'static str) -> (r: Self)
        ensures
            r.spec_filename() == filename@,
            !r.spec_blocking(),
            r.spec_slot() == ObjectSlot::Armor,
    {
        Self::new(filename, false, ObjectSlot::Armor)
    }

    /// An object can be carried unless its slot says otherwise.
    pub fn is_carriable(&self) -> (r: bool)
        ensures
            r == (self.spec_slot() != ObjectSlot::Uncarriable),
    {
        !matches!(self.slot, ObjectSlot::Uncarriable)
    }

    pub fn is_blocking(&self) -> (r: bool)
        ensures
            r == self.spec_blocking(),
    {
        self.blocking
    }

    pub fn filename(&self) -> (r: &'static str)
        ensures
            r@ == self.spec_filename(),
    {
        self.filename
    }

    pub fn slot(&self) -> (r: &ObjectSlot)
        ensures
            *r == self.spec_slot(),
    {
        &self.slot
    }

    /// The sprite asset path of this object kind.
    pub fn sprite_path(&self) -> (r: String)
        ensures
            r@ == "tiles/objects/"@ + self.spec_filename() + ".png"@,
    {
        String::from_str("tiles/objects/").concat(self.filename).concat(".png")
    }
}

} // verus!

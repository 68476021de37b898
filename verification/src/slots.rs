//! Stable handles for layers, objects and images, and the slot maps that
//! store them.
//!
//! Storage is `slotmap::SlotMap`, reached only through the trusted items
//! below. A handle is the 64-bit form of a slot map key
//! (`KeyData::as_ffi`): the slot index in the low half, the slot's version in
//! the high half. Keys of occupied slots carry an odd version, so a handle
//! always has bit 32 set (`slot_id(h) == h`).
use vstd::prelude::*;
use slotmap::{DefaultKey, Key, KeyData, SlotMap};
use crate::model::{Layer, Object, RawImage};

verus! {

/// The handle of the slot map key that `KeyData::from_ffi(bits)` makes: the
/// version half is forced odd, i.e. bit 32 is set.
pub open spec fn slot_id(bits: u64) -> u64 {
    bits | 0x1_0000_0000u64
}

/// The handle of the null key (slot index `u32::MAX`, version 1), which no
/// slot map ever holds.
pub const NULL_HANDLE: u64 = 0x1_FFFF_FFFFu64;

/// Largest number of entries a slot map may hold before one more insertion
/// could panic ("SlotMap is full").
pub open spec fn slot_capacity() -> nat {
    0xFFFF_FFFEnat
}

proof fn lemma_null_is_slot_id()
    ensures
        slot_id(NULL_HANDLE) == NULL_HANDLE,
{
    assert(0x1_FFFF_FFFFu64 | 0x1_0000_0000u64 == 0x1_FFFF_FFFFu64) by (bit_vector);
}

/// Handle of a layer.
#[derive(Clone, Copy, Debug, PartialEq, Eq, PartialOrd, Ord, Hash, Structural)]
pub struct LayerId {
    bits: u64,
}

/// Handle of an object.
#[derive(Clone, Copy, Debug, PartialEq, Eq, PartialOrd, Ord, Hash, Structural)]
pub struct ObjectId {
    bits: u64,
}

/// Handle of a decoded image.
#[derive(Clone, Copy, Debug, PartialEq, Eq, PartialOrd, Ord, Hash, Structural)]
pub struct ImageId {
    bits: u64,
}

impl View for LayerId {
    type V = u64;

    closed spec fn view(&self) -> u64 {
        self.bits
    }
}

impl View for ObjectId {
    type V = u64;

    closed spec fn view(&self) -> u64 {
        self.bits
    }
}

impl View for ImageId {
    type V = u64;

    closed spec fn view(&self) -> u64 {
        self.bits
    }
}

impl LayerId {
    #[verifier::type_invariant]
    closed spec fn is_handle(self) -> bool {
        slot_id(self.bits) == self.bits
    }

    /// The id whose handle is `bits`.
    pub(crate) fn from_handle(bits: u64) -> (id: LayerId)
        requires
            slot_id(bits) == bits,
        ensures
            id@ == bits,
    {
        LayerId { bits }
    }

    /// The handle of this id.
    pub fn handle(&self) -> (bits: u64)
        ensures
            bits == self@,
            slot_id(bits) == bits,
    {
        proof {
            use_type_invariant(self);
        }
        self.bits
    }

    /// The id that no layer ever has.
    pub fn null() -> (id: LayerId)
        ensures
            id@ == NULL_HANDLE,
    {
        proof {
            lemma_null_is_slot_id();
        }
        LayerId { bits: NULL_HANDLE }
    }
}

impl ObjectId {
    #[verifier::type_invariant]
    closed spec fn is_handle(self) -> bool {
        slot_id(self.bits) == self.bits
    }

    /// The id whose handle is `bits`.
    pub(crate) fn from_handle(bits: u64) -> (id: ObjectId)
        requires
            slot_id(bits) == bits,
        ensures
            id@ == bits,
    {
        ObjectId { bits }
    }

    /// The handle of this id.
    pub fn handle(&self) -> (bits: u64)
        ensures
            bits == self@,
            slot_id(bits) == bits,
    {
        proof {
            use_type_invariant(self);
        }
        self.bits
    }

    /// The id that no object ever has.
    pub fn null() -> (id: ObjectId)
        ensures
            id@ == NULL_HANDLE,
    {
        proof {
            lemma_null_is_slot_id();
        }
        ObjectId { bits: NULL_HANDLE }
    }
}

impl ImageId {
    #[verifier::type_invariant]
    closed spec fn is_handle(self) -> bool {
        slot_id(self.bits) == self.bits
    }

    /// The id whose handle is `bits`.
    pub(crate) fn from_handle(bits: u64) -> (id: ImageId)
        requires
            slot_id(bits) == bits,
        ensures
            id@ == bits,
    {
        ImageId { bits }
    }

    /// The handle of this id.
    pub fn handle(&self) -> (bits: u64)
        ensures
            bits == self@,
            slot_id(bits) == bits,
    {
        proof {
            use_type_invariant(self);
        }
        self.bits
    }

    /// The id that no image ever has.
    pub fn null() -> (id: ImageId)
        ensures
            id@ == NULL_HANDLE,
    {
        proof {
            lemma_null_is_slot_id();
        }
        ImageId { bits: NULL_HANDLE }
    }
}

/// Layer ids are equal exactly when their handles are.
pub proof fn lemma_layer_id_eq(a: LayerId, b: LayerId)
    ensures
        (a == b) == (a@ == b@),
{
}

impl Default for LayerId {
    fn default() -> (id: LayerId)
        ensures
            id@ == NULL_HANDLE,
    {
        LayerId::null()
    }
}

impl Default for ObjectId {
    fn default() -> (id: ObjectId)
        ensures
            id@ == NULL_HANDLE,
    {
        ObjectId::null()
    }
}

impl Default for ImageId {
    fn default() -> (id: ImageId)
        ensures
            id@ == NULL_HANDLE,
    {
        ImageId::null()
    }
}

/// The layers of a document, in a `slotmap::SlotMap`.
///
/// The map is a private field; its contents are described by `layer_entries`
/// (handle to value), and each method below, a call of the `SlotMap` method
/// it names, states how it reads or changes them.
#[verifier::external_body]
pub struct LayerSlots {
    slots: SlotMap<DefaultKey, Layer>,
}

/// What a `LayerSlots` holds: each occupied slot's handle and its layer.
pub uninterp spec fn layer_entries(slots: LayerSlots) -> Map<u64, Layer>;

impl LayerSlots {
    /// `SlotMap::len`: the number of occupied slots.
    #[verifier::external_body]
    pub(crate) fn len(&self) -> (n: usize)
        ensures
            n == layer_entries(*self).len(),
    {
        self.slots.len()
    }

    /// `SlotMap::new`: the slot map starts empty.
    #[verifier::external_body]
    pub(crate) fn new() -> (fresh: LayerSlots)
        ensures
            layer_entries(fresh).dom() == Set::<u64>::empty(),
    {
        LayerSlots { slots: SlotMap::new() }
    }

    /// `SlotMap::insert`: stores `layer` in a slot that was vacant, and
    /// returns the handle of its key (`KeyData::as_ffi`), whose version is
    /// odd. Panics only when the map is full, which `requires` rules out.
    #[verifier::external_body]
    pub(crate) fn insert(&mut self, layer: Layer) -> (h: u64)
        requires
            layer_entries(*old(self)).len() < slot_capacity(),
        ensures
            slot_id(h) == h,
            !layer_entries(*old(self)).contains_key(h),
            layer_entries(*final(self)) == layer_entries(*old(self)).insert(h, layer),
    {
        self.slots.insert(layer).data().as_ffi()
    }

    /// `SlotMap::remove` with the key `KeyData::from_ffi(h)`: takes out the
    /// layer of that key, if present.
    #[verifier::external_body]
    pub(crate) fn remove(&mut self, h: u64) -> (r: Option<Layer>)
        ensures
            layer_entries(*final(self)) == layer_entries(*old(self)).remove(slot_id(h)),
            match r {
                Some(l) => layer_entries(*old(self)).contains_key(slot_id(h)) && l == layer_entries(*old(self))[slot_id(h)],
                None => !layer_entries(*old(self)).contains_key(slot_id(h)),
            },
    {
        self.slots.remove(KeyData::from_ffi(h).into())
    }

    /// `SlotMap::contains_key` with the key `KeyData::from_ffi(h)`.
    #[verifier::external_body]
    pub(crate) fn contains_key(&self, h: u64) -> (b: bool)
        ensures
            b == layer_entries(*self).contains_key(slot_id(h)),
    {
        self.slots.contains_key(KeyData::from_ffi(h).into())
    }

    /// `SlotMap::get` with the key `KeyData::from_ffi(h)`.
    #[verifier::external_body]
    pub(crate) fn get(&self, h: u64) -> (r: Option<&Layer>)
        ensures
            match r {
                Some(l) => layer_entries(*self).contains_key(slot_id(h)) && *l == layer_entries(*self)[slot_id(h)],
                None => !layer_entries(*self).contains_key(slot_id(h)),
            },
    {
        self.slots.get(KeyData::from_ffi(h).into())
    }

    /// `SlotMap::get_mut` with the key `KeyData::from_ffi(h)`, for a key that
    /// is present; what is written through the reference is what the slot
    /// then holds.
    #[verifier::external_body]
    pub(crate) fn get_mut(&mut self, h: u64) -> (r: &mut Layer)
        requires
            layer_entries(*old(self)).contains_key(slot_id(h)),
        ensures
            *r == layer_entries(*old(self))[slot_id(h)],
            layer_entries(*final(self)) == layer_entries(*old(self)).insert(slot_id(h), *final(r)),
    {
        self.slots.get_mut(KeyData::from_ffi(h).into()).unwrap()
    }
}


/// The objects of a document, in a `slotmap::SlotMap`.
///
/// The map is a private field; its contents are described by `object_entries`
/// (handle to value), and each method below, a call of the `SlotMap` method
/// it names, states how it reads or changes them.
#[verifier::external_body]
pub struct ObjectSlots {
    slots: SlotMap<DefaultKey, Object>,
}

/// What an `ObjectSlots` holds: each occupied slot's handle and its object.
pub uninterp spec fn object_entries(slots: ObjectSlots) -> Map<u64, Object>;

impl ObjectSlots {
    /// `SlotMap::len`: the number of occupied slots.
    #[verifier::external_body]
    pub(crate) fn len(&self) -> (n: usize)
        ensures
            n == object_entries(*self).len(),
    {
        self.slots.len()
    }

    /// `SlotMap::new`: the slot map starts empty.
    #[verifier::external_body]
    pub(crate) fn new() -> (fresh: ObjectSlots)
        ensures
            object_entries(fresh).dom() == Set::<u64>::empty(),
    {
        ObjectSlots { slots: SlotMap::new() }
    }

    /// `SlotMap::insert`: stores `object` in a slot that was vacant, and
    /// returns the handle of its key (`KeyData::as_ffi`), whose version is
    /// odd. Panics only when the map is full, which `requires` rules out.
    #[verifier::external_body]
    pub(crate) fn insert(&mut self, object: Object) -> (h: u64)
        requires
            object_entries(*old(self)).len() < slot_capacity(),
        ensures
            slot_id(h) == h,
            !object_entries(*old(self)).contains_key(h),
            object_entries(*final(self)) == object_entries(*old(self)).insert(h, object),
    {
        self.slots.insert(object).data().as_ffi()
    }

    /// `SlotMap::remove` with the key `KeyData::from_ffi(h)`: takes out the
    /// object of that key, if present.
    #[verifier::external_body]
    pub(crate) fn remove(&mut self, h: u64) -> (r: Option<Object>)
        ensures
            object_entries(*final(self)) == object_entries(*old(self)).remove(slot_id(h)),
            match r {
                Some(o) => object_entries(*old(self)).contains_key(slot_id(h)) && o == object_entries(*old(self))[slot_id(h)],
                None => !object_entries(*old(self)).contains_key(slot_id(h)),
            },
    {
        self.slots.remove(KeyData::from_ffi(h).into())
    }

    /// `SlotMap::get` with the key `KeyData::from_ffi(h)`.
    #[verifier::external_body]
    pub(crate) fn get(&self, h: u64) -> (r: Option<&Object>)
        ensures
            match r {
                Some(o) => object_entries(*self).contains_key(slot_id(h)) && *o == object_entries(*self)[slot_id(h)],
                None => !object_entries(*self).contains_key(slot_id(h)),
            },
    {
        self.slots.get(KeyData::from_ffi(h).into())
    }

    /// `SlotMap::get_mut` with the key `KeyData::from_ffi(h)`, for a key that
    /// is present; what is written through the reference is what the slot
    /// then holds.
    #[verifier::external_body]
    pub(crate) fn get_mut(&mut self, h: u64) -> (r: &mut Object)
        requires
            object_entries(*old(self)).contains_key(slot_id(h)),
        ensures
            *r == object_entries(*old(self))[slot_id(h)],
            object_entries(*final(self)) == object_entries(*old(self)).insert(slot_id(h), *final(r)),
    {
        self.slots.get_mut(KeyData::from_ffi(h).into()).unwrap()
    }
}

/// The decoded images of a document, in a `slotmap::SlotMap`.
///
/// The map is a private field; its contents are described by `image_entries`
/// (handle to value), and each method below, a call of the `SlotMap` method
/// it names, states how it reads or changes them.
#[verifier::external_body]
pub struct ImageSlots {
    slots: SlotMap<DefaultKey, RawImage>,
}

/// What an `ImageSlots` holds: each occupied slot's handle and its image.
pub uninterp spec fn image_entries(slots: ImageSlots) -> Map<u64, RawImage>;

impl ImageSlots {
    /// `SlotMap::len`: the number of occupied slots.
    #[verifier::external_body]
    pub(crate) fn len(&self) -> (n: usize)
        ensures
            n == image_entries(*self).len(),
    {
        self.slots.len()
    }

    /// `SlotMap::new`: the slot map starts empty.
    #[verifier::external_body]
    pub(crate) fn new() -> (fresh: ImageSlots)
        ensures
            image_entries(fresh).dom() == Set::<u64>::empty(),
    {
        ImageSlots { slots: SlotMap::new() }
    }

    /// `SlotMap::insert`: stores `image` in a slot that was vacant, and
    /// returns the handle of its key (`KeyData::as_ffi`), whose version is
    /// odd. Panics only when the map is full, which `requires` rules out.
    #[verifier::external_body]
    pub(crate) fn insert(&mut self, image: RawImage) -> (h: u64)
        requires
            image_entries(*old(self)).len() < slot_capacity(),
        ensures
            slot_id(h) == h,
            !image_entries(*old(self)).contains_key(h),
            image_entries(*final(self)) == image_entries(*old(self)).insert(h, image),
    {
        self.slots.insert(image).data().as_ffi()
    }
}

} // verus!

//! Heap objects: a header, a fixed number of field slots and an optional
//! boxed payload.

use vstd::prelude::*;
use crate::class::{ClassId, MAX_FIELDS};
use crate::errors::RuntimeError;
use crate::tagged_pointer::TaggedPointer;

verus! {

/// Words taken by an object's header.
pub const HEADER_WORDS: usize = 2;

/// What every object starts with.
#[derive(Clone, Copy, Debug, PartialEq, Eq, Structural)]
pub struct ObjectHeader {
    /// The class the object is an instance of.
    pub class: ClassId,
    /// Set while a collection has found the object reachable.
    pub marked: bool,
    /// Asks a moving collector to leave the object in place. Objects never
    /// move, so the flag changes nothing.
    pub pinned: bool,
}

/// A payload boxed with an object, for values too large for a word.
#[derive(Debug)]
pub enum ObjectValue {
    Integer(i64),
    /// The bit pattern of a 64-bit float.
    Float(u64),
    Bytes(Vec<u8>),
}

/// What a payload holds.
pub enum ValueView {
    Integer(i64),
    Float(u64),
    Bytes(Seq<u8>),
}

impl View for ObjectValue {
    type V = ValueView;

    open spec fn view(&self) -> ValueView {
        match self {
            ObjectValue::Integer(i) => ValueView::Integer(*i),
            ObjectValue::Float(bits) => ValueView::Float(*bits),
            ObjectValue::Bytes(bytes) => ValueView::Bytes(bytes@),
        }
    }
}

/// What an optional payload holds.
pub open spec fn payload_view(value: Option<ObjectValue>) -> Option<ValueView> {
    match value {
        Some(v) => Some(v@),
        None => None,
    }
}

/// What an object holds.
pub struct ObjectView {
    pub header: ObjectHeader,
    pub fields: Seq<TaggedPointer>,
    pub value: Option<ValueView>,
}

impl ObjectView {
    /// A new instance of `class` with `field_count` fields: unmarked,
    /// unpinned, every field the zero word, no payload.
    pub open spec fn fresh(class: ClassId, field_count: nat) -> ObjectView {
        ObjectView {
            header: ObjectHeader { class, marked: false, pinned: false },
            fields: Seq::new(field_count, |i: int| TaggedPointer { raw: 0 }),
            value: None,
        }
    }
}

impl ObjectValue {
    /// A payload with the same contents.
    pub fn duplicate(&self) -> (copy: ObjectValue)
        ensures
            copy@ == self@,
    {
        match self {
            ObjectValue::Integer(i) => ObjectValue::Integer(*i),
            ObjectValue::Float(bits) => ObjectValue::Float(*bits),
            ObjectValue::Bytes(bytes) => {
                let mut out: Vec<u8> = Vec::new();
                let mut i: usize = 0;
                while i < bytes.len()
                    invariant
                        i <= bytes.len(),
                        out@ == bytes@.subrange(0, i as int),
                    decreases bytes.len() - i,
                {
                    out.push(bytes[i]);
                    i += 1;
                }
                assert(out@ == bytes@);
                ObjectValue::Bytes(out)
            },
        }
    }
}

/// A heap object.
#[derive(Debug)]
pub struct Object {
    pub(crate) header: ObjectHeader,
    pub(crate) fields: Vec<TaggedPointer>,
    pub(crate) value: Option<ObjectValue>,
}

impl Object {
    /// Class, mark and pin flag.
    pub open(crate) spec fn spec_header(&self) -> ObjectHeader {
        self.header
    }

    /// The field slots, in order.
    pub open(crate) spec fn spec_fields(&self) -> Seq<TaggedPointer> {
        self.fields@
    }

    /// The boxed payload, if any.
    pub open(crate) spec fn spec_value(&self) -> Option<ValueView> {
        payload_view(self.value)
    }

    /// Header, fields and payload as plain values.
    pub open spec fn view(&self) -> ObjectView {
        ObjectView {
            header: self.spec_header(),
            fields: self.spec_fields(),
            value: self.spec_value(),
        }
    }

    /// Words the object takes up: its header and one word per field.
    pub open spec fn spec_size(&self) -> nat {
        HEADER_WORDS as nat + self.spec_fields().len()
    }

    /// An object has at most `MAX_FIELDS` fields.
    pub open spec fn wf(&self) -> bool {
        self.spec_fields().len() <= MAX_FIELDS
    }

    /// The same object with its mark set to `marked`.
    pub open(crate) spec fn with_mark(self, marked: bool) -> Object {
        Object {
            header: ObjectHeader { class: self.header.class, marked, pinned: self.header.pinned },
            fields: self.fields,
            value: self.value,
        }
    }

    /// A fresh instance: unmarked, unpinned, every field the zero word, no
    /// payload.
    pub fn new(class: ClassId, field_count: u8) -> (object: Object)
        ensures
            object.wf(),
            object@ == ObjectView::fresh(class, field_count as nat),
    {
        let mut fields: Vec<TaggedPointer> = Vec::new();
        let mut i: u8 = 0;
        while i < field_count
            invariant
                i <= field_count,
                fields@.len() == i,
                forall|k: int| 0 <= k < i ==> (#[trigger] fields@[k])@ == 0,
            decreases field_count - i,
        {
            fields.push(TaggedPointer::null());
            i += 1;
        }
        assert(fields@ =~= Seq::new(field_count as nat, |i: int| TaggedPointer { raw: 0 }));
        Object { header: ObjectHeader { class, marked: false, pinned: false }, fields, value: None }
    }

    /// Class, mark and pin flag.
    pub fn header(&self) -> (header: ObjectHeader)
        ensures
            header == self.spec_header(),
    {
        self.header
    }

    /// The class the object is an instance of.
    pub fn class(&self) -> (class: ClassId)
        ensures
            class == self.spec_header().class,
    {
        self.header.class
    }

    /// The number of field slots.
    pub fn field_count(&self) -> (n: usize)
        ensures
            n == self.spec_fields().len(),
    {
        self.fields.len()
    }

    /// Words the object takes up.
    pub fn size(&self) -> (n: usize)
        requires
            self.wf(),
        ensures
            n == self.spec_size(),
    {
        HEADER_WORDS + self.fields.len()
    }

    /// Reads a field. Fails with `FieldIndex` when `index` is not below the
    /// field count.
    pub fn field(&self, index: usize) -> (r: Result<TaggedPointer, RuntimeError>)
        ensures
            r == if index < self.spec_fields().len() {
                Ok::<TaggedPointer, RuntimeError>(self.spec_fields()[index as int])
            } else {
                Err::<TaggedPointer, RuntimeError>(RuntimeError::FieldIndex)
            },
    {
        if index < self.fields.len() {
            Ok(self.fields[index])
        } else {
            Err(RuntimeError::FieldIndex)
        }
    }

    /// Writes a field. Fails with `FieldIndex`, changing nothing, when
    /// `index` is not below the field count.
    pub fn set_field(&mut self, index: usize, word: TaggedPointer) -> (r: Result<(), RuntimeError>)
        ensures
            final(self).spec_header() == old(self).spec_header(),
            final(self).spec_value() == old(self).spec_value(),
            index < old(self).spec_fields().len() ==> {
                &&& r is Ok
                &&& final(self).spec_fields() == old(self).spec_fields().update(index as int, word)
            },
            index >= old(self).spec_fields().len() ==> r == Err::<(), RuntimeError>(
                RuntimeError::FieldIndex,
            ) && final(self).spec_fields() == old(self).spec_fields(),
    {
        if index < self.fields.len() {
            self.fields[index] = word;
            Ok(())
        } else {
            Err(RuntimeError::FieldIndex)
        }
    }

    /// The boxed payload, if any.
    pub fn value(&self) -> (v: &Option<ObjectValue>)
        ensures
            payload_view(*v) == self.spec_value(),
    {
        &self.value
    }

    /// Attaches a payload, replacing any earlier one.
    pub fn set_value(&mut self, value: ObjectValue)
        ensures
            final(self).spec_header() == old(self).spec_header(),
            final(self).spec_fields() == old(self).spec_fields(),
            final(self).spec_value() == Some(value@),
    {
        self.value = Some(value);
    }

    /// An object with the same header, fields and payload.
    pub fn duplicate(&self) -> (copy: Object)
        ensures
            copy@ == self@,
    {
        let mut fields: Vec<TaggedPointer> = Vec::new();
        let mut i: usize = 0;
        while i < self.fields.len()
            invariant
                i <= self.fields.len(),
                fields@ == self.fields@.subrange(0, i as int),
            decreases self.fields.len() - i,
        {
            fields.push(self.fields[i]);
            i += 1;
        }
        assert(fields@ == self.fields@);
        let value = match &self.value {
            Some(v) => Some(v.duplicate()),
            None => None,
        };
        Object { header: self.header, fields, value }
    }
}

} // verus!

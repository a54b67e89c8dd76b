//! Classes: immutable, globally shared type descriptors, and the registry
//! that owns them.

use vstd::prelude::*;
use crate::errors::RuntimeError;

verus! {

/// Largest number of fields an instance can have.
pub const MAX_FIELDS: usize = 255;

/// Largest number of slots in a method table.
pub const MAX_METHODS: usize = 65535;

/// Whether instances of a class are plain objects or processes.
#[derive(Clone, Copy, Debug, PartialEq, Eq, Structural)]
pub enum ClassKind {
    /// Instances are heap objects.
    Object,
    /// Instances are processes: creating one also sets up a mailbox and a
    /// register file.
    Process,
}

/// A type descriptor. Nothing can change a class once it has been made.
#[derive(Debug)]
pub struct Class {
    pub(crate) name: String,
    pub(crate) field_count: u8,
    pub(crate) method_table_size: u16,
    pub(crate) kind: ClassKind,
}

impl Class {
    /// The class name.
    pub open(crate) spec fn spec_name(&self) -> Seq<char> {
        self.name@
    }

    /// The number of field slots of every instance.
    pub open(crate) spec fn spec_field_count(&self) -> u8 {
        self.field_count
    }

    /// The number of slots in the method table.
    pub open(crate) spec fn spec_method_table_size(&self) -> u16 {
        self.method_table_size
    }

    /// Object or process.
    pub open(crate) spec fn spec_kind(&self) -> ClassKind {
        self.kind
    }

    /// Makes a class of the given kind.
    pub fn new(name: String, field_count: u8, method_table_size: u16, kind: ClassKind) -> (class:
        Class)
        ensures
            class.spec_name() == name@,
            class.spec_field_count() == field_count,
            class.spec_method_table_size() == method_table_size,
            class.spec_kind() == kind,
    {
        Class { name, field_count, method_table_size, kind }
    }

    /// Makes an object-kind class.
    pub fn object(name: String, field_count: u8, method_table_size: u16) -> (class: Class)
        ensures
            class.spec_name() == name@,
            class.spec_field_count() == field_count,
            class.spec_method_table_size() == method_table_size,
            class.spec_kind() == ClassKind::Object,
    {
        Class::new(name, field_count, method_table_size, ClassKind::Object)
    }

    /// Makes a process-kind class.
    pub fn process(name: String, field_count: u8, method_table_size: u16) -> (class: Class)
        ensures
            class.spec_name() == name@,
            class.spec_field_count() == field_count,
            class.spec_method_table_size() == method_table_size,
            class.spec_kind() == ClassKind::Process,
    {
        Class::new(name, field_count, method_table_size, ClassKind::Process)
    }

    /// The number of field slots of every instance.
    #[verifier::when_used_as_spec(spec_field_count)]
    pub fn field_count(&self) -> (n: u8)
        ensures
            n == self.spec_field_count(),
    {
        self.field_count
    }

    /// The number of slots in the method table.
    #[verifier::when_used_as_spec(spec_method_table_size)]
    pub fn method_table_size(&self) -> (n: u16)
        ensures
            n == self.spec_method_table_size(),
    {
        self.method_table_size
    }

    /// Object or process.
    #[verifier::when_used_as_spec(spec_kind)]
    pub fn kind(&self) -> (k: ClassKind)
        ensures
            k == self.spec_kind(),
    {
        self.kind
    }

    /// The class name.
    pub fn name(&self) -> (name: &String)
        ensures
            name@ == self.spec_name(),
    {
        &self.name
    }
}

/// Names a class in a registry. Identifiers are handed out in order and never
/// reused, so a stale identifier cannot come to name another class.
#[derive(Clone, Copy, Debug, PartialEq, Eq, Structural)]
pub struct ClassId {
    pub index: usize,
}

/// Owns every registered class until it is dropped or the runtime shuts down.
pub struct ClassRegistry {
    pub(crate) classes: Vec<Option<Class>>,
}

impl ClassRegistry {
    /// One entry per identifier handed out so far; `None` once dropped.
    pub open(crate) spec fn view(&self) -> Seq<Option<Class>> {
        self.classes@
    }

    /// Whether `id` names a class that is still registered.
    pub open spec fn contains(&self, id: ClassId) -> bool {
        id.index < self@.len() && self@[id.index as int] is Some
    }

    /// The class that `id` names.
    pub open spec fn class_of(&self, id: ClassId) -> Class
        recommends
            self.contains(id),
    {
        self@[id.index as int]->0
    }

    /// An empty registry.
    pub fn new() -> (registry: ClassRegistry)
        ensures
            registry@.len() == 0,
    {
        ClassRegistry { classes: Vec::new() }
    }

    /// The number of identifiers handed out so far.
    pub fn issued(&self) -> (n: usize)
        ensures
            n == self@.len(),
    {
        self.classes.len()
    }

    /// Registers a class. Counts out of range are rejected with
    /// `InvalidClass` and leave the registry as it was.
    pub fn register_class(
        &mut self,
        name: String,
        field_count: usize,
        method_table_size: usize,
        kind: ClassKind,
    ) -> (r: Result<ClassId, RuntimeError>)
        ensures
            r is Ok <==> field_count <= MAX_FIELDS && method_table_size <= MAX_METHODS,
            r matches Err(e) ==> e == RuntimeError::InvalidClass && final(self)@ == old(self)@,
            r matches Ok(id) ==> {
                &&& id.index == old(self)@.len()
                &&& final(self)@.len() == old(self)@.len() + 1
                &&& final(self)@.subrange(0, id.index as int) == old(self)@
                &&& final(self).contains(id)
                &&& final(self).class_of(id).spec_name() == name@
                &&& final(self).class_of(id).spec_field_count() == field_count
                &&& final(self).class_of(id).spec_method_table_size() == method_table_size
                &&& final(self).class_of(id).spec_kind() == kind
            },
    {
        if field_count > MAX_FIELDS || method_table_size > MAX_METHODS {
            return Err(RuntimeError::InvalidClass);
        }
        let id = ClassId { index: self.classes.len() };
        let class = Class::new(name, field_count as u8, method_table_size as u16, kind);
        self.classes.push(Some(class));
        assert(self.classes@.subrange(0, id.index as int) == old(self).classes@);
        Ok(id)
    }

    /// Looks a class up. `None` when the identifier was never handed out or
    /// its class has been dropped.
    pub fn get(&self, id: ClassId) -> (r: Option<&Class>)
        ensures
            r is Some <==> self.contains(id),
            r matches Some(class) ==> *class == self.class_of(id),
    {
        if id.index < self.classes.len() {
            self.classes[id.index].as_ref()
        } else {
            None
        }
    }

    /// Releases a class and hands its descriptor back. Fails with
    /// `InvalidClass`, changing nothing, when `id` names no registered class.
    pub fn drop_class(&mut self, id: ClassId) -> (r: Result<Class, RuntimeError>)
        ensures
            r is Ok <==> old(self).contains(id),
            r is Err ==> r.unwrap_err() == RuntimeError::InvalidClass && final(self)@ == old(self)@,
            r matches Ok(class) ==> {
                &&& class == old(self).class_of(id)
                &&& final(self)@ == old(self)@.update(id.index as int, None)
            },
    {
        if id.index >= self.classes.len() {
            return Err(RuntimeError::InvalidClass);
        }
        let mut taken: Option<Class> = None;
        std::mem::swap(&mut self.classes[id.index], &mut taken);
        match taken {
            Some(class) => Ok(class),
            None => {
                assert(self.classes@ == old(self).classes@);
                Err(RuntimeError::InvalidClass)
            },
        }
    }
}


impl ClassRegistry {
    /// Releases every class, as at shutdown. No identifier names a class
    /// afterwards, and none will be handed out again.
    pub fn clear(&mut self)
        ensures
            final(self)@.len() == old(self)@.len(),
            forall|id: ClassId| !final(self).contains(id),
    {
        let mut i: usize = 0;
        while i < self.classes.len()
            invariant
                i <= self.classes@.len(),
                self.classes@.len() == old(self).classes@.len(),
                forall|k: int| 0 <= k < i ==> (#[trigger] self.classes@[k]) is None,
            decreases self.classes.len() - i,
        {
            self.classes[i] = None;
            i += 1;
        }
    }
}

} // verus!

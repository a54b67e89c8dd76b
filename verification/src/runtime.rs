//! The class boundary offered to generated code: registering and releasing
//! class metadata by name.

use vstd::prelude::*;
use crate::class::{ClassId, ClassKind, ClassRegistry};

verus! {

/// The text that lossy UTF-8 decoding makes of a byte string: valid input
/// decodes as it stands, each invalid sequence becomes U+FFFD.
pub uninterp spec fn utf8_lossy_text(bytes: Seq<u8>) -> Seq<char>;

/// Calls `String::from_utf8_lossy` and takes ownership of what it returns.
///
/// Trusted: the result is a function of the bytes alone, and bytes that are
/// valid UTF-8 decode to the text they encode.
#[verifier::external_body]
fn lossy_string(bytes: &[u8]) -> (text: String)
    ensures
        text@ == utf8_lossy_text(bytes@),
        vstd::utf8::valid_utf8(bytes@) ==> text@ == vstd::utf8::decode_utf8(bytes@),
{
    String::from_utf8_lossy(bytes).into_owned()
}

/// Registers a class whose name has already been decoded.
pub fn register_named(
    registry: &mut ClassRegistry,
    name: String,
    fields: u8,
    methods: u16,
    kind: ClassKind,
) -> (id: ClassId)
    ensures
        id.index == old(registry)@.len(),
        final(registry)@.len() == old(registry)@.len() + 1,
        final(registry)@.subrange(0, id.index as int) == old(registry)@,
        final(registry).contains(id),
        final(registry).class_of(id).spec_name() == name@,
        final(registry).class_of(id).spec_field_count() == fields,
        final(registry).class_of(id).spec_method_table_size() == methods,
        final(registry).class_of(id).spec_kind() == kind,
{
    match registry.register_class(name, fields as usize, methods as usize, kind) {
        Ok(id) => id,
        Err(_) => {
            assert(false);
            ClassId { index: 0 }
        },
    }
}

/// Creates an object-kind class named by `name`, a byte string in which
/// invalid UTF-8 is replaced rather than rejected. The registry owns the
/// class until `inko_class_drop`.
pub fn inko_class_object(registry: &mut ClassRegistry, name: &[u8], fields: u8, methods: u16) -> (id:
    ClassId)
    ensures
        id.index == old(registry)@.len(),
        final(registry)@.len() == old(registry)@.len() + 1,
        final(registry)@.subrange(0, id.index as int) == old(registry)@,
        final(registry).contains(id),
        final(registry).class_of(id).spec_name() == utf8_lossy_text(name@),
        final(registry).class_of(id).spec_field_count() == fields,
        final(registry).class_of(id).spec_method_table_size() == methods,
        final(registry).class_of(id).spec_kind() == ClassKind::Object,
{
    let text = lossy_string(name);
    register_named(registry, text, fields, methods, ClassKind::Object)
}

/// Creates a process-kind class: as `inko_class_object`, and instances get a
/// mailbox and a register file when they are spawned.
pub fn inko_class_process(registry: &mut ClassRegistry, name: &[u8], fields: u8, methods: u16) -> (id:
    ClassId)
    ensures
        id.index == old(registry)@.len(),
        final(registry)@.len() == old(registry)@.len() + 1,
        final(registry)@.subrange(0, id.index as int) == old(registry)@,
        final(registry).contains(id),
        final(registry).class_of(id).spec_name() == utf8_lossy_text(name@),
        final(registry).class_of(id).spec_field_count() == fields,
        final(registry).class_of(id).spec_method_table_size() == methods,
        final(registry).class_of(id).spec_kind() == ClassKind::Process,
{
    let text = lossy_string(name);
    register_named(registry, text, fields, methods, ClassKind::Process)
}

/// Releases the metadata of `class`. Afterwards the identifier names nothing;
/// an identifier that names nothing is left alone.
pub fn inko_class_drop(registry: &mut ClassRegistry, class: ClassId)
    ensures
        !final(registry).contains(class),
        final(registry)@.len() == old(registry)@.len(),
        forall|i: int|
            0 <= i < old(registry)@.len() && i != class.index ==> final(registry)@[i]
                == old(registry)@[i],
{
    let _ = registry.drop_class(class);
}

} // verus!

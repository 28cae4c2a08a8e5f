//! A module as walrus parsed it, together with the bytes it was parsed from.
//!
//! The fields are private to this module, and the only way to make a
//! [`ParsedBuffer`] is [`parse_buffer`], which parses its bytes with walrus:
//! so the module a `ParsedBuffer` holds is always walrus's parse of
//! [`ParsedBuffer::source`].
use vstd::prelude::*;

verus! {

/// A module as walrus parses it.
#[verifier::external_type_specification]
#[verifier::external_body]
pub struct ExWalrusModule(walrus::Module);

/// Whether `walrus::Module::from_buffer` accepts these bytes.
pub uninterp spec fn walrus_accepts(bytes: Seq<u8>) -> bool;

/// Walrus's parse of some bytes, kept with those bytes.
#[derive(Debug)]
pub struct ParsedBuffer<'a> {
    bytes: &'a [u8],
    module: walrus::Module,
}

impl<'a> ParsedBuffer<'a> {
    /// The bytes the module was parsed from.
    pub closed spec fn source(&self) -> Seq<u8> {
        self.bytes@
    }

    /// The parsed module.
    pub closed spec fn parsed(&self) -> walrus::Module {
        self.module
    }

    /// The bytes the module was parsed from.
    pub fn bytes(&self) -> (r: &'a [u8])
        ensures
            r@ == self.source(),
    {
        self.bytes
    }

    /// The parsed module.
    pub fn module(&self) -> (r: &walrus::Module)
        ensures
            *r == self.parsed(),
    {
        &self.module
    }

    /// The parsed module, giving up the bytes.
    pub fn into_module(self) -> (r: walrus::Module)
        ensures
            r == self.parsed(),
    {
        self.module
    }
}

/// Parses a module with `walrus::Module::from_buffer`, with walrus's default
/// configuration, and keeps the module with the bytes it was parsed from.
/// Trusted: the parse succeeds exactly when walrus accepts the bytes, which
/// depends on the bytes alone. What the parsed module holds is walrus's
/// parse of `source()`; it is held as an opaque value, so no clause states
/// more of it. A failure becomes its message.
#[verifier::external_body]
pub(crate) fn parse_buffer<'a>(bytes: &'a [u8]) -> (r: Result<ParsedBuffer<'a>, String>)
    ensures
        r is Ok <==> walrus_accepts(bytes@),
        r matches Ok(p) ==> p.source() == bytes@,
{
    match walrus::Module::from_buffer(bytes) {
        Ok(module) => Ok(ParsedBuffer { bytes, module }),
        Err(e) => Err(e.to_string()),
    }
}

} // verus!

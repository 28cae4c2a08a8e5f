//! The configuration of a merge: the modules, in order, and the options.
use crate::error::Error;
use crate::kinds::IdentifierModule;
use crate::merge_options::MergeOptions;
use crate::named_module::NamedModule;
use crate::parsed_buffer::{parse_buffer, walrus_accepts, ParsedBuffer};
use vstd::prelude::*;

verus! {

/// The configuration of modules that will be merged
///
/// The order of the modules dictactes the multi-memory
/// order of the merged modules.
#[derive(Debug)]
pub struct MergeConfiguration<'a, Module> {
    /// The modules that will be included in the output merged module.
    /// The order is relevant.
    pub modules: &'a [&'a NamedModule<'a, Module>],
    pub options: MergeOptions,
}

impl<'a> MergeConfiguration<'a, &'a [u8]> {
    /// A configuration of the given modules, with the given options.
    pub fn new(modules: &'a [&'a NamedModule<'a, &'a [u8]>], options: MergeOptions) -> (r: Self)
        ensures
            r.modules == modules,
            r.options == options,
    {
        Self::new_empty_builder(modules, options)
    }

    /// Parses every module, in order, keeping its name: the module under
    /// each name is walrus's parse of that module's own bytes. Fails with the
    /// message of the first module that walrus does not accept.
    pub fn try_parse(&self) -> (r: Result<Vec<NamedModule<'a, ParsedBuffer<'a>>>, Error>)
        ensures
            r is Ok <==> forall|i: int| 0 <= i < self.modules@.len() ==> walrus_accepts(#[trigger] self.modules@[i].module@),
            r matches Ok(parsed) ==> parsed@.len() == self.modules@.len() && forall|i: int|
                0 <= i < parsed@.len() ==> (#[trigger] parsed@[i]).name == self.modules@[i].name
                    && parsed@[i].module.source() == self.modules@[i].module@,
            r matches Err(e) ==> e is Parse,
    {
        let mut parsed: Vec<NamedModule<'a, ParsedBuffer<'a>>> = Vec::new();
        let mut i: usize = 0;
        while i < self.modules.len()
            invariant
                i <= self.modules@.len(),
                parsed@.len() == i,
                forall|j: int| 0 <= j < i ==> walrus_accepts(#[trigger] self.modules@[j].module@),
                forall|j: int| 0 <= j < i ==> (#[trigger] parsed@[j]).name == self.modules@[j].name
                    && parsed@[j].module.source() == self.modules@[j].module@,
            decreases self.modules@.len() - i,
        {
            let named = self.modules[i];
            match parse_buffer(named.module) {
                Ok(module) => parsed.push(NamedModule::new(named.name, module)),
                Err(message) => {
                    return Err(Error::Parse(message));
                },
            }
            i = i + 1;
        }
        Ok(parsed)
    }

    /// A configuration of the given modules, with the given options.
    pub fn new_empty_builder(modules: &'a [&'a NamedModule<'a, &'a [u8]>], options: MergeOptions) -> (r: Self)
        ensures
            r.modules == modules,
            r.options == options,
    {
        Self { modules, options }
    }
}

impl<'a, T> MergeConfiguration<'a, T> {
    /// The names of the modules, in order.
    pub fn owned_names(&self) -> (r: Vec<IdentifierModule>)
        ensures
            r@.len() == self.modules@.len(),
            forall|i: int| 0 <= i < r@.len() ==> (#[trigger] r@[i])@ == self.modules@[i].name@,
    {
        let mut names: Vec<IdentifierModule> = Vec::new();
        let mut i: usize = 0;
        while i < self.modules.len()
            invariant
                i <= self.modules@.len(),
                names@.len() == i,
                forall|j: int| 0 <= j < i ==> (#[trigger] names@[j])@ == self.modules@[j].name@,
            decreases self.modules@.len() - i,
        {
            names.push(IdentifierModule::new(String::from_str(self.modules[i].name)));
            i = i + 1;
        }
        names
    }
}

} // verus!

use crate::error::SuiError;
use crate::inner::InnerTemporaryStore;
use crate::move_types::ModuleId;
use crate::object::{deserialized, Data, DataView, MovePackage};
use crate::storage::GetModule;
use vstd::prelude::*;

verus! {

broadcast use vstd::laws_cmp::group_laws_cmp;

/// Finds modules in what a transaction wrote, and elsewhere if they are not there.
pub struct TemporaryModuleResolver<'a, R> {
    temp_store: &'a InnerTemporaryStore,
    fallback: R,
}

/// Why a module was not found.
#[derive(Debug, PartialEq, Eq)]
pub enum ResolverError<E> {
    /// The package that the transaction wrote does not have the module.
    Package(SuiError),
    /// The fallback failed.
    Fallback(E),
}

impl InnerTemporaryStore {
    /// The package at the address of `id`, if the transaction wrote one.
    pub open spec fn written_package(self, id: ModuleId) -> Option<MovePackage> {
        if self.written@.contains_key(id.address) {
            match self.written@[id.address].1@.data {
                DataView::Package(package) => Some(package),
                DataView::Move(_) => None,
            }
        } else {
            None
        }
    }
}

impl<'a, R> TemporaryModuleResolver<'a, R> {
    /// What the transaction wrote.
    pub closed spec fn store(&self) -> InnerTemporaryStore {
        *self.temp_store
    }

    /// Where modules are looked for that the transaction did not write.
    pub closed spec fn otherwise(&self) -> R {
        self.fallback
    }

    pub fn new(temp_store: &'a InnerTemporaryStore, fallback: R) -> (resolver: Self)
        ensures
            resolver.store() == *temp_store,
            resolver.otherwise() == fallback,
    {
        TemporaryModuleResolver { temp_store, fallback }
    }
}

impl<'a, R: GetModule> TemporaryModuleResolver<'a, R> {
    /// The module `id`, in the form that `deserialize` gives it: out of the package that the
    /// transaction wrote, or else from the fallback.
    pub fn get_module_by_id<F: Fn(&Vec<u8>, u32) -> Option<R::Item>>(
        &self,
        id: &ModuleId,
        deserialize: &F,
    ) -> (result: Result<Option<R::Item>, ResolverError<R::Error>>)
        requires
            forall|bytes: &Vec<u8>|
                call_requires(*deserialize, (bytes, self.store().max_binary_format_version)),
        ensures
            match self.store().written_package(*id) {
                Some(package) => {
                    &&& result matches Ok(module) ==> module is Some
                    &&& result matches Err(error) ==> error is Package
                    &&& deserialized(
                        *deserialize,
                        package,
                        id.name@,
                        self.store().max_binary_format_version,
                        match result {
                            Ok(module) => Ok(module->0),
                            Err(error) => Err(error->Package_0),
                        },
                    )
                },
                None => {
                    &&& result matches Err(error) ==> error is Fallback
                    &&& call_ensures(
                        R::get_module_by_id,
                        (&self.otherwise(), id),
                        match result {
                            Ok(module) => Ok(module),
                            Err(error) => Err(error->Fallback_0),
                        },
                    )
                },
            },
    {
        if let Some(entry) = self.temp_store.written.get(&id.address) {
            if let Data::Package(package) = &entry.1.data {
                let version: u32 = self.temp_store.max_binary_format_version;
                return match package.deserialize_module(&id.name, version, deserialize) {
                    Ok(module) => Ok(Some(module)),
                    Err(error) => Err(ResolverError::Package(error)),
                };
            }
        }
        match self.fallback.get_module_by_id(id) {
            Ok(module) => Ok(module),
            Err(error) => Err(ResolverError::Fallback(error)),
        }
    }
}

} // verus!

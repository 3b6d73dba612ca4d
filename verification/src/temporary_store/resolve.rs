use crate::base_types::{AccountAddress, ObjectID, ObjectRef};
use crate::bytes::copy_bytes;
use crate::error::{SuiError, SuiResult};
use crate::event::Event;
use crate::move_types::{object_is_of_type, ModuleId, StructTag};
use crate::object::{deserialized, module_bytes, Data, DataView, Object, ObjectView};
use crate::order::ascending;
use crate::storage::{
    found, BackingPackageStore, ChildObjectResolver, GetModule, ObjectChange, ParentSync, Storage,
};
use crate::temporary_store::model::StoreView;
use crate::temporary_store::{change_views, TemporaryStore};
use std::collections::BTreeMap;
use vstd::prelude::*;

verus! {

broadcast use vstd::laws_cmp::group_laws_cmp;

impl StoreView {
    /// The package `id` as the transaction sees it: as it was written or was an input, or else as
    /// the backing store has it.
    pub open spec fn package_seen<S: BackingPackageStore>(self, store: S, id: ObjectID) -> SuiResult<
        Option<ObjectView>,
    > {
        match self.read_object(id) {
            Some(object) => Ok(Some(object)),
            None => store.package_at(id),
        }
    }

    /// The bytes of the module `module_id`, if its package and the module in it exist. It is an
    /// error if the object that should be the package is none.
    pub open spec fn module_seen<S: BackingPackageStore>(
        self,
        store: S,
        module_id: ModuleId,
    ) -> SuiResult<Option<Seq<u8>>> {
        match self.package_seen(store, module_id.address) {
            Err(error) => Err(error),
            Ok(None) => Ok(None),
            Ok(Some(object)) => match object.data {
                DataView::Package(package) => Ok(
                    module_bytes(package.modules@, module_id.name@),
                ),
                DataView::Move(_) => Err(SuiError::BadObjectType),
            },
        }
    }
}

/// A child object as the transaction sees it: as it was written, or else as the backing store has
/// it.
impl<S: ChildObjectResolver> ChildObjectResolver for TemporaryStore<S> {
    open spec fn child_readable(&self, child: ObjectID) -> bool {
        &&& self@.may_read(child)
        &&& self@.written.contains_key(child) || self.backing().child_readable(child)
    }

    open spec fn child_at(&self, parent: ObjectID, child: ObjectID) -> SuiResult<
        Option<ObjectView>,
    > {
        if self@.written.contains_key(child) {
            Ok(Some(self@.written[child].0))
        } else {
            self.backing().child_at(parent, child)
        }
    }

    fn read_child_object(&self, parent: &ObjectID, child: &ObjectID) -> (result: SuiResult<
        Option<Object>,
    >) {
        match self.written.get(child) {
            Some(entry) => Ok(Some(entry.0.clone())),
            None => self.store.read_child_object(parent, child),
        }
    }
}

impl<S: ChildObjectResolver> Storage for TemporaryStore<S> {
    open spec fn readable(&self, id: ObjectID) -> bool {
        self@.may_read(id)
    }

    open spec fn accepts(&self, changes: Map<ObjectID, ObjectChange>) -> bool {
        self@.may_apply_changes(change_views(changes), ascending(changes.dom()))
    }

    open spec fn in_order(&self) -> bool {
        self.wf()
    }

    fn reset(&mut self)
        ensures
            final(self).wf(),
            final(self).backing() == old(self).backing(),
            final(self)@ == old(self)@.drop_writes(),
    {
        self.drop_writes();
    }

    fn log_event(&mut self, event: Event)
        ensures
            final(self).wf(),
            final(self).backing() == old(self).backing(),
            final(self)@ == (StoreView { events: old(self)@.events.push(event), ..old(self)@ }),
    {
        TemporaryStore::log_event(self, event)
    }

    fn read_object(&self, id: &ObjectID) -> (object: Option<&Object>)
        ensures
            object is Some <==> self@.read_object(*id) is Some,
            object matches Some(o) ==> self@.read_object(*id) == Some(o@),
    {
        TemporaryStore::read_object(self, id)
    }

    fn apply_object_changes(&mut self, changes: BTreeMap<ObjectID, ObjectChange>)
        ensures
            final(self).wf(),
            final(self).backing() == old(self).backing(),
            final(self)@ == old(self)@.apply_changes(
                change_views(changes@),
                ascending(changes@.dom()),
            ),
    {
        TemporaryStore::apply_object_changes(self, changes)
    }
}

/// Packages come from the backing store.
impl<S: BackingPackageStore> BackingPackageStore for TemporaryStore<S> {
    open spec fn package_at(&self, package_id: ObjectID) -> SuiResult<Option<ObjectView>> {
        self.backing().package_at(package_id)
    }

    fn get_package_object(&self, package_id: &ObjectID) -> (result: SuiResult<Option<Object>>) {
        self.store.get_package_object(package_id)
    }
}

/// The last versions of objects come from the backing store.
impl<S: ParentSync> ParentSync for TemporaryStore<S> {
    open spec fn parent_entry(&self, object_id: ObjectID) -> SuiResult<Option<ObjectRef>> {
        self.backing().parent_entry(object_id)
    }

    fn get_latest_parent_entry_ref(&self, object_id: ObjectID) -> (result: SuiResult<
        Option<ObjectRef>,
    >) {
        self.store.get_latest_parent_entry_ref(object_id)
    }
}

impl<S: BackingPackageStore> TemporaryStore<S> {
    /// The bytes of a module.
    pub fn get_module(&self, module_id: &ModuleId) -> (result: SuiResult<Option<Vec<u8>>>)
        requires
            self@.may_read(module_id.address),
        ensures
            match self@.module_seen(self.backing(), *module_id) {
                Ok(Some(bytes)) => result matches Ok(Some(code)) && code@ == bytes,
                Ok(None) => result == Ok::<Option<Vec<u8>>, SuiError>(None),
                Err(error) => result == Err::<Option<Vec<u8>>, SuiError>(error),
            },
    {
        let package_id: ObjectID = module_id.address;
        let package_obj;
        let package = match self.read_object(&package_id) {
            Some(object) => object,
            None => {
                let looked_up = self.store.get_package_object(&package_id);
                assert(found(looked_up) == self.backing().package_at(package_id));
                match looked_up {
                    Err(error) => {
                        return Err(error);
                    },
                    Ok(None) => {
                        return Ok(None);
                    },
                    Ok(Some(object)) => {
                        package_obj = object;
                        &package_obj
                    },
                }
            },
        };
        match &package.data {
            Data::Package(c) => match c.module(&module_id.name) {
                Some(bytes) => Ok(Some(copy_bytes(bytes))),
                None => Ok(None),
            },
            Data::Move(_) => Err(SuiError::BadObjectType),
        }
    }
}

impl<S> TemporaryStore<S> {
    /// The contents of the Move object at `address`, which has the type `struct_tag`. There are none
    /// if there is no such object.
    pub fn get_resource(&self, address: &AccountAddress, struct_tag: &StructTag) -> (result:
        SuiResult<Option<Vec<u8>>>)
        requires
            self@.may_read(*address),
            self@.read_object(*address) matches Some(object) ==> object.data is Move
                && object_is_of_type(object.data->Move_0.type_, *struct_tag),
        ensures
            match self@.read_object(*address) {
                None => result == Ok::<Option<Vec<u8>>, SuiError>(None),
                Some(object) => result matches Ok(Some(contents)) && contents@
                    == object.data->Move_0.contents,
            },
    {
        match self.read_object(address) {
            None => Ok(None),
            Some(object) => match &object.data {
                Data::Move(m) => Ok(Some(copy_bytes(&m.contents))),
                Data::Package(_) => Ok(None),
            },
        }
    }
}

impl<S: GetModule<Error = SuiError>> TemporaryStore<S> {
    /// The module `module_id`, in the form that `deserialize` gives it: out of the package as it was
    /// written, or else out of the backing store.
    pub fn get_module_by_id<F: Fn(&Vec<u8>, u32) -> Option<S::Item>>(
        &self,
        module_id: &ModuleId,
        deserialize: &F,
    ) -> (result: SuiResult<Option<S::Item>>)
        requires
            self@.written.contains_key(module_id.address)
                ==> self@.written[module_id.address].0.data is Package,
            forall|bytes: &Vec<u8>|
                call_requires(*deserialize, (bytes, self@.protocol_config.move_binary_format_version)),
        ensures
            if self@.written.contains_key(module_id.address) {
                &&& result != Ok::<Option<S::Item>, SuiError>(None)
                &&& deserialized(
                    *deserialize,
                    self@.written[module_id.address].0.data->Package_0,
                    module_id.name@,
                    self@.protocol_config.move_binary_format_version,
                    match result {
                        Ok(module) => Ok(module->0),
                        Err(error) => Err(error),
                    },
                )
            } else {
                call_ensures(S::get_module_by_id, (&self.backing(), module_id), result)
            },
    {
        if let Some(entry) = self.written.get(&module_id.address) {
            if let Data::Package(package) = &entry.0.data {
                let version: u32 = self.protocol_config.move_binary_format_version();
                assert(version == self@.protocol_config.move_binary_format_version);
                return match package.deserialize_module(
                    &module_id.name,
                    version,
                    deserialize,
                ) {
                    Ok(module) => Ok(Some(module)),
                    Err(error) => Err(error),
                };
            }
        }
        self.store.get_module_by_id(module_id)
    }
}

} // verus!

use crate::base_types::{ObjectID, ObjectRef, SequenceNumber};
use crate::error::SuiResult;
use crate::move_types::ModuleId;
use crate::object::{Object, ObjectView};
use std::collections::BTreeMap;
use vstd::prelude::*;

verus! {

broadcast use vstd::laws_cmp::group_laws_cmp;

/// How a transaction came to write an object.
#[derive(Clone, Copy, Debug, PartialEq, Eq, Structural)]
pub enum WriteKind {
    /// The object existed before the transaction.
    Mutate,
    /// The transaction created the object.
    Create,
    /// The transaction took the object out of the object that wrapped it.
    Unwrap,
}

/// How a transaction came to delete an object.
#[derive(Clone, Copy, Debug, PartialEq, Eq, Structural)]
pub enum DeleteKind {
    /// The object existed before the transaction.
    Normal,
    /// The transaction took the object out of the object that wrapped it, and then deleted it.
    UnwrapThenDelete,
    /// The transaction put the object into another one.
    Wrap,
}

/// A change that execution made to an object.
#[derive(Debug, PartialEq, Eq)]
pub enum ObjectChange {
    Write(Object, WriteKind),
    Delete(SequenceNumber, DeleteKind),
}

/// What an object change is.
pub enum ObjectChangeView {
    Write(ObjectView, WriteKind),
    Delete(SequenceNumber, DeleteKind),
}

impl View for ObjectChange {
    type V = ObjectChangeView;

    open spec fn view(&self) -> ObjectChangeView {
        match *self {
            ObjectChange::Write(object, kind) => ObjectChangeView::Write(object@, kind),
            ObjectChange::Delete(version, kind) => ObjectChangeView::Delete(version, kind),
        }
    }
}

/// What a lookup found.
pub open spec fn found(result: SuiResult<Option<Object>>) -> SuiResult<Option<ObjectView>> {
    match result {
        Ok(Some(object)) => Ok(Some(object@)),
        Ok(None) => Ok(None),
        Err(error) => Err(error),
    }
}

/// A store of objects, by id, each at its latest version.
pub trait ObjectStore {
    /// What the store holds under `id`.
    spec fn object_at(&self, id: ObjectID) -> SuiResult<Option<ObjectView>>;

    fn get_object(&self, id: &ObjectID) -> (result: SuiResult<Option<Object>>)
        ensures
            found(result) == self.object_at(*id),
    ;
}

/// A store of packages, by id.
pub trait BackingPackageStore {
    /// What the store holds under `package_id`.
    spec fn package_at(&self, package_id: ObjectID) -> SuiResult<Option<ObjectView>>;

    fn get_package_object(&self, package_id: &ObjectID) -> (result: SuiResult<Option<Object>>)
        ensures
            found(result) == self.package_at(*package_id),
    ;
}

/// A store of objects that belong to other objects.
pub trait ChildObjectResolver {
    /// Whether `child` may be read.
    spec fn child_readable(&self, child: ObjectID) -> bool;

    /// What the store holds under `child` as an object that belongs to `parent`.
    spec fn child_at(&self, parent: ObjectID, child: ObjectID) -> SuiResult<Option<ObjectView>>;

    fn read_child_object(&self, parent: &ObjectID, child: &ObjectID) -> (result: SuiResult<
        Option<Object>,
    >)
        requires
            self.child_readable(*child),
        ensures
            found(result) == self.child_at(*parent, *child),
    ;
}

/// A record of the last version of every object, deleted ones among them.
pub trait ParentSync {
    /// The last reference that is known of `object_id`.
    spec fn parent_entry(&self, object_id: ObjectID) -> SuiResult<Option<ObjectRef>>;

    fn get_latest_parent_entry_ref(&self, object_id: ObjectID) -> (result: SuiResult<
        Option<ObjectRef>,
    >)
        ensures
            result == self.parent_entry(object_id),
    ;
}

/// A source of modules in the form `Item`.
pub trait GetModule {
    type Item;

    type Error;

    fn get_module_by_id(&self, id: &ModuleId) -> (result: Result<Option<Self::Item>, Self::Error>);
}

/// What the execution of a transaction reads and writes.
pub trait Storage {
    /// Whether `id` may be read.
    spec fn readable(&self, id: ObjectID) -> bool;

    /// Whether `changes` may be applied.
    spec fn accepts(&self, changes: Map<ObjectID, ObjectChange>) -> bool;

    /// Whether the storage is in order.
    spec fn in_order(&self) -> bool;

    fn reset(&mut self)
        requires
            old(self).in_order(),
    ;

    fn log_event(&mut self, event: crate::event::Event)
        requires
            old(self).in_order(),
    ;

    fn read_object(&self, id: &ObjectID) -> (object: Option<&Object>)
        requires
            self.in_order(),
            self.readable(*id),
    ;

    fn apply_object_changes(&mut self, changes: BTreeMap<ObjectID, ObjectChange>)
        requires
            old(self).in_order(),
            old(self).accepts(changes@),
    ;
}

/// The objects that a transaction wrote, each with its reference, are a store of objects.
impl ObjectStore for BTreeMap<ObjectID, (ObjectRef, Object, WriteKind)> {
    open spec fn object_at(&self, id: ObjectID) -> SuiResult<Option<ObjectView>> {
        if self@.contains_key(id) {
            Ok(Some(self@[id].1@))
        } else {
            Ok(None)
        }
    }

    fn get_object(&self, id: &ObjectID) -> (result: SuiResult<Option<Object>>) {
        match self.get(id) {
            Some(entry) => Ok(Some(entry.1.clone())),
            None => Ok(None),
        }
    }
}

} // verus!

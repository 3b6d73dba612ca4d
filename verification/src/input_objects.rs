use crate::base_types::{ObjectDigest, ObjectID, ObjectRef, SequenceNumber};
use crate::object::{Data, DataView, Object, ObjectView};
use std::collections::BTreeMap;
use vstd::prelude::*;

verus! {

broadcast use vstd::laws_cmp::group_laws_cmp;

/// How a transaction names one of its inputs.
#[derive(Clone, Copy, Debug, PartialEq, Eq)]
pub enum InputObjectKind {
    /// A package.
    MovePackage(ObjectID),
    /// An object that is immutable or belongs to one account.
    ImmOrOwnedMoveObject(ObjectRef),
    /// A shared object, and whether the transaction may change it.
    SharedMoveObject { id: ObjectID, initial_shared_version: SequenceNumber, mutable: bool },
}

/// An input of a transaction, with the object as it was loaded and the digest of that.
#[derive(Debug, PartialEq, Eq)]
pub struct InputObject {
    pub kind: InputObjectKind,
    pub object: Object,
    pub digest: ObjectDigest,
}

/// The inputs of a transaction.
#[derive(Debug, PartialEq, Eq)]
pub struct InputObjects {
    pub objects: Vec<InputObject>,
}

impl InputObjectKind {
    /// The id of the input.
    pub open spec fn id(self) -> ObjectID {
        match self {
            InputObjectKind::MovePackage(id) => id,
            InputObjectKind::ImmOrOwnedMoveObject(object_ref) => object_ref.0,
            InputObjectKind::SharedMoveObject { id, .. } => id,
        }
    }
}

impl InputObject {
    /// Whether the object is complete and is the one that the transaction names.
    pub open spec fn wf(self) -> bool {
        self.object@.wf() && self.kind.id() == self.object@.id()
    }

    /// The reference to the input, if the transaction may change it.
    pub open spec fn mutable_ref(self) -> Option<ObjectRef> {
        match self.kind {
            InputObjectKind::MovePackage(_) => None,
            InputObjectKind::ImmOrOwnedMoveObject(object_ref) => if self.object@.is_immutable() {
                None
            } else {
                Some(object_ref)
            },
            InputObjectKind::SharedMoveObject { mutable, .. } => if mutable {
                Some((self.object@.id(), self.object@.version(), self.digest))
            } else {
                None
            },
        }
    }

    /// The version of the input where it is a Move object, and the lowest one where it is a
    /// package.
    pub open spec fn move_version(self) -> u64 {
        match self.object@.data {
            DataView::Move(m) => m.version.value,
            DataView::Package(_) => 0,
        }
    }
}

/// The references to the inputs that the transaction may change, in the order of the inputs.
pub open spec fn mutable_refs(inputs: Seq<InputObject>) -> Seq<ObjectRef> {
    inputs.filter_map(|input: InputObject| input.mutable_ref())
}

/// The highest version of a Move object among the inputs.
pub open spec fn highest_version(inputs: Seq<InputObject>) -> u64
    decreases inputs.len(),
{
    if inputs.len() == 0 {
        0
    } else {
        let rest = highest_version(inputs.drop_last());
        let last = inputs.last().move_version();
        if rest < last {
            last
        } else {
            rest
        }
    }
}

/// The inputs by their ids. Where two have the same id, the later one counts.
pub open spec fn object_map(inputs: Seq<InputObject>) -> Map<ObjectID, ObjectView>
    decreases inputs.len(),
{
    if inputs.len() == 0 {
        Map::empty()
    } else {
        object_map(inputs.drop_last()).insert(inputs.last().object@.id(), inputs.last().object@)
    }
}

impl InputObjects {
    /// Whether every object is complete and is the one that the transaction names.
    pub open spec fn wf(self) -> bool {
        forall|i: int| 0 <= i < self.objects@.len() ==> (#[trigger] self.objects@[i]).wf()
    }

    pub fn new(objects: Vec<InputObject>) -> (inputs: InputObjects)
        ensures
            inputs.objects == objects,
    {
        InputObjects { objects }
    }

    /// The references to the inputs that the transaction may change.
    pub fn mutable_inputs(&self) -> (refs: Vec<ObjectRef>)
        requires
            self.wf(),
        ensures
            refs@ == mutable_refs(self.objects@),
    {
        let mut refs: Vec<ObjectRef> = Vec::new();
        let ghost pick = |input: InputObject| input.mutable_ref();
        let mut i: usize = 0;
        proof {
            reveal(Seq::filter_map);
            assert(self.objects@.take(0).filter_map(pick) =~= Seq::<ObjectRef>::empty());
        }
        while i < self.objects.len()
            invariant
                i <= self.objects@.len(),
                self.wf(),
                pick == (|input: InputObject| input.mutable_ref()),
                refs@ == self.objects@.take(i as int).filter_map(pick),
            decreases self.objects@.len() - i,
        {
            let input = &self.objects[i];
            proof {
                self.objects@.lemma_filter_map_take_succ(pick, i as int);
            }
            match input.kind {
                InputObjectKind::MovePackage(_) => {},
                InputObjectKind::ImmOrOwnedMoveObject(object_ref) => {
                    if !input.object.is_immutable() {
                        refs.push(object_ref);
                    }
                },
                InputObjectKind::SharedMoveObject { mutable, .. } => {
                    if mutable {
                        refs.push((input.object.id(), input.object.version(), input.digest));
                    }
                },
            }
            i = i + 1;
        }
        assert(self.objects@.take(i as int) =~= self.objects@);
        refs
    }

    /// The version of everything that the transaction writes: one more than the highest version of
    /// a Move object among its inputs.
    pub fn lamport_timestamp(&self) -> (timestamp: SequenceNumber)
        requires
            highest_version(self.objects@) < u64::MAX,
        ensures
            timestamp.value == highest_version(self.objects@) + 1,
    {
        let mut highest: u64 = 0;
        let mut i: usize = 0;
        assert(self.objects@.take(0) =~= Seq::<InputObject>::empty());
        while i < self.objects.len()
            invariant
                i <= self.objects@.len(),
                highest == highest_version(self.objects@.take(i as int)),
            decreases self.objects@.len() - i,
        {
            assert(self.objects@.take(i + 1).drop_last() =~= self.objects@.take(i as int));
            match &self.objects[i].object.data {
                Data::Move(m) => {
                    if highest < m.version.value {
                        highest = m.version.value;
                    }
                },
                Data::Package(_) => {},
            }
            i = i + 1;
        }
        assert(self.objects@.take(i as int) =~= self.objects@);
        SequenceNumber { value: highest + 1 }
    }

    /// The inputs by their ids.
    pub fn into_object_map(self) -> (objects: BTreeMap<ObjectID, Object>)
        requires
            self.wf(),
        ensures
            objects@.map_values(|o: Object| o@) == object_map(self.objects@),
    {
        let mut rest = self.objects;
        let mut objects: BTreeMap<ObjectID, Object> = BTreeMap::new();
        let ghost whole = object_map(self.objects@);
        assert(object_map(rest@).union_prefer_right(objects@.map_values(|o: Object| o@)) =~= whole);
        while rest.len() > 0
            invariant
                forall|i: int| 0 <= i < rest@.len() ==> (#[trigger] rest@[i]).wf(),
                object_map(rest@).union_prefer_right(objects@.map_values(|o: Object| o@)) == whole,
            decreases rest@.len(),
        {
            let ghost before = rest@;
            let ghost seen = objects@.map_values(|o: Object| o@);
            if let Some(input) = rest.pop() {
                assert(before[before.len() - 1].wf());
                assert(rest@ =~= before.drop_last());
                let id: ObjectID = input.object.id();
                if !objects.contains_key(&id) {
                    objects.insert(id, input.object);
                }
                assert(object_map(rest@).union_prefer_right(
                    objects@.map_values(|o: Object| o@),
                ) =~= object_map(before).union_prefer_right(seen));
            }
        }
        assert(object_map(rest@).union_prefer_right(objects@.map_values(|o: Object| o@))
            =~= objects@.map_values(|o: Object| o@));
        objects
    }
}

/// The inputs of a transaction are all older than what it writes.
pub proof fn lemma_highest_version_bounds(inputs: Seq<InputObject>, i: int)
    requires
        0 <= i < inputs.len(),
    ensures
        inputs[i].move_version() <= highest_version(inputs),
    decreases inputs.len(),
{
    if i < inputs.len() - 1 {
        lemma_highest_version_bounds(inputs.drop_last(), i);
    }
}

} // verus!

//! The game objects alive in a game, by id and by category.
use crate::constants::{category_index_spec, ObjectCategory, OBJECT_CATEGORY_COUNT};
use std::collections::{HashMap, HashSet};
use vstd::prelude::*;
use vstd::std_specs::iter::IteratorSpec;

verus! {

broadcast use vstd::std_specs::hash::group_hash_axioms;

/// A game object: its category and its id.
#[derive(Copy, Clone, Debug, PartialEq, Eq, Structural)]
pub struct GameObject {
    pub category: ObjectCategory,
    pub id: u64,
}

/// The objects by id, and the ids of the objects of each category.
pub struct ObjectPool {
    objects: HashMap<u64, GameObject>,
    by_category: Vec<HashSet<u64>>,
}

impl ObjectPool {
    /// The objects by id.
    pub closed spec fn spec_objects(&self) -> Map<u64, GameObject> {
        self.objects@
    }

    /// The ids filed under category number `c`.
    pub closed spec fn spec_category(&self, c: nat) -> Set<u64> {
        self.by_category@[c as int]@
    }

    /// One set of ids per category.
    pub closed spec fn wf(&self) -> bool {
        self.by_category@.len() == OBJECT_CATEGORY_COUNT
    }

    /// An empty pool.
    pub fn new() -> (r: ObjectPool)
        ensures
            r.wf(),
            r.spec_objects() == Map::<u64, GameObject>::empty(),
            forall|c: nat| c < OBJECT_CATEGORY_COUNT ==> #[trigger] r.spec_category(c) == Set::<
                u64,
            >::empty(),
    {
        let mut by_category: Vec<HashSet<u64>> = Vec::new();
        let mut i: usize = 0;
        while i < OBJECT_CATEGORY_COUNT
            invariant
                i <= OBJECT_CATEGORY_COUNT,
                by_category@.len() == i,
                forall|c: int| 0 <= c < i ==> (#[trigger] by_category@[c])@ == Set::<u64>::empty(),
            decreases OBJECT_CATEGORY_COUNT - i,
        {
            by_category.push(HashSet::new());
            i = i + 1;
        }
        ObjectPool { objects: HashMap::new(), by_category }
    }

    /// The ids of the objects of category `key`.
    pub fn get_category(&self, key: ObjectCategory) -> (r: &HashSet<u64>)
        requires
            self.wf(),
        ensures
            r@ == self.spec_category(category_index_spec(key)),
    {
        &self.by_category[key.index()]
    }

    /// Removes every object.
    pub fn clear(&mut self)
        requires
            old(self).wf(),
        ensures
            final(self).wf(),
            final(self).spec_objects() == Map::<u64, GameObject>::empty(),
            forall|c: nat| c < OBJECT_CATEGORY_COUNT ==> #[trigger] final(self).spec_category(c)
                == Set::<u64>::empty(),
    {
        self.objects.clear();
        let mut i: usize = 0;
        while i < OBJECT_CATEGORY_COUNT
            invariant
                i <= OBJECT_CATEGORY_COUNT,
                self.by_category@.len() == OBJECT_CATEGORY_COUNT,
                self.objects@ == Map::<u64, GameObject>::empty(),
                forall|c: int| 0 <= c < i ==> (#[trigger] self.by_category@[c])@ == Set::<u64>::empty(),
            decreases OBJECT_CATEGORY_COUNT - i,
        {
            self.by_category[i].clear();
            i = i + 1;
        }
    }

    /// Adds `object`, under its id and in its category.
    pub fn add(&mut self, object: GameObject)
        requires
            old(self).wf(),
        ensures
            final(self).wf(),
            final(self).spec_objects() == old(self).spec_objects().insert(object.id, object),
            forall|c: nat| c < OBJECT_CATEGORY_COUNT ==> #[trigger] final(self).spec_category(c)
                == if c == category_index_spec(object.category) {
                old(self).spec_category(c).insert(object.id)
            } else {
                old(self).spec_category(c)
            },
    {
        self.objects.insert(object.id, object);
        let i = object.category.index();
        self.by_category[i].insert(object.id);
    }

    /// Removes `object` from its category, and whatever is stored under its id.
    pub fn delete(&mut self, object: GameObject)
        requires
            old(self).wf(),
        ensures
            final(self).wf(),
            final(self).spec_objects() == old(self).spec_objects().remove(object.id),
            forall|c: nat| c < OBJECT_CATEGORY_COUNT ==> #[trigger] final(self).spec_category(c)
                == if c == category_index_spec(object.category) {
                old(self).spec_category(c).remove(object.id)
            } else {
                old(self).spec_category(c)
            },
    {
        let i = object.category.index();
        self.by_category[i].remove(&object.id);
        self.objects.remove(&object.id);
    }

    /// Whether an object is stored under `object`'s id.
    pub fn has(&self, object: GameObject) -> (r: bool)
        ensures
            r == self.spec_objects().contains_key(object.id),
    {
        self.objects.contains_key(&object.id)
    }

    /// Whether `object`'s id is filed under its category.
    pub fn category_has(&self, object: GameObject) -> (r: bool)
        requires
            self.wf(),
        ensures
            r == self.spec_category(category_index_spec(object.category)).contains(object.id),
    {
        self.by_category[object.category.index()].contains(&object.id)
    }

    /// The object stored under `id`.
    pub fn get(&self, id: u64) -> (r: Option<GameObject>)
        ensures
            r == if self.spec_objects().contains_key(id) {
                Some(self.spec_objects()[id])
            } else {
                None::<GameObject>
            },
    {
        match self.objects.get(&id) {
            Some(o) => Some(*o),
            None => None,
        }
    }

    /// Whether an object is stored under `id`.
    pub fn has_id(&self, id: u64) -> (r: bool)
        ensures
            r == self.spec_objects().contains_key(id),
    {
        self.objects.contains_key(&id)
    }

    /// How many objects are stored.
    pub fn get_size(&self) -> (r: usize)
        ensures
            r == self.spec_objects().len(),
    {
        self.objects.len()
    }

    /// The stored objects, in no particular order.
    pub fn iter(&self) -> (r: Vec<GameObject>)
        ensures
            r@.to_set() == self.spec_objects().values(),
            r@.len() == self.spec_objects().len(),
    {
        let mut out: Vec<GameObject> = Vec::new();
        let ghost vs = vstd::std_specs::hash::spec_values_iter(&self.objects).remaining();
        for o in it: self.objects.values()
            invariant
                it.seq() == vs,
                out@.len() == it.index(),
                forall|i: int| 0 <= i < out@.len() ==> out@[i] == *it.seq()[i],
        {
            out.push(*o);
        }
        proof {
            assert(out@ =~= vs.map_values(|x: &GameObject| *x));
            assert(vs.unref() =~= vs.map_values(|x: &GameObject| *x));
        }
        out
    }
}

} // verus!

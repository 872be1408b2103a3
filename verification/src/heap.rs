//! The object heap of the virtual machine and its mark-and-sweep garbage
//! collector.
//!
//! The heap is a fixed number of slots. A slot holds a string, a
//! structure (a list of values) or nothing; the empty slots form a chain,
//! each naming the next, and `free` names the first. Collection marks
//! every object that the roots (the registers in use and the constants)
//! reach, then turns every unmarked object into an empty slot.
use vstd::prelude::*;
use crate::runtime::{ObjectIndex, VMData, FatalError};

verus! {

/// The fields of a structure.
#[derive(Debug, Clone, PartialEq, Eq)]
pub struct Structure {
    fields: Vec<VMData>,
}

impl Structure {
    pub closed spec fn view(&self) -> Seq<VMData> {
        self.fields@
    }

    pub fn new(fields: Vec<VMData>) -> (r: Structure)
        ensures
            r.view() == fields@,
    {
        Structure { fields }
    }

    pub fn fields(&self) -> (r: &[VMData])
        ensures
            r@ == self.view(),
    {
        self.fields.as_slice()
    }

    /// The fields as a vector.
    pub fn fields_vec(&self) -> (r: &Vec<VMData>)
        ensures
            r@ == self.view(),
    {
        &self.fields
    }

    /// Writes the field `index`.
    pub fn set_field(&mut self, index: usize, value: VMData)
        requires
            index < old(self).view().len(),
        ensures
            final(self).view() == old(self).view().update(index as int, value),
    {
        self.fields.set(index, value);
    }
}

/// What a heap slot holds.
#[derive(Debug, Clone, PartialEq, Eq)]
pub enum ObjectData {
    Struct(Structure),
    String(String),
    /// An empty slot and the next empty one.
    Free { next: ObjectIndex },
}

/// A heap slot and its mark.
#[derive(Debug, Clone, PartialEq, Eq)]
pub struct Object {
    pub liveliness_status: bool,
    pub data: ObjectData,
}

impl Object {
    /// An unmarked slot holding `data`.
    pub fn new(data: ObjectData) -> (r: Object)
        ensures
            r.liveliness_status == false,
            r.data == data,
    {
        Object { liveliness_status: false, data }
    }

    /// The string this slot holds.
    pub fn string(&self) -> (r: &String)
        requires
            self.data is String,
        ensures
            self.data == ObjectData::String(*r),
    {
        match &self.data {
            ObjectData::String(v) => v,
            _ => {
                assert(false);
                unreached()
            },
        }
    }

    /// The structure this slot holds.
    pub fn structure(&self) -> (r: &Structure)
        requires
            self.data is Struct,
        ensures
            self.data == ObjectData::Struct(*r),
    {
        match &self.data {
            ObjectData::Struct(v) => v,
            _ => {
                assert(false);
                unreached()
            },
        }
    }
}

/// The values an object holds.
pub open spec fn children(o: Object) -> Seq<VMData> {
    match o.data {
        ObjectData::Struct(s) => s.view(),
        _ => Seq::empty(),
    }
}

/// Every reference held by a slot names a slot, and every empty slot
/// names a slot as the next empty one.
pub open spec fn refs_valid(objs: Seq<Object>) -> bool {
    &&& forall|i: int, k: int|
        0 <= i < objs.len() && 0 <= k < children(objs[i]).len() && #[trigger] children(objs[i])[k].spec_is_object()
            ==> children(objs[i])[k].data < objs.len()
    &&& forall|i: int| 0 <= i < objs.len() ==> (#[trigger] objs[i].data matches ObjectData::Free { next } ==> next.index < objs.len())
}

/// The slots of a heap, `free` naming the first empty one.
pub struct ObjectMap {
    map: Vec<Object>,
    free: ObjectIndex,
}

impl ObjectMap {
    pub closed spec fn objects(&self) -> Seq<Object> {
        self.map@
    }

    pub closed spec fn free_slot(&self) -> ObjectIndex {
        self.free
    }

    /// A heap that can take objects: it has slots, the first empty slot is
    /// one of them, and every reference names a slot.
    pub open spec fn wf(&self) -> bool {
        &&& self.objects().len() > 0
        &&& self.free_slot().index < self.objects().len()
        &&& refs_valid(self.objects())
    }

    /// A heap of `space` empty slots, each naming the next and the last
    /// naming the first.
    pub fn new(space: usize) -> (r: ObjectMap)
        ensures
            r.objects().len() == space,
            r.free_slot().index == 0,
            forall|i: int| 0 <= i < space ==> #[trigger] r.objects()[i] == Object::new_spec(
                ObjectData::Free { next: ObjectIndex { index: ((i + 1) % (space as int)) as u64 } }),
            space > 0 ==> r.wf(),
            space > 0 ==> free_complete(r.objects(), 0),
    {
        let mut map: Vec<Object> = Vec::new();
        let mut x: usize = 0;
        while x < space
            invariant
                x <= space,
                map@.len() == x,
                forall|i: int| 0 <= i < x ==> #[trigger] map@[i] == Object::new_spec(
                    ObjectData::Free { next: ObjectIndex { index: ((i + 1) % (space as int)) as u64 } }),
            decreases space - x,
        {
            let next = ((x + 1) % space) as u64;
            map.push(Object::new(ObjectData::Free { next: ObjectIndex::new(next) }));
            x = x + 1;
        }
        let r = ObjectMap { free: ObjectIndex::new(0), map };
        proof {
            if space > 0 {
                lemma_new_complete(r.map@, space as int);
            }
            assert forall|i: int| 0 <= i < r.map@.len() && (#[trigger] r.map@[i].data matches ObjectData::Free { next })
                implies r.map@[i].data->next.index < r.map@.len() by {
                assert(r.map@[i] == Object::new_spec(
                    ObjectData::Free { next: ObjectIndex { index: ((i + 1) % (space as int)) as u64 } }));
            }
        }
        r
    }

    /// Stores `object` in the first empty slot and returns where; when the
    /// first slot named empty holds an object the heap is full and
    /// `object` is handed back.
    pub fn put(&mut self, object: Object) -> (r: Result<ObjectIndex, Object>)
        requires
            old(self).wf(),
        ensures
            match r {
                Ok(index) => {
                    &&& old(self).objects()[old(self).free_slot().index as int].data matches ObjectData::Free { next }
                    &&& index == old(self).free_slot()
                    &&& final(self).objects() == old(self).objects().update(index.index as int, object)
                    &&& final(self).free_slot() == next
                },
                Err(o) => {
                    &&& !(old(self).objects()[old(self).free_slot().index as int].data is Free)
                    &&& o == object
                    &&& final(self).objects() == old(self).objects()
                    &&& final(self).free_slot() == old(self).free_slot()
                },
            },
            free_complete(old(self).objects(), old(self).free_slot().index as int) && !(object.data is Free)
                ==> free_complete(final(self).objects(), final(self).free_slot().index as int),
    {
        let index = self.free;
        let len = self.map.len();
        assert(index.index < len);
        let at = index.index as usize;
        match self.map[at].data {
            ObjectData::Free { next } => {
                let ghost before = self.map@;
                self.map.set(at, object);
                self.free = next;
                proof {
                    if free_complete(before, at as int) && !(object.data is Free) {
                        lemma_put_complete(before, at as int, object);
                    }
                }
                Ok(index)
            },
            _ => Err(object),
        }
    }

    /// The slot `index`.
    pub fn get(&self, index: ObjectIndex) -> (r: &Object)
        requires
            index.index < self.objects().len(),
        ensures
            *r == self.objects()[index.index as int],
    {
        let len = self.map.len();
        assert(index.index < len);
        &self.map[index.index as usize]
    }

    /// Overwrites the slot `index`.
    pub fn set(&mut self, index: ObjectIndex, object: Object)
        requires
            index.index < old(self).objects().len(),
        ensures
            final(self).objects() == old(self).objects().update(index.index as int, object),
            final(self).free_slot() == old(self).free_slot(),
    {
        let len = self.map.len();
        assert(index.index < len);
        self.map.set(index.index as usize, object);
    }

    /// The number of slots.
    pub fn len(&self) -> (r: usize)
        ensures
            r == self.objects().len(),
    {
        self.map.len()
    }

    /// All slots in order.
    pub fn raw(&self) -> (r: &[Object])
        ensures
            r@ == self.objects(),
    {
        self.map.as_slice()
    }
}

impl Object {
    pub open spec fn new_spec(data: ObjectData) -> Object {
        Object { liveliness_status: false, data }
    }
}

/// How many slots are not marked.
pub open spec fn unmarked_count(objs: Seq<Object>) -> nat
    decreases objs.len(),
{
    if objs.len() == 0 {
        0
    } else {
        unmarked_count(objs.drop_last()) + if objs.last().liveliness_status { 0nat } else { 1nat }
    }
}

/// Both heaps hold the same objects, whatever their marks.
pub open spec fn same_data(a: Seq<Object>, b: Seq<Object>) -> bool {
    a.len() == b.len() && forall|i: int| 0 <= i < a.len() ==> #[trigger] b[i].data == a[i].data
}

/// Every slot marked in `a` is marked in `b`.
pub open spec fn marks_grow(a: Seq<Object>, b: Seq<Object>) -> bool {
    a.len() == b.len() && forall|i: int| 0 <= i < a.len() && a[i].liveliness_status ==> #[trigger] b[i].liveliness_status
}

/// Every marked object outside `pending` references only marked objects.
pub open spec fn closed_except(objs: Seq<Object>, pending: Set<int>) -> bool {
    forall|i: int, k: int|
        0 <= i < objs.len() && objs[i].liveliness_status && !pending.contains(i)
            && 0 <= k < children(objs[i]).len() && #[trigger] children(objs[i])[k].spec_is_object()
            ==> objs[children(objs[i])[k].data as int].liveliness_status
}

/// Every object among `roots` is marked.
pub open spec fn roots_marked(objs: Seq<Object>, roots: Seq<VMData>) -> bool {
    forall|r: int| 0 <= r < roots.len() && #[trigger] roots[r].spec_is_object()
        ==> objs[roots[r].data as int].liveliness_status
}

/// Every object among `roots` names a slot.
pub open spec fn roots_valid(objs: Seq<Object>, roots: Seq<VMData>) -> bool {
    forall|r: int| 0 <= r < roots.len() && #[trigger] roots[r].spec_is_object()
        ==> roots[r].data < objs.len()
}

/// `path` leads from an object among `roots`, through references, to its
/// last slot.
pub open spec fn is_path(objs: Seq<Object>, roots: Seq<VMData>, path: Seq<int>) -> bool {
    &&& path.len() >= 1
    &&& exists|r: int| 0 <= r < roots.len() && #[trigger] roots[r].spec_is_object() && roots[r].data == path[0]
    &&& forall|t: int| 0 <= t < path.len() - 1 ==> exists|k: int|
        0 <= k < children(objs[#[trigger] path[t]]).len() && children(objs[path[t]])[k].spec_is_object()
            && children(objs[path[t]])[k].data == path[t + 1]
}

/// The slot `j` can be reached from `roots`.
pub open spec fn reachable(objs: Seq<Object>, roots: Seq<VMData>, j: int) -> bool {
    exists|path: Seq<int>| #[trigger] is_path(objs, roots, path) && path.last() == j
}

/// A slot referenced by a reachable object is reachable.
proof fn lemma_reachable_child(objs: Seq<Object>, roots: Seq<VMData>, i: int, k: int)
    requires
        reachable(objs, roots, i),
        0 <= k < children(objs[i]).len(),
        children(objs[i])[k].spec_is_object(),
    ensures
        reachable(objs, roots, children(objs[i])[k].data as int),
{
    let path = choose|path: Seq<int>| #[trigger] is_path(objs, roots, path) && path.last() == i;
    let c = children(objs[i])[k].data as int;
    let p2 = path.push(c);
    assert forall|t: int| 0 <= t < p2.len() - 1 implies exists|k2: int|
        0 <= k2 < children(objs[#[trigger] p2[t]]).len() && children(objs[p2[t]])[k2].spec_is_object()
            && children(objs[p2[t]])[k2].data == p2[t + 1] by {
        if t < path.len() - 1 {
            assert(p2[t] == path[t] && p2[t + 1] == path[t + 1]);
            assert(exists|k2: int|
                0 <= k2 < children(objs[#[trigger] path[t]]).len() && children(objs[path[t]])[k2].spec_is_object()
                    && children(objs[path[t]])[k2].data == path[t + 1]);
        } else {
            assert(p2[t] == i && p2[t + 1] == c);
        }
    }
    assert(p2[0] == path[0]);
    assert(is_path(objs, roots, p2));
    assert(p2.last() == c);
}

proof fn lemma_path_in_range(objs: Seq<Object>, roots: Seq<VMData>, path: Seq<int>, t: int)
    requires
        refs_valid(objs),
        roots_valid(objs, roots),
        is_path(objs, roots, path),
        0 <= t < path.len(),
    ensures
        0 <= path[t] < objs.len(),
    decreases t,
{
    if t == 0 {
        let r = choose|r: int| 0 <= r < roots.len() && #[trigger] roots[r].spec_is_object() && roots[r].data == path[0];
    } else {
        lemma_path_in_range(objs, roots, path, t - 1);
        let p = path[t - 1];
        let k = choose|k: int| 0 <= k < children(objs[p]).len() && children(objs[p])[k].spec_is_object()
            && children(objs[p])[k].data == path[t];
        assert(children(objs[p])[k].spec_is_object());
    }
}

#[verifier::rlimit(40)]
proof fn lemma_reachable_same_data(a: Seq<Object>, b: Seq<Object>, roots: Seq<VMData>, j: int)
    requires
        refs_valid(a),
        roots_valid(a, roots),
        same_data(a, b),
        reachable(a, roots, j),
    ensures
        reachable(b, roots, j),
{
    let path = choose|path: Seq<int>| #[trigger] is_path(a, roots, path) && path.last() == j;
    assert forall|t: int| 0 <= t < path.len() - 1 implies exists|k: int|
        0 <= k < children(b[#[trigger] path[t]]).len() && children(b[path[t]])[k].spec_is_object()
            && children(b[path[t]])[k].data == path[t + 1] by {
        lemma_path_in_range(a, roots, path, t);
        let k = choose|k: int|
            0 <= k < children(a[#[trigger] path[t]]).len() && children(a[path[t]])[k].spec_is_object()
                && children(a[path[t]])[k].data == path[t + 1];
        assert(b[path[t]].data == a[path[t]].data);
        assert(children(b[path[t]]) == children(a[path[t]]));
    }
    assert(is_path(b, roots, path));
}

/// Two heaps that hold the same objects have the same live objects: where
/// every object of one is reachable, so is every object of the other.
pub proof fn lemma_all_live_same_data(a: Seq<Object>, b: Seq<Object>, roots: Seq<VMData>)
    requires
        refs_valid(a),
        roots_valid(a, roots),
        same_data(a, b),
        all_live(a, roots),
    ensures
        all_live(b, roots),
{
    assert forall|j: int| 0 <= j < b.len() && !(#[trigger] b[j].data is Free) implies reachable(b, roots, j) by {
        assert(a[j].data == b[j].data);
        lemma_reachable_same_data(a, b, roots, j);
    }
}

/// What some of the roots reach, all of them reach.
proof fn lemma_reachable_more_roots(objs: Seq<Object>, a: Seq<VMData>, b: Seq<VMData>, j: int)
    requires
        reachable(objs, a, j) || reachable(objs, b, j),
    ensures
        reachable(objs, a + b, j),
{
    if reachable(objs, a, j) {
        let path = choose|path: Seq<int>| #[trigger] is_path(objs, a, path) && path.last() == j;
        let r = choose|r: int| 0 <= r < a.len() && #[trigger] a[r].spec_is_object() && a[r].data == path[0];
        assert((a + b)[r] == a[r]);
        assert((a + b)[r].spec_is_object() && (a + b)[r].data == path[0]);
        assert(is_path(objs, a + b, path));
    } else {
        let path = choose|path: Seq<int>| #[trigger] is_path(objs, b, path) && path.last() == j;
        let r = choose|r: int| 0 <= r < b.len() && #[trigger] b[r].spec_is_object() && b[r].data == path[0];
        assert((a + b)[a.len() + r] == b[r]);
        assert((a + b)[a.len() + r].spec_is_object() && (a + b)[a.len() + r].data == path[0]);
        assert(is_path(objs, a + b, path));
    }
}

proof fn lemma_unmarked_count(a: Seq<Object>, b: Seq<Object>, i: int)
    requires
        marks_grow(a, b),
    ensures
        unmarked_count(b) <= unmarked_count(a),
        0 <= i < a.len() && !a[i].liveliness_status && b[i].liveliness_status ==> unmarked_count(b) < unmarked_count(a),
    decreases a.len(),
{
    if a.len() > 0 {
        let (a1, b1) = (a.drop_last(), b.drop_last());
        assert(marks_grow(a1, b1)) by {
            assert forall|k: int| 0 <= k < a1.len() && a1[k].liveliness_status implies #[trigger] b1[k].liveliness_status by {
                assert(a1[k] == a[k] && b1[k] == b[k]);
            }
        }
        lemma_unmarked_count(a1, b1, i);
        assert(a.last() == a[a.len() - 1] && b.last() == b[b.len() - 1]);
    }
}

proof fn lemma_same_data_refs(a: Seq<Object>, b: Seq<Object>)
    requires
        same_data(a, b),
        refs_valid(a),
    ensures
        refs_valid(b),
{
    assert forall|i: int, k: int|
        0 <= i < b.len() && 0 <= k < children(b[i]).len() && #[trigger] children(b[i])[k].spec_is_object()
        implies children(b[i])[k].data < b.len() by {
        assert(children(b[i]) == children(a[i]));
    }
    assert forall|i: int| 0 <= i < b.len() && (#[trigger] b[i].data matches ObjectData::Free { next })
        implies b[i].data->next.index < b.len() by {
        assert(b[i].data == a[i].data);
    }
}

/// Marks the object at `index` and everything it reaches that is not
/// marked yet. The objects of `pending` are being marked by callers
/// further up and may still reference unmarked objects.
fn mark_object(objects: &mut ObjectMap, index: ObjectIndex, Ghost(pending): Ghost<Set<int>>, Ghost(base): Ghost<Seq<Object>>,
    Ghost(roots): Ghost<Seq<VMData>>)
    requires
        same_data(base, old(objects).objects()),
        reachable(base, roots, index.index as int),
        refs_valid(old(objects).objects()),
        index.index < old(objects).objects().len(),
        closed_except(old(objects).objects(), pending),
        forall|p: int| #[trigger] pending.contains(p) ==> 0 <= p < old(objects).objects().len()
            && old(objects).objects()[p].liveliness_status,
    ensures
        same_data(old(objects).objects(), final(objects).objects()),
        marks_grow(old(objects).objects(), final(objects).objects()),
        final(objects).objects()[index.index as int].liveliness_status,
        closed_except(final(objects).objects(), pending),
        final(objects).free_slot() == old(objects).free_slot(),
        refs_valid(final(objects).objects()),
        forall|j: int| 0 <= j < old(objects).objects().len() && #[trigger] final(objects).objects()[j].liveliness_status
            && !old(objects).objects()[j].liveliness_status ==> reachable(base, roots, j),
    decreases unmarked_count(old(objects).objects()),
{
    let len = objects.map.len();
    assert(index.index < len);
    let at = index.index as usize;
    if objects.map[at].liveliness_status {
        return;
    }
    let ghost entry = objects.map@;
    objects.map[at].liveliness_status = true;
    proof {
        assert forall|j: int| 0 <= j < len && #[trigger] objects.map@[j].liveliness_status
            && !entry[j].liveliness_status implies reachable(base, roots, j) by {
            assert(j == at as int);
        }
        lemma_unmarked_count(entry, objects.map@, at as int);
        lemma_same_data_refs(entry, objects.map@);
        assert(closed_except(objects.map@, pending.insert(at as int))) by {
            assert forall|i: int, k: int|
                0 <= i < objects.map@.len() && objects.map@[i].liveliness_status && !pending.insert(at as int).contains(i)
                    && 0 <= k < children(objects.map@[i]).len() && #[trigger] children(objects.map@[i])[k].spec_is_object()
                implies objects.map@[children(objects.map@[i])[k].data as int].liveliness_status by {
                assert(objects.map@[i] == entry[i]);
            }
        }
    }
    let n = match &objects.map[at].data {
        ObjectData::Struct(s) => s.fields.len(),
        _ => 0,
    };
    let mut k: usize = 0;
    while k < n
        invariant
            k <= n,
            len == objects.map@.len(),
            at < len,
            same_data(entry, objects.map@),
            marks_grow(entry, objects.map@),
            refs_valid(objects.map@),
            objects.map@[at as int].liveliness_status,
            n == children(objects.map@[at as int]).len(),
            unmarked_count(objects.map@) < unmarked_count(entry),
            unmarked_count(entry) == unmarked_count(old(objects).objects()),
            objects.free == old(objects).free,
            closed_except(objects.map@, pending.insert(at as int)),
            forall|p: int| #[trigger] pending.contains(p) ==> 0 <= p < len && objects.map@[p].liveliness_status,
            forall|j: int| 0 <= j < k && #[trigger] children(objects.map@[at as int])[j].spec_is_object()
                ==> objects.map@[children(objects.map@[at as int])[j].data as int].liveliness_status,
            same_data(base, entry),
            reachable(base, roots, at as int),
            forall|j: int| 0 <= j < len && #[trigger] objects.map@[j].liveliness_status
                && !entry[j].liveliness_status ==> reachable(base, roots, j),
        decreases n - k,
    {
        let v = match &objects.map[at].data {
            ObjectData::Struct(s) => s.fields[k],
            _ => {
                assert(false);
                VMData::new_unit()
            },
        };
        if v.is_object() {
            let ghost before = objects.map@;
            proof {
                assert(children(before[at as int])[k as int] == v);
                assert(base[at as int].data == before[at as int].data);
                assert(children(base[at as int]) == children(before[at as int]));
                lemma_reachable_child(base, roots, at as int, k as int);
                assert(same_data(base, before)) by {
                    assert forall|i: int| 0 <= i < base.len() implies #[trigger] before[i].data == base[i].data by {
                        assert(entry[i].data == base[i].data);
                    }
                }
            }
            mark_object(objects, v.as_object(), Ghost(pending.insert(at as int)), Ghost(base), Ghost(roots));
            proof {
                lemma_unmarked_count(before, objects.map@, 0);
                assert(objects.map@[at as int].data == before[at as int].data);
                assert forall|j: int| 0 <= j < len && #[trigger] objects.map@[j].liveliness_status
                    && !entry[j].liveliness_status implies reachable(base, roots, j) by {
                    if !before[j].liveliness_status {
                    } else {
                        assert(before[j].liveliness_status);
                    }
                }
            }
        }
        k = k + 1;
    }
    proof {
        assert forall|i: int, j: int|
            0 <= i < objects.map@.len() && objects.map@[i].liveliness_status && !pending.contains(i)
                && 0 <= j < children(objects.map@[i]).len() && #[trigger] children(objects.map@[i])[j].spec_is_object()
            implies objects.map@[children(objects.map@[i])[j].data as int].liveliness_status by {
            if i != at as int {
                assert(!pending.insert(at as int).contains(i));
            }
        }
    }
}

/// Marks every object that `roots` reach; every object it newly marks is
/// one the roots reach.
pub fn mark(objects: &mut ObjectMap, roots: &[VMData])
    requires
        refs_valid(old(objects).objects()),
        roots_valid(old(objects).objects(), roots@),
        closed_except(old(objects).objects(), Set::empty()),
    ensures
        same_data(old(objects).objects(), final(objects).objects()),
        marks_grow(old(objects).objects(), final(objects).objects()),
        closed_except(final(objects).objects(), Set::empty()),
        roots_marked(final(objects).objects(), roots@),
        final(objects).free_slot() == old(objects).free_slot(),
        refs_valid(final(objects).objects()),
        forall|j: int| 0 <= j < old(objects).objects().len() && #[trigger] final(objects).objects()[j].liveliness_status
            && !old(objects).objects()[j].liveliness_status ==> reachable(old(objects).objects(), roots@, j),
{
    let ghost base = objects.map@;
    mark_from(objects, roots, Ghost(base));
}

/// Marks every object that `roots` reach, in a heap that holds the same
/// objects as `base`.
fn mark_from(objects: &mut ObjectMap, roots: &[VMData], Ghost(base): Ghost<Seq<Object>>)
    requires
        same_data(base, old(objects).objects()),
        refs_valid(old(objects).objects()),
        roots_valid(old(objects).objects(), roots@),
        closed_except(old(objects).objects(), Set::empty()),
    ensures
        same_data(old(objects).objects(), final(objects).objects()),
        marks_grow(old(objects).objects(), final(objects).objects()),
        closed_except(final(objects).objects(), Set::empty()),
        roots_marked(final(objects).objects(), roots@),
        final(objects).free_slot() == old(objects).free_slot(),
        refs_valid(final(objects).objects()),
        forall|j: int| 0 <= j < old(objects).objects().len() && #[trigger] final(objects).objects()[j].liveliness_status
            && !old(objects).objects()[j].liveliness_status ==> reachable(base, roots@, j),
{
    let ghost entry = objects.map@;
    let mut r: usize = 0;
    while r < roots.len()
        invariant
            r <= roots@.len(),
            same_data(entry, objects.map@),
            marks_grow(entry, objects.map@),
            entry == old(objects).objects(),
            refs_valid(objects.map@),
            roots_valid(entry, roots@),
            closed_except(objects.map@, Set::empty()),
            objects.free == old(objects).free,
            forall|q: int| 0 <= q < r && #[trigger] roots@[q].spec_is_object()
                ==> objects.map@[roots@[q].data as int].liveliness_status,
            forall|j: int| 0 <= j < entry.len() && #[trigger] objects.map@[j].liveliness_status
                && !entry[j].liveliness_status ==> reachable(base, roots@, j),
            same_data(base, entry),
        decreases roots@.len() - r,
    {
        let v = roots[r];
        if v.is_object() {
            let ghost before = objects.map@;
            proof {
                lemma_root_reachable(base, roots@, r as int);
                assert(same_data(base, before)) by {
                    assert forall|i: int| 0 <= i < base.len() implies #[trigger] before[i].data == base[i].data by {
                        assert(entry[i].data == base[i].data);
                    }
                }
            }
            mark_object(objects, v.as_object(), Ghost(Set::empty()), Ghost(base), Ghost(roots@));
            proof {
                assert forall|j: int| 0 <= j < entry.len() && #[trigger] objects.map@[j].liveliness_status
                    && !entry[j].liveliness_status implies reachable(base, roots@, j) by {
                    if !before[j].liveliness_status {
                    } else {
                        assert(before[j].liveliness_status);
                    }
                }
                assert forall|q: int| 0 <= q <= r && #[trigger] roots@[q].spec_is_object()
                    implies objects.map@[roots@[q].data as int].liveliness_status by {
                    if q < r {
                        assert(before[roots@[q].data as int].liveliness_status);
                    }
                }
            }
        }
        r = r + 1;
    }
}

/// Only empty slots carry a mark: the state the heap is left in by a
/// sweep.
pub open spec fn marks_only_free(objs: Seq<Object>) -> bool {
    forall|i: int| 0 <= i < objs.len() && #[trigger] objs[i].liveliness_status ==> objs[i].data is Free
}

/// A heap whose only marks are on empty slots has its marks closed under
/// references.
pub proof fn lemma_marks_only_free_closed(objs: Seq<Object>)
    requires
        marks_only_free(objs),
    ensures
        closed_except(objs, Set::empty()),
{
    assert forall|i: int, k: int|
        0 <= i < objs.len() && objs[i].liveliness_status && !Set::<int>::empty().contains(i)
            && 0 <= k < children(objs[i]).len() && #[trigger] children(objs[i])[k].spec_is_object()
        implies objs[children(objs[i])[k].data as int].liveliness_status by {
        assert(objs[i].data is Free);
    }
}

/// A slot that a sweep empties: it holds an object that is not marked.
pub open spec fn garbage(o: Object) -> bool {
    !(o.data is Free) && !o.liveliness_status
}

/// The empty slot a sweep makes the successor of slot `i`: the last
/// garbage slot before `i`, or the old first empty slot.
pub open spec fn freed_before(objs: Seq<Object>, i: int, first: u64) -> u64
    decreases i,
{
    if i <= 0 {
        first
    } else if garbage(objs[i - 1]) {
        (i - 1) as u64
    } else {
        freed_before(objs, i - 1, first)
    }
}

/// Where some slot before `i` is garbage, the slot a sweep makes the
/// successor of `i` is the last such slot.
proof fn lemma_freed_before_garbage(objs: Seq<Object>, i: int, first: u64, g: int)
    requires
        0 <= g < i <= objs.len(),
        objs.len() <= usize::MAX,
        garbage(objs[g]),
    ensures
        freed_before(objs, i, first) < i,
        garbage(objs[freed_before(objs, i, first) as int]),
    decreases i,
{
    if !garbage(objs[i - 1]) {
        lemma_freed_before_garbage(objs, i - 1, first, g);
    }
}

proof fn lemma_freed_before_bound(objs: Seq<Object>, i: int, first: u64)
    requires
        i <= objs.len(),
        first < objs.len(),
    ensures
        freed_before(objs, i, first) < objs.len(),
    decreases i,
{
    if i > 0 && !garbage(objs[i - 1]) {
        lemma_freed_before_bound(objs, i - 1, first);
    }
}

/// Empties every unmarked object and clears the marks of the objects
/// kept; empty slots are left as they are. The emptied slots are chained
/// in front of the old empty ones, the last emptied slot first.
pub fn sweep(objects: &mut ObjectMap)
    requires
        old(objects).wf(),
    ensures
        final(objects).wf(),
        final(objects).objects().len() == old(objects).objects().len(),
        final(objects).free_slot().index == freed_before(old(objects).objects(), old(objects).objects().len() as int, old(objects).free_slot().index),
        forall|i: int| 0 <= i < old(objects).objects().len() ==> {
            let o = #[trigger] old(objects).objects()[i];
            let f = final(objects).objects()[i];
            &&& o.data is Free ==> f == o
            &&& !(o.data is Free) && o.liveliness_status ==> f.data == o.data && !f.liveliness_status
            &&& garbage(o) ==> f == Object::new_spec(ObjectData::Free {
                next: ObjectIndex { index: freed_before(old(objects).objects(), i, old(objects).free_slot().index) } })
        },
        closed_except(final(objects).objects(), Set::empty()),
        marks_only_free(final(objects).objects()),
{
    let ghost entry = objects.map@;
    let ghost first = objects.free.index;
    let len = objects.map.len();
    let mut free = objects.free.index;
    let mut i: usize = 0;
    while i < len
        invariant
            len == objects.map@.len(),
            len == entry.len(),
            entry == old(objects).objects(),
            first == old(objects).free_slot().index,
            first < len,
            i <= len,
            refs_valid(entry),
            free == freed_before(entry, i as int, first),
            forall|j: int| i <= j < len ==> #[trigger] objects.map@[j] == entry[j],
            forall|j: int| 0 <= j < i ==> {
                let o = #[trigger] entry[j];
                let f = objects.map@[j];
                &&& o.data is Free ==> f == o
                &&& !(o.data is Free) && o.liveliness_status ==> f.data == o.data && !f.liveliness_status
                &&& garbage(o) ==> f == Object::new_spec(ObjectData::Free {
                    next: ObjectIndex { index: freed_before(entry, j, first) } })
            },
        decreases len - i,
    {
        let is_free = match objects.map[i].data {
            ObjectData::Free { .. } => true,
            _ => false,
        };
        if !is_free {
            if objects.map[i].liveliness_status {
                objects.map[i].liveliness_status = false;
            } else {
                objects.map.set(i, Object::new(ObjectData::Free { next: ObjectIndex::new(free) }));
                free = i as u64;
            }
        }
        i = i + 1;
    }
    objects.free = ObjectIndex::new(free);
    proof {
        lemma_freed_before_bound(entry, len as int, first);
        assert forall|j: int| 0 <= j < len implies #[trigger] freed_before(entry, j, first) < len by {
            lemma_freed_before_bound(entry, j, first);
        }
        let m = objects.map@;
        assert(refs_valid(m)) by {
            assert forall|a: int, k: int|
                0 <= a < m.len() && 0 <= k < children(m[a]).len() && #[trigger] children(m[a])[k].spec_is_object()
                implies children(m[a])[k].data < m.len() by {
                assert(children(m[a]) == children(entry[a]));
            }
            assert forall|a: int| 0 <= a < m.len() && (#[trigger] m[a].data matches ObjectData::Free { next })
                implies m[a].data->next.index < m.len() by {
                if !(entry[a].data is Free) {
                    assert(garbage(entry[a]));
                    lemma_freed_before_bound(entry, a, first);
                }
            }
        }
        assert forall|a: int, k: int|
            0 <= a < m.len() && m[a].liveliness_status && !Set::<int>::empty().contains(a)
                && 0 <= k < children(m[a]).len() && #[trigger] children(m[a])[k].spec_is_object()
            implies m[children(m[a])[k].data as int].liveliness_status by {
            let o = entry[a];
            if o.data is Free {
                assert(m[a] == o);
                assert(children(m[a]).len() == 0);
            } else if o.liveliness_status {
                assert(!m[a].liveliness_status);
            } else {
                assert(garbage(o));
                assert(!m[a].liveliness_status);
            }
        }
        assert forall|a: int| 0 <= a < m.len() && #[trigger] m[a].liveliness_status implies m[a].data is Free by {
            let o = entry[a];
            if !(o.data is Free) {
                assert(!m[a].liveliness_status);
            }
        }
    }
}

/// The slot an empty slot names as the next empty one.
pub open spec fn next_free(objs: Seq<Object>, s: int) -> int {
    match objs[s].data {
        ObjectData::Free { next } => next.index as int,
        _ => s,
    }
}

/// The slot `n` steps along the chain of empty slots from `s`.
pub open spec fn chain_at(objs: Seq<Object>, s: int, n: nat) -> int
    decreases n,
{
    if n == 0 {
        s
    } else {
        chain_at(objs, next_free(objs, s), (n - 1) as nat)
    }
}

/// The first `n` slots of the chain from `s` are empty slots of the heap.
pub open spec fn chain_free(objs: Seq<Object>, s: int, n: nat) -> bool {
    forall|m: nat| m < n ==> 0 <= #[trigger] chain_at(objs, s, m) < objs.len() && objs[chain_at(objs, s, m)].data is Free
}

/// Slot `j` lies on the chain of empty slots from `s`.
pub open spec fn on_chain(objs: Seq<Object>, s: int, j: int) -> bool {
    exists|n: nat| chain_free(objs, s, n) && #[trigger] chain_at(objs, s, n) == j
}

/// Every empty slot lies on the chain from `s`, the first empty slot: an
/// object can be stored wherever the heap has room.
pub open spec fn free_complete(objs: Seq<Object>, s: int) -> bool {
    forall|j: int| 0 <= j < objs.len() && (#[trigger] objs[j]).data is Free ==> on_chain(objs, s, j)
}

/// How many slots of the heap are empty.
pub open spec fn free_count(objs: Seq<Object>) -> nat
    decreases objs.len(),
{
    if objs.len() == 0 {
        0
    } else {
        free_count(objs.drop_last()) + if objs.last().data is Free { 1nat } else { 0nat }
    }
}

/// A heap whose empty slots stay empty in `b` has no fewer empty slots.
proof fn lemma_free_count_mono(a: Seq<Object>, b: Seq<Object>)
    requires
        a.len() == b.len(),
        forall|j: int| 0 <= j < a.len() && (#[trigger] a[j].data is Free) ==> b[j].data is Free,
    ensures
        free_count(a) <= free_count(b),
    decreases a.len(),
{
    if a.len() > 0 {
        let (pa, pb) = (a.drop_last(), b.drop_last());
        assert forall|j: int| 0 <= j < pa.len() && (#[trigger] pa[j].data is Free) implies pb[j].data is Free by {
            assert(pa[j] == a[j] && pb[j] == b[j]);
        }
        lemma_free_count_mono(pa, pb);
    }
}

/// Filling one slot takes at most one empty slot.
proof fn lemma_free_count_update(a: Seq<Object>, i: int, o: Object)
    requires
        0 <= i < a.len(),
    ensures
        free_count(a.update(i, o)) + 1 >= free_count(a),
    decreases a.len(),
{
    let b = a.update(i, o);
    if i == a.len() - 1 {
        assert(b.drop_last() =~= a.drop_last());
    } else {
        assert(b.drop_last() =~= a.drop_last().update(i, o));
        lemma_free_count_update(a.drop_last(), i, o);
    }
}

/// A heap with no empty slot counts none.
proof fn lemma_free_count_none(a: Seq<Object>)
    requires
        no_free_slot(a),
    ensures
        free_count(a) == 0,
    decreases a.len(),
{
    if a.len() > 0 {
        assert forall|j: int| 0 <= j < a.drop_last().len() implies !((#[trigger] a.drop_last()[j]).data is Free) by {
            assert(a.drop_last()[j] == a[j]);
        }
        lemma_free_count_none(a.drop_last());
        assert(!(a[a.len() - 1].data is Free));
    }
}

/// No slot of the heap is empty.
pub open spec fn no_free_slot(objs: Seq<Object>) -> bool {
    forall|j: int| 0 <= j < objs.len() ==> !((#[trigger] objs[j]).data is Free)
}

proof fn lemma_chain_compose(objs: Seq<Object>, s: int, a: nat, b: nat)
    ensures
        chain_at(objs, s, a + b) == chain_at(objs, chain_at(objs, s, a), b),
    decreases a,
{
    if a > 0 {
        lemma_chain_compose(objs, next_free(objs, s), (a - 1) as nat, b);
        assert((a + b - 1) as nat == ((a - 1) as nat + b) as nat);
    }
}

proof fn lemma_chain_free_compose(objs: Seq<Object>, s: int, a: nat, b: nat)
    requires
        chain_free(objs, s, a),
        chain_free(objs, chain_at(objs, s, a), b),
    ensures
        chain_free(objs, s, a + b),
{
    assert forall|m: nat| m < a + b implies 0 <= #[trigger] chain_at(objs, s, m) < objs.len()
        && objs[chain_at(objs, s, m)].data is Free by {
        if m >= a {
            let t = (m - a) as nat;
            lemma_chain_compose(objs, s, a, t);
            assert(a + t == m);
            assert(chain_at(objs, chain_at(objs, s, a), t) == chain_at(objs, s, m));
        }
    }
}

proof fn lemma_chain_step(objs: Seq<Object>, s: int, n: nat)
    requires
        n > 0,
        chain_free(objs, s, n),
    ensures
        chain_free(objs, next_free(objs, s), (n - 1) as nat),
        chain_at(objs, s, n) == chain_at(objs, next_free(objs, s), (n - 1) as nat),
{
    assert forall|m: nat| m < (n - 1) as nat implies 0 <= #[trigger] chain_at(objs, next_free(objs, s), m) < objs.len()
        && objs[chain_at(objs, next_free(objs, s), m)].data is Free by {
        assert(chain_at(objs, s, m + 1) == chain_at(objs, next_free(objs, s), m));
        assert(chain_free(objs, s, n) ==> (0 <= chain_at(objs, s, m + 1) < objs.len()
            && objs[chain_at(objs, s, m + 1)].data is Free));
    }
}

/// Where two heaps hold the same data along the first `t` slots of a chain
/// of empty slots, the chains agree that far.
proof fn lemma_chain_same(a: Seq<Object>, b: Seq<Object>, s: int, t: nat)
    requires
        chain_free(a, s, t),
        a.len() == b.len(),
        forall|m: nat| m < t ==> (#[trigger] b[chain_at(a, s, m)]).data == a[chain_at(a, s, m)].data,
    ensures
        chain_at(b, s, t) == chain_at(a, s, t),
        chain_free(b, s, t),
    decreases t,
{
    if t > 0 {
        assert(chain_at(a, s, 0) == s);
        assert(b[s].data == a[s].data);
        let x = next_free(a, s);
        assert(next_free(b, s) == x);
        lemma_chain_step(a, s, t);
        assert forall|m: nat| m < (t - 1) as nat implies (#[trigger] b[chain_at(a, x, m)]).data == a[chain_at(a, x, m)].data by {
            assert(chain_at(a, s, m + 1) == chain_at(a, x, m));
            assert(b[chain_at(a, s, m + 1)].data == a[chain_at(a, s, m + 1)].data);
        }
        lemma_chain_same(a, b, x, (t - 1) as nat);
        assert forall|m: nat| m < t implies 0 <= #[trigger] chain_at(b, s, m) < b.len() && b[chain_at(b, s, m)].data is Free by {
            if m > 0 {
                assert(chain_at(b, s, m) == chain_at(b, x, (m - 1) as nat));
                assert(chain_at(a, s, m) == chain_at(a, x, (m - 1) as nat));
            }
        }
    }
}

/// A heap whose empty slots are those of another, holding the same data,
/// has its empty slots on the same chain.
proof fn lemma_complete_same_free(a: Seq<Object>, b: Seq<Object>, s: int)
    requires
        free_complete(a, s),
        a.len() == b.len(),
        forall|j: int| 0 <= j < a.len() && (#[trigger] b[j]).data is Free ==> a[j].data is Free,
        forall|j: int| 0 <= j < a.len() && (#[trigger] a[j]).data is Free ==> b[j].data == a[j].data,
    ensures
        free_complete(b, s),
{
    assert forall|j: int| 0 <= j < b.len() && (#[trigger] b[j]).data is Free implies on_chain(b, s, j) by {
        assert(a[j].data is Free);
        assert(on_chain(a, s, j));
        let n = choose|n: nat| chain_free(a, s, n) && #[trigger] chain_at(a, s, n) == j;
        assert forall|m: nat| m < n implies (#[trigger] b[chain_at(a, s, m)]).data == a[chain_at(a, s, m)].data by {
            assert(0 <= chain_at(a, s, m) < a.len() && a[chain_at(a, s, m)].data is Free);
        }
        lemma_chain_same(a, b, s, n);
        assert(chain_at(b, s, n) == j);
    }
}

/// Where the first empty slot holds an object, no slot is empty.
pub proof fn lemma_full(objs: Seq<Object>, s: int)
    requires
        free_complete(objs, s),
        0 <= s < objs.len(),
        !(objs[s].data is Free),
    ensures
        no_free_slot(objs),
{
    assert forall|j: int| 0 <= j < objs.len() implies !((#[trigger] objs[j]).data is Free) by {
        if objs[j].data is Free {
            let n = choose|n: nat| chain_free(objs, s, n) && #[trigger] chain_at(objs, s, n) == j;
            if n == 0 {
            } else {
                assert(chain_at(objs, s, 0) == s);
            }
        }
    }
}

/// Storing into the first empty slot `f` leaves every other empty slot on
/// the chain from the slot `f` named next.
proof fn lemma_put_chain(a: Seq<Object>, f: int, object: Object, j: int, n: nat)
    requires
        0 <= f < a.len(),
        a[f].data is Free,
        chain_free(a, f, n),
        chain_at(a, f, n) == j,
        j != f,
        0 <= j < a.len(),
    ensures
        on_chain(a.update(f, object), next_free(a, f), j),
    decreases n,
{
    let b = a.update(f, object);
    let x = next_free(a, f);
    assert(n > 0);
    lemma_chain_step(a, f, n);
    let t = (n - 1) as nat;
    if exists|m: nat| m < t && #[trigger] chain_at(a, x, m) == f {
        let m = choose|m: nat| m < t && #[trigger] chain_at(a, x, m) == f;
        let rest = (t - m) as nat;
        lemma_chain_compose(a, x, m, rest);
        assert(m + rest == t);
        assert(chain_at(a, f, rest) == j);
        assert(chain_free(a, f, rest)) by {
            assert forall|q: nat| q < rest implies 0 <= #[trigger] chain_at(a, f, q) < a.len() && a[chain_at(a, f, q)].data is Free by {
                lemma_chain_compose(a, x, m, q);
                assert(chain_at(a, x, m + q) == chain_at(a, f, q));
                assert(m + q < t);
            }
        }
        lemma_put_chain(a, f, object, j, rest);
    } else {
        assert forall|m: nat| m < t implies (#[trigger] b[chain_at(a, x, m)]).data == a[chain_at(a, x, m)].data by {
            assert(chain_at(a, x, m) != f);
        }
        lemma_chain_same(a, b, x, t);
        assert(chain_at(b, x, t) == j);
    }
}

/// Storing into the first empty slot keeps every empty slot on the chain.
pub proof fn lemma_put_complete(a: Seq<Object>, f: int, object: Object)
    requires
        free_complete(a, f),
        0 <= f < a.len(),
        a[f].data is Free,
        !(object.data is Free),
    ensures
        free_complete(a.update(f, object), next_free(a, f)),
{
    let b = a.update(f, object);
    assert forall|j: int| 0 <= j < b.len() && (#[trigger] b[j]).data is Free implies on_chain(b, next_free(a, f), j) by {
        assert(j != f);
        assert(a[j] == b[j]);
        assert(on_chain(a, f, j));
        let n = choose|n: nat| chain_free(a, f, n) && #[trigger] chain_at(a, f, n) == j;
        lemma_put_chain(a, f, object, j, n);
    }
}

/// A new heap, each slot naming the next and the last the first, has all
/// its slots on the chain from slot 0.
proof fn lemma_new_complete(objs: Seq<Object>, space: int)
    requires
        space > 0,
        space <= usize::MAX,
        objs.len() == space,
        forall|i: int| 0 <= i < space ==> #[trigger] objs[i] == Object::new_spec(
            ObjectData::Free { next: ObjectIndex { index: ((i + 1) % space) as u64 } }),
    ensures
        free_complete(objs, 0),
{
    assert forall|j: int| 0 <= j < objs.len() && (#[trigger] objs[j]).data is Free implies on_chain(objs, 0, j) by {
        lemma_new_chain(objs, space, j as nat);
    }
}

proof fn lemma_new_chain(objs: Seq<Object>, space: int, n: nat)
    requires
        space > 0,
        n < space,
        space <= usize::MAX,
        objs.len() == space,
        forall|i: int| 0 <= i < space ==> #[trigger] objs[i] == Object::new_spec(
            ObjectData::Free { next: ObjectIndex { index: ((i + 1) % space) as u64 } }),
    ensures
        chain_free(objs, 0, n),
        chain_at(objs, 0, n) == n,
    decreases n,
{
    if n > 0 {
        lemma_new_chain(objs, space, (n - 1) as nat);
        let p = (n - 1) as int;
        lemma_chain_compose(objs, 0, (n - 1) as nat, 1);
        assert(objs[p] == Object::new_spec(ObjectData::Free { next: ObjectIndex { index: ((p + 1) % space) as u64 } }));
        vstd::arithmetic::div_mod::lemma_small_mod((p + 1) as nat, space as nat);
        assert((p + 1) % space == p + 1);
        assert(next_free(objs, p) == p + 1);
        assert(chain_at(objs, p, 1) == chain_at(objs, next_free(objs, p), 0));
        assert(chain_at(objs, 0, n) == n);
        assert forall|m: nat| m < n implies 0 <= #[trigger] chain_at(objs, 0, m) < objs.len() && objs[chain_at(objs, 0, m)].data is Free by {
            if m < n - 1 {
            } else {
                assert(m == p);
            }
        }
    }
}

/// After a sweep, the chain from its new first empty slot runs through
/// every emptied slot before `i` down to the old first empty slot.
proof fn lemma_sweep_chain(old: Seq<Object>, new: Seq<Object>, first: u64, i: int) -> (n: nat)
    requires
        0 <= i <= old.len(),
        old.len() == new.len(),
        old.len() <= usize::MAX,
        forall|k: int| 0 <= k < old.len() && garbage(#[trigger] old[k]) ==> new[k] == Object::new_spec(
            ObjectData::Free { next: ObjectIndex { index: freed_before(old, k, first) } }),
    ensures
        chain_free(new, freed_before(old, i, first) as int, n),
        chain_at(new, freed_before(old, i, first) as int, n) == first,
        forall|g: int| 0 <= g < i && garbage(#[trigger] old[g]) ==> on_chain(new, freed_before(old, i, first) as int, g),
    decreases i,
{
    if i <= 0 {
        0
    } else if garbage(old[i - 1]) {
        let n0 = lemma_sweep_chain(old, new, first, i - 1);
        let s = (i - 1) as int;
        let x = freed_before(old, i - 1, first) as int;
        assert(freed_before(old, i, first) == (i - 1) as u64);
        assert(new[s] == Object::new_spec(ObjectData::Free { next: ObjectIndex { index: freed_before(old, s, first) } }));
        assert(next_free(new, s) == x);
        assert(chain_free(new, s, 1)) by {
            assert forall|m: nat| m < 1 implies 0 <= #[trigger] chain_at(new, s, m) < new.len() && new[chain_at(new, s, m)].data is Free by {
                assert(m == 0);
            }
        }
        assert(chain_at(new, s, 1) == chain_at(new, next_free(new, s), 0));
        assert(chain_at(new, s, 1) == x);
        lemma_chain_free_compose(new, s, 1, n0);
        lemma_chain_compose(new, s, 1, n0);
        assert forall|g: int| 0 <= g < i && garbage(#[trigger] old[g]) implies on_chain(new, s, g) by {
            if g == s {
                assert(chain_free(new, s, 0));
                assert(chain_at(new, s, 0) == g);
            } else {
                assert(on_chain(new, x, g));
                let m = choose|m: nat| chain_free(new, x, m) && #[trigger] chain_at(new, x, m) == g;
                lemma_chain_free_compose(new, s, 1, m);
                lemma_chain_compose(new, s, 1, m);
                assert(chain_at(new, s, 1 + m) == g);
            }
        }
        1 + n0
    } else {
        lemma_sweep_chain(old, new, first, i - 1)
    }
}

/// A sweep keeps every empty slot on the chain: the emptied slots in
/// front, then the chain the heap had.
pub proof fn lemma_sweep_complete(old: Seq<Object>, new: Seq<Object>, first: u64)
    requires
        free_complete(old, first as int),
        old.len() == new.len(),
        old.len() <= usize::MAX,
        forall|k: int| 0 <= k < old.len() ==> {
            let o = #[trigger] old[k];
            let f = new[k];
            &&& o.data is Free ==> f == o
            &&& !(o.data is Free) && o.liveliness_status ==> f.data == o.data
            &&& garbage(o) ==> f == Object::new_spec(ObjectData::Free {
                next: ObjectIndex { index: freed_before(old, k, first) } })
        },
    ensures
        free_complete(new, freed_before(old, old.len() as int, first) as int),
{
    let start = freed_before(old, old.len() as int, first) as int;
    let n0 = lemma_sweep_chain(old, new, first, old.len() as int);
    assert forall|j: int| 0 <= j < new.len() && (#[trigger] new[j]).data is Free implies on_chain(new, start, j) by {
        let o = old[j];
        if garbage(o) {
        } else if o.data is Free {
            assert(on_chain(old, first as int, j));
            let m = choose|m: nat| chain_free(old, first as int, m) && #[trigger] chain_at(old, first as int, m) == j;
            assert forall|q: nat| q < m implies (#[trigger] new[chain_at(old, first as int, q)]).data
                == old[chain_at(old, first as int, q)].data by {
                let c = chain_at(old, first as int, q);
                assert(0 <= c < old.len() && old[c].data is Free);
                assert(new[c] == old[c]);
            }
            lemma_chain_same(old, new, first as int, m);
            lemma_chain_free_compose(new, start, n0, m);
            lemma_chain_compose(new, start, n0, m);
            assert(chain_at(new, start, n0 + m) == j);
        } else {
            assert(new[j].data == o.data);
        }
    }
}

/// Every object the heap holds is reachable from `roots`.
pub open spec fn all_live(objs: Seq<Object>, roots: Seq<VMData>) -> bool {
    forall|j: int| 0 <= j < objs.len() && !(#[trigger] objs[j].data is Free) ==> reachable(objs, roots, j)
}

/// After marking from the registers and then from the constants, a sweep
/// leaves an empty first slot unless every object was live.
proof fn lemma_collected(entry: Seq<Object>, half: Seq<Object>, marked: Seq<Object>, swept: Seq<Object>, first: u64,
    regs: Seq<VMData>, consts: Seq<VMData>)
    requires
        marks_only_free(entry),
        same_data(entry, marked),
        half.len() == entry.len(),
        marked.len() <= usize::MAX,
        forall|j: int| 0 <= j < entry.len() && #[trigger] half[j].liveliness_status
            && !entry[j].liveliness_status ==> reachable(entry, regs, j),
        forall|j: int| 0 <= j < half.len() && #[trigger] marked[j].liveliness_status
            && !half[j].liveliness_status ==> reachable(entry, consts, j),
        swept.len() == marked.len(),
        forall|i: int| 0 <= i < marked.len() && #[trigger] garbage(marked[i]) ==> swept[i].data is Free,
    ensures
        all_live(entry, regs + consts) || swept[freed_before(marked, marked.len() as int, first) as int].data is Free,
{
    if exists|g: int| 0 <= g < marked.len() && #[trigger] garbage(marked[g]) {
        let g = choose|g: int| 0 <= g < marked.len() && #[trigger] garbage(marked[g]);
        lemma_freed_before_garbage(marked, marked.len() as int, first, g);
    } else {
        assert forall|j: int| 0 <= j < entry.len() && !(#[trigger] entry[j].data is Free)
            implies reachable(entry, regs + consts, j) by {
            assert(marked[j].data == entry[j].data);
            assert(!garbage(marked[j]));
            assert(!entry[j].liveliness_status);
            lemma_reachable_more_roots(entry, regs, consts, j);
        }
    }
}

/// Marks what the roots reach and empties everything else: the collector
/// of the virtual machine, the roots being the registers in use and the
/// constants.
#[verifier::rlimit(60)]
#[verifier::spinoff_prover]
pub fn collect_garbage(objects: &mut ObjectMap, registers: &[VMData], constants: &[VMData])
    requires
        old(objects).wf(),
        roots_valid(old(objects).objects(), registers@ + constants@),
        closed_except(old(objects).objects(), Set::empty()),
    ensures
        final(objects).wf(),
        marks_only_free(final(objects).objects()),
        final(objects).objects().len() == old(objects).objects().len(),
        forall|j: int| 0 <= j < old(objects).objects().len() && reachable(old(objects).objects(), registers@ + constants@, j)
            ==> #[trigger] final(objects).objects()[j].data == old(objects).objects()[j].data,
        marks_only_free(old(objects).objects()) ==> all_live(old(objects).objects(), registers@ + constants@)
            || final(objects).objects()[final(objects).free_slot().index as int].data is Free,
        forall|j: int| 0 <= j < old(objects).objects().len() && (#[trigger] old(objects).objects()[j].data is Free)
            ==> final(objects).objects()[j].data == old(objects).objects()[j].data,
        free_complete(old(objects).objects(), old(objects).free_slot().index as int)
            ==> free_complete(final(objects).objects(), final(objects).free_slot().index as int),
{
    let ghost entry = objects.map@;
    let ghost roots = registers@ + constants@;
    proof {
        assert(roots_valid(entry, registers@)) by {
            assert forall|r: int| 0 <= r < registers@.len() && #[trigger] registers@[r].spec_is_object()
                implies registers@[r].data < entry.len() by {
                assert(roots[r] == registers@[r]);
            }
        }
        assert(roots_valid(entry, constants@)) by {
            assert forall|r: int| 0 <= r < constants@.len() && #[trigger] constants@[r].spec_is_object()
                implies constants@[r].data < entry.len() by {
                assert(roots[registers@.len() + r] == constants@[r]);
            }
        }
    }
    mark_from(objects, registers, Ghost(entry));
    let ghost half = objects.map@;
    proof {
        assert(roots_valid(half, constants@));
    }
    mark_from(objects, constants, Ghost(entry));
    let ghost marked = objects.map@;
    proof {
        assert(same_data(entry, marked));
        assert(roots_marked(marked, roots)) by {
            assert forall|r: int| 0 <= r < roots.len() && #[trigger] roots[r].spec_is_object()
                implies marked[roots[r].data as int].liveliness_status by {
                if r < registers@.len() {
                    assert(roots[r] == registers@[r]);
                    assert(registers@[r].spec_is_object());
                    assert(half[registers@[r].data as int].liveliness_status);
                } else {
                    assert(roots[r] == constants@[r - registers@.len()]);
                    assert(constants@[r - registers@.len()].spec_is_object());
                }
            }
        }
        assert forall|j: int| 0 <= j < entry.len() && reachable(entry, roots, j)
            implies #[trigger] marked[j].liveliness_status by {
            law_reachable_marked(entry, marked, roots, j);
        }
    }
    let slots = objects.len();
    let ghost first_free = objects.free.index;
    let ghost old_swept = objects.map@;
    sweep(objects);
    proof {
        assert forall|j: int| 0 <= j < entry.len() && reachable(entry, roots, j)
            implies #[trigger] objects.map@[j].data == entry[j].data by {
            assert(marked[j].liveliness_status);
            assert(marked[j].data == entry[j].data);
        }
        assert forall|j: int| 0 <= j < entry.len() && (#[trigger] entry[j].data is Free)
            implies objects.map@[j].data == entry[j].data by {
            assert(marked[j].data == entry[j].data);
            assert(old_swept[j] == marked[j]);
            assert(old_swept[j].data is Free);
        }
        if free_complete(entry, first_free as int) {
            lemma_complete_same_free(entry, marked, first_free as int);
            lemma_sweep_complete(marked, objects.map@, first_free);
        }
        if marks_only_free(entry) {
            assert forall|i: int| 0 <= i < marked.len() && #[trigger] garbage(marked[i]) implies objects.map@[i].data is Free by {
                assert(garbage(old_swept[i]));
            }
            assert(marked.len() == slots);
            lemma_collected(entry, half, marked, objects.map@, first_free, registers@, constants@);
        }
    }
}

/// Once the marks are closed under references and every root is marked,
/// every object the roots reach (in the heap as it was before marking,
/// which holds the same objects) is marked: marking never leaves a
/// reachable object for the sweep to empty.
pub proof fn law_reachable_marked(before: Seq<Object>, after: Seq<Object>, roots: Seq<VMData>, j: int)
    requires
        same_data(before, after),
        refs_valid(before),
        roots_valid(before, roots),
        closed_except(after, Set::empty()),
        roots_marked(after, roots),
        0 <= j < before.len(),
        reachable(before, roots, j),
    ensures
        after[j].liveliness_status,
{
    let path = choose|path: Seq<int>| #[trigger] is_path(before, roots, path) && path.last() == j;
    lemma_path_marked(before, after, roots, path, path.len() - 1);
}

proof fn lemma_path_marked(before: Seq<Object>, after: Seq<Object>, roots: Seq<VMData>, path: Seq<int>, t: int)
    requires
        same_data(before, after),
        refs_valid(before),
        roots_valid(before, roots),
        closed_except(after, Set::empty()),
        roots_marked(after, roots),
        is_path(before, roots, path),
        0 <= t < path.len(),
    ensures
        0 <= path[t] < after.len(),
        after[path[t]].liveliness_status,
    decreases t,
{
    if t == 0 {
        let r = choose|r: int| 0 <= r < roots.len() && #[trigger] roots[r].spec_is_object() && roots[r].data == path[0];
        assert(roots[r].spec_is_object());
    } else {
        lemma_path_marked(before, after, roots, path, t - 1);
        let p = path[t - 1];
        let k = choose|k: int| 0 <= k < children(before[p]).len() && children(before[p])[k].spec_is_object()
            && children(before[p])[k].data == path[t];
        assert(children(before[p]) == children(after[p]));
        assert(children(after[p])[k].spec_is_object());
    }
}

/// Stores `object`, collecting garbage first when the heap is full; fails
/// when it is still full afterwards: then every object the heap holds is
/// reachable from the registers and the constants, and, where every empty
/// slot is on the chain of empty slots, no slot is empty.
pub fn create_object(objects: &mut ObjectMap, object: Object, registers: &[VMData], constants: &[VMData])
    -> (r: Result<ObjectIndex, FatalError>)
    requires
        old(objects).wf(),
        marks_only_free(old(objects).objects()),
        roots_valid(old(objects).objects(), registers@ + constants@),
        !object.liveliness_status,
        !(object.data is Free),
        forall|k: int| 0 <= k < children(object).len() && #[trigger] children(object)[k].spec_is_object()
            ==> children(object)[k].data < old(objects).objects().len(),
    ensures
        final(objects).wf(),
        marks_only_free(final(objects).objects()),
        final(objects).objects().len() == old(objects).objects().len(),
        r matches Ok(i) ==> i.index < final(objects).objects().len() && final(objects).objects()[i.index as int] == object,
        r matches Err(e) ==> e.message@ == "out of memory"@,
        r is Err ==> all_live(old(objects).objects(), registers@ + constants@),
        r is Err ==> same_data(old(objects).objects(), final(objects).objects()),
        free_complete(old(objects).objects(), old(objects).free_slot().index as int)
            ==> free_complete(final(objects).objects(), final(objects).free_slot().index as int),
        r is Err && free_complete(old(objects).objects(), old(objects).free_slot().index as int)
            ==> no_free_slot(final(objects).objects()),
        free_complete(old(objects).objects(), old(objects).free_slot().index as int) && free_count(old(objects).objects()) > 0
            ==> r is Ok,
        r is Ok ==> free_count(final(objects).objects()) + 1 >= free_count(old(objects).objects()),
        forall|j: int| 0 <= j < old(objects).objects().len() && reachable(old(objects).objects(), registers@ + constants@, j)
            && !(r matches Ok(i) && i.index == j)
            ==> #[trigger] final(objects).objects()[j].data == old(objects).objects()[j].data,
        forall|j: int| 0 <= j < old(objects).objects().len() && reachable(old(objects).objects(), registers@ + constants@, j)
            && !(old(objects).objects()[j].data is Free)
            ==> #[trigger] final(objects).objects()[j].data == old(objects).objects()[j].data,
{
    let ghost entry = objects.map@;
    let ghost entry_free = objects.free.index;
    match objects.put(object) {
        Ok(v) => {
            proof {
                lemma_put_keeps(entry, objects.map@, v.index as int, object);
                lemma_free_count_update(entry, v.index as int, object);
            }
            Ok(v)
        },
        Err(object) => {
            proof {
                lemma_marks_only_free_closed(objects.map@);
            }
            collect_garbage(objects, registers, constants);
            let ghost collected = objects.map@;
            match objects.put(object) {
                Ok(v) => {
                    proof {
                        lemma_put_keeps(collected, objects.map@, v.index as int, object);
                        lemma_free_count_mono(entry, collected);
                        lemma_free_count_update(collected, v.index as int, object);
                    }
                    Ok(v)
                },
                Err(_) => {
                    proof {
                        if free_complete(entry, entry_free as int) {
                            lemma_full(objects.map@, objects.free.index as int);
                            lemma_free_count_mono(entry, collected);
                            lemma_free_count_none(objects.map@);
                        }
                        assert forall|j: int| 0 <= j < entry.len() implies #[trigger] objects.map@[j].data == entry[j].data by {
                            if !(entry[j].data is Free) {
                                assert(reachable(entry, registers@ + constants@, j));
                            }
                        }
                    }
                    Err(FatalError::new(String::from_str("out of memory")))
                },
            }
        },
    }
}

/// An object that a root names directly is reachable.
pub proof fn lemma_root_reachable(objs: Seq<Object>, roots: Seq<VMData>, r: int)
    requires
        0 <= r < roots.len(),
        roots[r].spec_is_object(),
    ensures
        reachable(objs, roots, roots[r].data as int),
{
    let path = seq![roots[r].data as int];
    assert(is_path(objs, roots, path));
}

proof fn lemma_put_keeps(before: Seq<Object>, after: Seq<Object>, i: int, object: Object)
    requires
        0 <= i < before.len(),
        after == before.update(i, object),
        refs_valid(before),
        marks_only_free(before),
        !object.liveliness_status,
        forall|k: int| 0 <= k < children(object).len() && #[trigger] children(object)[k].spec_is_object()
            ==> children(object)[k].data < before.len(),
        !(object.data is Free),
    ensures
        refs_valid(after),
        marks_only_free(after),
{
    assert forall|a: int, k: int|
        0 <= a < after.len() && 0 <= k < children(after[a]).len() && #[trigger] children(after[a])[k].spec_is_object()
        implies children(after[a])[k].data < after.len() by {
        if a != i {
            assert(after[a] == before[a]);
        }
    }
    assert forall|a: int| 0 <= a < after.len() && (#[trigger] after[a].data matches ObjectData::Free { next })
        implies after[a].data->next.index < after.len() by {
        if a != i {
            assert(after[a] == before[a]);
        }
    }
    assert forall|a: int| 0 <= a < after.len() && #[trigger] after[a].liveliness_status implies after[a].data is Free by {
        if a != i {
            assert(after[a] == before[a]);
        }
    }
}

impl ObjectMap {
    /// Writes field `field` of the structure at `index`.
    pub fn set_field(&mut self, index: ObjectIndex, field: usize, value: VMData)
        requires
            index.index < old(self).objects().len(),
            old(self).objects()[index.index as int].data matches ObjectData::Struct(s) && field < s.view().len(),
        ensures
            final(self).free_slot() == old(self).free_slot(),
            final(self).objects().len() == old(self).objects().len(),
            final(self).objects()[index.index as int].liveliness_status == old(self).objects()[index.index as int].liveliness_status,
            final(self).objects()[index.index as int].data matches ObjectData::Struct(s)
                && s.view() == children(old(self).objects()[index.index as int]).update(field as int, value),
            forall|j: int| 0 <= j < old(self).objects().len() && j != index.index ==> #[trigger] final(self).objects()[j] == old(self).objects()[j],
            free_complete(old(self).objects(), old(self).free_slot().index as int)
                ==> free_complete(final(self).objects(), final(self).free_slot().index as int),
    {
        let ghost entry = self.map@;
        let len = self.map.len();
        assert(index.index < len);
        let at = index.index as usize;
        let mut object = Object::new(ObjectData::Free { next: ObjectIndex::new(0) });
        std::mem::swap(&mut object, &mut self.map[at]);
        match &mut object.data {
            ObjectData::Struct(s) => s.set_field(field, value),
            _ => {},
        }
        std::mem::swap(&mut object, &mut self.map[at]);
        proof {
            if free_complete(entry, self.free.index as int) {
                lemma_complete_same_free(entry, self.map@, self.free.index as int);
            }
        }
    }
}

} // verus!

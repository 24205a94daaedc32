use crate::object_type::{views, ObjectType, ObjectTypeView};
use vstd::prelude::*;

verus! {

/// What an operation does next with the shared connection.
#[derive(Clone, Copy, Debug, PartialEq, Eq, Structural)]
pub enum ConnectionStep {
    /// Run the connect handshake first.
    Handshake,
    /// The connection is up: run the operation.
    Run,
    /// The handshake failed: report the error, stay disconnected.
    Fail,
}

/// The step an operation starts with.
pub open spec fn first_step(connected: bool) -> ConnectionStep {
    if connected {
        ConnectionStep::Run
    } else {
        ConnectionStep::Handshake
    }
}

/// The step after a handshake, by its outcome.
pub open spec fn step_after_handshake(succeeded: bool) -> ConnectionStep {
    if succeeded {
        ConnectionStep::Run
    } else {
        ConnectionStep::Fail
    }
}

/// The connection's state machine: disconnected until a handshake succeeds,
/// connected from then on. A failed handshake is retried by the next
/// operation.
#[derive(Debug)]
pub struct DbConnection {
    connected: bool,
}

impl View for DbConnection {
    type V = bool;

    closed spec fn view(&self) -> bool {
        self.connected
    }
}

impl DbConnection {
    /// A disconnected connection.
    pub fn new() -> (r: Self)
        ensures
            !r@,
    {
        DbConnection { connected: false }
    }

    pub fn is_connected(&self) -> (r: bool)
        ensures
            r == self@,
    {
        self.connected
    }

    /// Called at the start of each operation: a handshake is owed only while
    /// disconnected.
    pub fn start_operation(&self) -> (r: ConnectionStep)
        ensures
            r == first_step(self@),
    {
        if self.connected {
            ConnectionStep::Run
        } else {
            ConnectionStep::Handshake
        }
    }

    /// Records a handshake's outcome; the connection is up from its first
    /// success on.
    pub fn handshake_finished(&mut self, succeeded: bool) -> (r: ConnectionStep)
        ensures
            final(self)@ == (old(self)@ || succeeded),
            r == step_after_handshake(succeeded),
    {
        if succeeded {
            self.connected = true;
            ConnectionStep::Run
        } else {
            ConnectionStep::Fail
        }
    }
}

/// The state a run of operations ends in from state `connected`, and how many
/// handshakes it performs; the k-th operation's handshake, if it runs one,
/// has outcome `outcomes[k]` and updates the state as `handshake_finished`
/// does.
pub open spec fn run_operations(connected: bool, outcomes: Seq<bool>) -> (bool, nat)
    decreases outcomes.len(),
{
    if outcomes.len() == 0 {
        (connected, 0)
    } else {
        let (c, n) = run_operations(connected, outcomes.drop_last());
        if first_step(c) == ConnectionStep::Handshake {
            (c || outcomes.last(), n + 1)
        } else {
            (c, n)
        }
    }
}

/// Running `a` then `b` is running `a + b`.
proof fn lemma_run_concat(connected: bool, a: Seq<bool>, b: Seq<bool>)
    ensures
        run_operations(connected, a + b) == ({
            let (c, n) = run_operations(connected, a);
            let (c2, n2) = run_operations(c, b);
            (c2, n + n2)
        }),
    decreases b.len(),
{
    if b.len() == 0 {
        assert(a + b =~= a);
    } else {
        lemma_run_concat(connected, a, b.drop_last());
        assert((a + b).drop_last() =~= a + b.drop_last());
    }
}

/// From a connected state no operation runs a handshake.
proof fn lemma_connected_stays(outcomes: Seq<bool>)
    ensures
        run_operations(true, outcomes) == (true, 0nat),
    decreases outcomes.len(),
{
    if outcomes.len() > 0 {
        lemma_connected_stays(outcomes.drop_last());
    }
}

/// Operations whose handshakes all fail each run one and stay disconnected.
proof fn lemma_failures(outcomes: Seq<bool>)
    requires
        forall|k: int| 0 <= k < outcomes.len() ==> !#[trigger] outcomes[k],
    ensures
        run_operations(false, outcomes) == (false, outcomes.len()),
    decreases outcomes.len(),
{
    if outcomes.len() > 0 {
        lemma_failures(outcomes.drop_last());
    }
}

/// Connect once: starting disconnected, every operation runs the handshake
/// until the first one that succeeds, and none after it, however many
/// operations follow.
pub proof fn lemma_connect_once(failed: Seq<bool>, later: Seq<bool>)
    requires
        forall|k: int| 0 <= k < failed.len() ==> !#[trigger] failed[k],
    ensures
        run_operations(false, failed.push(true) + later) == (true, failed.len() + 1),
        run_operations(true, later) == (true, 0nat),
{
    lemma_failures(failed);
    assert(failed.push(true).drop_last() =~= failed);
    assert(run_operations(false, failed.push(true)) == (true, failed.len() + 1));
    lemma_run_concat(false, failed.push(true), later);
    lemma_connected_stays(later);
}

/// Some document in `docs` is keyed by `name`.
pub open spec fn has_key(docs: Seq<ObjectTypeView>, name: Seq<char>) -> bool {
    exists|i: int| 0 <= i < docs.len() && #[trigger] docs[i].name == name
}

/// The position of the document keyed by `name`.
pub open spec fn key_index(docs: Seq<ObjectTypeView>, name: Seq<char>) -> int {
    choose|i: int| 0 <= i < docs.len() && #[trigger] docs[i].name == name
}

/// No two documents share a key.
pub open spec fn keys_unique(docs: Seq<ObjectTypeView>) -> bool {
    forall|i: int, j: int|
        0 <= i < docs.len() && 0 <= j < docs.len() && i != j ==> #[trigger] docs[i].name
            != #[trigger] docs[j].name
}

/// The documents after a create: the document keyed by `d.name` is replaced
/// by `d` in place, or `d` is appended when there is none.
pub open spec fn put(docs: Seq<ObjectTypeView>, d: ObjectTypeView) -> Seq<ObjectTypeView> {
    if has_key(docs, d.name) {
        docs.update(key_index(docs, d.name), d)
    } else {
        docs.push(d)
    }
}

/// The documents after an update: as a create where the key exists, else
/// unchanged.
pub open spec fn replace(docs: Seq<ObjectTypeView>, d: ObjectTypeView) -> Seq<ObjectTypeView> {
    if has_key(docs, d.name) {
        docs.update(key_index(docs, d.name), d)
    } else {
        docs
    }
}

/// The documents after a delete: the one keyed by `name` is gone.
pub open spec fn remove_key(docs: Seq<ObjectTypeView>, name: Seq<char>) -> Seq<ObjectTypeView> {
    if has_key(docs, name) {
        docs.remove(key_index(docs, name))
    } else {
        docs
    }
}

/// Where `docs` has a document keyed by `name`, `key_index` is its only position.
proof fn lemma_key_index(docs: Seq<ObjectTypeView>, name: Seq<char>, i: int)
    requires
        keys_unique(docs),
        0 <= i < docs.len(),
        docs[i].name == name,
    ensures
        has_key(docs, name),
        key_index(docs, name) == i,
{
    assert(has_key(docs, name));
    let k = key_index(docs, name);
    if k != i {
        assert(docs[k].name != docs[i].name);
    }
}

/// Storing a document whose key is present keeps the keys and their order.
proof fn lemma_put_keeps_keys(docs: Seq<ObjectTypeView>, d: ObjectTypeView)
    requires
        keys_unique(docs),
        has_key(docs, d.name),
    ensures
        keys_unique(docs.update(key_index(docs, d.name), d)),
{
    let k = key_index(docs, d.name);
    let after = docs.update(k, d);
    assert forall|i: int, j: int|
        0 <= i < after.len() && 0 <= j < after.len() && i != j implies #[trigger] after[i].name
        != #[trigger] after[j].name by {
        assert(after[i].name == docs[i].name);
        assert(after[j].name == docs[j].name);
    }
}

/// Round trip: after a create of `v`, the table holds a document equal to
/// `v` in every field, and its keys stay unique.
pub proof fn lemma_created_is_listed(docs: Seq<ObjectTypeView>, v: ObjectTypeView)
    requires
        keys_unique(docs),
    ensures
        put(docs, v).contains(v),
        keys_unique(put(docs, v)),
{
    if has_key(docs, v.name) {
        let k = key_index(docs, v.name);
        assert(put(docs, v)[k] == v);
        lemma_put_keeps_keys(docs, v);
    } else {
        assert(put(docs, v)[docs.len() as int] == v);
        let after = put(docs, v);
        assert forall|i: int, j: int|
            0 <= i < after.len() && 0 <= j < after.len() && i != j implies #[trigger] after[i].name
            != #[trigger] after[j].name by {
            if i == docs.len() {
                assert(docs[j].name != v.name);
            } else if j == docs.len() {
                assert(docs[i].name != v.name);
            }
        }
    }
}

/// Updating twice with the same value leaves the table as updating once.
pub proof fn lemma_update_idempotent(docs: Seq<ObjectTypeView>, v: ObjectTypeView)
    requires
        keys_unique(docs),
    ensures
        replace(replace(docs, v), v) == replace(docs, v),
{
    if has_key(docs, v.name) {
        let k = key_index(docs, v.name);
        let once = docs.update(k, v);
        lemma_put_keeps_keys(docs, v);
        lemma_key_index(once, v.name, k);
        assert(once.update(k, v) =~= once);
    }
}

/// After a delete, no document is keyed by the deleted type's name.
pub proof fn lemma_deleted_is_gone(docs: Seq<ObjectTypeView>, name: Seq<char>)
    requires
        keys_unique(docs),
    ensures
        !has_key(remove_key(docs, name), name),
        keys_unique(remove_key(docs, name)),
{
    if has_key(docs, name) {
        let k = key_index(docs, name);
        let after = docs.remove(k);
        assert forall|i: int| 0 <= i < after.len() implies #[trigger] after[i].name != name by {
            if i < k {
                assert(docs[i].name != docs[k].name);
            } else {
                assert(after[i] == docs[i + 1]);
                assert(docs[i + 1].name != docs[k].name);
            }
        }
        assert forall|i: int, j: int|
            0 <= i < after.len() && 0 <= j < after.len() && i != j implies #[trigger] after[i].name
            != #[trigger] after[j].name by {
            let a = if i < k { i } else { i + 1 };
            let b = if j < k { j } else { j + 1 };
            assert(after[i] == docs[a]);
            assert(after[j] == docs[b]);
        }
    }
}

/// The object-type table: one whole document per object-type name.
#[derive(Debug)]
pub struct ObjectTypeTable {
    documents: Vec<ObjectType>,
}

impl View for ObjectTypeTable {
    type V = Seq<ObjectTypeView>;

    closed spec fn view(&self) -> Seq<ObjectTypeView> {
        views(self.documents@)
    }
}

impl ObjectTypeTable {
    /// Keys are unique.
    pub open spec fn wf(&self) -> bool {
        keys_unique(self@)
    }

    /// An empty table.
    pub fn new() -> (r: Self)
        ensures
            r@ == Seq::<ObjectTypeView>::empty(),
            r.wf(),
    {
        let r = ObjectTypeTable { documents: Vec::new() };
        assert(r@ =~= Seq::<ObjectTypeView>::empty());
        r
    }

    /// The position of the document keyed by `name`, if any.
    fn find(&self, name: &String) -> (r: Option<usize>)
        requires
            self.wf(),
        ensures
            r.is_some() <==> has_key(self@, name@),
            r matches Some(i) ==> i == key_index(self@, name@) && i < self@.len(),
    {
        let mut i: usize = 0;
        while i < self.documents.len()
            invariant
                0 <= i <= self.documents.len(),
                self.wf(),
                forall|j: int| 0 <= j < i ==> #[trigger] self@[j].name != name@,
            decreases self.documents.len() - i,
        {
            if self.documents[i].name().eq(name) {
                assert(self@[i as int].name == name@);
                assert(has_key(self@, name@));
                let ghost k = key_index(self@, name@);
                assert(self@[k].name == name@);
                proof {
                    if k != i as int {
                        assert(self@[k].name != self@[i as int].name);
                    }
                }
                return Some(i);
            }
            i += 1;
        }
        None
    }

    /// Every stored object type, in storage order.
    pub fn list(&self) -> (r: Vec<ObjectType>)
        ensures
            views(r@) == self@,
    {
        let mut r: Vec<ObjectType> = Vec::new();
        let mut i: usize = 0;
        while i < self.documents.len()
            invariant
                0 <= i <= self.documents.len(),
                views(r@) == self@.subrange(0, i as int),
            decreases self.documents.len() - i,
        {
            let d = self.documents[i].clone();
            assert(d@ == self@[i as int]);
            let ghost before = r@;
            r.push(d);
            assert(r@ == before.push(d));
            proof {
                let n = i as int;
                assert(views(before).len() == before.len());
                assert(views(r@).len() == r@.len());
                assert forall|j: int| 0 <= j <= n implies #[trigger] views(r@)[j] == self@.subrange(0, n + 1)[j] by {
                    if j < n {
                        assert(views(before)[j] == self@.subrange(0, n)[j]);
                        assert(r@[j] == before[j]);
                    } else {
                        assert(r@[j] == d);
                    }
                }
                assert(views(r@) =~= self@.subrange(0, n + 1));
            }
            i += 1;
        }
        assert(self@.subrange(0, i as int) =~= self@);
        r
    }

    /// Stores `object_type` under its name, overwriting any document of that
    /// name, and returns the stored value.
    pub fn create(&mut self, object_type: &ObjectType) -> (r: Option<ObjectType>)
        requires
            old(self).wf(),
        ensures
            final(self).wf(),
            final(self)@ == put(old(self)@, object_type@),
            has_key(final(self)@, object_type@.name),
            r matches Some(d) && d@ == object_type@,
    {
        match self.find(object_type.name()) {
            Some(i) => {
                self.documents.set(i, object_type.clone());
                assert(self@ =~= put(old(self)@, object_type@));
                assert(self@[i as int].name == object_type@.name);
            },
            None => {
                self.documents.push(object_type.clone());
                assert(self@ =~= put(old(self)@, object_type@));
                assert(self@[old(self)@.len() as int].name == object_type@.name);
            },
        }
        Some(object_type.clone())
    }

    /// Replaces the document keyed by `object_type`'s name and returns the new
    /// value; `None`, and no change, when there is no such document.
    pub fn update(&mut self, object_type: &ObjectType) -> (r: Option<ObjectType>)
        requires
            old(self).wf(),
        ensures
            final(self).wf(),
            final(self)@ == replace(old(self)@, object_type@),
            has_key(final(self)@, object_type@.name) == has_key(old(self)@, object_type@.name),
            r.is_some() <==> has_key(old(self)@, object_type@.name),
            r matches Some(d) ==> d@ == object_type@,
    {
        match self.find(object_type.name()) {
            Some(i) => {
                self.documents.set(i, object_type.clone());
                assert(self@ =~= replace(old(self)@, object_type@));
                assert(self@[i as int].name == object_type@.name);
                Some(object_type.clone())
            },
            None => None,
        }
    }

    /// Removes the document keyed by `object_type`'s name and returns it;
    /// `None`, and no change, when there is no such document.
    pub fn delete(&mut self, object_type: &ObjectType) -> (r: Option<ObjectType>)
        requires
            old(self).wf(),
        ensures
            final(self).wf(),
            final(self)@ == remove_key(old(self)@, object_type@.name),
            r.is_some() <==> has_key(old(self)@, object_type@.name),
            r matches Some(d) ==> d@ == old(self)@[key_index(old(self)@, object_type@.name)],
    {
        match self.find(object_type.name()) {
            Some(i) => {
                let d = self.documents.remove(i);
                assert(self@ =~= remove_key(old(self)@, object_type@.name));
                Some(d)
            },
            None => None,
        }
    }
}

} // verus!

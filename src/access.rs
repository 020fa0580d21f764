//! The typed access layer: an open handle's partition set, and the keyed
//! engine requests that record operations become.
use vstd::prelude::*;
use vstd::string::StringSliceAdditionalSpecFns;
use vstd::utf8::encode_utf8;
use crate::keys::{encode_key, key_of, lemma_case_variants_share_key, same_ignoring_case};
use crate::registry::{
    partition_names, partitions_of, single_record_partition, single_record_partition_name,
};
use crate::schema::{CollectionDef, Definition, DefinitionView, SingleRecordDef, views};

verus! {

/// Why a record operation failed.
#[derive(Debug)]
pub enum Error {
    /// The operation was attempted with no open handle.
    NotInitialized,
    /// A handle was opened while another one was installed.
    AlreadyOpen,
    /// The partition of the named collection was not declared when the handle
    /// was opened.
    PartitionMissing(String),
    /// The storage engine failed, with its diagnostic.
    Engine(String),
    /// The stored bytes did not decode as the expected record, with the
    /// decoder's diagnostic.
    Decode(String),
}

/// A point in the engine's key space: a partition and a key within it.
#[derive(Debug)]
pub struct Address {
    pub partition: String,
    pub key: Vec<u8>,
}

/// One operation for the engine to perform.
#[derive(Debug)]
pub enum Request {
    /// Look up the value at an address.
    Get(Address),
    /// Store the value at an address, replacing any earlier one.
    Put(Address, Vec<u8>),
    /// Remove any value at an address.
    Delete(Address),
}

pub enum RequestView {
    Get(Seq<char>, Seq<u8>),
    Put(Seq<char>, Seq<u8>, Seq<u8>),
    Delete(Seq<char>, Seq<u8>),
}

impl View for Request {
    type V = RequestView;

    open spec fn view(&self) -> RequestView {
        match self {
            Request::Get(a) => RequestView::Get(a.partition@, a.key@),
            Request::Put(a, v) => RequestView::Put(a.partition@, a.key@, v@),
            Request::Delete(a) => RequestView::Delete(a.partition@, a.key@),
        }
    }
}

/// The engine's contents: a value for each partition and key.
pub type Store = Map<(Seq<char>, Seq<u8>), Seq<u8>>;

/// The contents after the engine performs `req`.
pub open spec fn apply(s: Store, req: RequestView) -> Store {
    match req {
        RequestView::Get(_, _) => s,
        RequestView::Put(p, k, v) => s.insert((p, k), v),
        RequestView::Delete(p, k) => s.remove((p, k)),
    }
}

/// What the engine answers to `req`: the stored value of a lookup, if any.
pub open spec fn answer(s: Store, req: RequestView) -> Option<Seq<u8>> {
    match req {
        RequestView::Get(p, k) => if s.contains_key((p, k)) {
            Some(s[(p, k)])
        } else {
            None
        },
        _ => None,
    }
}

/// Whether `req` writes a value at partition `p`, key `k`.
pub open spec fn writes(req: RequestView, p: Seq<char>, k: Seq<u8>) -> bool {
    req matches RequestView::Put(q, j, _) && q == p && j == k
}

/// The contents after the engine performs `reqs` in order, from empty.
pub open spec fn replay(reqs: Seq<RequestView>) -> Store
    decreases reqs.len(),
{
    if reqs.len() == 0 {
        Map::empty()
    } else {
        apply(replay(reqs.drop_last()), reqs.last())
    }
}

/// The lookup of the record with identifier `id` in collection `c`.
pub open spec fn collection_get(c: CollectionDef, id: Seq<char>) -> RequestView {
    RequestView::Get(c.name@, key_of(encode_utf8(id), c.case_insensitive))
}

/// The write of a record with identifier `id` and encoding `value`.
pub open spec fn collection_put(c: CollectionDef, id: Seq<char>, value: Seq<u8>) -> RequestView {
    RequestView::Put(c.name@, key_of(encode_utf8(id), c.case_insensitive), value)
}

/// The removal of the record with identifier `id` from collection `c`.
pub open spec fn collection_delete(c: CollectionDef, id: Seq<char>) -> RequestView {
    RequestView::Delete(c.name@, key_of(encode_utf8(id), c.case_insensitive))
}

/// The lookup of single record `d`: its type name in the shared partition.
pub open spec fn single_get(d: SingleRecordDef) -> RequestView {
    RequestView::Get(single_record_partition(), encode_utf8(d.name@))
}

/// The write of single record `d` with encoding `value`.
pub open spec fn single_put(d: SingleRecordDef, value: Seq<u8>) -> RequestView {
    RequestView::Put(single_record_partition(), encode_utf8(d.name@), value)
}

pub struct DbGuardView {
    pub partitions: Seq<Seq<char>>,
    pub open: bool,
}

/// The handle of an opened engine, as the access layer sees it: the
/// partitions it was opened with, and whether it is still open.
pub struct DbGuard {
    partitions: Vec<String>,
    open: bool,
}

impl View for DbGuard {
    type V = DbGuardView;

    closed spec fn view(&self) -> DbGuardView {
        DbGuardView { partitions: self.partitions@.map_values(|s: String| s@), open: self.open }
    }
}

impl DbGuard {
    /// A handle opened for `defs`: the shared single-record partition and one
    /// partition per collection.
    pub fn open(defs: &Vec<Definition>) -> (g: DbGuard)
        ensures
            g@.open,
            g@.partitions == partitions_of(views(defs@)),
    {
        let partitions = partition_names(defs);
        DbGuard { partitions, open: true }
    }

    /// Closes the handle; every later operation fails with `NotInitialized`.
    pub fn close(&mut self)
        ensures
            final(self)@ == (DbGuardView { partitions: old(self)@.partitions, open: false }),
    {
        self.open = false;
    }

    pub fn is_open(&self) -> (r: bool)
        ensures
            r == self@.open,
    {
        self.open
    }

    /// The partitions that the engine is to be opened with.
    pub fn partitions(&self) -> (r: &Vec<String>)
        ensures
            r@.map_values(|s: String| s@) == self@.partitions,
    {
        &self.partitions
    }

    /// Whether `name` is among the handle's partitions.
    fn has_partition(&self, name: &String) -> (r: bool)
        ensures
            r == self@.partitions.contains(name@),
    {
        let mut i: usize = 0;
        while i < self.partitions.len()
            invariant
                i <= self.partitions@.len(),
                forall|j: int| 0 <= j < i ==> self.partitions@[j]@ != name@,
            decreases self.partitions@.len() - i,
        {
            if self.partitions[i] == *name {
                assert(self@.partitions[i as int] == name@);
                return true;
            }
            i = i + 1;
        }
        proof {
            if self@.partitions.contains(name@) {
                let j = choose|j: int| 0 <= j < self@.partitions.len() && self@.partitions[j] == name@;
                assert(self.partitions@[j]@ == name@);
            }
        }
        false
    }

    /// The partition `name`, once the handle is open and holds it.
    fn resolve(&self, name: &String) -> (r: Result<String, Error>)
        ensures
            !self@.open ==> (r matches Err(Error::NotInitialized)),
            self@.open && !self@.partitions.contains(name@) ==> (r matches Err(
                Error::PartitionMissing(n),
            ) && n@ == name@),
            self@.open && self@.partitions.contains(name@) ==> (r matches Ok(p) && p@ == name@),
    {
        if !self.open {
            return Err(Error::NotInitialized);
        }
        if !self.has_partition(name) {
            return Err(Error::PartitionMissing(name.clone()));
        }
        Ok(name.clone())
    }

    /// The lookup of the record with identifier `id` in collection `c`.
    pub fn get_request(&self, c: &CollectionDef, id: &str) -> (r: Result<Request, Error>)
        ensures
            !self@.open ==> (r matches Err(Error::NotInitialized)),
            self@.open && !self@.partitions.contains(c.name@) ==> (r matches Err(
                Error::PartitionMissing(n),
            ) && n@ == c.name@),
            self@.open && self@.partitions.contains(c.name@) ==> (r matches Ok(req) && req@
                == collection_get(*c, id@)),
    {
        let partition = self.resolve(&c.name)?;
        let key = encode_key(id, c.case_insensitive);
        Ok(Request::Get(Address { partition, key }))
    }

    /// The write of a record with identifier `id` and encoding `value` into
    /// collection `c`.
    pub fn put_request(&self, c: &CollectionDef, id: &str, value: Vec<u8>) -> (r: Result<
        Request,
        Error,
    >)
        ensures
            !self@.open ==> (r matches Err(Error::NotInitialized)),
            self@.open && !self@.partitions.contains(c.name@) ==> (r matches Err(
                Error::PartitionMissing(n),
            ) && n@ == c.name@),
            self@.open && self@.partitions.contains(c.name@) ==> (r matches Ok(req) && req@
                == collection_put(*c, id@, value@)),
    {
        let partition = self.resolve(&c.name)?;
        let key = encode_key(id, c.case_insensitive);
        Ok(Request::Put(Address { partition, key }, value))
    }

    /// The removal of the record with identifier `id` from collection `c`.
    pub fn delete_request(&self, c: &CollectionDef, id: &str) -> (r: Result<Request, Error>)
        ensures
            !self@.open ==> (r matches Err(Error::NotInitialized)),
            self@.open && !self@.partitions.contains(c.name@) ==> (r matches Err(
                Error::PartitionMissing(n),
            ) && n@ == c.name@),
            self@.open && self@.partitions.contains(c.name@) ==> (r matches Ok(req) && req@
                == collection_delete(*c, id@)),
    {
        let partition = self.resolve(&c.name)?;
        let key = encode_key(id, c.case_insensitive);
        Ok(Request::Delete(Address { partition, key }))
    }

    /// The lookup of single record `d`.
    pub fn single_get_request(&self, d: &SingleRecordDef) -> (r: Result<Request, Error>)
        ensures
            !self@.open ==> (r matches Err(Error::NotInitialized)),
            self@.open && !self@.partitions.contains(single_record_partition()) ==> (r matches Err(
                Error::PartitionMissing(n),
            ) && n@ == single_record_partition()),
            self@.open && self@.partitions.contains(single_record_partition()) ==> (r matches Ok(
                req,
            ) && req@ == single_get(*d)),
    {
        let partition = self.resolve(&single_record_partition_name())?;
        let key = encode_key(d.name.as_str(), false);
        Ok(Request::Get(Address { partition, key }))
    }

    /// The write of single record `d` with encoding `value`.
    pub fn single_put_request(&self, d: &SingleRecordDef, value: Vec<u8>) -> (r: Result<
        Request,
        Error,
    >)
        ensures
            !self@.open ==> (r matches Err(Error::NotInitialized)),
            self@.open && !self@.partitions.contains(single_record_partition()) ==> (r matches Err(
                Error::PartitionMissing(n),
            ) && n@ == single_record_partition()),
            self@.open && self@.partitions.contains(single_record_partition()) ==> (r matches Ok(
                req,
            ) && req@ == single_put(*d, value@)),
    {
        let partition = self.resolve(&single_record_partition_name())?;
        let key = encode_key(d.name.as_str(), false);
        Ok(Request::Put(Address { partition, key }, value))
    }
}

/// The process-wide place of the ambient handle: at most one handle is
/// installed at a time, and record operations go through the installed one.
pub struct HandleSlot {
    current: Option<DbGuard>,
}

impl View for HandleSlot {
    type V = Option<DbGuardView>;

    closed spec fn view(&self) -> Option<DbGuardView> {
        match self.current {
            Some(g) => Some(g@),
            None => None,
        }
    }
}

impl HandleSlot {
    /// An empty slot.
    pub fn new() -> (r: HandleSlot)
        ensures
            r@ == None::<DbGuardView>,
    {
        HandleSlot { current: None }
    }

    /// Installs `g` in an empty slot; a slot that holds a handle keeps it and
    /// the call fails with `AlreadyOpen`.
    pub fn install(&mut self, g: DbGuard) -> (r: Result<(), Error>)
        ensures
            old(self)@ is None ==> r is Ok && final(self)@ == Some(g@),
            old(self)@ is Some ==> (r matches Err(Error::AlreadyOpen)) && final(self)@ == old(
                self,
            )@,
    {
        if self.current.is_some() {
            return Err(Error::AlreadyOpen);
        }
        self.current = Some(g);
        Ok(())
    }

    /// Clears the slot, closing the handle it held.
    pub fn release(&mut self)
        ensures
            final(self)@ == None::<DbGuardView>,
    {
        self.current = None;
    }

    /// The installed handle, or `NotInitialized` when there is none.
    pub fn guard(&self) -> (r: Result<&DbGuard, Error>)
        ensures
            self@ is None ==> (r matches Err(Error::NotInitialized)),
            self@ is Some ==> (r matches Ok(g) && Some(g@) == self@),
    {
        match &self.current {
            Some(g) => Ok(g),
            None => Err(Error::NotInitialized),
        }
    }
}

/// A handle opened for any definitions holds the single-record partition
/// and the partition of each collection among them.
pub proof fn lemma_open_holds_partitions(defs: Seq<DefinitionView>)
    ensures
        partitions_of(defs).contains(single_record_partition()),
        forall|i: int|
            0 <= i < defs.len() ==> (#[trigger] defs[i] matches DefinitionView::Collection {
                name,
                ..
            } ==> partitions_of(defs).contains(name)),
    decreases defs.len(),
{
    assert(partitions_of(defs)[0] == single_record_partition());
    if defs.len() > 0 {
        let rest = defs.drop_last();
        lemma_open_holds_partitions(rest);
        assert forall|i: int|
            0 <= i < defs.len() implies (#[trigger] defs[i] matches DefinitionView::Collection { name, .. }
            ==> partitions_of(defs).contains(name)) by {
            if let DefinitionView::Collection { name, .. } = defs[i] {
                if i < defs.len() - 1 {
                    assert(rest[i] == defs[i]);
                    let k = choose|k: int|
                        0 <= k < partitions_of(rest).len() && partitions_of(rest)[k] == name;
                    assert(partitions_of(defs)[k] == name);
                } else {
                    let k = partitions_of(defs).len() - 1;
                    assert(partitions_of(defs)[k] == name);
                }
            }
        }
    }
}

/// A key that no request of a history writes is absent after it: a lookup
/// there finds nothing.
pub proof fn lemma_never_put_is_absent(reqs: Seq<RequestView>, p: Seq<char>, k: Seq<u8>)
    requires
        forall|i: int| 0 <= i < reqs.len() ==> !writes(#[trigger] reqs[i], p, k),
    ensures
        answer(replay(reqs), RequestView::Get(p, k)) == None::<Seq<u8>>,
    decreases reqs.len(),
{
    if reqs.len() > 0 {
        lemma_never_put_is_absent(reqs.drop_last(), p, k);
    }
}

/// A record put into a collection is found again under its identifier, with
/// the bytes it was written with.
pub proof fn lemma_put_then_get(s: Store, c: CollectionDef, id: Seq<char>, value: Seq<u8>)
    ensures
        answer(apply(s, collection_put(c, id, value)), collection_get(c, id)) == Some(value),
{
}

/// After a delete the record is absent, whatever was stored before, and a
/// second delete changes nothing.
pub proof fn lemma_delete_then_get(s: Store, c: CollectionDef, id: Seq<char>)
    ensures
        answer(apply(s, collection_delete(c, id)), collection_get(c, id)) == None::<Seq<u8>>,
        apply(apply(s, collection_delete(c, id)), collection_delete(c, id)) == apply(
            s,
            collection_delete(c, id),
        ),
{
    assert(apply(apply(s, collection_delete(c, id)), collection_delete(c, id)) =~= apply(
        s,
        collection_delete(c, id),
    ));
}

/// Putting the same record twice leaves the engine as one put does.
pub proof fn lemma_put_twice(s: Store, c: CollectionDef, id: Seq<char>, value: Seq<u8>)
    ensures
        apply(apply(s, collection_put(c, id, value)), collection_put(c, id, value)) == apply(
            s,
            collection_put(c, id, value),
        ),
        answer(
            apply(apply(s, collection_put(c, id, value)), collection_put(c, id, value)),
            collection_get(c, id),
        ) == Some(value),
{
    assert(apply(apply(s, collection_put(c, id, value)), collection_put(c, id, value)) =~= apply(
        s,
        collection_put(c, id, value),
    ));
}

/// A single record that was never written is absent, so its type's default
/// stands in for it.
pub proof fn lemma_single_record_unwritten(reqs: Seq<RequestView>, d: SingleRecordDef)
    requires
        forall|i: int|
            0 <= i < reqs.len() ==> !writes(
                #[trigger] reqs[i],
                single_record_partition(),
                encode_utf8(d.name@),
            ),
    ensures
        answer(replay(reqs), single_get(d)) == None::<Seq<u8>>,
{
    lemma_never_put_is_absent(reqs, single_record_partition(), encode_utf8(d.name@));
}

/// A single record written through one handle is read back through a handle
/// opened later for the same definitions: both handles form the same
/// requests, and the write stays in the engine across the close.
pub proof fn lemma_single_record_survives_reopen(
    defs: Seq<DefinitionView>,
    first: DbGuardView,
    second: DbGuardView,
    s: Store,
    d: SingleRecordDef,
    value: Seq<u8>,
)
    requires
        first.partitions == partitions_of(defs),
        second.partitions == partitions_of(defs),
        second.open,
    ensures
        second.partitions.contains(single_record_partition()),
        answer(apply(s, single_put(d, value)), single_get(d)) == Some(value),
{
    lemma_open_holds_partitions(defs);
}

/// In a case-insensitive collection a record put under one identifier is
/// found under every case variant of it, and a delete under any variant
/// removes it for all of them.
pub proof fn lemma_case_insensitive_access(
    s: Store,
    c: CollectionDef,
    a: Seq<char>,
    b: Seq<char>,
    value: Seq<u8>,
)
    requires
        c.case_insensitive,
        same_ignoring_case(encode_utf8(a), encode_utf8(b)),
    ensures
        answer(apply(s, collection_put(c, a, value)), collection_get(c, b)) == Some(value),
        answer(apply(s, collection_delete(c, a)), collection_get(c, b)) == None::<Seq<u8>>,
{
    lemma_case_variants_share_key(encode_utf8(a), encode_utf8(b));
}

} // verus!
//! Attachments, and the pool that a database keeps them in.

use vstd::prelude::*;
use crate::content::Content;
use crate::database::Database;
use crate::database::DatabaseModel;
use crate::ids::AttachmentId;
use crate::sorted_map::SortedMap;
use crate::value::Value;

verus! {

/// Attachment for an entry.
#[derive(Debug, PartialEq, Eq)]
pub struct Attachment {
    /// The identifier of the attachment.
    pub id: AttachmentId,
    /// The binary data of the attachment.
    pub data: Value<Vec<u8>>,
}

/// What an [Attachment] holds.
pub struct AttachmentModel {
    /// The identifier of the attachment.
    pub id: AttachmentId,
    /// The binary data of the attachment.
    pub data: Value<Seq<u8>>,
}

/// The attachments of a database by their identifiers.
pub type Pool = Map<AttachmentId, AttachmentModel>;

impl DeepView for Attachment {
    type V = AttachmentModel;

    open spec fn deep_view(&self) -> AttachmentModel {
        AttachmentModel { id: self.id, data: self.data.deep_view() }
    }
}

impl Content for Attachment {
    fn duplicate(&self) -> (result: Self) {
        Attachment { id: self.id, data: self.data.duplicate() }
    }

    fn same_as(&self, other: &Self) -> (result: bool) {
        self.id == other.id && self.data.same_as(&other.data)
    }
}

impl Clone for Attachment {
    fn clone(&self) -> (result: Self)
        ensures
            result.deep_view() == self.deep_view(),
    {
        self.duplicate()
    }
}

impl Attachment {
    /// Get the ID of this attachment.
    pub fn id(&self) -> (result: AttachmentId)
        ensures
            result == self.id,
    {
        self.id
    }
}

impl core::ops::Deref for Attachment {
    type Target = Value<Vec<u8>>;

    fn deref(&self) -> (result: &Self::Target)
        ensures
            *result == self.data,
    {
        &self.data
    }
}

impl core::ops::DerefMut for Attachment {
    fn deref_mut(&mut self) -> (result: &mut Self::Target)
        ensures
            *result == old(self).data,
            *final(self) == (Attachment { id: old(self).id, data: *final(result) }),
    {
        &mut self.data
    }
}

/// Whether `id` is the least identifier that no attachment of the pool has.
pub open spec fn is_least_free(pool: Pool, id: AttachmentId) -> bool {
    &&& !pool.contains_key(id)
    &&& forall|other: AttachmentId| other.0 < id.0 ==> #[trigger] pool.contains_key(other)
}

/// The least identifier that no attachment of the pool has.
pub open spec fn least_free(pool: Pool) -> AttachmentId {
    choose|id: AttachmentId| is_least_free(pool, id)
}

/// Whether the attachment with this identifier is in the pool and has this data.
pub open spec fn holds(pool: Pool, id: AttachmentId, data: Value<Seq<u8>>) -> bool {
    pool.contains_key(id) && pool[id].data == data
}

/// Whether `id` is the least identifier of an attachment with this data.
pub open spec fn is_least_holding(pool: Pool, data: Value<Seq<u8>>, id: AttachmentId) -> bool {
    &&& holds(pool, id, data)
    &&& forall|other: AttachmentId| other.0 < id.0 ==> !#[trigger] holds(pool, other, data)
}

/// Whether an attachment of the pool has this data.
pub open spec fn known(pool: Pool, data: Value<Seq<u8>>) -> bool {
    exists|id: AttachmentId| holds(pool, id, data)
}

/// The identifier that data has in the pool once it was put there: that of the first attachment
/// with the same data, or else the least free one.
pub open spec fn interned_id(pool: Pool, data: Value<Seq<u8>>) -> AttachmentId {
    if known(pool, data) {
        choose|id: AttachmentId| is_least_holding(pool, data, id)
    } else {
        least_free(pool)
    }
}

/// The pool once data was put there: data that it has already is not stored twice.
pub open spec fn interned(pool: Pool, data: Value<Seq<u8>>) -> Pool {
    if known(pool, data) {
        pool
    } else {
        pool.insert(least_free(pool), AttachmentModel { id: least_free(pool), data })
    }
}

/// There is only one least free identifier.
pub proof fn lemma_least_free(pool: Pool, id: AttachmentId)
    requires
        is_least_free(pool, id),
    ensures
        least_free(pool) == id,
{
    let other = least_free(pool);
    assert(is_least_free(pool, other));
    if other.0 < id.0 {
        assert(pool.contains_key(other));
    }
    if id.0 < other.0 {
        assert(pool.contains_key(id));
    }
}

/// There is only one least identifier with given data.
pub proof fn lemma_least_holding(pool: Pool, data: Value<Seq<u8>>, id: AttachmentId)
    requires
        is_least_holding(pool, data, id),
    ensures
        known(pool, data),
        interned_id(pool, data) == id,
        interned(pool, data) == pool,
{
    assert(holds(pool, id, data));
    let other = interned_id(pool, data);
    assert(is_least_holding(pool, data, other));
    if other.0 < id.0 {
        assert(!holds(pool, other, data));
    }
    if id.0 < other.0 {
        assert(!holds(pool, id, data));
    }
}

/// Whether every attachment of the pool carries the identifier under which it is stored.
pub open spec fn pool_wf(pool: Pool) -> bool {
    forall|a: AttachmentId| #[trigger] pool.contains_key(a) ==> pool[a].id == a
}

/// Whether every attachment of a pool is in the other one, under the same identifier.
pub open spec fn kept_in(before: Pool, after: Pool) -> bool {
    forall|a: AttachmentId| #[trigger]
        before.contains_key(a) ==> after.contains_key(a) && after[a] == before[a]
}

/// Whether a pool grew out of another by the adding of data that was not there before.
pub open spec fn extends(before: Pool, after: Pool) -> bool {
    &&& kept_in(before, after)
    &&& pool_wf(before) ==> pool_wf(after)
    &&& forall|a: AttachmentId, b: AttachmentId|
        #![trigger after.contains_key(a), after.contains_key(b)]
        after.contains_key(a) && after.contains_key(b) && a != b && after[a].data == after[b].data
            ==> before.contains_key(a) && before.contains_key(b)
}

/// A pool that grew twice has grown.
pub proof fn lemma_extends_transitive(a: Pool, b: Pool, c: Pool)
    requires
        extends(a, b),
        extends(b, c),
    ensures
        extends(a, c),
{
    assert forall|x: AttachmentId, y: AttachmentId|
        #![trigger c.contains_key(x), c.contains_key(y)]
        c.contains_key(x) && c.contains_key(y) && x != y && c[x].data == c[y].data implies
        a.contains_key(x) && a.contains_key(y) by {
        assert(b.contains_key(x) && b.contains_key(y));
    }
}

/// A well-formed database whose pool has grown is well formed.
pub proof fn lemma_pool_of_wf(before: DatabaseModel, after: DatabaseModel)
    requires
        extends(before.attachments, after.attachments),
        after == (DatabaseModel { attachments: after.attachments, ..before }),
    ensures
        before.wf() ==> after.wf(),
{
    assert(before.wf() ==> pool_wf(before.attachments));
}

/// A pool with as many attachments as `usize` can count has a free identifier above a run of
/// taken ones.
proof fn lemma_run_is_short(pool: Pool, n: nat)
    requires
        pool.dom().finite(),
        n <= usize::MAX + 1,
        forall|other: AttachmentId| other.0 < n ==> #[trigger] pool.contains_key(other),
    ensures
        n <= pool.dom().len(),
    decreases n,
{
    let run = Set::<AttachmentId>::new(|id: AttachmentId| id.0 < n);
    lemma_run_length(n);
    assert(run.subset_of(pool.dom()));
    vstd::set_lib::lemma_len_subset(run, pool.dom());
}

/// There are `n` identifiers below `n`.
proof fn lemma_run_length(n: nat)
    requires
        n <= usize::MAX + 1,
    ensures
        Set::<AttachmentId>::new(|id: AttachmentId| id.0 < n).finite(),
        Set::<AttachmentId>::new(|id: AttachmentId| id.0 < n).len() == n,
    decreases n,
{
    let run = Set::<AttachmentId>::new(|id: AttachmentId| id.0 < n);
    if n == 0 {
        assert(run =~= Set::<AttachmentId>::empty());
    } else {
        let shorter = Set::<AttachmentId>::new(|id: AttachmentId| id.0 < n - 1);
        lemma_run_length((n - 1) as nat);
        assert(run =~= shorter.insert(AttachmentId((n - 1) as usize)));
    }
}

/// A finite pool that can be counted has a least free identifier.
pub proof fn lemma_some_free(pool: Pool) -> (id: AttachmentId)
    requires
        pool.dom().finite(),
        pool.dom().len() <= usize::MAX,
    ensures
        is_least_free(pool, id),
{
    lemma_free_from(pool, 0)
}

proof fn lemma_free_from(pool: Pool, n: nat) -> (id: AttachmentId)
    requires
        pool.dom().finite(),
        pool.dom().len() <= usize::MAX,
        n <= usize::MAX + 1,
        forall|other: AttachmentId| other.0 < n ==> #[trigger] pool.contains_key(other),
    ensures
        is_least_free(pool, id),
    decreases usize::MAX + 1 - n,
{
    lemma_run_is_short(pool, n);
    let id = AttachmentId(n as usize);
    if pool.contains_key(id) {
        assert forall|other: AttachmentId| other.0 < n + 1 implies #[trigger] pool.contains_key(
            other,
        ) by {
            if other.0 == n {
                assert(other == id);
            }
        }
        lemma_free_from(pool, n + 1)
    } else {
        id
    }
}

/// Data that a pool knows has a least identifier there.
pub proof fn lemma_some_least_holding(pool: Pool, data: Value<Seq<u8>>) -> (id: AttachmentId)
    requires
        known(pool, data),
    ensures
        is_least_holding(pool, data, id),
{
    let id = choose|id: AttachmentId| holds(pool, id, data);
    lemma_holding_below(pool, data, id)
}

proof fn lemma_holding_below(pool: Pool, data: Value<Seq<u8>>, start: AttachmentId) -> (id:
    AttachmentId)
    requires
        holds(pool, start, data),
    ensures
        is_least_holding(pool, data, id),
    decreases start.0,
{
    if exists|other: AttachmentId| other.0 < start.0 && #[trigger] holds(pool, other, data) {
        let other = choose|other: AttachmentId|
            other.0 < start.0 && #[trigger] holds(pool, other, data);
        lemma_holding_below(pool, data, other)
    } else {
        start
    }
}

/// The least identifier that no attachment of the pool has.
pub fn next_free_id(pool: &SortedMap<AttachmentId, Attachment>) -> (result: AttachmentId)
    ensures
        is_least_free(pool.deep_view(), result),
        result == least_free(pool.deep_view()),
{
    let count: usize = pool.len();
    let mut id: usize = 0;
    while pool.contains_key(&AttachmentId(id))
        invariant
            count == pool.deep_view().dom().len(),
            pool.deep_view().dom().finite(),
            forall|other: AttachmentId|
                other.0 < id ==> #[trigger] pool.deep_view().contains_key(other),
        decreases usize::MAX - id,
    {
        proof {
            assert forall|other: AttachmentId| other.0 < id + 1 implies #[trigger] pool.deep_view()
                .contains_key(other) by {
                if other.0 == id {
                    assert(other == AttachmentId(id));
                }
            }
            lemma_run_is_short(pool.deep_view(), (id + 1) as nat);
        }
        id += 1;
    }
    proof {
        lemma_least_free(pool.deep_view(), AttachmentId(id));
    }
    AttachmentId(id)
}

impl AttachmentId {
    /// The least identifier that no attachment of the database has.
    pub fn next_free(database: &Database) -> (result: Self)
        ensures
            is_least_free(database.deep_view().attachments, result),
            result == least_free(database.deep_view().attachments),
    {
        next_free_id(&database.attachments)
    }
}

/// Puts data into the pool unless it is there already, and returns its identifier.
pub fn intern(pool: &mut SortedMap<AttachmentId, Attachment>, data: &Value<Vec<u8>>) -> (result:
    AttachmentId)
    ensures
        final(pool).deep_view() == interned(old(pool).deep_view(), data.deep_view()),
        result == interned_id(old(pool).deep_view(), data.deep_view()),
        holds(final(pool).deep_view(), result, data.deep_view()),
        extends(old(pool).deep_view(), final(pool).deep_view()),
{
    let ghost model = pool.deep_view();
    let ids = pool.keys();
    let ghost listing = ids.deep_view();
    let mut i: usize = 0;
    while i < ids.len()
        invariant
            model == pool.deep_view(),
            *pool == *old(pool),
            listing == ids.deep_view(),
            crate::order::lists::<AttachmentId>(listing, model.dom()),
            i <= ids@.len(),
            forall|j: int| 0 <= j < i ==> !holds(model, #[trigger] listing[j], data.deep_view()),
        decreases ids@.len() - i,
    {
        let id = ids[i];
        assert(listing[i as int] == id);
        assert(listing.contains(id));
        assert(model.dom().contains(id));
        if let Some(attachment) = pool.get(&id) {
            if attachment.data.same_as(data) {
                proof {
                    assert forall|other: AttachmentId| other.0 < id.0 implies !#[trigger] holds(
                        model,
                        other,
                        data.deep_view(),
                    ) by {
                        if model.dom().contains(other) {
                            let j = choose|j: int| 0 <= j < listing.len() && listing[j] == other;
                            if j > i {
                                assert(listing[i as int].0 < listing[j].0);
                            }
                            assert(!holds(model, listing[j], data.deep_view()));
                        }
                    }
                    lemma_least_holding(model, data.deep_view(), id);
                }
                return id;
            }
        }
        i += 1;
    }
    proof {
        assert forall|id: AttachmentId| !#[trigger] holds(model, id, data.deep_view()) by {
            if model.dom().contains(id) {
                let j = choose|j: int| 0 <= j < listing.len() && listing[j] == id;
                assert(!holds(model, listing[j], data.deep_view()));
            }
        }
    }
    let id = next_free_id(pool);
    pool.insert(id, Attachment { id, data: data.duplicate() });
    proof {
        let after = pool.deep_view();
        assert forall|a: AttachmentId, b: AttachmentId|
            #![trigger after.contains_key(a), after.contains_key(b)]
            after.contains_key(a) && after.contains_key(b) && a != b && after[a].data
                == after[b].data implies model.contains_key(a) && model.contains_key(b) by {
            if a == id {
                assert(!holds(model, b, data.deep_view()));
            }
            if b == id {
                assert(!holds(model, a, data.deep_view()));
            }
        }
    }
    id
}

} // verus!

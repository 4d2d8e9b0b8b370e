//! The store: five column families, written through batches.
//!
//! The store lives in memory. Every batch is also kept in a journal, from
//! which the durable copy is brought up to date.

use crate::encoding;
use crate::error;
use crate::error::{ErrorView, KvdbError, KvdbResult};
use crate::order;
use crate::table;
use crate::table::{Entries, Page, Table};
use crate::types::DataType;
use vstd::prelude::*;
use vstd::string::*;

verus! {

pub const CF_DEFAULT: &'static str = "default";

pub const CF_METADATA: &'static str = "metadata";

pub const CF_SUBKEY: &'static str = "subkey";

pub const CF_ZSET_SCORE: &'static str = "zset_score";

pub const CF_PUBSUB: &'static str = "pubsub";

/// Number of locks that keys are spread over.
pub const KEY_LOCK_SHARDS: u64 = 1024;

/// A column family.
#[derive(Debug, Clone, Copy, PartialEq, Eq, Structural)]
pub enum Cf {
    General,
    Metadata,
    Subkey,
    ZsetScore,
    PubSub,
}

/// The column family of a name.
pub open spec fn cf_named(name: Seq<char>) -> Option<Cf> {
    if name == "default"@ {
        Some(Cf::General)
    } else if name == "metadata"@ {
        Some(Cf::Metadata)
    } else if name == "subkey"@ {
        Some(Cf::Subkey)
    } else if name == "zset_score"@ {
        Some(Cf::ZsetScore)
    } else if name == "pubsub"@ {
        Some(Cf::PubSub)
    } else {
        None
    }
}

impl Cf {
    /// The name of the column family.
    pub fn name(&self) -> (name: &'static str)
        ensures
            cf_named(name@) == Some(*self),
    {
        proof {
            reveal_strlit("default");
            reveal_strlit("metadata");
            reveal_strlit("subkey");
            reveal_strlit("zset_score");
            reveal_strlit("pubsub");
            assert("default"@.len() == 7);
            assert("metadata"@.len() == 8);
            assert("subkey"@.len() == 6);
            assert("zset_score"@.len() == 10);
            assert("pubsub"@.len() == 6);
            assert("subkey"@[0] == 's');
            assert("pubsub"@[0] == 'p');
        }
        match self {
            Cf::General => "default",
            Cf::Metadata => "metadata",
            Cf::Subkey => "subkey",
            Cf::ZsetScore => "zset_score",
            Cf::PubSub => "pubsub",
        }
    }
}

/// The error for a name without a column family.
pub open spec fn missing_cf(name: Seq<char>) -> ErrorView {
    ErrorView::Command("missing column family: "@ + name)
}

/// The contents of the store.
#[verifier::ext_equal]
pub struct StoreView {
    pub general: Entries,
    pub metadata: Entries,
    pub subkey: Entries,
    pub zset_score: Entries,
    pub pubsub: Entries,
}

impl StoreView {
    /// A store without entries.
    pub open spec fn empty() -> StoreView {
        StoreView {
            general: Map::empty(),
            metadata: Map::empty(),
            subkey: Map::empty(),
            zset_score: Map::empty(),
            pubsub: Map::empty(),
        }
    }

    /// The contents of one column family.
    pub open spec fn at(self, cf: Cf) -> Entries {
        match cf {
            Cf::General => self.general,
            Cf::Metadata => self.metadata,
            Cf::Subkey => self.subkey,
            Cf::ZsetScore => self.zset_score,
            Cf::PubSub => self.pubsub,
        }
    }

    /// The store with other contents in one column family.
    pub open spec fn set_at(self, cf: Cf, m: Entries) -> StoreView {
        match cf {
            Cf::General => StoreView { general: m, ..self },
            Cf::Metadata => StoreView { metadata: m, ..self },
            Cf::Subkey => StoreView { subkey: m, ..self },
            Cf::ZsetScore => StoreView { zset_score: m, ..self },
            Cf::PubSub => StoreView { pubsub: m, ..self },
        }
    }

    /// The store with one key set.
    pub open spec fn put(self, cf: Cf, k: Seq<u8>, v: Seq<u8>) -> StoreView {
        self.set_at(cf, self.at(cf).insert(k, v))
    }

    /// The store with one key removed.
    pub open spec fn del(self, cf: Cf, k: Seq<u8>) -> StoreView {
        self.set_at(cf, self.at(cf).remove(k))
    }

    /// Every column family has finitely many entries, and their number fits
    /// in a machine word.
    pub open spec fn finite(self) -> bool {
        forall|cf: Cf|
            (#[trigger] self.at(cf)).dom().finite() && self.at(cf).dom().len() <= usize::MAX
    }
}

/// One operation of a batch.
pub enum OpView {
    Put { cf: Cf, key: Seq<u8>, value: Seq<u8> },
    Delete { cf: Cf, key: Seq<u8> },
}

/// One operation of a batch.
#[derive(Debug)]
pub enum BatchOp {
    Put { cf: Cf, key: Vec<u8>, value: Vec<u8> },
    Delete { cf: Cf, key: Vec<u8> },
}

impl View for BatchOp {
    type V = OpView;

    open spec fn view(&self) -> OpView {
        match self {
            BatchOp::Put { cf, key, value } => OpView::Put { cf: *cf, key: key@, value: value@ },
            BatchOp::Delete { cf, key } => OpView::Delete { cf: *cf, key: key@ },
        }
    }
}

/// The store after one operation.
pub open spec fn op_applied(s: StoreView, op: OpView) -> StoreView {
    match op {
        OpView::Put { cf, key, value } => s.put(cf, key, value),
        OpView::Delete { cf, key } => s.del(cf, key),
    }
}

/// The store after the operations of a batch, one after another.
pub open spec fn applied(s: StoreView, ops: Seq<OpView>) -> StoreView
    decreases ops.len(),
{
    if ops.len() == 0 {
        s
    } else {
        op_applied(applied(s, ops.drop_last()), ops.last())
    }
}

/// The store after a sequence of batches.
pub open spec fn replayed(s: StoreView, journal: Seq<Seq<OpView>>) -> StoreView
    decreases journal.len(),
{
    if journal.len() == 0 {
        s
    } else {
        applied(replayed(s, journal.drop_last()), journal.last())
    }
}

/// Operations that are written together.
#[derive(Debug)]
pub struct WriteBatch {
    pub ops: Vec<BatchOp>,
}

/// The operations of a list.
pub open spec fn ops_of(v: Seq<BatchOp>) -> Seq<OpView> {
    Seq::new(v.len(), |i: int| v[i]@)
}

impl View for WriteBatch {
    type V = Seq<OpView>;

    open spec fn view(&self) -> Seq<OpView> {
        ops_of(self.ops@)
    }
}

/// The batches of a journal.
pub open spec fn batches_of(v: Seq<WriteBatch>) -> Seq<Seq<OpView>> {
    Seq::new(v.len(), |i: int| v[i]@)
}

impl WriteBatch {
    /// A batch without operations.
    pub fn new() -> (b: WriteBatch)
        ensures
            b@ == Seq::<OpView>::empty(),
            forall|s: StoreView| #[trigger] applied(s, b@) == s,
    {
        let b = WriteBatch { ops: Vec::new() };
        proof {
            assert(b@ =~= Seq::<OpView>::empty());
        }
        b
    }

    /// Adds an operation that sets a key.
    pub fn put(&mut self, cf: Cf, key: &[u8], value: &[u8])
        ensures
            forall|s: StoreView| #[trigger]
                applied(s, final(self)@) == applied(s, old(self)@).put(cf, key@, value@),
    {
        let op = BatchOp::Put { cf, key: encoding::copy(key), value: encoding::copy(value) };
        self.ops.push(op);
        proof {
            assert(self@.drop_last() =~= old(self)@);
            assert(self@.last() == op@);
        }
    }

    /// Adds an operation that removes a key.
    pub fn delete(&mut self, cf: Cf, key: &[u8])
        ensures
            forall|s: StoreView| #[trigger]
                applied(s, final(self)@) == applied(s, old(self)@).del(cf, key@),
    {
        let op = BatchOp::Delete { cf, key: encoding::copy(key) };
        self.ops.push(op);
        proof {
            assert(self@.drop_last() =~= old(self)@);
            assert(self@.last() == op@);
        }
    }
}

impl DataType {
    /// The column family that holds a value of this type: a string lives in
    /// the metadata family, the elements of any other type in the subkey one.
    pub fn cf_name(&self) -> (name: &'static str)
        ensures
            name@ == (if *self == DataType::String {
                "metadata"@
            } else {
                "subkey"@
            }),
    {
        match self {
            DataType::String => CF_METADATA,
            _ => CF_SUBKEY,
        }
    }
}

/// The lock that keys with this hash share.
pub fn shard_index(hash: u64) -> (i: u64)
    ensures
        i == hash % KEY_LOCK_SHARDS,
        i < KEY_LOCK_SHARDS,
{
    hash % KEY_LOCK_SHARDS
}

/// The store and the journal of what was written to it.
pub struct StorageEngine {
    general: Table,
    metadata: Table,
    subkey: Table,
    zset_score: Table,
    pubsub: Table,
    journal: Vec<WriteBatch>,
}

impl View for StorageEngine {
    type V = StoreView;

    closed spec fn view(&self) -> StoreView {
        StoreView {
            general: self.general@,
            metadata: self.metadata@,
            subkey: self.subkey@,
            zset_score: self.zset_score@,
            pubsub: self.pubsub@,
        }
    }
}

impl StorageEngine {
    /// The batches written since the journal was last taken.
    pub closed spec fn pending(self) -> Seq<Seq<OpView>> {
        batches_of(self.journal@)
    }

    /// This store came from an earlier one through the batches that its
    /// journal has more.
    pub open spec fn follows(self, earlier: StorageEngine) -> bool {
        exists|more: Seq<Seq<OpView>>|
            self.pending() == earlier.pending() + more && self@ == #[trigger] replayed(
                earlier@,
                more,
            )
    }

    pub proof fn lemma_finite(self)
        ensures
            self@.finite(),
            self@.subkey.dom().len() <= usize::MAX,
    {
        self.general.lemma_finite();
        self.metadata.lemma_finite();
        self.subkey.lemma_finite();
        self.zset_score.lemma_finite();
        self.pubsub.lemma_finite();
    }

    /// A store follows from itself.
    pub proof fn lemma_follows_self(self)
        ensures
            self.follows(self),
    {
        let none = Seq::<Seq<OpView>>::empty();
        assert(self.pending() + none =~= self.pending());
        assert(replayed(self@, none) == self@);
    }

    /// A store follows from the one before a written batch.
    pub proof fn lemma_follows_write(self, earlier: StorageEngine, batch: Seq<OpView>)
        requires
            self.pending() == earlier.pending().push(batch),
            self@ == applied(earlier@, batch),
        ensures
            self.follows(earlier),
    {
        let more = seq![batch];
        assert(earlier.pending() + more =~= earlier.pending().push(batch));
        assert(more.drop_last() =~= Seq::<Seq<OpView>>::empty());
        assert(replayed(earlier@, more.drop_last()) == earlier@);
        assert(replayed(earlier@, more) == self@);
    }

    /// Following is transitive.
    pub proof fn lemma_follows_transitive(self, middle: StorageEngine, earlier: StorageEngine)
        requires
            self.follows(middle),
            middle.follows(earlier),
        ensures
            self.follows(earlier),
    {
        let a = choose|more: Seq<Seq<OpView>>|
            middle.pending() == earlier.pending() + more && middle@ == #[trigger] replayed(
                earlier@,
                more,
            );
        let b = choose|more: Seq<Seq<OpView>>|
            self.pending() == middle.pending() + more && self@ == #[trigger] replayed(
                middle@,
                more,
            );
        lemma_replayed_concat(earlier@, a, b);
        assert(earlier.pending() + a + b =~= earlier.pending() + (a + b));
        assert(replayed(earlier@, a + b) == self@);
    }

    /// An empty store.
    pub fn new() -> (e: StorageEngine)
        ensures
            e@ == StoreView::empty(),
            e.pending() == Seq::<Seq<OpView>>::empty(),
    {
        let e = StorageEngine {
            general: Table::new(),
            metadata: Table::new(),
            subkey: Table::new(),
            zset_score: Table::new(),
            pubsub: Table::new(),
            journal: Vec::new(),
        };
        proof {
            assert(e.pending() =~= Seq::<Seq<OpView>>::empty());
        }
        e
    }

    /// Takes the journal: replayed on the store as it was when the journal was
    /// last taken, it gives the present store.
    pub fn take_journal(&mut self) -> (j: Vec<WriteBatch>)
        ensures
            batches_of(j@) == old(self).pending(),
            final(self).pending() == Seq::<Seq<OpView>>::empty(),
            final(self)@ == old(self)@,
    {
        let mut j: Vec<WriteBatch> = Vec::new();
        std::mem::swap(&mut j, &mut self.journal);
        proof {
            assert(self.pending() =~= Seq::<Seq<OpView>>::empty());
        }
        j
    }

    /// The column family of a name.
    pub fn cf(&self, name: &str) -> (r: KvdbResult<Cf>)
        ensures
            match r {
                Ok(cf) => cf_named(name@) == Some(cf),
                Err(e) => cf_named(name@) is None && e@ == missing_cf(name@),
            },
    {
        self.cf_handle(name)
    }

    /// The column family of a name.
    pub fn cf_handle(&self, name: &str) -> (r: KvdbResult<Cf>)
        ensures
            match r {
                Ok(cf) => cf_named(name@) == Some(cf),
                Err(e) => cf_named(name@) is None && e@ == missing_cf(name@),
            },
    {
        if error::same_text(name, CF_DEFAULT) {
            Ok(Cf::General)
        } else if error::same_text(name, CF_METADATA) {
            Ok(Cf::Metadata)
        } else if error::same_text(name, CF_SUBKEY) {
            Ok(Cf::Subkey)
        } else if error::same_text(name, CF_ZSET_SCORE) {
            Ok(Cf::ZsetScore)
        } else if error::same_text(name, CF_PUBSUB) {
            Ok(Cf::PubSub)
        } else {
            let mut s = "missing column family: ".to_owned();
            s.append(name);
            Err(KvdbError::Command(s))
        }
    }

    fn table(&self, cf: Cf) -> (t: &Table)
        ensures
            t@ == self@.at(cf),
    {
        match cf {
            Cf::General => &self.general,
            Cf::Metadata => &self.metadata,
            Cf::Subkey => &self.subkey,
            Cf::ZsetScore => &self.zset_score,
            Cf::PubSub => &self.pubsub,
        }
    }

    /// The value of a key.
    pub fn get_in(&self, cf: Cf, key: &[u8]) -> (v: Option<Vec<u8>>)
        ensures
            table::opt_bytes(v) == table::lookup(self@.at(cf), key@),
    {
        self.table(cf).get(key)
    }

    /// Whether a key is there.
    pub fn contains_in(&self, cf: Cf, key: &[u8]) -> (r: bool)
        ensures
            r == self@.at(cf).contains_key(key@),
    {
        self.table(cf).contains(key)
    }

    /// A page of a forward scan.
    pub fn page_in(&self, cf: Cf, prefix: &[u8], start_key: &[u8], limit: usize) -> (r: Page)
        ensures
            table::page_view(r) == table::forward_page(
                self@.at(cf),
                prefix@,
                start_key@,
                limit as nat,
            ),
    {
        self.table(cf).page(prefix, start_key, limit)
    }

    /// A page of a backward scan.
    pub fn page_reverse_in(&self, cf: Cf, prefix: &[u8], start_key: &[u8], limit: usize) -> (r:
        Page)
        ensures
            table::page_view(r) == table::backward_page(
                self@.at(cf),
                prefix@,
                start_key@,
                limit as nat,
            ),
    {
        self.table(cf).page_reverse(prefix, start_key, limit)
    }

    /// The next page of a forward walk over all keys with a prefix, `pos` of
    /// which are done.
    pub(crate) fn walk(
        &self,
        cf: Cf,
        prefix: &[u8],
        start_key: &[u8],
        limit: usize,
        Ghost(pos): Ghost<int>,
    ) -> (r: Page)
        requires
            prefix@.len() > 0,
            limit > 0,
            0 <= pos <= table::keys_with(self@.at(cf), prefix@).len(),
            start_key@ == table::forward_mark(self@.at(cf), prefix@, pos),
        ensures
            ({
                let m = self@.at(cf);
                let all = table::keys_with(m, prefix@);
                let n = r.0@.len() as int;
                &&& order::lists(all, table::with_prefix(m, prefix@))
                &&& pos + n <= all.len() <= usize::MAX
                &&& n == table::page_len((all.len() - pos) as nat, limit as nat)
                &&& table::pairs_of(r.0@) == table::entries_at(m, all.subrange(pos, pos + n))
                &&& r.1 is Some ==> pos + n < all.len() && n > 0 && r.1->0@
                    == table::forward_mark(m, prefix@, pos + n)
                &&& r.1 is None ==> pos + n == all.len()
            }),
    {
        proof {
            self.lemma_finite();
            assert(self@.at(cf).dom().finite());
            table::lemma_walk(self@.at(cf), prefix@, pos, limit as nat);
            table::lemma_runs_listed(self@.at(cf), prefix@, start_key@);
            order::lemma_lists_len(
                table::keys_with(self@.at(cf), prefix@),
                table::with_prefix(self@.at(cf), prefix@),
            );
            vstd::set_lib::lemma_len_subset(
                table::with_prefix(self@.at(cf), prefix@),
                self@.at(cf).dom(),
            );
        }
        let r = self.page_in(cf, prefix, start_key, limit);
        proof {
            let m = self@.at(cf);
            let all = table::keys_with(m, prefix@);
            let n = table::page_len((all.len() - pos) as nat, limit as nat);
            assert(all.skip(pos).take(n as int) =~= all.subrange(pos, pos + n));
            assert(table::pairs_of(r.0@).len() == r.0@.len());
        }
        r
    }

    /// The next page of a backward walk over all keys with a prefix, `pos` of
    /// which are done.
    pub(crate) fn walk_back(
        &self,
        cf: Cf,
        prefix: &[u8],
        start_key: &[u8],
        limit: usize,
        Ghost(pos): Ghost<int>,
    ) -> (r: Page)
        requires
            prefix@.len() > 0,
            limit > 0,
            0 <= pos <= table::keys_with(self@.at(cf), prefix@).len(),
            start_key@ == table::backward_mark(self@.at(cf), prefix@, pos),
        ensures
            ({
                let m = self@.at(cf);
                let all = table::keys_with(m, prefix@).reverse();
                let n = r.0@.len() as int;
                &&& order::lists(table::keys_with(m, prefix@), table::with_prefix(m, prefix@))
                &&& pos + n <= all.len() <= usize::MAX
                &&& n == table::page_len((all.len() - pos) as nat, limit as nat)
                &&& table::pairs_of(r.0@) == table::entries_at(m, all.subrange(pos, pos + n))
                &&& r.1 is Some ==> pos + n < all.len() && n > 0 && r.1->0@
                    == table::backward_mark(m, prefix@, pos + n)
                &&& r.1 is None ==> pos + n == all.len()
            }),
    {
        proof {
            self.lemma_finite();
            assert(self@.at(cf).dom().finite());
            table::lemma_walk(self@.at(cf), prefix@, pos, limit as nat);
            table::lemma_runs_listed(self@.at(cf), prefix@, start_key@);
            order::lemma_lists_len(
                table::keys_with(self@.at(cf), prefix@),
                table::with_prefix(self@.at(cf), prefix@),
            );
            vstd::set_lib::lemma_len_subset(
                table::with_prefix(self@.at(cf), prefix@),
                self@.at(cf).dom(),
            );
        }
        let r = self.page_reverse_in(cf, prefix, start_key, limit);
        proof {
            let m = self@.at(cf);
            let all = table::keys_with(m, prefix@).reverse();
            let n = table::page_len((all.len() - pos) as nat, limit as nat);
            assert(all.skip(pos).take(n as int) =~= all.subrange(pos, pos + n));
            assert(table::pairs_of(r.0@).len() == r.0@.len());
        }
        r
    }

    /// All entries with a prefix.
    pub fn scan_in(&self, cf: Cf, prefix: &[u8]) -> (r: Vec<(Vec<u8>, Vec<u8>)>)
        ensures
            table::pairs_of(r@) == table::entries_at(
                self@.at(cf),
                table::keys_with(self@.at(cf), prefix@),
            ),
    {
        let none: Vec<u8> = Vec::new();
        let total: usize = self.table(cf).len();
        let (items, _next) = self.page_in(cf, prefix, &none, usize::MAX);
        proof {
            let m = self@.at(cf);
            self.lemma_finite();
            assert(m.dom().finite());
            let ks = table::keys_with(m, prefix@);
            table::lemma_runs_listed(m, prefix@, none@);
            order::lemma_lists_len(ks, table::with_prefix(m, prefix@));
            vstd::set_lib::lemma_len_subset(table::with_prefix(m, prefix@), m.dom());
            assert(ks.len() <= total);
            assert(ks.take(ks.len() as int) =~= ks);
        }
        items
    }

    fn apply_op(&mut self, op: &BatchOp)
        ensures
            final(self)@ == op_applied(old(self)@, op@),
            final(self).pending() == old(self).pending(),
    {
        match op {
            BatchOp::Put { cf, key, value } => match cf {
                Cf::General => self.general.put(key, value),
                Cf::Metadata => self.metadata.put(key, value),
                Cf::Subkey => self.subkey.put(key, value),
                Cf::ZsetScore => self.zset_score.put(key, value),
                Cf::PubSub => self.pubsub.put(key, value),
            },
            BatchOp::Delete { cf, key } => match cf {
                Cf::General => self.general.delete(key),
                Cf::Metadata => self.metadata.delete(key),
                Cf::Subkey => self.subkey.delete(key),
                Cf::ZsetScore => self.zset_score.delete(key),
                Cf::PubSub => self.pubsub.delete(key),
            },
        }
    }

    /// Writes a batch: all of its operations, in order.
    pub fn write(&mut self, batch: WriteBatch)
        ensures
            final(self)@ == applied(old(self)@, batch@),
            final(self).pending() == old(self).pending().push(batch@),
            final(self).follows(*old(self)),
    {
        let mut i: usize = 0;
        let ghost start = self@;
        let ghost ops = batch@;
        let ghost journal = self.pending();
        proof {
            assert(ops.take(0) =~= Seq::<OpView>::empty());
        }
        while i < batch.ops.len()
            invariant
                i <= batch.ops@.len(),
                ops == batch@,
                self@ == applied(start, ops.take(i as int)),
                self.pending() == journal,
            decreases batch.ops.len() - i,
        {
            self.apply_op(&batch.ops[i]);
            proof {
                assert(ops.take(i + 1).drop_last() =~= ops.take(i as int));
                assert(ops.take(i + 1).last() == batch.ops@[i as int]@);
            }
            i = i + 1;
        }
        proof {
            assert(ops.take(i as int) =~= ops);
        }
        self.journal.push(batch);
        proof {
            assert(self.pending() =~= journal.push(ops));
            self.lemma_follows_write(*old(self), ops);
        }
    }

    /// Sets one key.
    pub fn put_in(&mut self, cf: Cf, key: &[u8], value: &[u8])
        ensures
            final(self)@ == old(self)@.put(cf, key@, value@),
            final(self).follows(*old(self)),
    {
        let mut batch = WriteBatch::new();
        batch.put(cf, key, value);
        self.write(batch);
    }

    /// Removes one key.
    pub fn delete_in(&mut self, cf: Cf, key: &[u8])
        ensures
            final(self)@ == old(self)@.del(cf, key@),
            final(self).follows(*old(self)),
    {
        let mut batch = WriteBatch::new();
        batch.delete(cf, key);
        self.write(batch);
    }

    /// Sets a key to what the durable copy holds, without a journal entry.
    pub fn restore(&mut self, cf: Cf, key: &[u8], value: &[u8])
        ensures
            final(self)@ == old(self)@.put(cf, key@, value@),
            final(self).pending() == old(self).pending(),
    {
        let op = BatchOp::Put { cf, key: encoding::copy(key), value: encoding::copy(value) };
        self.apply_op(&op);
    }

    /// Removes all keys with a prefix, in batches of `batch_size`, or one by one
    /// for 0.
    pub fn delete_prefix_in(&mut self, cf: Cf, prefix: &[u8], batch_size: usize)
        ensures
            final(self)@ == old(self)@.set_at(cf, without_prefix(old(self)@.at(cf), prefix@)),
            final(self).follows(*old(self)),
    {
        let ghost first = self@;
        let ghost m0 = self@.at(cf);
        let ghost all = table::keys_with(m0, prefix@);
        let ghost mut pos: int = 0;
        let mut start_key: Vec<u8> = Vec::new();
        let size: usize = if batch_size == 0 {
            1
        } else {
            batch_size
        };
        proof {
            self.lemma_finite();
            self.lemma_follows_self();
            table::lemma_runs_listed(m0, prefix@, start_key@);
            assert(all.skip(0) =~= all);
            assert(without_first(m0, all, 0) =~= m0);
            assert(first.set_at(cf, m0) =~= first);
        }
        loop
            invariant_except_break
                0 <= pos <= all.len(),
                order::ordered(table::run_after(self@.at(cf), prefix@, start_key@)) == all.skip(
                    pos,
                ),
                self@ == first.set_at(cf, without_first(m0, all, pos)),
            invariant
                size > 0,
                m0 == first.at(cf),
                m0.dom().finite(),
                first == old(self)@,
                all == table::keys_with(m0, prefix@),
                order::lists(all, table::with_prefix(m0, prefix@)),
                self.follows(*old(self)),
            ensures
                self@ == first.set_at(cf, without_prefix(m0, prefix@)),
            decreases all.len() - pos,
        {
            let (items, next) = self.page_in(cf, prefix, &start_key, size);
            let ghost m = self@.at(cf);
            let ghost n = table::page_len((all.len() - pos) as nat, size as nat);
            proof {
                assert(table::pairs_of(items@) == table::entries_at(m, all.skip(pos).take(n as int)));
                assert(items@.len() == n);
            }
            if items.len() == 0 {
                proof {
                    assert(pos == all.len());
                    lemma_without_all(m0, prefix@);
                }
                break;
            }
            let ghost before = *self;
            self.delete_keys(cf, &items);
            proof {
                let done = pos + n;
                self.lemma_follows_transitive(before, *old(self));
                assert forall|i: int| 0 <= i < n implies #[trigger] items@[i].0@ == all[pos + i] by {
                    assert(table::pairs_of(items@)[i].0 == all.skip(pos).take(n as int)[i]);
                }
                assert(without_pairs(without_first(m0, all, pos), items@) =~= without_first(
                    m0,
                    all,
                    done,
                )) by {
                    assert forall|k: Seq<u8>| #![auto]
                        without_pairs(without_first(m0, all, pos), items@).contains_key(k)
                            <==> without_first(m0, all, done).contains_key(k) by {
                        if all.take(done).contains(k) && !all.take(pos).contains(k) {
                            let i = choose|i: int|
                                0 <= i < all.take(done).len() && all.take(done)[i] == k;
                            if i < pos {
                                assert(all.take(pos)[i] == k);
                            }
                            assert(items@[i - pos].0@ == k);
                        }
                        if all.take(pos).contains(k) {
                            let i = choose|i: int|
                                0 <= i < all.take(pos).len() && all.take(pos)[i] == k;
                            assert(all.take(done)[i] == k);
                        }
                        if exists|i: int| 0 <= i < items@.len() && #[trigger] items@[i].0@ == k {
                            let i = choose|i: int|
                                0 <= i < items@.len() && #[trigger] items@[i].0@ == k;
                            assert(all.take(done)[pos + i] == k);
                        }
                    }
                }
                assert(self@ =~= first.set_at(cf, without_first(m0, all, done)));
            }
            match next {
                Some(k) => {
                    proof {
                        assert(k@ == all.skip(pos)[n - 1]);
                        pos = pos + n;
                        lemma_rest_after(m0, prefix@, pos, k@);
                        assert(self@.at(cf) =~= without_first(m0, all, pos));
                    }
                    start_key = k;
                },
                None => {
                    proof {
                        assert(pos + n == all.len());
                        lemma_without_all(m0, prefix@);
                    }
                    break;
                },
            }
        }
    }

    fn delete_keys(&mut self, cf: Cf, items: &Vec<(Vec<u8>, Vec<u8>)>)
        ensures
            final(self)@ == old(self)@.set_at(cf, without_pairs(old(self)@.at(cf), items@)),
            final(self).follows(*old(self)),
    {
        let mut batch = WriteBatch::new();
        let ghost s = self@;
        let mut i: usize = 0;
        proof {
            assert(without_pairs(s.at(cf), items@.take(0)) =~= s.at(cf));
            assert(s.set_at(cf, s.at(cf)) =~= s);
        }
        while i < items.len()
            invariant
                i <= items@.len(),
                s == self@,
                *self == *old(self),
                applied(s, batch@) == s.set_at(
                    cf,
                    without_pairs(s.at(cf), items@.take(i as int)),
                ),
            decreases items.len() - i,
        {
            batch.delete(cf, &items[i].0);
            proof {
                let a = items@.take(i as int);
                let b = items@.take(i + 1);
                assert(without_pairs(s.at(cf), b) =~= without_pairs(s.at(cf), a).remove(
                    items@[i as int].0@,
                )) by {
                    assert forall|k: Seq<u8>| #![auto]
                        without_pairs(s.at(cf), b).contains_key(k) <==> without_pairs(
                            s.at(cf),
                            a,
                        ).remove(items@[i as int].0@).contains_key(k) by {
                        if exists|j: int| 0 <= j < b.len() && #[trigger] b[j].0@ == k {
                            let j = choose|j: int| 0 <= j < b.len() && #[trigger] b[j].0@ == k;
                            if j < i {
                                assert(a[j].0@ == k);
                            }
                        }
                        if exists|j: int| 0 <= j < a.len() && #[trigger] a[j].0@ == k {
                            let j = choose|j: int| 0 <= j < a.len() && #[trigger] a[j].0@ == k;
                            assert(b[j].0@ == k);
                        }
                        if k == items@[i as int].0@ {
                            assert(b[i as int].0@ == k);
                        }
                    }
                }
                assert(applied(s, batch@) =~= s.set_at(cf, without_pairs(s.at(cf), b)));
            }
            i = i + 1;
        }
        proof {
            assert(items@.take(i as int) =~= items@);
        }
        self.write(batch);
    }

    /// The number of keys with a prefix.
    pub fn count_prefix_in(&self, cf: Cf, prefix: &[u8]) -> (n: u64)
        ensures
            n == table::keys_with(self@.at(cf), prefix@).len(),
    {
        let items = self.scan_in(cf, prefix);
        proof {
            assert(table::pairs_of(items@).len() == items@.len());
        }
        items.len() as u64
    }

    /// The value of a key in the named column family.
    pub fn get(&self, cf: &str, key: &[u8]) -> (r: KvdbResult<Option<Vec<u8>>>)
        ensures
            match r {
                Ok(v) => cf_named(cf@) is Some && table::opt_bytes(v) == table::lookup(
                    self@.at(cf_named(cf@)->0),
                    key@,
                ),
                Err(e) => cf_named(cf@) is None && e@ == missing_cf(cf@),
            },
    {
        match self.cf(cf) {
            Ok(f) => Ok(self.get_in(f, key)),
            Err(e) => Err(e),
        }
    }

    /// Sets a key in the named column family.
    pub fn put(&mut self, cf: &str, key: &[u8], value: &[u8]) -> (r: KvdbResult<()>)
        ensures
            match r {
                Ok(_) => cf_named(cf@) is Some && final(self)@ == old(self)@.put(
                    cf_named(cf@)->0,
                    key@,
                    value@,
                ) && final(self).follows(*old(self)),
                Err(e) => cf_named(cf@) is None && e@ == missing_cf(cf@) && *final(self) == *old(
                    self,
                ),
            },
    {
        match self.cf(cf) {
            Ok(f) => {
                self.put_in(f, key, value);
                Ok(())
            },
            Err(e) => Err(e),
        }
    }

    /// Removes a key in the named column family.
    pub fn delete(&mut self, cf: &str, key: &[u8]) -> (r: KvdbResult<()>)
        ensures
            match r {
                Ok(_) => cf_named(cf@) is Some && final(self)@ == old(self)@.del(
                    cf_named(cf@)->0,
                    key@,
                ) && final(self).follows(*old(self)),
                Err(e) => cf_named(cf@) is None && e@ == missing_cf(cf@) && *final(self) == *old(
                    self,
                ),
            },
    {
        match self.cf(cf) {
            Ok(f) => {
                self.delete_in(f, key);
                Ok(())
            },
            Err(e) => Err(e),
        }
    }

    /// Adds to a batch that a key of the named column family is set.
    pub fn batch_put(&self, batch: &mut WriteBatch, cf: &str, key: &[u8], value: &[u8]) -> (r:
        KvdbResult<()>)
        ensures
            match r {
                Ok(_) => cf_named(cf@) is Some && (forall|s: StoreView| #[trigger]
                    applied(s, final(batch)@) == applied(s, old(batch)@).put(
                        cf_named(cf@)->0,
                        key@,
                        value@,
                    )),
                Err(e) => cf_named(cf@) is None && e@ == missing_cf(cf@) && *final(batch) == *old(
                    batch,
                ),
            },
    {
        match self.cf(cf) {
            Ok(f) => {
                batch.put(f, key, value);
                Ok(())
            },
            Err(e) => Err(e),
        }
    }

    /// Adds to a batch that a key of the named column family is removed.
    pub fn batch_delete(&self, batch: &mut WriteBatch, cf: &str, key: &[u8]) -> (r: KvdbResult<()>)
        ensures
            match r {
                Ok(_) => cf_named(cf@) is Some && (forall|s: StoreView| #[trigger]
                    applied(s, final(batch)@) == applied(s, old(batch)@).del(
                        cf_named(cf@)->0,
                        key@,
                    )),
                Err(e) => cf_named(cf@) is None && e@ == missing_cf(cf@) && *final(batch) == *old(
                    batch,
                ),
            },
    {
        match self.cf(cf) {
            Ok(f) => {
                batch.delete(f, key);
                Ok(())
            },
            Err(e) => Err(e),
        }
    }

    /// All entries of the named column family with a prefix, in order.
    pub fn prefix_scan(&self, cf: &str, prefix: &[u8]) -> (r: KvdbResult<
        Vec<(Vec<u8>, Vec<u8>)>,
    >)
        ensures
            match r {
                Ok(items) => cf_named(cf@) is Some && table::pairs_of(items@) == ({
                    let m = self@.at(cf_named(cf@)->0);
                    table::entries_at(m, table::keys_with(m, prefix@))
                }),
                Err(e) => cf_named(cf@) is None && e@ == missing_cf(cf@),
            },
    {
        match self.cf(cf) {
            Ok(f) => Ok(self.scan_in(f, prefix)),
            Err(e) => Err(e),
        }
    }

    /// A page of the named column family: at most `limit` entries with the
    /// prefix behind `start_key`, and the key to continue from.
    pub fn prefix_scan_page(&self, cf: &str, prefix: &[u8], start_key: &[u8], limit: usize) -> (r:
        KvdbResult<Page>)
        ensures
            match r {
                Ok(p) => cf_named(cf@) is Some && table::page_view(p) == table::forward_page(
                    self@.at(cf_named(cf@)->0),
                    prefix@,
                    start_key@,
                    limit as nat,
                ),
                Err(e) => cf_named(cf@) is None && e@ == missing_cf(cf@),
            },
    {
        match self.cf(cf) {
            Ok(f) => Ok(self.page_in(f, prefix, start_key, limit)),
            Err(e) => Err(e),
        }
    }

    /// A page of the named column family from the greatest key down.
    pub fn prefix_scan_page_reverse(
        &self,
        cf: &str,
        prefix: &[u8],
        start_key: &[u8],
        limit: usize,
    ) -> (r: KvdbResult<Page>)
        ensures
            match r {
                Ok(p) => cf_named(cf@) is Some && table::page_view(p) == table::backward_page(
                    self@.at(cf_named(cf@)->0),
                    prefix@,
                    start_key@,
                    limit as nat,
                ),
                Err(e) => cf_named(cf@) is None && e@ == missing_cf(cf@),
            },
    {
        match self.cf(cf) {
            Ok(f) => Ok(self.page_reverse_in(f, prefix, start_key, limit)),
            Err(e) => Err(e),
        }
    }

    /// All entries of the named column family, in order.
    pub fn full_scan(&self, cf: &str) -> (r: KvdbResult<Vec<(Vec<u8>, Vec<u8>)>>)
        ensures
            match r {
                Ok(items) => cf_named(cf@) is Some && table::pairs_of(items@) == ({
                    let m = self@.at(cf_named(cf@)->0);
                    table::entries_at(m, order::ordered(m.dom()))
                }),
                Err(e) => cf_named(cf@) is None && e@ == missing_cf(cf@),
            },
    {
        let none: Vec<u8> = Vec::new();
        match self.cf(cf) {
            Ok(f) => {
                proof {
                    let m = self@.at(f);
                    assert(table::with_prefix(m, none@) =~= m.dom()) by {
                        assert forall|k: Seq<u8>| m.contains_key(k) implies order::has_prefix(
                            k,
                            none@,
                        ) by {
                            assert(k.subrange(0, 0) =~= none@);
                        }
                    }
                }
                Ok(self.scan_in(f, &none))
            },
            Err(e) => Err(e),
        }
    }

    /// Removes all keys of the named column family with a prefix.
    pub fn delete_prefix(&mut self, cf: &str, prefix: &[u8], batch_size: usize) -> (r: KvdbResult<
        (),
    >)
        ensures
            match r {
                Ok(_) => cf_named(cf@) is Some && final(self)@ == old(self)@.set_at(
                    cf_named(cf@)->0,
                    without_prefix(old(self)@.at(cf_named(cf@)->0), prefix@),
                ) && final(self).follows(*old(self)),
                Err(e) => cf_named(cf@) is None && e@ == missing_cf(cf@) && *final(self) == *old(
                    self,
                ),
            },
    {
        match self.cf(cf) {
            Ok(f) => {
                self.delete_prefix_in(f, prefix, batch_size);
                Ok(())
            },
            Err(e) => Err(e),
        }
    }

    /// The number of keys of the named column family with a prefix.
    pub fn count_prefix(&self, cf: &str, prefix: &[u8]) -> (r: KvdbResult<u64>)
        ensures
            match r {
                Ok(n) => cf_named(cf@) is Some && n == table::keys_with(
                    self@.at(cf_named(cf@)->0),
                    prefix@,
                ).len(),
                Err(e) => cf_named(cf@) is None && e@ == missing_cf(cf@),
            },
    {
        match self.cf(cf) {
            Ok(f) => Ok(self.count_prefix_in(f, prefix)),
            Err(e) => Err(e),
        }
    }
}

/// The entries whose keys lack the prefix.
pub open spec fn without_prefix(m: Entries, prefix: Seq<u8>) -> Entries {
    Map::new(|k: Seq<u8>| m.contains_key(k) && !order::has_prefix(k, prefix), |k: Seq<u8>| m[k])
}

spec fn without_first(m: Entries, all: Seq<Seq<u8>>, n: int) -> Entries {
    Map::new(|k: Seq<u8>| m.contains_key(k) && !all.take(n).contains(k), |k: Seq<u8>| m[k])
}

spec fn without_pairs(m: Entries, items: Seq<(Vec<u8>, Vec<u8>)>) -> Entries {
    Map::new(
        |k: Seq<u8>|
            m.contains_key(k) && !(exists|i: int|
                0 <= i < items.len() && #[trigger] items[i].0@ == k),
        |k: Seq<u8>| m[k],
    )
}

proof fn lemma_without_all(m: Entries, prefix: Seq<u8>)
    requires
        order::lists(table::keys_with(m, prefix), table::with_prefix(m, prefix)),
    ensures
        without_first(m, table::keys_with(m, prefix), table::keys_with(m, prefix).len() as int)
            == without_prefix(m, prefix),
{
    let all = table::keys_with(m, prefix);
    assert(all.take(all.len() as int) =~= all);
    assert forall|k: Seq<u8>| m.contains_key(k) implies (all.contains(k) <==> order::has_prefix(
        k,
        prefix,
    )) by {
        if order::has_prefix(k, prefix) {
            assert(table::with_prefix(m, prefix).contains(k));
        }
        if all.contains(k) {
            let i = choose|i: int| 0 <= i < all.len() && all[i] == k;
            assert(table::with_prefix(m, prefix).contains(all[i]));
        }
    }
    assert(without_first(m, all, all.len() as int) =~= without_prefix(m, prefix));
}

proof fn lemma_rest_after(m: Entries, prefix: Seq<u8>, n: int, start: Seq<u8>)
    requires
        order::lists(table::keys_with(m, prefix), table::with_prefix(m, prefix)),
        0 < n <= table::keys_with(m, prefix).len(),
        start == table::keys_with(m, prefix)[n - 1],
    ensures
        order::ordered(
            table::run_after(without_first(m, table::keys_with(m, prefix), n), prefix, start),
        ) == table::keys_with(m, prefix).skip(n),
{
    let all = table::keys_with(m, prefix);
    let w = without_first(m, all, n);
    let run = table::run_after(w, prefix, start);
    let t = all.skip(n);
    assert(table::with_prefix(m, prefix).contains(start));
    assert forall|i: int| 0 <= i < t.len() implies run.contains(#[trigger] t[i]) by {
        let k = all[n + i];
        assert(t[i] == k);
        assert(table::with_prefix(m, prefix).contains(k));
        if all.take(n).contains(k) {
            let j = choose|j: int| 0 <= j < all.take(n).len() && all.take(n)[j] == k;
            order::lemma_ascending_injective(all, j, n + i);
        }
        assert(order::lt(start, k));
        assert forall|j: Seq<u8>| #[trigger]
            w.contains_key(j) && order::lt(start, j) && order::lt(j, k) implies order::has_prefix(
            j,
            prefix,
        ) by {
            order::lemma_prefix_contiguous(prefix, start, j, k);
        }
    }
    assert forall|k: Seq<u8>| #[trigger] run.contains(k) implies t.contains(k) by {
        assert(table::with_prefix(m, prefix).contains(k));
        let i = choose|i: int| 0 <= i < all.len() && all[i] == k;
        if i < n {
            assert(all.take(n)[i] == k);
        }
        assert(t[i - n] == k);
    }
    assert(order::ascending(t)) by {
        assert forall|i: int, j: int| 0 <= i < j < t.len() implies order::lt(
            #[trigger] t[i],
            #[trigger] t[j],
        ) by {
            assert(order::lt(all[n + i], all[n + j]));
        }
    }
    order::lemma_ordered(t, run);
}

proof fn lemma_replayed_concat(s: StoreView, a: Seq<Seq<OpView>>, b: Seq<Seq<OpView>>)
    ensures
        replayed(s, a + b) == replayed(replayed(s, a), b),
    decreases b.len(),
{
    if b.len() == 0 {
        assert(a + b =~= a);
    } else {
        assert((a + b).drop_last() =~= a + b.drop_last());
        assert((a + b).last() == b.last());
        lemma_replayed_concat(s, a, b.drop_last());
    }
}

} // verus!

//! The configuration store: saved adapter records keyed by adapter identity.
//!
//! The store maps each adapter `guid` to the ordered list of configurations
//! saved under it. No two records under one `guid` are equal by the record
//! equality policy; an insertion that would duplicate one is a no-op. The
//! flattened view — buckets in insertion order, records in insertion order
//! within each bucket — backs positional removal and display listing, and is
//! deterministic for a given store state.

use crate::adapter::{nic_eq, Nic, NicView};
use vstd::prelude::*;
use vstd::string::StrSliceExecFns;

verus! {

/// The abstract value of one bucket: a guid and the records saved under it,
/// in insertion order.
pub struct BucketView {
    /// The adapter identifier the records are saved under.
    pub guid: Seq<char>,
    /// The saved records, oldest first.
    pub items: Seq<Nic>,
}

struct Bucket {
    guid: String,
    items: Vec<Nic>,
}

impl View for Bucket {
    type V = BucketView;

    closed spec fn view(&self) -> BucketView {
        BucketView { guid: self.guid@, items: self.items@ }
    }
}

/// The saved configurations, as buckets in guid insertion order.
pub struct IpConfigList {
    inner: Vec<Bucket>,
}

impl View for IpConfigList {
    type V = Seq<BucketView>;

    closed spec fn view(&self) -> Seq<BucketView> {
        self.inner@.map_values(|b: Bucket| b@)
    }
}

/// True when some record in `items` equals `n` by the record equality
/// policy.
pub open spec fn bucket_contains_eq(items: Seq<Nic>, n: NicView) -> bool {
    exists|p: int| 0 <= p < items.len() && nic_eq((#[trigger] items[p])@, n)
}

/// True when the store holds a record equal to `n` by the record equality
/// policy.
pub open spec fn store_contains_eq(bs: Seq<BucketView>, n: NicView) -> bool {
    exists|i: int|
        0 <= i < bs.len() && (#[trigger] bs[i]).guid == n.guid && bucket_contains_eq(
            bs[i].items,
            n,
        )
}

/// The store invariant: bucket guids are unique, no bucket is empty, every
/// record sits under its own guid, and no two records in one bucket are
/// equal.
pub open spec fn store_wf(bs: Seq<BucketView>) -> bool {
    &&& forall|i: int, j: int|
        0 <= i < j < bs.len() ==> (#[trigger] bs[i]).guid != (#[trigger] bs[j]).guid
    &&& forall|i: int| 0 <= i < bs.len() ==> (#[trigger] bs[i]).items.len() > 0
    &&& forall|i: int, p: int|
        0 <= i < bs.len() && 0 <= p < bs[i].items.len() ==> (#[trigger] bs[i].items[p])@.guid
            == bs[i].guid
    &&& forall|i: int, p: int, q: int|
        0 <= i < bs.len() && 0 <= p < q < bs[i].items.len() ==> !nic_eq(
            (#[trigger] bs[i].items[p])@,
            (#[trigger] bs[i].items[q])@,
        )
}

/// The flattened view: bucket contents concatenated in bucket order.
pub open spec fn spec_flat(bs: Seq<BucketView>) -> Seq<Nic>
    decreases bs.len(),
{
    if bs.len() == 0 {
        Seq::empty()
    } else {
        bs[0].items + spec_flat(bs.skip(1))
    }
}

/// Flattening distributes over concatenation of bucket lists.
pub proof fn lemma_flat_concat(a: Seq<BucketView>, b: Seq<BucketView>)
    ensures
        spec_flat(a + b) == spec_flat(a) + spec_flat(b),
    decreases a.len(),
{
    if a.len() == 0 {
        assert(a + b =~= b);
        assert(spec_flat(a) + spec_flat(b) =~= spec_flat(b));
    } else {
        assert((a + b).skip(1) =~= a.skip(1) + b);
        lemma_flat_concat(a.skip(1), b);
        assert((a + b)[0] == a[0]);
        assert(spec_flat(a + b) =~= spec_flat(a) + spec_flat(b));
    }
}

/// A bucket list splits around any position, and its flattened view with
/// it.
pub proof fn lemma_flat_decompose(bs: Seq<BucketView>, i: int)
    requires
        0 <= i < bs.len(),
    ensures
        spec_flat(bs) == spec_flat(bs.take(i)) + bs[i].items + spec_flat(bs.skip(i + 1)),
{
    assert(bs =~= bs.take(i) + seq![bs[i]] + bs.skip(i + 1));
    lemma_flat_concat(bs.take(i) + seq![bs[i]], bs.skip(i + 1));
    lemma_flat_concat(bs.take(i), seq![bs[i]]);
    assert(spec_flat(Seq::<BucketView>::empty()) =~= Seq::<Nic>::empty());
    assert(seq![bs[i]].skip(1) =~= Seq::<BucketView>::empty());
    assert(seq![bs[i]][0] == bs[i]);
    assert(spec_flat(seq![bs[i]]) == bs[i].items + spec_flat(seq![bs[i]].skip(1)));
    assert(spec_flat(seq![bs[i]]) =~= bs[i].items);
}

/// Flattening one more bucket appends that bucket's records.
pub proof fn lemma_flat_snoc(bs: Seq<BucketView>, i: int)
    requires
        0 <= i < bs.len(),
    ensures
        spec_flat(bs.take(i + 1)) == spec_flat(bs.take(i)) + bs[i].items,
{
    let t = bs.take(i + 1);
    lemma_flat_decompose(t, i);
    assert(t.take(i) =~= bs.take(i));
    assert(t[i] == bs[i]);
    assert(t.skip(i + 1) =~= Seq::<BucketView>::empty());
    assert(spec_flat(Seq::<BucketView>::empty()) =~= Seq::<Nic>::empty());
    assert(spec_flat(t) =~= spec_flat(bs.take(i)) + bs[i].items);
}

/// What inserting a record yields: the new bucket list and whether the
/// record was appended. A record equal to a saved one under its guid leaves
/// the store unchanged; otherwise it is appended to its guid's bucket, or
/// to a new bucket at the end.
pub open spec fn spec_store_insert(bs: Seq<BucketView>, nic: Nic) -> (Seq<BucketView>, bool)
    decreases bs.len(),
{
    if bs.len() == 0 {
        (seq![BucketView { guid: nic@.guid, items: seq![nic] }], true)
    } else if bs[0].guid == nic@.guid {
        if bucket_contains_eq(bs[0].items, nic@) {
            (bs, false)
        } else {
            (bs.update(0, BucketView { guid: bs[0].guid, items: bs[0].items.push(nic) }), true)
        }
    } else {
        let rest = spec_store_insert(bs.skip(1), nic);
        (seq![bs[0]] + rest.0, rest.1)
    }
}

/// What removing the first record equal to `n` from a bucket yields.
pub open spec fn spec_bucket_remove_first(items: Seq<Nic>, n: NicView) -> (Seq<Nic>, Option<Nic>)
    decreases items.len(),
{
    if items.len() == 0 {
        (items, None)
    } else if nic_eq(items[0]@, n) {
        (items.skip(1), Some(items[0]))
    } else {
        let rest = spec_bucket_remove_first(items.skip(1), n);
        (seq![items[0]] + rest.0, rest.1)
    }
}

/// What removing a record equal to `n` yields: the record leaves its guid's
/// bucket, and a bucket left empty leaves the store.
pub open spec fn spec_store_remove(bs: Seq<BucketView>, n: NicView) -> (Seq<BucketView>, Option<
    Nic,
>)
    decreases bs.len(),
{
    if bs.len() == 0 {
        (bs, None)
    } else if bs[0].guid == n.guid {
        let inner = spec_bucket_remove_first(bs[0].items, n);
        match inner.1 {
            None => (bs, None),
            Some(m) => if inner.0.len() == 0 {
                (bs.skip(1), Some(m))
            } else {
                (bs.update(0, BucketView { guid: bs[0].guid, items: inner.0 }), Some(m))
            },
        }
    } else {
        let rest = spec_store_remove(bs.skip(1), n);
        (seq![bs[0]] + rest.0, rest.1)
    }
}

/// Compares two strings by content.
fn str_eq(a: &str, b: &str) -> (r: bool)
    ensures
        r == (a@ == b@),
{
    let na = a.unicode_len();
    let nb = b.unicode_len();
    if na != nb {
        return false;
    }
    let mut i: usize = 0;
    while i < na
        invariant
            i <= na,
            na == a@.len() == b@.len(),
            forall|j: int| 0 <= j < i ==> a@[j] == b@[j],
        decreases na - i,
    {
        if a.get_char(i) != b.get_char(i) {
            return false;
        }
        i = i + 1;
    }
    proof {
        assert(a@ =~= b@);
    }
    true
}

/// Inserting into buckets whose guids all differ from the record's guid
/// passes them through unchanged.
proof fn lemma_insert_past_prefix(bs: Seq<BucketView>, nic: Nic, i: int)
    requires
        0 <= i <= bs.len(),
        forall|k: int| 0 <= k < i ==> (#[trigger] bs[k]).guid != nic@.guid,
    ensures
        spec_store_insert(bs, nic).0 == bs.take(i) + spec_store_insert(bs.skip(i), nic).0,
        spec_store_insert(bs, nic).1 == spec_store_insert(bs.skip(i), nic).1,
    decreases i,
{
    if i == 0 {
        assert(bs.skip(0) =~= bs);
        assert(bs.take(0) + spec_store_insert(bs, nic).0 =~= spec_store_insert(bs, nic).0);
    } else {
        assert(bs[0].guid != nic@.guid);
        lemma_insert_past_prefix(bs.skip(1), nic, i - 1);
        assert(bs.skip(1).take(i - 1) =~= bs.take(i).skip(1));
        assert(bs.skip(1).skip(i - 1) =~= bs.skip(i));
        assert(seq![bs[0]] + (bs.take(i).skip(1) + spec_store_insert(bs.skip(i), nic).0)
            =~= bs.take(i) + spec_store_insert(bs.skip(i), nic).0);
        assert(seq![bs[0]] + bs.skip(1).take(i - 1) =~= bs.take(i));
    }
}

/// Removing past buckets whose guids all differ from the target's guid
/// passes them through unchanged.
proof fn lemma_remove_past_prefix(bs: Seq<BucketView>, n: NicView, i: int)
    requires
        0 <= i <= bs.len(),
        forall|k: int| 0 <= k < i ==> (#[trigger] bs[k]).guid != n.guid,
    ensures
        spec_store_remove(bs, n).0 == bs.take(i) + spec_store_remove(bs.skip(i), n).0,
        spec_store_remove(bs, n).1 == spec_store_remove(bs.skip(i), n).1,
    decreases i,
{
    if i == 0 {
        assert(bs.skip(0) =~= bs);
        assert(bs.take(0) + spec_store_remove(bs, n).0 =~= spec_store_remove(bs, n).0);
    } else {
        assert(bs[0].guid != n.guid);
        lemma_remove_past_prefix(bs.skip(1), n, i - 1);
        assert(bs.skip(1).take(i - 1) =~= bs.take(i).skip(1));
        assert(bs.skip(1).skip(i - 1) =~= bs.skip(i));
        assert(seq![bs[0]] + (bs.take(i).skip(1) + spec_store_remove(bs.skip(i), n).0)
            =~= bs.take(i) + spec_store_remove(bs.skip(i), n).0);
        assert(seq![bs[0]] + bs.skip(1).take(i - 1) =~= bs.take(i));
    }
}

/// Removing the first record equal to `n` from a bucket, when the first
/// equal record sits at `p`, removes exactly position `p`.
proof fn lemma_bucket_remove_at(items: Seq<Nic>, n: NicView, p: int)
    requires
        0 <= p < items.len(),
        nic_eq(items[p]@, n),
        forall|q: int| 0 <= q < p ==> !nic_eq((#[trigger] items[q])@, n),
    ensures
        spec_bucket_remove_first(items, n).0 == items.remove(p),
        spec_bucket_remove_first(items, n).1 == Some(items[p]),
    decreases p,
{
    if p == 0 {
        assert(items.skip(1) =~= items.remove(0));
    } else {
        lemma_bucket_remove_at(items.skip(1), n, p - 1);
        assert(items.skip(1)[p - 1] == items[p]);
        assert(seq![items[0]] + items.skip(1).remove(p - 1) =~= items.remove(p));
    }
}

/// A bucket with no record equal to `n` is unchanged by removal.
proof fn lemma_bucket_remove_none(items: Seq<Nic>, n: NicView)
    requires
        !bucket_contains_eq(items, n),
    ensures
        spec_bucket_remove_first(items, n).0 == items,
        spec_bucket_remove_first(items, n).1 is None,
    decreases items.len(),
{
    if items.len() > 0 {
        assert(!nic_eq(items[0]@, n));
        assert(forall|p: int|
            0 <= p < items.skip(1).len() ==> (#[trigger] items.skip(1)[p]) == items[p + 1]);
        lemma_bucket_remove_none(items.skip(1), n);
        assert(seq![items[0]] + items.skip(1) =~= items);
    }
}

/// Saving a record and then saving an equal record (same guid, name, and
/// positionally equal address, gateway and DNS sequences) reports `true`
/// then `false`; the second save changes nothing, and the flattened store
/// grows exactly once — not at all when the first record was already
/// saved.
pub proof fn lemma_insert_insert(bs: Seq<BucketView>, n1: Nic, n2: Nic)
    requires
        store_wf(bs),
        nic_eq(n1@, n2@),
    ensures
        spec_store_insert(bs, n1).1 == !store_contains_eq(bs, n1@),
        spec_store_insert(spec_store_insert(bs, n1).0, n2).1 == false,
        spec_store_insert(spec_store_insert(bs, n1).0, n2).0 == spec_store_insert(bs, n1).0,
        spec_flat(spec_store_insert(bs, n1).0).len() == spec_flat(bs).len() + (
        if store_contains_eq(bs, n1@) {
            0int
        } else {
            1int
        }),
    decreases bs.len(),
{
    let ins1 = spec_store_insert(bs, n1);
    if bs.len() == 0 {
        let nb = BucketView { guid: n1@.guid, items: seq![n1] };
        assert(ins1.0 == seq![nb]);
        assert(nic_eq(seq![n1][0]@, n2@));
        assert(bucket_contains_eq(nb.items, n2@));
        assert(spec_store_insert(ins1.0, n2).1 == false);
        assert(spec_store_insert(ins1.0, n2).0 == ins1.0);
        assert(!store_contains_eq(bs, n1@));
        assert(seq![nb].skip(1) =~= Seq::<BucketView>::empty());
        assert(spec_flat(Seq::<BucketView>::empty()) =~= Seq::<Nic>::empty());
        assert(spec_flat(seq![nb]) =~= nb.items);
        assert(spec_flat(bs) =~= Seq::<Nic>::empty());
    } else if bs[0].guid == n1@.guid {
        if bucket_contains_eq(bs[0].items, n1@) {
            assert(ins1 == (bs, false));
            assert(store_contains_eq(bs, n1@));
            let p = choose|p: int|
                0 <= p < bs[0].items.len() && nic_eq((#[trigger] bs[0].items[p])@, n1@);
            assert(nic_eq(bs[0].items[p]@, n2@));
            assert(bucket_contains_eq(bs[0].items, n2@));
            assert(spec_store_insert(ins1.0, n2).1 == false);
            assert(spec_store_insert(ins1.0, n2).0 == ins1.0);
        } else {
            let nb = BucketView { guid: bs[0].guid, items: bs[0].items.push(n1) };
            assert(ins1.0 == bs.update(0, nb));
            assert forall|ii: int|
                0 <= ii < bs.len() && (#[trigger] bs[ii]).guid == n1@.guid implies ii == 0 by {
                if ii > 0 {
                    assert(bs[0].guid != bs[ii].guid);
                }
            }
            assert(!store_contains_eq(bs, n1@));
            assert(ins1.0[0].guid == n2@.guid);
            assert(nic_eq(nb.items[nb.items.len() - 1]@, n2@));
            assert(bucket_contains_eq(nb.items, n2@));
            assert(spec_store_insert(ins1.0, n2).1 == false);
            assert(spec_store_insert(ins1.0, n2).0 == ins1.0);
            assert(ins1.0.skip(1) =~= bs.skip(1));
            assert(spec_flat(ins1.0) == nb.items + spec_flat(bs.skip(1)));
        }
    } else {
        assert forall|x: int, y: int|
            0 <= x < y < bs.skip(1).len() implies (#[trigger] bs.skip(1)[x]).guid != (
        #[trigger] bs.skip(1)[y]).guid by {
            assert(bs.skip(1)[x] == bs[x + 1]);
            assert(bs.skip(1)[y] == bs[y + 1]);
        }
        assert forall|x: int| 0 <= x < bs.skip(1).len() implies (#[trigger] bs.skip(
            1,
        )[x]).items.len() > 0 by {
            assert(bs.skip(1)[x] == bs[x + 1]);
        }
        assert forall|x: int, p: int|
            0 <= x < bs.skip(1).len() && 0 <= p < bs.skip(1)[x].items.len() implies (
        #[trigger] bs.skip(1)[x].items[p])@.guid == bs.skip(1)[x].guid by {
            assert(bs.skip(1)[x] == bs[x + 1]);
        }
        assert forall|x: int, p: int, q: int|
            0 <= x < bs.skip(1).len() && 0 <= p < q < bs.skip(1)[x].items.len() implies !nic_eq(
            (#[trigger] bs.skip(1)[x].items[p])@,
            (#[trigger] bs.skip(1)[x].items[q])@,
        ) by {
            assert(bs.skip(1)[x] == bs[x + 1]);
        }
        assert(store_wf(bs.skip(1)));
        lemma_insert_insert(bs.skip(1), n1, n2);
        let rest1 = spec_store_insert(bs.skip(1), n1);
        assert(ins1.0 == seq![bs[0]] + rest1.0);
        if store_contains_eq(bs, n1@) {
            let ii = choose|ii: int|
                0 <= ii < bs.len() && (#[trigger] bs[ii]).guid == n1@.guid && bucket_contains_eq(
                    bs[ii].items,
                    n1@,
                );
            assert(ii != 0);
            assert(bs.skip(1)[ii - 1] == bs[ii]);
            assert(store_contains_eq(bs.skip(1), n1@));
        }
        if store_contains_eq(bs.skip(1), n1@) {
            let jj = choose|jj: int|
                0 <= jj < bs.skip(1).len() && (#[trigger] bs.skip(1)[jj]).guid == n1@.guid
                    && bucket_contains_eq(bs.skip(1)[jj].items, n1@);
            assert(bs[jj + 1] == bs.skip(1)[jj]);
            assert(store_contains_eq(bs, n1@));
        }
        assert(store_contains_eq(bs, n1@) == store_contains_eq(bs.skip(1), n1@));
        assert(ins1.0.len() > 0);
        assert(ins1.0[0] == bs[0]);
        assert(ins1.0[0].guid != n2@.guid);
        let ins2 = spec_store_insert(ins1.0, n2);
        assert(ins1.0.skip(1) =~= rest1.0);
        assert(ins2.0 == seq![ins1.0[0]] + spec_store_insert(rest1.0, n2).0);
        assert(spec_store_insert(rest1.0, n2).0 == rest1.0);
        assert(ins2.0 =~= ins1.0);
        assert(ins2.1 == false);
        assert(spec_flat(ins1.0) == ins1.0[0].items + spec_flat(ins1.0.skip(1)));
        assert(spec_flat(bs) == bs[0].items + spec_flat(bs.skip(1)));
    }
}

impl Default for IpConfigList {
    /// The empty store.
    fn default() -> (r: Self)
        ensures
            r@ == Seq::<BucketView>::empty(),
            store_wf(r@),
            spec_flat(r@) == Seq::<Nic>::empty(),
    {
        let r = IpConfigList { inner: Vec::new() };
        proof {
            assert(r@ =~= Seq::<BucketView>::empty());
            assert(spec_flat(r@) =~= Seq::<Nic>::empty());
        }
        r
    }
}

impl IpConfigList {
    /// The empty store.
    pub fn new() -> (r: Self)
        ensures
            r@ == Seq::<BucketView>::empty(),
            store_wf(r@),
            spec_flat(r@) == Seq::<Nic>::empty(),
    {
        Self::default()
    }

    /// The records saved under `key`, when any are.
    pub fn get_by_guid(&self, key: &str) -> (r: Option<&Vec<Nic>>)
        requires
            store_wf(self@),
        ensures
            match r {
                Some(v) => exists|i: int|
                    0 <= i < self@.len() && (#[trigger] self@[i]).guid == key@ && v@
                        == self@[i].items,
                None => forall|i: int| 0 <= i < self@.len() ==> (#[trigger] self@[i]).guid != key@,
            },
    {
        let n = self.inner.len();
        let mut i: usize = 0;
        while i < n
            invariant
                i <= n,
                n == self.inner@.len(),
                self@ == self.inner@.map_values(|b: Bucket| b@),
                self@.len() == n,
                forall|k: int| 0 <= k < i ==> (#[trigger] self@[k]).guid != key@,
            decreases n - i,
        {
            if str_eq(self.inner[i].guid.as_str(), key) {
                proof {
                    assert(self@[i as int] == self.inner@[i as int]@);
                }
                return Some(&self.inner[i].items);
            }
            proof {
                assert(self@[i as int] == self.inner@[i as int]@);
            }
            i = i + 1;
        }
        None
    }
}

/// True when `m` itself is one of the records the store holds.
pub open spec fn store_member(bs: Seq<BucketView>, m: Nic) -> bool {
    exists|i: int, p: int|
        0 <= i < bs.len() && 0 <= p < bs[i].items.len() && #[trigger] bs[i].items[p] == m
}

/// Finds the first record in `items` equal to `nic` by the record equality
/// policy.
fn bucket_find_eq(items: &Vec<Nic>, nic: &Nic) -> (r: Option<usize>)
    ensures
        match r {
            Some(p) => p < items@.len() && nic_eq(items@[p as int]@, nic@) && (forall|q: int|
                0 <= q < p ==> !nic_eq((#[trigger] items@[q])@, nic@)),
            None => !bucket_contains_eq(items@, nic@),
        },
{
    let n = items.len();
    let mut p: usize = 0;
    while p < n
        invariant
            p <= n,
            n == items@.len(),
            forall|q: int| 0 <= q < p ==> !nic_eq((#[trigger] items@[q])@, nic@),
        decreases n - p,
    {
        if items[p].eq(nic) {
            return Some(p);
        }
        p = p + 1;
    }
    None
}

impl IpConfigList {
    /// Whether the store holds a record equal to `nic` by the record
    /// equality policy.
    pub fn contains(&self, nic: &Nic) -> (r: bool)
        requires
            store_wf(self@),
        ensures
            r == store_contains_eq(self@, nic@),
    {
        self.try_get(nic).is_some()
    }

    /// The saved record equal to `nic` by the record equality policy, when
    /// one exists under `nic`'s guid.
    pub fn try_get(&self, nic: &Nic) -> (r: Option<&Nic>)
        requires
            store_wf(self@),
        ensures
            r is Some <==> store_contains_eq(self@, nic@),
            match r {
                Some(m) => nic_eq(m@, nic@) && store_member(self@, *m),
                None => true,
            },
    {
        let n = self.inner.len();
        proof {
            assert(self@.len() == self.inner@.len());
        }
        let mut i: usize = 0;
        while i < n
            invariant
                i <= n,
                n == self.inner@.len(),
                self@ == self.inner@.map_values(|b: Bucket| b@),
                self@.len() == n,
                store_wf(self@),
                forall|k: int| 0 <= k < i ==> (#[trigger] self@[k]).guid != nic@.guid,
            decreases n - i,
        {
            proof {
                assert(self@[i as int] == self.inner@[i as int]@);
            }
            if str_eq(self.inner[i].guid.as_str(), nic.guid()) {
                let b = &self.inner[i];
                match bucket_find_eq(&b.items, nic) {
                    Some(p) => {
                        proof {
                            assert(self@[i as int].items[p as int] == b.items@[p as int]);
                        }
                        return Some(&b.items[p]);
                    },
                    None => {
                        proof {
                            assert(forall|k: int|
                                0 <= k < self@.len() && k != i ==> (#[trigger] self@[k]).guid
                                    != nic@.guid);
                        }
                        return None;
                    },
                }
            }
            i = i + 1;
        }
        None
    }

    /// The saved record equal to `nic`, as an owned copy; mutation of a
    /// stored record goes through removal and re-insertion.
    pub fn try_get_mut(&mut self, nic: &Nic) -> (r: Option<Nic>)
        requires
            store_wf(old(self)@),
        ensures
            final(self)@ == old(self)@,
            r is Some <==> store_contains_eq(old(self)@, nic@),
            match r {
                Some(m) => nic_eq(m@, nic@),
                None => true,
            },
    {
        match self.try_get(nic) {
            Some(m) => Some(m.clone()),
            None => None,
        }
    }

    /// Removes and returns all records saved under `key`.
    pub fn remove_by_guid(&mut self, key: &str) -> (r: Option<Vec<Nic>>)
        requires
            store_wf(old(self)@),
        ensures
            store_wf(final(self)@),
            forall|i: int|
                (0 <= i < old(self)@.len() && (#[trigger] old(self)@[i]).guid == key@) ==> (
                r is Some && r->0@ == old(self)@[i].items && final(self)@ == old(self)@.remove(i)),
            (forall|i: int| 0 <= i < old(self)@.len() ==> (#[trigger] old(self)@[i]).guid != key@)
                ==> r is None && final(self)@ == old(self)@,
    {
        let ghost bs = self@;
        let n = self.inner.len();
        proof {
            assert(self@.len() == self.inner@.len());
        }
        let mut i: usize = 0;
        while i < n
            invariant
                i <= n,
                n == self.inner@.len(),
                self@ == self.inner@.map_values(|b: Bucket| b@),
                self@ == bs,
                self@ == old(self)@,
                self@.len() == n,
                store_wf(self@),
                forall|k: int| 0 <= k < i ==> (#[trigger] self@[k]).guid != key@,
            decreases n - i,
        {
            proof {
                assert(self@[i as int] == self.inner@[i as int]@);
            }
            if str_eq(self.inner[i].guid.as_str(), key) {
                let ghost i0 = i as int;
                let b = self.inner.remove(i);
                proof {
                    assert(bs[i0].guid == key@);
                    assert(b.items@ == bs[i0].items);
                    assert(self@ =~= bs.remove(i0));
                    assert forall|ii: int|
                        0 <= ii < bs.len() && (#[trigger] bs[ii]).guid == key@ implies ii
                        == i0 by {
                        if ii < i0 {
                            assert(bs[ii].guid != bs[i0].guid);
                        } else if ii > i0 {
                            assert(bs[i0].guid != bs[ii].guid);
                        }
                    }
                    assert forall|x: int, y: int|
                        0 <= x < y < self@.len() implies (#[trigger] self@[x]).guid
                        != (#[trigger] self@[y]).guid by {
                        assert(self@[x] == if x < i0 { bs[x] } else { bs[x + 1] });
                        assert(self@[y] == if y < i0 { bs[y] } else { bs[y + 1] });
                    }
                    assert forall|x: int, p: int|
                        0 <= x < self@.len() && 0 <= p < self@[x].items.len() implies (
                        #[trigger] self@[x].items[p])@.guid == self@[x].guid by {
                        assert(self@[x] == if x < i0 { bs[x] } else { bs[x + 1] });
                    }
                    assert forall|x: int, p: int, q: int|
                        0 <= x < self@.len() && 0 <= p < q < self@[x].items.len() implies !nic_eq(
                        (#[trigger] self@[x].items[p])@,
                        (#[trigger] self@[x].items[q])@,
                    ) by {
                        assert(self@[x] == if x < i0 { bs[x] } else { bs[x + 1] });
                    }
                    assert(store_wf(self@));
                    assert forall|ii: int|
                        0 <= ii < bs.len() && (#[trigger] bs[ii]).guid == key@ implies (b.items@
                        == bs[ii].items && self@ == bs.remove(ii)) by {
                        assert(ii == i0);
                    }
                }
                return Some(b.items);
            }
            i = i + 1;
        }
        None
    }

    /// Saves `nic` unless an equal record is already saved under its guid:
    /// `true` when it was appended, `false` when it was already present (a
    /// no-op).
    pub fn insert(&mut self, nic: Nic) -> (r: bool)
        requires
            store_wf(old(self)@),
        ensures
            store_wf(final(self)@),
            final(self)@ == spec_store_insert(old(self)@, nic).0,
            r == spec_store_insert(old(self)@, nic).1,
            r == !store_contains_eq(old(self)@, nic@),
            spec_flat(final(self)@).len() == spec_flat(old(self)@).len() + (
            if r {
                1int
            } else {
                0int
            }),
    {
        let ghost bs = self@;
        let ghost nv = nic@;
        let ghost nicg = nic;
        let n = self.inner.len();
        proof {
            assert(self@.len() == self.inner@.len());
        }
        let mut i: usize = 0;
        while i < n
            invariant
                i <= n,
                n == self.inner@.len(),
                self@ == self.inner@.map_values(|b: Bucket| b@),
                self@ == bs,
                self@ == old(self)@,
                self@.len() == n,
                store_wf(bs),
                nv == nic@,
                nicg == nic,
                forall|k: int| 0 <= k < i ==> (#[trigger] bs[k]).guid != nv.guid,
            decreases n - i,
        {
            proof {
                assert(bs[i as int] == self.inner@[i as int]@);
            }
            if str_eq(self.inner[i].guid.as_str(), nic.guid()) {
                let ghost i0 = i as int;
                proof {
                    lemma_insert_past_prefix(bs, nicg, i0);
                    assert(bs.skip(i0)[0] == bs[i0]);
                    assert(bs.skip(i0).len() > 0);
                }
                let mut bucket = self.inner.remove(i);
                match bucket_find_eq(&bucket.items, &nic) {
                    Some(_) => {
                        self.inner.insert(i, bucket);
                        proof {
                            assert(bucket_contains_eq(bs[i0].items, nv));
                            assert(spec_store_insert(bs.skip(i0), nicg).1 == false);
                            assert(spec_store_insert(bs.skip(i0), nicg).0 == bs.skip(i0));
                            assert(spec_store_insert(bs, nicg).0 =~= bs);
                            assert(self@ =~= bs);
                            assert(store_contains_eq(bs, nv));
                        }
                        return false;
                    },
                    None => {
                        bucket.items.push(nic);
                        self.inner.insert(i, bucket);
                        proof {
                            let nb = BucketView {
                                guid: bs[i0].guid,
                                items: bs[i0].items.push(nicg),
                            };
                            assert(self@ =~= bs.update(i0, nb));
                            assert(spec_store_insert(bs.skip(i0), nicg).1 == true);
                            assert(spec_store_insert(bs.skip(i0), nicg).0 == bs.skip(i0).update(
                                0,
                                BucketView {
                                    guid: bs.skip(i0)[0].guid,
                                    items: bs.skip(i0)[0].items.push(nicg),
                                },
                            ));
                            assert(spec_store_insert(bs, nicg).0 =~= bs.update(i0, nb));
                            // The record was not saved anywhere: its guid only
                            // matches bucket `i0`, which held no equal record.
                            assert forall|ii: int|
                                0 <= ii < bs.len() && (#[trigger] bs[ii]).guid == nv.guid implies
                                ii == i0 by {
                                if ii < i0 {
                                    assert(bs[ii].guid != bs[i0].guid);
                                } else if ii > i0 {
                                    assert(bs[i0].guid != bs[ii].guid);
                                }
                            }
                            assert(!store_contains_eq(bs, nv));
                            // The invariant survives: only bucket `i0` changed,
                            // by appending a record of its own guid that equals
                            // none already there.
                            let cur = self@;
                            assert forall|x: int, y: int|
                                0 <= x < y < cur.len() implies (#[trigger] cur[x]).guid != (
                            #[trigger] cur[y]).guid by {
                                assert(cur[x].guid == bs[x].guid);
                                assert(cur[y].guid == bs[y].guid);
                            }
                            assert forall|x: int, p: int|
                                0 <= x < cur.len() && 0 <= p < cur[x].items.len() implies (
                            #[trigger] cur[x].items[p])@.guid == cur[x].guid by {
                                if x == i0 && p == bs[i0].items.len() {
                                    assert(cur[x].items[p] == nicg);
                                } else {
                                    assert(cur[x].items[p] == bs[x].items[p]);
                                }
                            }
                            assert forall|x: int, p: int, q: int|
                                0 <= x < cur.len() && 0 <= p < q < cur[x].items.len() implies
                                !nic_eq(
                                (#[trigger] cur[x].items[p])@,
                                (#[trigger] cur[x].items[q])@,
                            ) by {
                                if x == i0 && q == bs[i0].items.len() {
                                    assert(cur[x].items[p] == bs[x].items[p]);
                                    assert(cur[x].items[q] == nicg);
                                    assert(!nic_eq(bs[i0].items[p]@, nv));
                                } else {
                                    assert(cur[x].items[p] == bs[x].items[p]);
                                    assert(cur[x].items[q] == bs[x].items[q]);
                                }
                            }
                            assert(store_wf(cur));
                            lemma_flat_decompose(bs, i0);
                            lemma_flat_decompose(cur, i0);
                            assert(cur.take(i0) =~= bs.take(i0));
                            assert(cur.skip(i0 + 1) =~= bs.skip(i0 + 1));
                        }
                        return true;
                    },
                }
            }
            i = i + 1;
        }
        let g = nic.guid().to_owned();
        let mut items: Vec<Nic> = Vec::new();
        items.push(nic);
        let b = Bucket { guid: g, items };
        self.inner.push(b);
        proof {
            lemma_insert_past_prefix(bs, nicg, n as int);
            assert(bs.skip(n as int) =~= Seq::<BucketView>::empty());
            let nb = BucketView { guid: nv.guid, items: seq![nicg] };
            assert(spec_store_insert(Seq::<BucketView>::empty(), nicg).0 == seq![nb]);
            assert(spec_store_insert(Seq::<BucketView>::empty(), nicg).1 == true);
            assert(b@.items =~= seq![nicg]);
            assert(b@ == nb);
            assert(self@ =~= bs.push(nb));
            assert(bs.take(n as int) =~= bs);
            assert(spec_store_insert(bs, nicg).0 =~= bs.push(nb));
            assert(!store_contains_eq(bs, nv));
            let cur = self@;
            assert forall|x: int, y: int|
                0 <= x < y < cur.len() implies (#[trigger] cur[x]).guid != (
            #[trigger] cur[y]).guid by {
                if y < cur.len() - 1 {
                    assert(cur[x].guid == bs[x].guid);
                    assert(cur[y].guid == bs[y].guid);
                } else {
                    assert(cur[x].guid == bs[x].guid);
                    assert(cur[y].guid == nv.guid);
                }
            }
            assert forall|x: int, p: int|
                0 <= x < cur.len() && 0 <= p < cur[x].items.len() implies (
            #[trigger] cur[x].items[p])@.guid == cur[x].guid by {
                if x < cur.len() - 1 {
                    assert(cur[x].items[p] == bs[x].items[p]);
                } else {
                    assert(cur[x].items[p] == nicg);
                }
            }
            assert forall|x: int, p: int, q: int|
                0 <= x < cur.len() && 0 <= p < q < cur[x].items.len() implies !nic_eq(
                (#[trigger] cur[x].items[p])@,
                (#[trigger] cur[x].items[q])@,
            ) by {
                if x < cur.len() - 1 {
                    assert(cur[x].items[p] == bs[x].items[p]);
                    assert(cur[x].items[q] == bs[x].items[q]);
                }
            }
            assert(store_wf(cur));
            lemma_flat_concat(bs, seq![nb]);
            assert(spec_flat(Seq::<BucketView>::empty()) =~= Seq::<Nic>::empty());
            assert(seq![nb].skip(1) =~= Seq::<BucketView>::empty());
            assert(spec_flat(seq![nb]) =~= nb.items);
            assert(bs + seq![nb] =~= bs.push(nb));
            assert(spec_flat(cur).len() == spec_flat(bs).len() + 1);
        }
        true
    }

    /// Removes and returns the first saved record equal to `nic` by the
    /// record equality policy; a bucket left empty leaves the store.
    pub fn remove(&mut self, nic: &Nic) -> (r: Option<Nic>)
        requires
            store_wf(old(self)@),
        ensures
            store_wf(final(self)@),
            final(self)@ == spec_store_remove(old(self)@, nic@).0,
            r == spec_store_remove(old(self)@, nic@).1,
            r is Some <==> store_contains_eq(old(self)@, nic@),
            match r {
                Some(m) => nic_eq(m@, nic@),
                None => true,
            },
            spec_flat(final(self)@).len() == spec_flat(old(self)@).len() - (
            if r is Some {
                1int
            } else {
                0int
            }),
    {
        let ghost bs = self@;
        let ghost nv = nic@;
        let n = self.inner.len();
        proof {
            assert(self@.len() == self.inner@.len());
        }
        let mut i: usize = 0;
        while i < n
            invariant
                i <= n,
                n == self.inner@.len(),
                self@ == self.inner@.map_values(|b: Bucket| b@),
                self@ == bs,
                self@ == old(self)@,
                self@.len() == n,
                store_wf(bs),
                nv == nic@,
                forall|k: int| 0 <= k < i ==> (#[trigger] bs[k]).guid != nv.guid,
            decreases n - i,
        {
            proof {
                assert(bs[i as int] == self.inner@[i as int]@);
            }
            if str_eq(self.inner[i].guid.as_str(), nic.guid()) {
                let ghost i0 = i as int;
                proof {
                    lemma_remove_past_prefix(bs, nv, i0);
                    assert(bs.skip(i0)[0] == bs[i0]);
                    assert(bs.skip(i0).len() > 0);
                }
                let mut bucket = self.inner.remove(i);
                match bucket_find_eq(&bucket.items, nic) {
                    None => {
                        self.inner.insert(i, bucket);
                        proof {
                            lemma_bucket_remove_none(bs[i0].items, nv);
                            assert(spec_store_remove(bs.skip(i0), nv).1 is None);
                            assert(spec_store_remove(bs.skip(i0), nv).0 == bs.skip(i0));
                            assert(spec_store_remove(bs, nv).0 =~= bs);
                            assert(self@ =~= bs);
                            assert forall|ii: int|
                                0 <= ii < bs.len() && (#[trigger] bs[ii]).guid == nv.guid implies
                                ii == i0 by {
                                if ii < i0 {
                                    assert(bs[ii].guid != bs[i0].guid);
                                } else if ii > i0 {
                                    assert(bs[i0].guid != bs[ii].guid);
                                }
                            }
                            assert(!store_contains_eq(bs, nv));
                        }
                        return None;
                    },
                    Some(p) => {
                        let ghost p0 = p as int;
                        let m = bucket.items.remove(p);
                        proof {
                            lemma_bucket_remove_at(bs[i0].items, nv, p0);
                            assert(spec_bucket_remove_first(bs[i0].items, nv).0
                                == bs[i0].items.remove(p0));
                            assert(spec_bucket_remove_first(bs[i0].items, nv).1 == Some(
                                bs[i0].items[p0],
                            ));
                            assert(m == bs[i0].items[p0]);
                            assert(store_contains_eq(bs, nv));
                            lemma_flat_decompose(bs, i0);
                        }
                        if bucket.items.is_empty() {
                            proof {
                                assert(spec_store_remove(bs.skip(i0), nv).0 == bs.skip(i0).skip(
                                    1,
                                ));
                                assert(bs.skip(i0).skip(1) =~= bs.skip(i0 + 1));
                                assert(spec_store_remove(bs, nv).0 =~= bs.remove(i0));
                                assert(self@ =~= bs.remove(i0));
                                let cur = self@;
                                assert forall|x: int, y: int|
                                    0 <= x < y < cur.len() implies (#[trigger] cur[x]).guid != (
                                #[trigger] cur[y]).guid by {
                                    assert(cur[x] == if x < i0 { bs[x] } else { bs[x + 1] });
                                    assert(cur[y] == if y < i0 { bs[y] } else { bs[y + 1] });
                                }
                                assert forall|x: int, p2: int|
                                    0 <= x < cur.len() && 0 <= p2 < cur[x].items.len() implies (
                                #[trigger] cur[x].items[p2])@.guid == cur[x].guid by {
                                    assert(cur[x] == if x < i0 { bs[x] } else { bs[x + 1] });
                                }
                                assert forall|x: int, p2: int, q2: int|
                                    0 <= x < cur.len() && 0 <= p2 < q2 < cur[x].items.len()
                                    implies !nic_eq(
                                    (#[trigger] cur[x].items[p2])@,
                                    (#[trigger] cur[x].items[q2])@,
                                ) by {
                                    assert(cur[x] == if x < i0 { bs[x] } else { bs[x + 1] });
                                }
                                assert(store_wf(cur));
                                assert(bs.remove(i0) =~= bs.take(i0) + bs.skip(i0 + 1));
                                lemma_flat_concat(bs.take(i0), bs.skip(i0 + 1));
                                assert(bs[i0].items.len() == 1);
                            }
                            return Some(m);
                        } else {
                            self.inner.insert(i, bucket);
                            proof {
                                let nb = BucketView {
                                    guid: bs[i0].guid,
                                    items: bs[i0].items.remove(p0),
                                };
                                assert(spec_store_remove(bs.skip(i0), nv).0 == bs.skip(i0).update(
                                    0,
                                    nb,
                                ));
                                assert(spec_store_remove(bs, nv).0 =~= bs.update(i0, nb));
                                assert(self@ =~= bs.update(i0, nb));
                                let cur = self@;
                                assert forall|x: int, y: int|
                                    0 <= x < y < cur.len() implies (#[trigger] cur[x]).guid != (
                                #[trigger] cur[y]).guid by {
                                    assert(cur[x].guid == bs[x].guid);
                                    assert(cur[y].guid == bs[y].guid);
                                }
                                assert forall|x: int, p2: int|
                                    0 <= x < cur.len() && 0 <= p2 < cur[x].items.len() implies (
                                #[trigger] cur[x].items[p2])@.guid == cur[x].guid by {
                                    if x == i0 {
                                        assert(cur[x].items[p2] == if p2 < p0 {
                                            bs[i0].items[p2]
                                        } else {
                                            bs[i0].items[p2 + 1]
                                        });
                                    } else {
                                        assert(cur[x].items[p2] == bs[x].items[p2]);
                                    }
                                }
                                assert forall|x: int, p2: int, q2: int|
                                    0 <= x < cur.len() && 0 <= p2 < q2 < cur[x].items.len()
                                    implies !nic_eq(
                                    (#[trigger] cur[x].items[p2])@,
                                    (#[trigger] cur[x].items[q2])@,
                                ) by {
                                    if x == i0 {
                                        assert(cur[x].items[p2] == if p2 < p0 {
                                            bs[i0].items[p2]
                                        } else {
                                            bs[i0].items[p2 + 1]
                                        });
                                        assert(cur[x].items[q2] == if q2 < p0 {
                                            bs[i0].items[q2]
                                        } else {
                                            bs[i0].items[q2 + 1]
                                        });
                                    } else {
                                        assert(cur[x].items[p2] == bs[x].items[p2]);
                                        assert(cur[x].items[q2] == bs[x].items[q2]);
                                    }
                                }
                                assert(store_wf(cur));
                                lemma_flat_decompose(cur, i0);
                                assert(cur.take(i0) =~= bs.take(i0));
                                assert(cur.skip(i0 + 1) =~= bs.skip(i0 + 1));
                            }
                            return Some(m);
                        }
                    },
                }
            }
            i = i + 1;
        }
        proof {
            lemma_remove_past_prefix(bs, nv, n as int);
            assert(bs.skip(n as int) =~= Seq::<BucketView>::empty());
            assert(spec_store_remove(Seq::<BucketView>::empty(), nv).1 is None);
            assert(spec_store_remove(bs, nv).0 =~= bs);
            assert(!store_contains_eq(bs, nv));
        }
        None
    }

    /// Removes and returns the record at `index` in the flattened store;
    /// an index past the end removes nothing and yields `None`.
    pub fn remove_at(&mut self, index: i32) -> (r: Option<Nic>)
        requires
            store_wf(old(self)@),
            index >= 0,
        ensures
            store_wf(final(self)@),
            index >= spec_flat(old(self)@).len() ==> r is None && final(self)@ == old(self)@,
            index < spec_flat(old(self)@).len() ==> r == Some(
                spec_flat(old(self)@)[index as int],
            ) && spec_flat(final(self)@) == spec_flat(old(self)@).remove(index as int),
    {
        let ghost bs = self@;
        let idx = index as usize;
        let n = self.inner.len();
        proof {
            assert(self@.len() == self.inner@.len());
            assert(spec_flat(bs.take(0)) =~= Seq::<Nic>::empty());
        }
        let mut acc: usize = 0;
        let mut i: usize = 0;
        while i < n
            invariant
                i <= n,
                n == self.inner@.len(),
                self@ == self.inner@.map_values(|b: Bucket| b@),
                self@ == bs,
                self@ == old(self)@,
                self@.len() == n,
                store_wf(bs),
                idx == index,
                acc <= idx,
                acc == spec_flat(bs.take(i as int)).len(),
            decreases n - i,
        {
            proof {
                assert(bs[i as int] == self.inner@[i as int]@);
                lemma_flat_snoc(bs, i as int);
            }
            let blen = self.inner[i].items.len();
            let d = idx - acc;
            if d < blen {
                let ghost i0 = i as int;
                let ghost d0 = d as int;
                proof {
                    lemma_flat_decompose(bs, i0);
                    assert(spec_flat(bs).len() >= acc + bs[i0].items.len());
                    assert(spec_flat(bs)[idx as int] == bs[i0].items[d0]);
                }
                let mut bucket = self.inner.remove(i);
                let m = bucket.items.remove(d);
                proof {
                    assert(m == bs[i0].items[d0]);
                }
                if bucket.items.is_empty() {
                    proof {
                        assert(bs[i0].items.len() == 1);
                        assert(self@ =~= bs.remove(i0));
                        let cur = self@;
                        assert forall|x: int, y: int|
                            0 <= x < y < cur.len() implies (#[trigger] cur[x]).guid != (
                        #[trigger] cur[y]).guid by {
                            assert(cur[x] == if x < i0 { bs[x] } else { bs[x + 1] });
                            assert(cur[y] == if y < i0 { bs[y] } else { bs[y + 1] });
                        }
                        assert forall|x: int, p2: int|
                            0 <= x < cur.len() && 0 <= p2 < cur[x].items.len() implies (
                        #[trigger] cur[x].items[p2])@.guid == cur[x].guid by {
                            assert(cur[x] == if x < i0 { bs[x] } else { bs[x + 1] });
                        }
                        assert forall|x: int, p2: int, q2: int|
                            0 <= x < cur.len() && 0 <= p2 < q2 < cur[x].items.len() implies
                            !nic_eq(
                            (#[trigger] cur[x].items[p2])@,
                            (#[trigger] cur[x].items[q2])@,
                        ) by {
                            assert(cur[x] == if x < i0 { bs[x] } else { bs[x + 1] });
                        }
                        assert(store_wf(cur));
                        assert(bs.remove(i0) =~= bs.take(i0) + bs.skip(i0 + 1));
                        lemma_flat_concat(bs.take(i0), bs.skip(i0 + 1));
                        assert(spec_flat(cur) =~= spec_flat(bs).remove(idx as int));
                    }
                    return Some(m);
                } else {
                    self.inner.insert(i, bucket);
                    proof {
                        let nb = BucketView { guid: bs[i0].guid, items: bs[i0].items.remove(d0) };
                        assert(self@ =~= bs.update(i0, nb));
                        let cur = self@;
                        assert forall|x: int, y: int|
                            0 <= x < y < cur.len() implies (#[trigger] cur[x]).guid != (
                        #[trigger] cur[y]).guid by {
                            assert(cur[x].guid == bs[x].guid);
                            assert(cur[y].guid == bs[y].guid);
                        }
                        assert forall|x: int, p2: int|
                            0 <= x < cur.len() && 0 <= p2 < cur[x].items.len() implies (
                        #[trigger] cur[x].items[p2])@.guid == cur[x].guid by {
                            if x == i0 {
                                assert(cur[x].items[p2] == if p2 < d0 {
                                    bs[i0].items[p2]
                                } else {
                                    bs[i0].items[p2 + 1]
                                });
                            } else {
                                assert(cur[x].items[p2] == bs[x].items[p2]);
                            }
                        }
                        assert forall|x: int, p2: int, q2: int|
                            0 <= x < cur.len() && 0 <= p2 < q2 < cur[x].items.len() implies
                            !nic_eq(
                            (#[trigger] cur[x].items[p2])@,
                            (#[trigger] cur[x].items[q2])@,
                        ) by {
                            if x == i0 {
                                assert(cur[x].items[p2] == if p2 < d0 {
                                    bs[i0].items[p2]
                                } else {
                                    bs[i0].items[p2 + 1]
                                });
                                assert(cur[x].items[q2] == if q2 < d0 {
                                    bs[i0].items[q2]
                                } else {
                                    bs[i0].items[q2 + 1]
                                });
                            } else {
                                assert(cur[x].items[p2] == bs[x].items[p2]);
                                assert(cur[x].items[q2] == bs[x].items[q2]);
                            }
                        }
                        assert(store_wf(cur));
                        lemma_flat_decompose(cur, i0);
                        assert(cur.take(i0) =~= bs.take(i0));
                        assert(cur.skip(i0 + 1) =~= bs.skip(i0 + 1));
                        assert(spec_flat(cur) =~= spec_flat(bs).remove(idx as int));
                    }
                    return Some(m);
                }
            }
            acc = acc + blen;
            i = i + 1;
        }
        proof {
            assert(bs.take(n as int) =~= bs);
            assert(spec_flat(bs).len() <= idx);
        }
        None
    }

    /// The flattened store: every saved record, copied, buckets in guid
    /// insertion order, records in insertion order within each bucket.
    pub fn get_list(&self) -> (r: Vec<Nic>)
        ensures
            r@.len() == spec_flat(self@).len(),
            forall|k: int|
                0 <= k < r@.len() ==> (#[trigger] r@[k])@ == spec_flat(self@)[k]@,
    {
        let mut r: Vec<Nic> = Vec::new();
        let n = self.inner.len();
        proof {
            assert(self@.len() == self.inner@.len());
        }
        let mut i: usize = 0;
        while i < n
            invariant
                i <= n,
                n == self.inner@.len(),
                self@ == self.inner@.map_values(|b: Bucket| b@),
                self@.len() == n,
                r@.len() == spec_flat(self@.take(i as int)).len(),
                forall|k: int|
                    0 <= k < r@.len() ==> (#[trigger] r@[k])@ == spec_flat(
                        self@.take(i as int),
                    )[k]@,
            decreases n - i,
        {
            proof {
                assert(self@[i as int] == self.inner@[i as int]@);
                lemma_flat_snoc(self@, i as int);
            }
            let ghost flat_prefix = spec_flat(self@.take(i as int));
            let b = &self.inner[i];
            let m = b.items.len();
            let mut p: usize = 0;
            while p < m
                invariant
                    p <= m,
                    i < n,
                    n == self.inner@.len(),
                    self@ == self.inner@.map_values(|bb: Bucket| bb@),
                    self@.len() == n,
                    b.items@ == self@[i as int].items,
                    m == b.items@.len(),
                    flat_prefix == spec_flat(self@.take(i as int)),
                    r@.len() == flat_prefix.len() + p,
                    forall|k: int|
                        0 <= k < flat_prefix.len() ==> (#[trigger] r@[k])@ == flat_prefix[k]@,
                    forall|q: int|
                        0 <= q < p ==> (#[trigger] r@[flat_prefix.len() + q])@
                            == self@[i as int].items[q]@,
                decreases m - p,
            {
                let one = b.items[p].clone();
                r.push(one);
                p = p + 1;
            }
            proof {
                assert(spec_flat(self@.take(i + 1)) == flat_prefix + self@[i as int].items);
                assert forall|k: int|
                    0 <= k < r@.len() implies (#[trigger] r@[k])@ == spec_flat(
                    self@.take(i + 1),
                )[k]@ by {
                    if k < flat_prefix.len() {
                        assert((flat_prefix + self@[i as int].items)[k] == flat_prefix[k]);
                    } else {
                        let q = k - flat_prefix.len();
                        assert((flat_prefix + self@[i as int].items)[k]
                            == self@[i as int].items[q]);
                        assert((#[trigger] r@[flat_prefix.len() + q])@
                            == self@[i as int].items[q]@);
                    }
                }
            }
            i = i + 1;
        }
        proof {
            assert(self@.take(n as int) =~= self@);
        }
        r
    }
}

} // verus!

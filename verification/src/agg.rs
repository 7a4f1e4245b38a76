//! Key-to-statistics aggregates: the worker-local mapping built one record at
//! a time, and the merge step that folds the per-worker partial aggregates
//! into one final mapping. The mathematical model is a `Map` from keys to
//! `StatModel`, built by folding records; the laws proved here show that the
//! result is independent of how records are split into chunks, of the order
//! of records across workers, and of the grouping and order of merges.

use vstd::prelude::*;
use vstd::seq_lib::lemma_fold_left_permutation;
use vstd::seq_lib::commutative_foldl;
use vstd::slice::slice_index_get;

use crate::stats::CityInfo;
use crate::stats::StatModel;
use crate::stats::VAL_BOUND;
use crate::stats::lemma_stat_of_bounds;
use crate::stats::stat_add;
use crate::stats::stat_join;
use crate::stats::stat_of;
use crate::stats::stat_one;
use crate::stats::stat_wf;

verus! {

/// One observed record, as a mathematical value.
pub ghost struct Rec {
    pub key: Seq<u8>,
    pub val: int,
}

/// Fold one record into an aggregate map: update the key's statistics, or
/// open the key with a singleton record.
pub open spec fn agg_add(m: Map<Seq<u8>, StatModel>, k: Seq<u8>, v: int) -> Map<
    Seq<u8>,
    StatModel,
> {
    if m.dom().contains(k) {
        m.insert(k, stat_add(m[k], v))
    } else {
        m.insert(k, stat_one(v))
    }
}

/// The merge of two aggregate maps: the union of their keys, with shared
/// keys combined by the count-weighted join.
pub open spec fn agg_merge(a: Map<Seq<u8>, StatModel>, b: Map<Seq<u8>, StatModel>) -> Map<
    Seq<u8>,
    StatModel,
> {
    Map::new(
        |k: Seq<u8>| a.dom().contains(k) || b.dom().contains(k),
        |k: Seq<u8>|
            if a.dom().contains(k) && b.dom().contains(k) {
                stat_join(a[k], b[k])
            } else if a.dom().contains(k) {
                a[k]
            } else {
                b[k]
            },
    )
}

pub open spec fn agg_step() -> spec_fn(Map<Seq<u8>, StatModel>, Rec) -> Map<Seq<u8>, StatModel> {
    |m: Map<Seq<u8>, StatModel>, r: Rec| agg_add(m, r.key, r.val)
}

/// Fold a sequence of records into an existing aggregate map.
pub open spec fn agg_add_all(m: Map<Seq<u8>, StatModel>, rs: Seq<Rec>) -> Map<Seq<u8>, StatModel> {
    rs.fold_left(m, agg_step())
}

/// The aggregate of a sequence of records, starting from the empty map.
pub open spec fn agg_of(rs: Seq<Rec>) -> Map<Seq<u8>, StatModel> {
    agg_add_all(Map::empty(), rs)
}

/// The set of distinct keys occurring in a record sequence.
pub open spec fn keys_of(rs: Seq<Rec>) -> Set<Seq<u8>> {
    Set::new(|k: Seq<u8>| exists|i: int| 0 <= i < rs.len() && rs[i].key == k)
}

/// The values recorded under one key, in source order.
pub open spec fn vals_of(rs: Seq<Rec>, k: Seq<u8>) -> Seq<int> {
    rs.filter(|r: Rec| r.key == k).map_values(|r: Rec| r.val)
}

pub proof fn lemma_filter_none<A>(s: Seq<A>, pred: spec_fn(A) -> bool)
    requires
        forall|i: int| 0 <= i < s.len() ==> !pred(#[trigger] s[i]),
    ensures
        s.filter(pred).len() == 0,
    decreases s.len(),
{
    reveal(Seq::filter);
    if s.len() > 0 {
        assert forall|i: int| 0 <= i < s.drop_last().len() implies !pred(
            #[trigger] s.drop_last()[i],
        ) by {
            assert(s.drop_last()[i] == s[i]);
        }
        lemma_filter_none(s.drop_last(), pred);
        assert(!pred(s.last()));
    }
}

/// The aggregate of a record sequence is a model of it: its keys are exactly
/// the distinct keys of the sequence, and each key holds the statistics of
/// exactly the values recorded under it.
pub proof fn lemma_agg_of_models(rs: Seq<Rec>)
    ensures
        agg_of(rs).dom() == keys_of(rs),
        forall|k: Seq<u8>| #[trigger]
            agg_of(rs).dom().contains(k) ==> agg_of(rs)[k] == stat_of(vals_of(rs, k)) && vals_of(
                rs,
                k,
            ).len() >= 1,
    decreases rs.len(),
{
    if rs.len() == 0 {
        assert(agg_of(rs).dom() =~= keys_of(rs));
    } else {
        let rs0 = rs.drop_last();
        let r = rs.last();
        lemma_agg_of_models(rs0);
        assert(rs0.push(r) =~= rs);
        assert(agg_of(rs) == agg_add(agg_of(rs0), r.key, r.val));
        assert(agg_of(rs).dom() =~= keys_of(rs)) by {
            assert forall|k: Seq<u8>| keys_of(rs).contains(k) implies agg_of(
                rs,
            ).dom().contains(k) by {
                let i = choose|i: int| 0 <= i < rs.len() && rs[i].key == k;
                if i < rs.len() - 1 {
                    assert(rs0[i].key == k);
                    assert(keys_of(rs0).contains(k));
                }
            }
            assert forall|k: Seq<u8>| agg_of(rs).dom().contains(k) implies keys_of(
                rs,
            ).contains(k) by {
                if k == r.key {
                    assert(rs[rs.len() - 1].key == k);
                } else {
                    assert(keys_of(rs0).contains(k));
                    let i = choose|i: int| 0 <= i < rs0.len() && rs0[i].key == k;
                    assert(rs[i].key == k);
                }
            }
        }
        assert forall|k: Seq<u8>| #[trigger] agg_of(rs).dom().contains(k) implies agg_of(rs)[k]
            == stat_of(vals_of(rs, k)) && vals_of(rs, k).len() >= 1 by {
            let pred = |q: Rec| q.key == k;
            let getv = |q: Rec| q.val;
            rs0.lemma_filter_push(r, pred);
            if k == r.key {
                assert(rs0.filter(pred).push(r).map_values(getv) == rs0.filter(pred).map_values(
                    getv,
                ).push(r.val)) by {
                    rs0.filter(pred).lemma_push_map_commute(getv, r);
                }
                let vs0 = vals_of(rs0, k);
                assert(vals_of(rs, k) == vs0.push(r.val));
                if agg_of(rs0).dom().contains(k) {
                    assert(vs0.len() >= 1);
                    assert(vs0.push(r.val).drop_last() == vs0);
                    assert(stat_of(vs0.push(r.val)) == stat_add(stat_of(vs0), r.val));
                } else {
                    assert(!keys_of(rs0).contains(k));
                    assert forall|i: int| 0 <= i < rs0.len() implies !pred(
                        #[trigger] rs0[i],
                    ) by {
                        if rs0[i].key == k {
                            assert(keys_of(rs0).contains(k));
                        }
                    }
                    lemma_filter_none(rs0, pred);
                    assert(vs0.len() == 0);
                    assert(vs0.push(r.val).len() == 1);
                    assert(stat_of(vs0.push(r.val)) == stat_one(r.val));
                }
            } else {
                assert(vals_of(rs, k) == vals_of(rs0, k));
                assert(agg_of(rs).dom().contains(k));
                assert(agg_of(rs0).dom().contains(k));
                assert(agg_of(rs)[k] == agg_of(rs0)[k]);
            }
        }
    }
}

/// Coverage: the key set of the aggregate equals the set of distinct keys
/// present in the input records.
pub proof fn lemma_coverage(rs: Seq<Rec>)
    ensures
        agg_of(rs).dom() == keys_of(rs),
{
    lemma_agg_of_models(rs);
}

/// Bounds: for every key of the aggregate, the stored minimum and maximum are
/// the true minimum and maximum of the values recorded under that key, the
/// count is their number, and the sum lies between `count * min` and
/// `count * max` — that is, the mean `sum / count` lies between the minimum
/// and the maximum.
pub proof fn lemma_bounds(rs: Seq<Rec>, k: Seq<u8>)
    requires
        agg_of(rs).dom().contains(k),
    ensures
        agg_of(rs)[k] == stat_of(vals_of(rs, k)),
        agg_of(rs)[k].count == vals_of(rs, k).len(),
        1 <= vals_of(rs, k).len(),
        forall|i: int|
            0 <= i < vals_of(rs, k).len() ==> agg_of(rs)[k].min <= #[trigger] vals_of(rs, k)[i],
        forall|i: int|
            0 <= i < vals_of(rs, k).len() ==> #[trigger] vals_of(rs, k)[i] <= agg_of(rs)[k].max,
        exists|i: int| 0 <= i < vals_of(rs, k).len() && vals_of(rs, k)[i] == agg_of(rs)[k].min,
        exists|i: int| 0 <= i < vals_of(rs, k).len() && vals_of(rs, k)[i] == agg_of(rs)[k].max,
        agg_of(rs)[k].min <= agg_of(rs)[k].max,
        agg_of(rs)[k].count * agg_of(rs)[k].min <= agg_of(rs)[k].sum,
        agg_of(rs)[k].sum <= agg_of(rs)[k].count * agg_of(rs)[k].max,
{
    lemma_agg_of_models(rs);
    lemma_stat_of_bounds(vals_of(rs, k));
}

/// Each key's count is bounded by the total number of records.
pub proof fn lemma_count_le_records(rs: Seq<Rec>, k: Seq<u8>)
    requires
        agg_of(rs).dom().contains(k),
    ensures
        agg_of(rs)[k].count <= rs.len(),
{
    lemma_bounds(rs, k);
    let pred = |q: Rec| q.key == k;
    rs.lemma_filter_len(pred);
}

/// Folding two records commutes.
pub proof fn lemma_agg_add_comm(m: Map<Seq<u8>, StatModel>, k1: Seq<u8>, v1: int, k2: Seq<u8>, v2: int)
    ensures
        agg_add(agg_add(m, k1, v1), k2, v2) == agg_add(agg_add(m, k2, v2), k1, v1),
{
    if k1 == k2 {
        assert(agg_add(agg_add(m, k1, v1), k2, v2) =~= agg_add(agg_add(m, k2, v2), k1, v1));
    } else {
        assert(agg_add(agg_add(m, k1, v1), k2, v2) =~= agg_add(agg_add(m, k2, v2), k1, v1));
    }
}

/// Order independence: two record sequences that are permutations of each
/// other — any redistribution of records over chunks and workers — have the
/// same aggregate.
pub proof fn lemma_order_independence(rs1: Seq<Rec>, rs2: Seq<Rec>)
    requires
        rs1.to_multiset() == rs2.to_multiset(),
    ensures
        agg_of(rs1) == agg_of(rs2),
{
    let f = agg_step();
    assert forall|x: Rec, y: Rec, v: Map<Seq<u8>, StatModel>| #[trigger] f(f(v, x), y) == f(
        f(v, y),
        x,
    ) by {
        lemma_agg_add_comm(v, x.key, x.val, y.key, y.val);
    }
    assert(commutative_foldl(f));
    lemma_fold_left_permutation(rs1, rs2, f, Map::<Seq<u8>, StatModel>::empty());
}

/// The merge of aggregate maps is commutative.
pub proof fn lemma_merge_comm(a: Map<Seq<u8>, StatModel>, b: Map<Seq<u8>, StatModel>)
    ensures
        agg_merge(a, b) == agg_merge(b, a),
{
    assert(agg_merge(a, b) =~= agg_merge(b, a));
}

/// Merge associativity: folding the same partial aggregates in any grouping
/// produces the same result.
pub proof fn lemma_merge_assoc(
    a: Map<Seq<u8>, StatModel>,
    b: Map<Seq<u8>, StatModel>,
    c: Map<Seq<u8>, StatModel>,
)
    ensures
        agg_merge(agg_merge(a, b), c) == agg_merge(a, agg_merge(b, c)),
{
    assert(agg_merge(agg_merge(a, b), c) =~= agg_merge(a, agg_merge(b, c)));
}

/// Folding a record into a merge is merging into the right operand.
pub proof fn lemma_merge_agg_add(
    a: Map<Seq<u8>, StatModel>,
    b: Map<Seq<u8>, StatModel>,
    k: Seq<u8>,
    v: int,
)
    ensures
        agg_add(agg_merge(a, b), k, v) == agg_merge(a, agg_add(b, k, v)),
{
    assert(agg_add(agg_merge(a, b), k, v) =~= agg_merge(a, agg_add(b, k, v)));
}

/// Folding records into a map is merging with their aggregate.
pub proof fn lemma_add_all_is_merge(m: Map<Seq<u8>, StatModel>, rs: Seq<Rec>)
    ensures
        agg_add_all(m, rs) == agg_merge(m, agg_of(rs)),
    decreases rs.len(),
{
    if rs.len() == 0 {
        assert(agg_merge(m, agg_of(rs)) =~= m);
    } else {
        let rs0 = rs.drop_last();
        let r = rs.last();
        lemma_add_all_is_merge(m, rs0);
        lemma_merge_agg_add(m, agg_of(rs0), r.key, r.val);
    }
}

/// Splitting the records anywhere and merging the two partial aggregates
/// yields the aggregate of the whole: chunk boundaries do not matter.
pub proof fn lemma_homomorphism(rs1: Seq<Rec>, rs2: Seq<Rec>)
    ensures
        agg_of(rs1 + rs2) == agg_merge(agg_of(rs1), agg_of(rs2)),
    decreases rs2.len(),
{
    lemma_add_all_concat(Map::empty(), rs1, rs2);
    lemma_add_all_is_merge(agg_of(rs1), rs2);
}

/// Folding a concatenation is folding the parts in turn.
pub proof fn lemma_add_all_concat(m: Map<Seq<u8>, StatModel>, rs1: Seq<Rec>, rs2: Seq<Rec>)
    ensures
        agg_add_all(m, rs1 + rs2) == agg_add_all(agg_add_all(m, rs1), rs2),
    decreases rs2.len(),
{
    if rs2.len() == 0 {
        assert(rs1 + rs2 =~= rs1);
    } else {
        lemma_add_all_concat(m, rs1, rs2.drop_last());
        assert((rs1 + rs2).drop_last() =~= rs1 + rs2.drop_last());
        assert((rs1 + rs2).len() > 0);
        assert((rs1 + rs2).last() == rs2.last());
    }
}

/// One key of an aggregate, with its statistics.
pub struct Entry {
    pub key: Vec<u8>,
    pub info: CityInfo,
}

pub open spec fn keys_distinct(es: Seq<Entry>) -> bool {
    forall|i: int, j: int|
        0 <= i < j < es.len() ==> (#[trigger] es[i]).key@ != (#[trigger] es[j]).key@
}

/// The map held by a sequence of entries.
pub open spec fn map_of(es: Seq<Entry>) -> Map<Seq<u8>, StatModel>
    decreases es.len(),
{
    if es.len() == 0 {
        Map::empty()
    } else {
        map_of(es.drop_last()).insert(es.last().key@, es.last().info@)
    }
}

pub proof fn lemma_map_of_dom(es: Seq<Entry>)
    ensures
        forall|i: int| 0 <= i < es.len() ==> map_of(es).dom().contains((#[trigger] es[i]).key@),
        forall|k: Seq<u8>| #[trigger]
            map_of(es).dom().contains(k) ==> exists|i: int| 0 <= i < es.len() && es[i].key@ == k,
    decreases es.len(),
{
    if es.len() > 0 {
        let es0 = es.drop_last();
        lemma_map_of_dom(es0);
        assert forall|i: int| 0 <= i < es.len() implies map_of(es).dom().contains(
            (#[trigger] es[i]).key@,
        ) by {
            if i < es.len() - 1 {
                assert(es0[i] == es[i]);
            }
        }
        assert forall|k: Seq<u8>| #[trigger] map_of(es).dom().contains(k) implies exists|i: int|
            0 <= i < es.len() && es[i].key@ == k by {
            if k == es.last().key@ {
                assert(es[es.len() - 1].key@ == k);
            } else {
                assert(map_of(es0).dom().contains(k));
                let i = choose|i: int| 0 <= i < es0.len() && es0[i].key@ == k;
                assert(es[i].key@ == k);
            }
        }
    }
}

pub proof fn lemma_map_of_index(es: Seq<Entry>, i: int)
    requires
        keys_distinct(es),
        0 <= i < es.len(),
    ensures
        map_of(es).dom().contains(es[i].key@),
        map_of(es)[es[i].key@] == es[i].info@,
    decreases es.len(),
{
    if i == es.len() - 1 {
    } else {
        let es0 = es.drop_last();
        assert(keys_distinct(es0)) by {
            assert(forall|a: int, b: int|
                0 <= a < b < es0.len() ==> es0[a] == es[a] && es0[b] == es[b]);
        }
        assert(es0[i] == es[i]);
        lemma_map_of_index(es0, i);
        assert(es[i].key@ != es.last().key@);
    }
}

pub proof fn lemma_map_of_update(es: Seq<Entry>, i: int, e2: Entry)
    requires
        keys_distinct(es),
        0 <= i < es.len(),
        e2.key@ == es[i].key@,
    ensures
        map_of(es.update(i, e2)) == map_of(es).insert(e2.key@, e2.info@),
    decreases es.len(),
{
    let es1 = es.update(i, e2);
    if i == es.len() - 1 {
        assert(es1.drop_last() =~= es.drop_last());
        assert(es1.last() == e2);
        assert(map_of(es1) == map_of(es.drop_last()).insert(e2.key@, e2.info@));
        assert(map_of(es.drop_last()).insert(es.last().key@, es.last().info@).insert(
            e2.key@,
            e2.info@,
        ) =~= map_of(es.drop_last()).insert(e2.key@, e2.info@));
    } else {
        let es0 = es.drop_last();
        assert(keys_distinct(es0)) by {
            assert(forall|a: int, b: int|
                0 <= a < b < es0.len() ==> es0[a] == es[a] && es0[b] == es[b]);
        }
        assert(es0[i] == es[i]);
        lemma_map_of_update(es0, i, e2);
        assert(es1.drop_last() =~= es0.update(i, e2));
        assert(es1.last() == es.last());
        assert(es[i].key@ != es.last().key@);
        assert(map_of(es0).insert(e2.key@, e2.info@).insert(es.last().key@, es.last().info@)
            =~= map_of(es0).insert(es.last().key@, es.last().info@).insert(e2.key@, e2.info@));
    }
}

/// Two aggregate maps can be merged without a key count exceeding the
/// machine word: the one machine limit on merging.
pub open spec fn merge_ok(a: Map<Seq<u8>, StatModel>, b: Map<Seq<u8>, StatModel>) -> bool {
    forall|k: Seq<u8>| #![auto]
        a.dom().contains(k) && b.dom().contains(k) ==> a[k].count + b[k].count <= usize::MAX
}

pub proof fn lemma_merge_insert(
    a: Map<Seq<u8>, StatModel>,
    m: Map<Seq<u8>, StatModel>,
    k: Seq<u8>,
    s: StatModel,
)
    requires
        !m.dom().contains(k),
    ensures
        agg_merge(a, m.insert(k, s)) == (if a.dom().contains(k) {
            agg_merge(a, m).insert(k, stat_join(a[k], s))
        } else {
            agg_merge(a, m).insert(k, s)
        }),
{
    if a.dom().contains(k) {
        assert(agg_merge(a, m.insert(k, s)) =~= agg_merge(a, m).insert(k, stat_join(a[k], s)));
    } else {
        assert(agg_merge(a, m.insert(k, s)) =~= agg_merge(a, m).insert(k, s));
    }
}

/// Byte-string equality.
pub fn bytes_eq(a: &[u8], b: &[u8]) -> (r: bool)
    ensures
        r <==> a@ == b@,
{
    let n = a.len();
    if n != b.len() {
        return false;
    }
    let mut i: usize = 0;
    while i < n
        invariant
            n == a@.len(),
            n == b@.len(),
            0 <= i <= n,
            forall|j: int| 0 <= j < i ==> a@[j] == b@[j],
        decreases n - i,
    {
        if *slice_index_get(a, i) != *slice_index_get(b, i) {
            return false;
        }
        i = i + 1;
    }
    proof {
        assert(a@ =~= b@);
    }
    true
}

/// A worker-local or final aggregate: a mapping from keys to statistics with
/// unique keys.
pub struct Aggregate {
    pub entries: Vec<Entry>,
}

impl View for Aggregate {
    type V = Map<Seq<u8>, StatModel>;

    open spec fn view(&self) -> Map<Seq<u8>, StatModel> {
        map_of(self.entries@)
    }
}

impl Aggregate {
    pub open spec fn wf(&self) -> bool {
        &&& keys_distinct(self.entries@)
        &&& forall|i: int| 0 <= i < self.entries@.len() ==> stat_wf((#[trigger] self.entries@[i]).info@)
    }

    /// An empty aggregate, as each worker starts with.
    pub fn new_empty() -> (r: Aggregate)
        ensures
            r.wf(),
            r@ == Map::<Seq<u8>, StatModel>::empty(),
    {
        Aggregate { entries: Vec::new() }
    }

    /// Index of the entry holding `key`, if any.
    fn find(&self, key: &[u8]) -> (r: Option<usize>)
        requires
            self.wf(),
        ensures
            match r {
                Some(i) => i < self.entries@.len() && self.entries@[i as int].key@ == key@
                    && self@.dom().contains(key@) && self@[key@] == self.entries@[i as int].info@,
                None => !self@.dom().contains(key@),
            },
    {
        let n = self.entries.len();
        let mut i: usize = 0;
        while i < n
            invariant
                n == self.entries@.len(),
                0 <= i <= n,
                self.wf(),
                forall|j: int| 0 <= j < i ==> (#[trigger] self.entries@[j]).key@ != key@,
            decreases n - i,
        {
            if bytes_eq(self.entries[i].key.as_slice(), key) {
                proof {
                    lemma_map_of_index(self.entries@, i as int);
                }
                return Some(i);
            }
            i = i + 1;
        }
        proof {
            lemma_map_of_dom(self.entries@);
        }
        None
    }

    /// The statistics recorded for `key`, if any.
    pub fn get(&self, key: &[u8]) -> (r: Option<&CityInfo>)
        requires
            self.wf(),
        ensures
            match r {
                Some(c) => self@.dom().contains(key@) && c@ == self@[key@] && stat_wf(c@),
                None => !self@.dom().contains(key@),
            },
    {
        match self.find(key) {
            Some(i) => {
                proof {
                    lemma_map_of_index(self.entries@, i as int);
                }
                Some(&self.entries[i].info)
            },
            None => None,
        }
    }

    /// Number of distinct keys.
    pub fn len(&self) -> (n: usize)
        ensures
            n == self.entries@.len(),
    {
        self.entries.len()
    }

    /// The online per-record update: fold one observed value into the
    /// aggregate under its key.
    pub fn record(&mut self, key: &[u8], v: i64)
        requires
            old(self).wf(),
            -VAL_BOUND < v < VAL_BOUND,
            old(self)@.dom().contains(key@) ==> old(self)@[key@].count < usize::MAX,
        ensures
            final(self).wf(),
            final(self)@ == agg_add(old(self)@, key@, v as int),
    {
        match self.find(key) {
            Some(i) => {
                let mut info = self.entries[i].info;
                info.add(v);
                let ghost es = self.entries@;
                self.entries[i].info = info;
                proof {
                    let e2 = self.entries@[i as int];
                    assert(self.entries@ =~= es.update(i as int, e2));
                    assert(e2.key@ == es[i as int].key@);
                    lemma_map_of_update(es, i as int, e2);
                    assert(keys_distinct(self.entries@)) by {
                        assert(forall|a: int|
                            0 <= a < es.len() ==> (#[trigger] self.entries@[a]).key@
                                == es[a].key@);
                    }
                }
            },
            None => {
                let name = vstd::slice::slice_to_vec(key);
                self.entries.push(Entry { key: name, info: CityInfo::new(v) });
                proof {
                    let es0 = old(self).entries@;
                    assert(self.entries@.drop_last() =~= es0);
                    lemma_map_of_dom(es0);
                    assert(keys_distinct(self.entries@)) by {
                        assert forall|a: int, b: int|
                            0 <= a < b < self.entries@.len() implies (
                        #[trigger] self.entries@[a]).key@ != (#[trigger] self.entries@[b]).key@ by {
                            if b == self.entries@.len() - 1 {
                                assert(self.entries@[a] == es0[a]);
                                assert(map_of(es0).dom().contains(es0[a].key@));
                            } else {
                                assert(self.entries@[a] == es0[a]);
                                assert(self.entries@[b] == es0[b]);
                            }
                        }
                    }
                }
            },
        }
    }

    /// True when merging `other` into `self` would keep every key's count
    /// within the machine word.
    pub fn can_merge(&self, other: &Aggregate) -> (r: bool)
        requires
            self.wf(),
            other.wf(),
        ensures
            r <==> merge_ok(self@, other@),
    {
        let n = other.entries.len();
        let mut j: usize = 0;
        while j < n
            invariant
                n == other.entries@.len(),
                0 <= j <= n,
                self.wf(),
                other.wf(),
                forall|jj: int| #![auto]
                    0 <= jj < j && self@.dom().contains(other.entries@[jj].key@)
                        ==> self@[other.entries@[jj].key@].count + other.entries@[jj].info@.count
                        <= usize::MAX,
            decreases n - j,
        {
            match self.find(other.entries[j].key.as_slice()) {
                Some(i) => {
                    let a = self.entries[i].info.count;
                    let b = other.entries[j].info.count;
                    if a > usize::MAX - b {
                        proof {
                            lemma_map_of_index(other.entries@, j as int);
                        }
                        return false;
                    }
                },
                None => {},
            }
            j = j + 1;
        }
        proof {
            assert forall|k: Seq<u8>| #![auto]
                self@.dom().contains(k) && other@.dom().contains(k) implies self@[k].count
                + other@[k].count <= usize::MAX by {
                lemma_map_of_dom(other.entries@);
                let jj = choose|jj: int| 0 <= jj < other.entries@.len() && other.entries@[jj].key@
                    == k;
                lemma_map_of_index(other.entries@, jj);
            }
        }
        true
    }

    /// The merge step: fold another aggregate into this one, combining shared
    /// keys with the count-weighted join.
    pub fn merge_from(&mut self, other: &Aggregate)
        requires
            old(self).wf(),
            other.wf(),
            merge_ok(old(self)@, other@),
        ensures
            final(self).wf(),
            final(self)@ == agg_merge(old(self)@, other@),
    {
        let n = other.entries.len();
        let mut j: usize = 0;
        while j < n
            invariant
                n == other.entries@.len(),
                0 <= j <= n,
                self.wf(),
                other.wf(),
                merge_ok(old(self)@, other@),
                self@ == agg_merge(old(self)@, map_of(other.entries@.take(j as int))),
            decreases n - j,
        {
            let ghost mt = map_of(other.entries@.take(j as int));
            let ghost k = other.entries@[j as int].key@;
            proof {
                lemma_map_of_index(other.entries@, j as int);
                lemma_map_of_dom(other.entries@.take(j as int));
                assert(!mt.dom().contains(k)) by {
                    if mt.dom().contains(k) {
                        let jj = choose|jj: int|
                            0 <= jj < other.entries@.take(j as int).len()
                                && other.entries@.take(j as int)[jj].key@ == k;
                        assert(other.entries@[jj].key@ == k);
                    }
                }
                assert(other.entries@.take(j as int + 1).drop_last() =~= other.entries@.take(
                    j as int,
                ));
                assert(other.entries@.take(j as int + 1).last() == other.entries@[j as int]);
                assert(map_of(other.entries@.take(j as int + 1)) == mt.insert(
                    k,
                    other.entries@[j as int].info@,
                ));
                lemma_merge_insert(old(self)@, mt, k, other.entries@[j as int].info@);
            }
            match self.find(other.entries[j].key.as_slice()) {
                Some(i) => {
                    let mut info = self.entries[i].info;
                    info.join(&other.entries[j].info);
                    let ghost es = self.entries@;
                    self.entries[i].info = info;
                    proof {
                        let e2 = self.entries@[i as int];
                        assert(self.entries@ =~= es.update(i as int, e2));
                        lemma_map_of_update(es, i as int, e2);
                        assert(keys_distinct(self.entries@)) by {
                            assert(forall|a: int|
                                0 <= a < es.len() ==> (#[trigger] self.entries@[a]).key@
                                    == es[a].key@);
                        }
                    }
                },
                None => {
                    let name = vstd::slice::slice_to_vec(other.entries[j].key.as_slice());
                    let ghost es0 = self.entries@;
                    self.entries.push(Entry { key: name, info: other.entries[j].info });
                    proof {
                        assert(self.entries@.drop_last() =~= es0);
                        lemma_map_of_dom(es0);
                        assert(keys_distinct(self.entries@)) by {
                            assert forall|a: int, b: int|
                                0 <= a < b < self.entries@.len() implies (
                            #[trigger] self.entries@[a]).key@ != (
                            #[trigger] self.entries@[b]).key@ by {
                                if b == self.entries@.len() - 1 {
                                    assert(self.entries@[a] == es0[a]);
                                    assert(map_of(es0).dom().contains(es0[a].key@));
                                } else {
                                    assert(self.entries@[a] == es0[a]);
                                    assert(self.entries@[b] == es0[b]);
                                }
                            }
                        }
                    }
                },
            }
            j = j + 1;
        }
        proof {
            assert(other.entries@.take(n as int) =~= other.entries@);
        }
    }
}

/// Worker independence: however the records are divided among workers, the
/// fold of the per-worker aggregates equals the aggregate of all records in
/// one pass. Together with `lemma_order_independence` this makes the final
/// aggregate the same for every worker count and chunk assignment.
pub proof fn lemma_merge_of_workers(ws: Seq<Seq<Rec>>)
    ensures
        agg_fold(ws.map_values(|rs: Seq<Rec>| agg_of(rs))) == agg_of(ws.flatten()),
{
    lemma_merge_of_workers_alt(ws);
    ws.lemma_flatten_and_flatten_alt_are_equivalent();
}

proof fn lemma_merge_of_workers_alt(ws: Seq<Seq<Rec>>)
    ensures
        agg_fold(ws.map_values(|rs: Seq<Rec>| agg_of(rs))) == agg_of(ws.flatten_alt()),
    decreases ws.len(),
{
    let f = |rs: Seq<Rec>| agg_of(rs);
    if ws.len() == 0 {
        assert(agg_of(ws.flatten_alt()) =~= Map::<Seq<u8>, StatModel>::empty());
    } else {
        lemma_merge_of_workers_alt(ws.drop_last());
        assert(ws.drop_last().map_values(f) =~= ws.map_values(f).drop_last());
        assert(ws.map_values(f).last() == f(ws.last()));
        lemma_homomorphism(ws.drop_last().flatten_alt(), ws.last());
    }
}

/// The fold of a sequence of partial aggregates, left to right.
pub open spec fn agg_fold(ms: Seq<Map<Seq<u8>, StatModel>>) -> Map<Seq<u8>, StatModel>
    decreases ms.len(),
{
    if ms.len() == 0 {
        Map::empty()
    } else {
        agg_merge(agg_fold(ms.drop_last()), ms.last())
    }
}

/// Whether that fold stays within the machine limit on counts at every step.
pub open spec fn agg_fold_ok(ms: Seq<Map<Seq<u8>, StatModel>>) -> bool
    decreases ms.len(),
{
    if ms.len() == 0 {
        true
    } else {
        agg_fold_ok(ms.drop_last()) && merge_ok(agg_fold(ms.drop_last()), ms.last())
    }
}

pub open spec fn views_of(ps: Seq<Aggregate>) -> Seq<Map<Seq<u8>, StatModel>> {
    ps.map_values(|a: Aggregate| a@)
}

pub proof fn lemma_fold_ok_prefix(ms: Seq<Map<Seq<u8>, StatModel>>, i: int)
    requires
        0 <= i <= ms.len(),
        agg_fold_ok(ms),
    ensures
        agg_fold_ok(ms.take(i)),
    decreases ms.len(),
{
    if i == ms.len() {
        assert(ms.take(i) =~= ms);
    } else {
        assert(ms.take(i) =~= ms.drop_last().take(i));
        lemma_fold_ok_prefix(ms.drop_last(), i);
    }
}

impl Aggregate {
    /// The whole merge step: fold the partial aggregates, one per worker, in
    /// the order they were collected, into one final aggregate. Returns no
    /// aggregate exactly when a key's total count would exceed the machine
    /// word along that fold.
    pub fn new(partials: Vec<Aggregate>) -> (r: Option<Aggregate>)
        requires
            forall|i: int| 0 <= i < partials@.len() ==> (#[trigger] partials@[i]).wf(),
        ensures
            r.is_some() <==> agg_fold_ok(views_of(partials@)),
            r matches Some(a) ==> a.wf() && a@ == agg_fold(views_of(partials@)),
    {
        let ghost ms = views_of(partials@);
        let mut acc = Aggregate::new_empty();
        let n = partials.len();
        let mut i: usize = 0;
        while i < n
            invariant
                n == partials@.len(),
                0 <= i <= n,
                forall|ii: int| 0 <= ii < partials@.len() ==> (#[trigger] partials@[ii]).wf(),
                ms == views_of(partials@),
                acc.wf(),
                acc@ == agg_fold(ms.take(i as int)),
                agg_fold_ok(ms.take(i as int)),
            decreases n - i,
        {
            let p = &partials[i];
            proof {
                assert(ms[i as int] == p@);
                assert(ms.take(i as int + 1).drop_last() =~= ms.take(i as int));
                assert(ms.take(i as int + 1).last() == ms[i as int]);
            }
            if !acc.can_merge(p) {
                proof {
                    if agg_fold_ok(ms) {
                        lemma_fold_ok_prefix(ms, i as int + 1);
                    }
                }
                return None;
            }
            acc.merge_from(p);
            i = i + 1;
        }
        proof {
            assert(ms.take(n as int) =~= ms);
        }
        Some(acc)
    }
}

} // verus!

use vstd::prelude::*;
use indexmap::IndexMap;
use crate::key::{Key, group_key, key_prefix, resolve_key};

verus! {

/// Counters of one group: not-ignored bytes, ignored bytes, and whether the
/// entry that created the group was a file.
pub type Counts = (u64, u64, bool);

/// A row of the table as executable values.
pub type Row = (Key, Counts);

/// A group's counters in the model: not-ignored bytes, ignored bytes, file flag.
pub type NodeV = (nat, nat, bool);

/// A row of the table in the model.
pub type RowV = (Seq<Seq<u8>>, NodeV);

#[verifier::external_type_specification]
#[verifier::external_body]
#[verifier::reject_recursive_types(K)]
#[verifier::reject_recursive_types(V)]
#[verifier::reject_recursive_types(S)]
pub struct ExIndexMap<K, V, S>(IndexMap<K, V, S>);

/// The rows of an index map, in insertion order.
pub uninterp spec fn map_rows(m: IndexMap<Key, Counts>) -> Seq<(Seq<Seq<u8>>, Counts)>;

/// Relies on `IndexMap::new`: a new map holds no rows.
#[verifier::external_body]
fn map_new() -> (r: IndexMap<Key, Counts>)
    ensures
        map_rows(r) == Seq::<(Seq<Seq<u8>>, Counts)>::empty(),
{
    IndexMap::new()
}

/// Relies on `IndexMap::get_index_of`: the position of the row whose key
/// equals `k`, if there is one.
#[verifier::external_body]
fn map_index_of(m: &IndexMap<Key, Counts>, k: &Key) -> (r: Option<usize>)
    ensures
        match r {
            Some(i) => i < map_rows(*m).len() && map_rows(*m)[i as int].0 == k.deep_view(),
            None => forall|j: int| 0 <= j < map_rows(*m).len() ==> map_rows(*m)[j].0 != k.deep_view(),
        },
{
    m.get_index_of(k)
}

/// Relies on `Index<usize>` of `IndexMap`: the value of the row at position `i`.
#[verifier::external_body]
fn map_value_at(m: &IndexMap<Key, Counts>, i: usize) -> (r: Counts)
    requires
        i < map_rows(*m).len(),
    ensures
        r == map_rows(*m)[i as int].1,
{
    m[i]
}

/// Relies on `IndexMut<usize>` of `IndexMap`: replaces the value of the row at
/// position `i`, leaving its key and every other row as they were.
#[verifier::external_body]
fn map_set_at(m: &mut IndexMap<Key, Counts>, i: usize, v: Counts)
    requires
        i < map_rows(*old(m)).len(),
    ensures
        map_rows(*final(m)) == map_rows(*old(m)).update(i as int, (map_rows(*old(m))[i as int].0, v)),
{
    m[i] = v;
}

/// Relies on `IndexMap::insert`: a key that no row holds is added as the last row.
#[verifier::external_body]
fn map_push(m: &mut IndexMap<Key, Counts>, k: Key, v: Counts)
    requires
        forall|j: int| 0 <= j < map_rows(*old(m)).len() ==> map_rows(*old(m))[j].0 != k.deep_view(),
    ensures
        map_rows(*final(m)) == map_rows(*old(m)).push((k.deep_view(), v)),
{
    m.insert(k, v);
}

/// Relies on `IntoIterator` of `IndexMap`: the rows come out in insertion order.
#[verifier::external_body]
fn map_into_rows(m: IndexMap<Key, Counts>) -> (r: Vec<Row>)
    ensures
        r.deep_view() == map_rows(m),
{
    m.into_iter().collect()
}

/// Adds `size` bytes to the ignored or the not-ignored counter of a node.
pub open spec fn credit(n: NodeV, ignored: bool, size: nat) -> NodeV {
    if ignored {
        (n.0, n.1 + size, n.2)
    } else {
        (n.0 + size, n.1, n.2)
    }
}

/// The combined total of a node.
pub open spec fn node_total(n: NodeV) -> nat {
    n.0 + n.1
}

/// Credits `size` bytes to the row keyed `k`, adding that row last, with its
/// file flag from `is_file`, when no row holds `k`.
pub open spec fn bump(t: Seq<RowV>, k: Seq<Seq<u8>>, is_file: bool, ignored: bool, size: nat) -> Seq<RowV>
    decreases t.len(),
{
    if t.len() == 0 {
        seq![(k, credit((0, 0, is_file), ignored, size))]
    } else if t[0].0 == k {
        seq![(k, credit(t[0].1, ignored, size))] + t.drop_first()
    } else {
        seq![t[0]] + bump(t.drop_first(), k, is_file, ignored, size)
    }
}

/// Bumps the prefixes of `k` of lengths `0 .. n`, shortest first.
pub open spec fn bump_upto(t: Seq<RowV>, k: Seq<Seq<u8>>, n: nat, is_file: bool, ignored: bool, size: nat) -> Seq<RowV>
    decreases n,
{
    if n == 0 {
        t
    } else {
        bump(bump_upto(t, k, (n - 1) as nat, is_file, ignored, size), k.take(n - 1), is_file, ignored, size)
    }
}

/// One entry of the walk, as the table takes it.
pub struct Entry {
    /// Path components relative to the scan root.
    pub path: Key,
    pub is_file: bool,
    pub ignored: bool,
    /// The entry's byte count under the chosen size policy.
    pub size: u64,
}

/// The table after one more entry: with roll-up, every prefix of the entry's
/// key from the empty key to the key itself is credited; without, the key alone.
pub open spec fn record(t: Seq<RowV>, e: Entry, max_depth: Option<u64>, roll_up: bool) -> Seq<RowV> {
    let k = group_key(e.path.deep_view(), e.is_file, max_depth);
    if roll_up {
        bump(bump_upto(t, k, k.len(), e.is_file, e.ignored, e.size as nat), k, e.is_file, e.ignored, e.size as nat)
    } else {
        bump(t, k, e.is_file, e.ignored, e.size as nat)
    }
}

/// The table built by one pass over `es`, in order.
pub open spec fn aggregate(es: Seq<Entry>, max_depth: Option<u64>, roll_up: bool) -> Seq<RowV>
    decreases es.len(),
{
    if es.len() == 0 {
        Seq::empty()
    } else {
        record(aggregate(es.drop_last(), max_depth, roll_up), es.last(), max_depth, roll_up)
    }
}

/// The sum of the byte counts of `es`.
pub open spec fn sum_sizes(es: Seq<Entry>) -> nat
    decreases es.len(),
{
    if es.len() == 0 {
        0
    } else {
        sum_sizes(es.drop_last()) + es.last().size as nat
    }
}

/// No two rows share a key.
pub open spec fn keys_unique(t: Seq<RowV>) -> bool {
    forall|i: int, j: int| 0 <= i < t.len() && 0 <= j < t.len() && i != j ==> t[i].0 != t[j].0
}

/// The model of executable rows.
pub open spec fn rows_model(s: Seq<(Seq<Seq<u8>>, Counts)>) -> Seq<RowV> {
    s.map_values(|r: (Seq<Seq<u8>>, Counts)| (r.0, (r.1.0 as nat, r.1.1 as nat, r.1.2)))
}

proof fn lemma_bump_found(t: Seq<RowV>, k: Seq<Seq<u8>>, i: int, is_file: bool, ignored: bool, size: nat)
    requires
        0 <= i < t.len(),
        t[i].0 == k,
        forall|j: int| 0 <= j < i ==> t[j].0 != k,
    ensures
        bump(t, k, is_file, ignored, size) == t.update(i, (k, credit(t[i].1, ignored, size))),
    decreases i,
{
    if i == 0 {
        assert(bump(t, k, is_file, ignored, size) =~= t.update(i, (k, credit(t[i].1, ignored, size))));
    } else {
        let r = t.drop_first();
        assert forall|j: int| 0 <= j < i - 1 implies r[j].0 != k by {
            assert(r[j] == t[j + 1]);
        }
        lemma_bump_found(r, k, i - 1, is_file, ignored, size);
        assert(bump(t, k, is_file, ignored, size) =~= t.update(i, (k, credit(t[i].1, ignored, size))));
    }
}

proof fn lemma_bump_absent(t: Seq<RowV>, k: Seq<Seq<u8>>, is_file: bool, ignored: bool, size: nat)
    requires
        forall|j: int| 0 <= j < t.len() ==> t[j].0 != k,
    ensures
        bump(t, k, is_file, ignored, size) == t.push((k, credit((0, 0, is_file), ignored, size))),
    decreases t.len(),
{
    if t.len() == 0 {
        assert(bump(t, k, is_file, ignored, size) =~= t.push((k, credit((0, 0, is_file), ignored, size))));
    } else {
        let r = t.drop_first();
        assert forall|j: int| 0 <= j < r.len() implies r[j].0 != k by {
            assert(r[j] == t[j + 1]);
        }
        lemma_bump_absent(r, k, is_file, ignored, size);
        assert(bump(t, k, is_file, ignored, size) =~= t.push((k, credit((0, 0, is_file), ignored, size))));
    }
}

/// The counters of the row keyed `k`, if there is one.
pub open spec fn node_of(t: Seq<RowV>, k: Seq<Seq<u8>>) -> Option<NodeV>
    decreases t.len(),
{
    if t.len() == 0 {
        None
    } else if t[0].0 == k {
        Some(t[0].1)
    } else {
        node_of(t.drop_first(), k)
    }
}

/// `m` is the largest combined total of the rows of `t`, and 0 when there are none.
pub open spec fn is_max_total(t: Seq<RowV>, m: nat) -> bool {
    &&& forall|i: int| 0 <= i < t.len() ==> node_total(#[trigger] t[i].1) <= m
    &&& t.len() == 0 ==> m == 0
    &&& t.len() > 0 ==> exists|i: int| 0 <= i < t.len() && node_total(#[trigger] t[i].1) == m
}

proof fn lemma_node_of_bump(t: Seq<RowV>, k: Seq<Seq<u8>>, k2: Seq<Seq<u8>>, is_file: bool, ignored: bool, size: nat)
    ensures
        node_of(bump(t, k, is_file, ignored, size), k2) == if k2 == k {
            Some(credit(
                match node_of(t, k) {
                    Some(n) => n,
                    None => (0nat, 0nat, is_file),
                },
                ignored,
                size,
            ))
        } else {
            node_of(t, k2)
        },
    decreases t.len(),
{
    let b = bump(t, k, is_file, ignored, size);
    if t.len() == 0 {
    } else if t[0].0 == k {
        assert(b.drop_first() =~= t.drop_first());
    } else {
        assert(b.drop_first() =~= bump(t.drop_first(), k, is_file, ignored, size));
        lemma_node_of_bump(t.drop_first(), k, k2, is_file, ignored, size);
    }
}

proof fn lemma_node_of_index(t: Seq<RowV>, k: Seq<Seq<u8>>, i: int)
    requires
        keys_unique(t),
        0 <= i < t.len(),
        t[i].0 == k,
    ensures
        node_of(t, k) == Some(t[i].1),
    decreases i,
{
    if i > 0 {
        assert(t[0].0 != t[i].0);
        let r = t.drop_first();
        assert(r[i - 1] == t[i]);
        assert forall|a: int, b: int| 0 <= a < r.len() && 0 <= b < r.len() && a != b implies r[a].0 != r[b].0 by {
            assert(r[a] == t[a + 1] && r[b] == t[b + 1]);
        }
        lemma_node_of_index(r, k, i - 1);
    }
}

proof fn lemma_node_of_in(t: Seq<RowV>, k: Seq<Seq<u8>>)
    ensures
        node_of(t, k) is Some ==> exists|i: int| 0 <= i < t.len() && t[i].1 == node_of(t, k)->0,
    decreases t.len(),
{
    if t.len() > 0 && t[0].0 != k {
        let r = t.drop_first();
        lemma_node_of_in(r, k);
        if node_of(r, k) is Some {
            let i = choose|i: int| 0 <= i < r.len() && r[i].1 == node_of(r, k)->0;
            assert(t[i + 1] == r[i]);
        }
    }
}

/// The counters of the row keyed `k`, or fresh counters when there is none.
pub open spec fn node_or_fresh(t: Seq<RowV>, k: Seq<Seq<u8>>, is_file: bool) -> NodeV {
    match node_of(t, k) {
        Some(n) => n,
        None => (0nat, 0nat, is_file),
    }
}

/// The root key: no components.
pub open spec fn root_key() -> Seq<Seq<u8>> {
    Seq::empty()
}

proof fn lemma_upto_root(t: Seq<RowV>, k: Seq<Seq<u8>>, n: nat, is_file: bool, ignored: bool, size: nat)
    requires
        1 <= n <= k.len(),
    ensures
        node_of(bump_upto(t, k, n, is_file, ignored, size), root_key())
            == Some(credit(node_or_fresh(t, root_key(), is_file), ignored, size)),
    decreases n,
{
    if n == 1 {
        assert(k.take(0) =~= root_key());
        assert(bump_upto(t, k, 0, is_file, ignored, size) == t);
        lemma_node_of_bump(t, k.take(0), root_key(), is_file, ignored, size);
    } else {
        let prev = bump_upto(t, k, (n - 1) as nat, is_file, ignored, size);
        lemma_upto_root(t, k, (n - 1) as nat, is_file, ignored, size);
        assert(k.take(n - 1).len() != root_key().len());
        lemma_node_of_bump(prev, k.take(n - 1), root_key(), is_file, ignored, size);
    }
}

proof fn lemma_record_root(t: Seq<RowV>, e: Entry, max_depth: Option<u64>)
    ensures
        node_of(record(t, e, max_depth, true), root_key())
            == Some(credit(node_or_fresh(t, root_key(), e.is_file), e.ignored, e.size as nat)),
{
    let k = group_key(e.path.deep_view(), e.is_file, max_depth);
    let s = e.size as nat;
    let u = bump_upto(t, k, k.len(), e.is_file, e.ignored, s);
    if k.len() == 0 {
        assert(k =~= root_key());
        lemma_node_of_bump(u, k, root_key(), e.is_file, e.ignored, s);
    } else {
        lemma_upto_root(t, k, k.len(), e.is_file, e.ignored, s);
        lemma_node_of_bump(u, k, root_key(), e.is_file, e.ignored, s);
    }
}

/// With roll-up, the root group's combined total is the sum of the sizes of
/// all entries, whatever the depth bound; the root group exists once any
/// entry has been recorded.
pub proof fn lemma_root_total(es: Seq<Entry>, max_depth: Option<u64>)
    ensures
        match node_of(aggregate(es, max_depth, true), root_key()) {
            Some(n) => node_total(n) == sum_sizes(es),
            None => es.len() == 0,
        },
    decreases es.len(),
{
    if es.len() > 0 {
        let prev = es.drop_last();
        lemma_root_total(prev, max_depth);
        lemma_record_root(aggregate(prev, max_depth, true), es.last(), max_depth);
        assert(aggregate(es, max_depth, true) == record(aggregate(prev, max_depth, true), es.last(), max_depth, true));
        assert(sum_sizes(es) == sum_sizes(prev) + es.last().size as nat);
        if prev.len() == 0 {
            assert(aggregate(prev, max_depth, true) =~= Seq::<RowV>::empty());
        }
    }
}

/// With a depth bound of 0, the table of a non-empty entry set has exactly
/// one row, the root key, whose combined total is the sum of all sizes.
pub proof fn lemma_summary(es: Seq<Entry>, roll_up: bool)
    requires
        es.len() > 0,
    ensures
        aggregate(es, Some(0u64), roll_up).len() == 1,
        aggregate(es, Some(0u64), roll_up)[0].0 == root_key(),
        node_total(aggregate(es, Some(0u64), roll_up)[0].1) == sum_sizes(es),
    decreases es.len(),
{
    let prev = es.drop_last();
    let e = es.last();
    let t = aggregate(prev, Some(0u64), roll_up);
    let k = group_key(e.path.deep_view(), e.is_file, Some(0u64));
    assert(k =~= root_key());
    assert(bump_upto(t, k, 0, e.is_file, e.ignored, e.size as nat) == t);
    assert(aggregate(es, Some(0u64), roll_up) == record(t, e, Some(0u64), roll_up));
    assert(record(t, e, Some(0u64), roll_up) == bump(t, k, e.is_file, e.ignored, e.size as nat));
    assert(sum_sizes(es) == sum_sizes(prev) + e.size as nat);
    if prev.len() == 0 {
        assert(t =~= Seq::<RowV>::empty());
    } else {
        lemma_summary(prev, roll_up);
        assert(t.drop_first() =~= Seq::<RowV>::empty());
        assert(bump(t.drop_first(), k, e.is_file, e.ignored, e.size as nat).len() == 1);
    }
}

/// The aggregation table of one scan root: one row per group key, in the
/// order in which keys were first reached, and the largest combined total.
pub struct Table {
    groups: IndexMap<Key, Counts>,
    max_size: u64,
    max_depth: Option<u64>,
    roll_up: bool,
}

impl Table {
    /// The rows, in insertion order.
    pub closed spec fn rows(&self) -> Seq<RowV> {
        rows_model(map_rows(self.groups))
    }

    /// The largest combined total of any row.
    pub closed spec fn global_max(&self) -> nat {
        self.max_size as nat
    }

    pub closed spec fn depth_limit(&self) -> Option<u64> {
        self.max_depth
    }

    pub closed spec fn rolls_up(&self) -> bool {
        self.roll_up
    }

    /// Keys are unique and `global_max` is the largest combined total.
    pub open spec fn wf(&self) -> bool {
        keys_unique(self.rows()) && is_max_total(self.rows(), self.global_max())
    }

    /// An empty table that keys entries by at most `max_depth` components
    /// (`None`: no bound) and credits every ancestor key when `roll_up` is set.
    pub fn new(max_depth: Option<u64>, roll_up: bool) -> (r: Table)
        ensures
            r.wf(),
            r.rows() == Seq::<RowV>::empty(),
            r.global_max() == 0,
            r.depth_limit() == max_depth,
            r.rolls_up() == roll_up,
    {
        let r = Table { groups: map_new(), max_size: 0, max_depth, roll_up };
        assert(r.rows() =~= Seq::<RowV>::empty());
        r
    }

    /// The largest combined total of any row.
    pub fn max_size(&self) -> (r: u64)
        ensures
            r == self.global_max(),
    {
        self.max_size
    }

    /// Credits `size` bytes to the row keyed `k`, creating it when absent.
    fn credit_key(&mut self, k: Key, is_file: bool, ignored: bool, size: u64)
        requires
            old(self).wf(),
            match node_of(old(self).rows(), k.deep_view()) {
                Some(n) => node_total(n) + size <= u64::MAX,
                None => true,
            },
        ensures
            final(self).wf(),
            final(self).rows() == bump(old(self).rows(), k.deep_view(), is_file, ignored, size as nat),
            final(self).depth_limit() == old(self).depth_limit(),
            final(self).rolls_up() == old(self).rolls_up(),
    {
        let ghost t = self.rows();
        let ghost kv = k.deep_view();
        let ghost old_max = self.global_max();
        match map_index_of(&self.groups, &k) {
            Some(i) => {
                proof {
                    lemma_node_of_index(t, kv, i as int);
                    assert forall|j: int| 0 <= j < i implies t[j].0 != kv by {
                        assert(t[j].0 != t[i as int].0);
                    }
                    lemma_bump_found(t, kv, i as int, is_file, ignored, size as nat);
                }
                let c = map_value_at(&self.groups, i);
                let c2: Counts = if ignored { (c.0, c.1 + size, c.2) } else { (c.0 + size, c.1, c.2) };
                let total: u64 = c2.0 + c2.1;
                map_set_at(&mut self.groups, i, c2);
                assert(self.rows() =~= t.update(i as int, (kv, credit(t[i as int].1, ignored, size as nat))));
                if total > self.max_size {
                    self.max_size = total;
                }
                proof {
                    let t2 = self.rows();
                    assert(node_total(t2[i as int].1) == total);
                    assert forall|a: int, b: int| 0 <= a < t2.len() && 0 <= b < t2.len() && a != b implies t2[a].0 != t2[b].0 by {
                        assert(t2[a].0 == t[a].0 && t2[b].0 == t[b].0);
                    }
                    assert forall|j: int| 0 <= j < t2.len() implies node_total(#[trigger] t2[j].1) <= self.global_max() by {
                        if j != i {
                            assert(t2[j] == t[j]);
                        }
                    }
                    if total as nat <= old_max {
                        let w = choose|w: int| 0 <= w < t.len() && node_total(#[trigger] t[w].1) == old_max;
                        if w != i {
                            assert(t2[w] == t[w]);
                        }
                    }
                }
            },
            None => {
                proof {
                    lemma_bump_absent(t, kv, is_file, ignored, size as nat);
                }
                let c2: Counts = if ignored { (0, size, is_file) } else { (size, 0, is_file) };
                map_push(&mut self.groups, k, c2);
                assert(self.rows() =~= t.push((kv, credit((0, 0, is_file), ignored, size as nat))));
                if size > self.max_size {
                    self.max_size = size;
                }
                proof {
                    let t2 = self.rows();
                    let n = t.len() as int;
                    assert(node_total(t2[n].1) == size);
                    assert forall|a: int, b: int| 0 <= a < t2.len() && 0 <= b < t2.len() && a != b implies t2[a].0 != t2[b].0 by {
                        if a < n && b < n {
                            assert(t2[a].0 == t[a].0 && t2[b].0 == t[b].0);
                        } else if a < n {
                            assert(t2[a].0 == t[a].0);
                        } else if b < n {
                            assert(t2[b].0 == t[b].0);
                        }
                    }
                    assert forall|j: int| 0 <= j < t2.len() implies node_total(#[trigger] t2[j].1) <= self.global_max() by {
                        if j < n {
                            assert(t2[j] == t[j]);
                        }
                    }
                    if size as nat <= old_max && t.len() > 0 {
                        let w = choose|w: int| 0 <= w < t.len() && node_total(#[trigger] t[w].1) == old_max;
                        assert(t2[w] == t[w]);
                    }
                }
            },
        }
    }

    /// Accounts for one entry: resolves its group key and credits its size to
    /// that key, and with roll-up to every shorter prefix of it as well.
    pub fn add_entry(&mut self, e: &Entry)
        requires
            old(self).wf(),
            old(self).global_max() + e.size <= u64::MAX,
        ensures
            final(self).wf(),
            final(self).rows() == record(old(self).rows(), *e, old(self).depth_limit(), old(self).rolls_up()),
            final(self).depth_limit() == old(self).depth_limit(),
            final(self).rolls_up() == old(self).rolls_up(),
    {
        let key = resolve_key(&e.path, e.is_file, self.max_depth);
        let ghost k = key.deep_view();
        let ghost t0 = self.rows();
        let ghost m0 = self.global_max();
        let ghost s = e.size as nat;
        let mut i: usize = 0;
        if self.roll_up {
            while i < key.len()
                invariant
                    self.wf(),
                    self.depth_limit() == old(self).depth_limit(),
                    self.rolls_up() == old(self).rolls_up(),
                    self.rolls_up(),
                    k == key.deep_view(),
                    is_max_total(t0, m0),
                    m0 + e.size <= u64::MAX,
                    s == e.size as nat,
                    i <= k.len(),
                    self.rows() == bump_upto(t0, k, i as nat, e.is_file, e.ignored, s),
                    forall|m: int| i <= m <= k.len() ==> node_of(self.rows(), #[trigger] k.take(m)) == node_of(t0, k.take(m)),
                decreases k.len() - i,
            {
                let p = key_prefix(&key, i);
                proof {
                    lemma_node_of_in(t0, k.take(i as int));
                }
                let ghost before = self.rows();
                let ghost pv = p.deep_view();
                assert(pv == k.take(i as int));
                self.credit_key(p, e.is_file, e.ignored, e.size);
                proof {
                    assert(bump_upto(t0, k, (i + 1) as nat, e.is_file, e.ignored, s) == bump(
                        bump_upto(t0, k, i as nat, e.is_file, e.ignored, s), k.take(i as int), e.is_file, e.ignored, s));
                    assert forall|m: int| i + 1 <= m <= k.len() implies node_of(self.rows(), #[trigger] k.take(m)) == node_of(t0, k.take(m)) by {
                        assert(k.take(m).len() != k.take(i as int).len());
                        lemma_node_of_bump(before, k.take(i as int), k.take(m), e.is_file, e.ignored, s);
                    }
                }
                i = i + 1;
            }
        }
        proof {
            assert(k.take(k.len() as int) =~= k);
            if self.roll_up {
                assert(node_of(self.rows(), k.take(k.len() as int)) == node_of(t0, k.take(k.len() as int)));
            }
            lemma_node_of_in(t0, k);
        }
        self.credit_key(key, e.is_file, e.ignored, e.size);
    }

    /// The rows, in insertion order, as executable values.
    pub fn into_rows(self) -> (r: Vec<Row>)
        ensures
            rows_model(r.deep_view()) == self.rows(),
    {
        map_into_rows(self.groups)
    }
}

} // verus!

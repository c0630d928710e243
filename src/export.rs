use vstd::prelude::*;
use crate::key::{Key, is_strict_prefix, key_prefix};
use crate::order::{RowD, sort_spec};
use crate::table::{Counts, Entry, Row, aggregate, rows_model};

verus! {

/// Which kinds of bytes a leaf holds.
#[derive(Clone, Copy, PartialEq, Eq, Structural, Debug)]
pub enum Format {
    /// Ignored and not-ignored bytes.
    Both,
    /// Ignored bytes only.
    Cjs,
    /// Not-ignored bytes only.
    Esm,
}

/// A group with no descendant group: one input of the visualization payload.
pub struct Leaf {
    pub path: Key,
    pub bytes: u64,
    pub format: Option<Format>,
}

/// The visualization payload: the leaves, in table order, and the sum of
/// their sizes, which is the size of the one output.
pub struct Metafile {
    pub leaves: Vec<Leaf>,
    pub total: u64,
}

/// A leaf in the model: key, bytes, classification.
pub type LeafV = (Seq<Seq<u8>>, nat, Option<Format>);

impl Leaf {
    pub open spec fn view_spec(&self) -> LeafV {
        (self.path.deep_view(), self.bytes as nat, self.format)
    }
}

pub open spec fn leaves_view(s: Seq<Leaf>) -> Seq<LeafV> {
    s.map_values(|l: Leaf| l.view_spec())
}

/// The classification of a group by its counters.
pub open spec fn format_of(c: Counts) -> Option<Format> {
    if c.1 > 0 && c.0 > 0 {
        Some(Format::Both)
    } else if c.1 > 0 {
        Some(Format::Cjs)
    } else if c.0 > 0 {
        Some(Format::Esm)
    } else {
        None
    }
}

/// The row at `i` is a leaf: its key is not empty and the next row's key
/// does not extend it.
pub open spec fn is_leaf(s: Seq<RowD>, i: int) -> bool {
    &&& s[i].0.len() > 0
    &&& !(i + 1 < s.len() && is_strict_prefix(s[i].0, s[i + 1].0))
}

/// The leaves among the first `n` rows.
pub open spec fn leaves_upto(s: Seq<RowD>, n: nat) -> Seq<LeafV>
    decreases n,
{
    if n == 0 {
        Seq::empty()
    } else {
        let prev = leaves_upto(s, (n - 1) as nat);
        let i = n - 1;
        if is_leaf(s, i) {
            prev.push((s[i].0, (s[i].1.0 + s[i].1.1) as nat, format_of(s[i].1)))
        } else {
            prev
        }
    }
}

/// The sum of the sizes of the leaves among the first `n` rows.
pub open spec fn leaf_sum(s: Seq<RowD>, n: nat) -> nat
    decreases n,
{
    if n == 0 {
        0
    } else {
        let i = n - 1;
        leaf_sum(s, (n - 1) as nat) + if is_leaf(s, i) { (s[i].1.0 + s[i].1.1) as nat } else { 0nat }
    }
}

proof fn lemma_leaf_sum_grows(s: Seq<RowD>, a: nat, b: nat)
    requires
        a <= b,
    ensures
        leaf_sum(s, a) <= leaf_sum(s, b),
    decreases b - a,
{
    if a < b {
        lemma_leaf_sum_grows(s, a, (b - 1) as nat);
    }
}

fn is_proper_prefix(a: &Key, b: &Key) -> (r: bool)
    ensures
        r == is_strict_prefix(a.deep_view(), b.deep_view()),
{
    if a.len() >= b.len() {
        return false;
    }
    let mut i: usize = 0;
    while i < a.len()
        invariant
            a@.len() < b@.len(),
            i <= a@.len(),
            forall|q: int| 0 <= q < i ==> a.deep_view()[q] == b.deep_view()[q],
        decreases a@.len() - i,
    {
        assert(a.deep_view()[i as int] == a@[i as int]@);
        assert(b.deep_view()[i as int] == b@[i as int]@);
        if crate::key::compare_bytes(&a[i], &b[i]) != 0 {
            assert(b.deep_view().take(a@.len() as int)[i as int] == b.deep_view()[i as int]);
            return false;
        }
        i = i + 1;
    }
    assert(b.deep_view().take(a@.len() as int) =~= a.deep_view());
    true
}

/// Builds the visualization payload from rows sorted by key: each row with a
/// non-empty key whose next row's key does not extend it is a leaf, sized by
/// its combined total; `None` when the leaves' sizes sum past `u64::MAX`.
pub fn encode(entries: &Vec<Row>) -> (r: Option<Metafile>)
    ensures
        match r {
            Some(m) => {
                &&& leaf_sum(entries.deep_view(), entries@.len()) <= u64::MAX
                &&& leaves_view(m.leaves@) == leaves_upto(entries.deep_view(), entries@.len())
                &&& m.total == leaf_sum(entries.deep_view(), entries@.len())
            },
            None => leaf_sum(entries.deep_view(), entries@.len()) > u64::MAX,
        },
{
    let ghost s = entries.deep_view();
    let mut leaves: Vec<Leaf> = Vec::new();
    let mut total: u64 = 0;
    let mut i: usize = 0;
    assert(leaves_view(leaves@) =~= leaves_upto(s, 0));
    while i < entries.len()
        invariant
            s == entries.deep_view(),
            i <= entries@.len(),
            leaves_view(leaves@) == leaves_upto(s, i as nat),
            total == leaf_sum(s, i as nat),
        decreases entries@.len() - i,
    {
        let row = &entries[i];
        assert(s[i as int] == row.deep_view());
        let leaf = row.0.len() > 0 && !(i + 1 < entries.len() && is_proper_prefix(&row.0, &entries[i + 1].0));
        proof {
            if i + 1 < entries@.len() {
                assert(s[i + 1] == entries@[i + 1].deep_view());
            }
        }
        if leaf {
            let c: Counts = row.1;
            let size: u128 = c.0 as u128 + c.1 as u128;
            if total as u128 + size > u64::MAX as u128 {
                proof {
                    lemma_leaf_sum_grows(s, (i + 1) as nat, entries@.len());
                }
                return None;
            }
            let bytes: u64 = size as u64;
            let format: Option<Format> = if c.1 > 0 && c.0 > 0 {
                Some(Format::Both)
            } else if c.1 > 0 {
                Some(Format::Cjs)
            } else if c.0 > 0 {
                Some(Format::Esm)
            } else {
                None
            };
            let path = key_prefix(&row.0, row.0.len());
            assert(row.0.deep_view().take(row.0@.len() as int) =~= row.0.deep_view());
            let ghost before = leaves@;
            leaves.push(Leaf { path, bytes, format });
            assert(leaves_view(leaves@) =~= leaves_view(before).push(leaves@.last().view_spec()));
            total = total + bytes;
        }
        i = i + 1;
    }
    Some(Metafile { leaves, total })
}

/// Aggregating the same entries again gives the same rows, hence the same
/// sorted table and the same payload.
pub proof fn lemma_rerun_identical(
    es: Seq<Entry>,
    max_depth: Option<u64>,
    roll_up: bool,
    first: Seq<RowD>,
    second: Seq<RowD>,
)
    requires
        rows_model(first) == aggregate(es, max_depth, roll_up),
        rows_model(second) == aggregate(es, max_depth, roll_up),
    ensures
        sort_spec(first) == sort_spec(second),
        leaves_upto(sort_spec(first), first.len()) == leaves_upto(sort_spec(second), second.len()),
        leaf_sum(sort_spec(first), first.len()) == leaf_sum(sort_spec(second), second.len()),
{
    assert(first.len() == rows_model(first).len());
    assert forall|i: int| 0 <= i < first.len() implies first[i] == second[i] by {
        assert(rows_model(first)[i] == rows_model(second)[i]);
    }
    assert(first =~= second);
}

} // verus!

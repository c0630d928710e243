use vstd::prelude::*;
use crate::key::{bytes_lt, is_strict_prefix, key_less, key_lt};
use crate::table::{Counts, Row};

verus! {

/// A row as the sorter sees it.
pub type RowD = (Seq<Seq<u8>>, Counts);

/// Inserts `x` after every row whose key does not sort after it.
pub open spec fn insert_sorted(s: Seq<RowD>, x: RowD) -> Seq<RowD>
    decreases s.len(),
{
    if s.len() == 0 {
        seq![x]
    } else if key_lt(x.0, s[0].0) {
        seq![x] + s
    } else {
        seq![s[0]] + insert_sorted(s.drop_first(), x)
    }
}

/// The rows of `s` ordered by key.
pub open spec fn sort_spec(s: Seq<RowD>) -> Seq<RowD>
    decreases s.len(),
{
    if s.len() == 0 {
        s
    } else {
        insert_sorted(sort_spec(s.drop_first()), s[0])
    }
}

/// No row sorts after a later row.
pub open spec fn sorted_by_key(s: Seq<RowD>) -> bool {
    forall|i: int, j: int| 0 <= i < j < s.len() ==> !key_lt(#[trigger] s[j].0, #[trigger] s[i].0)
}

/// A key sorts strictly before every key that it is a proper prefix of, and
/// never after it.
pub proof fn lemma_prefix_sorts_first(a: Seq<Seq<u8>>, b: Seq<Seq<u8>>)
    requires
        is_strict_prefix(a, b),
    ensures
        key_lt(a, b),
        !key_lt(b, a),
    decreases a.len(),
{
    if a.len() > 0 {
        assert(b[0] == b.take(a.len() as int)[0]);
        assert(b.drop_first().take(a.len() - 1) =~= a.drop_first());
        lemma_prefix_sorts_first(a.drop_first(), b.drop_first());
    }
}

/// In rows sorted by key, a row whose key is a proper prefix of another
/// row's key stands before it, whatever other rows there are.
pub proof fn lemma_prefix_row_first(s: Seq<RowD>, i: int, j: int)
    requires
        sorted_by_key(s),
        0 <= i < s.len(),
        0 <= j < s.len(),
        is_strict_prefix(s[i].0, s[j].0),
    ensures
        i < j,
{
    lemma_prefix_sorts_first(s[i].0, s[j].0);
    if j < i {
        assert(!key_lt(s[i].0, s[j].0));
    }
}

proof fn lemma_bytes_lt_asym(a: Seq<u8>, b: Seq<u8>)
    ensures
        bytes_lt(a, b) ==> !bytes_lt(b, a),
    decreases a.len(),
{
    if a.len() > 0 && b.len() > 0 && a[0] == b[0] {
        lemma_bytes_lt_asym(a.drop_first(), b.drop_first());
    }
}

proof fn lemma_bytes_lt_trans(a: Seq<u8>, b: Seq<u8>, c: Seq<u8>)
    ensures
        bytes_lt(a, b) && bytes_lt(b, c) ==> bytes_lt(a, c),
    decreases a.len(),
{
    if a.len() > 0 && b.len() > 0 && c.len() > 0 {
        lemma_bytes_lt_trans(a.drop_first(), b.drop_first(), c.drop_first());
    }
}

proof fn lemma_key_lt_asym(a: Seq<Seq<u8>>, b: Seq<Seq<u8>>)
    ensures
        key_lt(a, b) ==> !key_lt(b, a),
    decreases a.len(),
{
    if a.len() > 0 && b.len() > 0 {
        if a[0] == b[0] {
            lemma_key_lt_asym(a.drop_first(), b.drop_first());
        } else {
            lemma_bytes_lt_asym(a[0], b[0]);
        }
    }
}

proof fn lemma_key_lt_trans(a: Seq<Seq<u8>>, b: Seq<Seq<u8>>, c: Seq<Seq<u8>>)
    ensures
        key_lt(a, b) && key_lt(b, c) ==> key_lt(a, c),
    decreases a.len(),
{
    if a.len() > 0 && b.len() > 0 && c.len() > 0 {
        lemma_key_lt_trans(a.drop_first(), b.drop_first(), c.drop_first());
        lemma_bytes_lt_trans(a[0], b[0], c[0]);
        lemma_bytes_lt_asym(a[0], b[0]);
    }
}

proof fn lemma_insert_sorted_keeps(s: Seq<RowD>, x: RowD)
    requires
        sorted_by_key(s),
    ensures
        sorted_by_key(insert_sorted(s, x)),
        insert_sorted(s, x).len() == s.len() + 1,
        forall|k: int| 0 <= k < insert_sorted(s, x).len() ==> #[trigger] insert_sorted(s, x)[k] == x || s.contains(insert_sorted(s, x)[k]),
    decreases s.len(),
{
    let r = insert_sorted(s, x);
    if s.len() == 0 {
    } else if key_lt(x.0, s[0].0) {
        assert forall|i: int, j: int| 0 <= i < j < r.len() implies !key_lt(#[trigger] r[j].0, #[trigger] r[i].0) by {
            if i == 0 {
                assert(r[j] == s[j - 1]);
                if j - 1 > 0 {
                    assert(!key_lt(s[j - 1].0, s[0].0));
                }
                lemma_key_lt_trans(s[j - 1].0, x.0, s[0].0);
                lemma_key_lt_asym(x.0, s[0].0);
            } else {
                assert(r[i] == s[i - 1] && r[j] == s[j - 1]);
            }
        }
        assert forall|k: int| 0 <= k < r.len() implies #[trigger] r[k] == x || s.contains(r[k]) by {
            if k > 0 {
                assert(r[k] == s[k - 1]);
            }
        }
    } else {
        let t = s.drop_first();
        assert forall|i: int, j: int| 0 <= i < j < t.len() implies !key_lt(#[trigger] t[j].0, #[trigger] t[i].0) by {
            assert(t[i] == s[i + 1] && t[j] == s[j + 1]);
        }
        lemma_insert_sorted_keeps(t, x);
        let rt = insert_sorted(t, x);
        assert(r == seq![s[0]] + rt);
        assert forall|k: int| 0 <= k < r.len() implies #[trigger] r[k] == x || s.contains(r[k]) by {
            if k > 0 {
                assert(r[k] == rt[k - 1]);
                if rt[k - 1] != x {
                    let m = choose|m: int| 0 <= m < t.len() && t[m] == rt[k - 1];
                    assert(s[m + 1] == t[m]);
                }
            }
        }
        assert forall|i: int, j: int| 0 <= i < j < r.len() implies !key_lt(#[trigger] r[j].0, #[trigger] r[i].0) by {
            if i == 0 {
                assert(r[j] == rt[j - 1]);
                if rt[j - 1] != x {
                    let m = choose|m: int| 0 <= m < s.len() && s[m] == rt[j - 1];
                    if m > 0 {
                        assert(!key_lt(s[m].0, s[0].0));
                    } else {
                        lemma_key_lt_asym(s[0].0, s[0].0);
                    }
                }
            } else {
                assert(r[i] == rt[i - 1] && r[j] == rt[j - 1]);
            }
        }
    }
}

/// Sorting yields rows in key order.
pub proof fn lemma_sort_sorted(s: Seq<RowD>)
    ensures
        sorted_by_key(sort_spec(s)),
        sort_spec(s).len() == s.len(),
    decreases s.len(),
{
    if s.len() > 0 {
        lemma_sort_sorted(s.drop_first());
        lemma_insert_sorted_keeps(sort_spec(s.drop_first()), s[0]);
    }
}

proof fn lemma_insert_at(s: Seq<RowD>, x: RowD, p: int)
    requires
        0 <= p <= s.len(),
        forall|q: int| 0 <= q < p ==> !key_lt(x.0, #[trigger] s[q].0),
        p < s.len() ==> key_lt(x.0, s[p].0),
    ensures
        insert_sorted(s, x) == s.insert(p, x),
    decreases p,
{
    if p == 0 {
        assert(insert_sorted(s, x) =~= s.insert(p, x));
    } else {
        let r = s.drop_first();
        assert forall|q: int| 0 <= q < p - 1 implies !key_lt(x.0, #[trigger] r[q].0) by {
            assert(r[q] == s[q + 1]);
        }
        assert(!key_lt(x.0, s[0].0));
        if p < s.len() {
            assert(r[p - 1] == s[p]);
        }
        lemma_insert_at(r, x, p - 1);
        assert(insert_sorted(s, x) =~= s.insert(p, x));
    }
}

/// Orders rows by key, component by component; a key sorts before every key
/// that it is a proper prefix of.
pub fn sort_rows(v: Vec<Row>) -> (r: Vec<Row>)
    ensures
        r.deep_view() == sort_spec(v.deep_view()),
{
    let ghost orig = v.deep_view();
    let mut v = v;
    let mut out: Vec<Row> = Vec::new();
    assert(orig.skip(orig.len() as int) =~= Seq::<RowD>::empty());
    assert(orig.take(orig.len() as int) =~= orig);
    while v.len() > 0
        invariant
            v@.len() <= orig.len(),
            v.deep_view() == orig.take(v@.len() as int),
            out.deep_view() == sort_spec(orig.skip(v@.len() as int)),
        decreases v@.len(),
    {
        let ghost j = (v@.len() - 1) as int;
        let ghost vv = v@;
        assert(v.deep_view()[j] == vv[j].deep_view());
        assert(orig.take(v@.len() as int)[j] == orig[j]);
        let x = v.pop().unwrap();
        assert(x.deep_view() == orig[j]);
        assert(v.deep_view() =~= orig.take(j));
        assert(orig.skip(j).drop_first() =~= orig.skip(j + 1));
        assert(orig.skip(j)[0] == orig[j]);
        let mut p: usize = 0;
        while p < out.len() && !key_less(&x.0, &out[p].0)
            invariant
                p <= out@.len(),
                forall|q: int| 0 <= q < p ==> !key_lt(x.0.deep_view(), #[trigger] out.deep_view()[q].0),
            decreases out@.len() - p,
        {
            p = p + 1;
        }
        proof {
            lemma_insert_at(out.deep_view(), x.deep_view(), p as int);
        }
        let ghost before = out.deep_view();
        out.insert(p, x);
        assert(out.deep_view() =~= before.insert(p as int, x.deep_view()));
    }
    out
}

} // verus!

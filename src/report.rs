use vstd::prelude::*;
use crate::key::{Key, key_prefix};
use crate::mode::{Mode, counts_view, reportable, reportable_size};
use crate::order::RowD;
use crate::table::Row;

verus! {

/// The byte count of an entry: its apparent length, or its block count
/// times the 512-byte block unit.
pub fn entry_size(apparent: bool, len: u64, blocks: u64) -> (r: u64)
    requires
        !apparent ==> blocks <= u64::MAX / 512,
    ensures
        r == if apparent { len as int } else { blocks * 512 },
{
    if apparent {
        len
    } else {
        blocks * 512
    }
}

/// The lines of a text report over the first `n` rows: each row's key and
/// reportable size, leaving out file rows when only directories are shown.
pub open spec fn report_upto(s: Seq<RowD>, n: nat, mode: Mode, directories_only: bool) -> Seq<(Seq<Seq<u8>>, nat)>
    decreases n,
{
    if n == 0 {
        Seq::empty()
    } else {
        let prev = report_upto(s, (n - 1) as nat, mode, directories_only);
        let row = s[n - 1];
        if directories_only && row.1.2 {
            prev
        } else {
            prev.push((row.0, reportable(counts_view(row.1), mode)))
        }
    }
}

pub open spec fn lines_view(v: Seq<(Key, u64)>) -> Seq<(Seq<Seq<u8>>, nat)> {
    v.map_values(|l: (Key, u64)| (l.0.deep_view(), l.1 as nat))
}

/// Selects the lines of a text report from rows in key order: each row's key
/// with its size under `mode`, file rows left out when `directories_only`.
pub fn report_rows(rows: &Vec<Row>, mode: Mode, directories_only: bool) -> (r: Vec<(Key, u64)>)
    requires
        forall|i: int| 0 <= i < rows@.len() ==> #[trigger] rows@[i].1.0 + rows@[i].1.1 <= u64::MAX,
    ensures
        lines_view(r@) == report_upto(rows.deep_view(), rows@.len(), mode, directories_only),
{
    let ghost s = rows.deep_view();
    let mut out: Vec<(Key, u64)> = Vec::new();
    let mut i: usize = 0;
    assert(lines_view(out@) =~= report_upto(s, 0, mode, directories_only));
    while i < rows.len()
        invariant
            s == rows.deep_view(),
            i <= rows@.len(),
            forall|q: int| 0 <= q < rows@.len() ==> #[trigger] rows@[q].1.0 + rows@[q].1.1 <= u64::MAX,
            lines_view(out@) == report_upto(s, i as nat, mode, directories_only),
        decreases rows@.len() - i,
    {
        let row = &rows[i];
        assert(s[i as int] == row.deep_view());
        if !(directories_only && row.1.2) {
            let size = reportable_size(row.1, mode);
            let key = key_prefix(&row.0, row.0.len());
            assert(row.0.deep_view().take(row.0@.len() as int) =~= row.0.deep_view());
            let ghost before = out@;
            out.push((key, size));
            assert(lines_view(out@) =~= lines_view(before).push((key.deep_view(), size as nat)));
        }
        i = i + 1;
    }
    out
}

} // verus!

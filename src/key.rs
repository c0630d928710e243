use vstd::prelude::*;

verus! {

/// A group key: the leading components of an entry's path relative to the
/// scan root, each component held as its bytes.
pub type Key = Vec<Vec<u8>>;

/// Lexicographic order on byte strings: the first differing byte decides,
/// and a proper prefix sorts first.
pub open spec fn bytes_lt(a: Seq<u8>, b: Seq<u8>) -> bool
    decreases a.len(),
{
    if a.len() == 0 {
        b.len() > 0
    } else if b.len() == 0 {
        false
    } else if a[0] != b[0] {
        a[0] < b[0]
    } else {
        bytes_lt(a.drop_first(), b.drop_first())
    }
}

/// Component-wise order on keys: the first differing component decides, by
/// `bytes_lt`; a key that is a proper prefix of another sorts first.
pub open spec fn key_lt(a: Seq<Seq<u8>>, b: Seq<Seq<u8>>) -> bool
    decreases a.len(),
{
    if a.len() == 0 {
        b.len() > 0
    } else if b.len() == 0 {
        false
    } else if a[0] != b[0] {
        bytes_lt(a[0], b[0])
    } else {
        key_lt(a.drop_first(), b.drop_first())
    }
}

/// `a` is a strict prefix of `b`: `a` names an ancestor group of `b`.
pub open spec fn is_strict_prefix(a: Seq<Seq<u8>>, b: Seq<Seq<u8>>) -> bool {
    a.len() < b.len() && b.take(a.len() as int) == a
}

/// How many leading components of a path of `len` components form its key:
/// a file's own name never does, and `max_depth` bounds the count.
pub open spec fn key_len(len: nat, is_file: bool, max_depth: Option<u64>) -> nat {
    let avail: nat = if is_file {
        if len > 0 { (len - 1) as nat } else { 0 }
    } else {
        len
    };
    match max_depth {
        Some(d) => if (d as nat) < avail { d as nat } else { avail },
        None => avail,
    }
}

/// The group key of an entry with relative path `path`.
pub open spec fn group_key(path: Seq<Seq<u8>>, is_file: bool, max_depth: Option<u64>) -> Seq<Seq<u8>> {
    path.take(key_len(path.len(), is_file, max_depth) as int)
}

fn copy_component(c: &Vec<u8>) -> (r: Vec<u8>)
    ensures
        r@ == c@,
{
    let mut r: Vec<u8> = Vec::new();
    let mut i: usize = 0;
    while i < c.len()
        invariant
            i <= c@.len(),
            r@ == c@.take(i as int),
        decreases c@.len() - i,
    {
        r.push(c[i]);
        i = i + 1;
        assert(r@ =~= c@.take(i as int));
    }
    assert(c@.take(i as int) =~= c@);
    r
}

/// The first `n` components of `path`, as a new key.
pub fn key_prefix(path: &Key, n: usize) -> (r: Key)
    requires
        n <= path@.len(),
    ensures
        r.deep_view() == path.deep_view().take(n as int),
{
    let mut r: Key = Vec::new();
    let mut i: usize = 0;
    while i < n
        invariant
            n <= path@.len(),
            i <= n,
            r.deep_view() == path.deep_view().take(i as int),
        decreases n - i,
    {
        let c = copy_component(&path[i]);
        let ghost before = r;
        r.push(c);
        assert(path.deep_view()[i as int] == path@[i as int]@);
        assert(r@ == before@.push(c));
        assert(r.deep_view() =~= before.deep_view().push(c@));
        i = i + 1;
        assert(r.deep_view() =~= path.deep_view().take(i as int));
    }
    r
}

/// Resolves the group key of an entry: its leading path components, up to
/// `max_depth` of them, and never a file's own name.
pub fn resolve_key(path: &Key, is_file: bool, max_depth: Option<u64>) -> (r: Key)
    ensures
        r.deep_view() == group_key(path.deep_view(), is_file, max_depth),
{
    let len = path.len();
    let avail: usize = if is_file {
        if len > 0 { len - 1 } else { 0 }
    } else {
        len
    };
    let n: usize = match max_depth {
        Some(d) => if d < avail as u64 { d as usize } else { avail },
        None => avail,
    };
    key_prefix(path, n)
}

/// Compares two byte strings: negative, zero or positive as `a` sorts
/// before, equal to or after `b`.
pub fn compare_bytes(a: &Vec<u8>, b: &Vec<u8>) -> (r: i8)
    ensures
        (r < 0) == bytes_lt(a@, b@),
        (r == 0) == (a@ == b@),
        (r > 0) == bytes_lt(b@, a@),
{
    let mut i: usize = 0;
    assert(a@.skip(0) =~= a@);
    assert(b@.skip(0) =~= b@);
    while i < a.len() && i < b.len()
        invariant
            i <= a@.len(),
            i <= b@.len(),
            a@.take(i as int) == b@.take(i as int),
            bytes_lt(a@, b@) == bytes_lt(a@.skip(i as int), b@.skip(i as int)),
            bytes_lt(b@, a@) == bytes_lt(b@.skip(i as int), a@.skip(i as int)),
        decreases a@.len() - i,
    {
        assert(a@.skip(i as int).drop_first() =~= a@.skip(i as int + 1));
        assert(b@.skip(i as int).drop_first() =~= b@.skip(i as int + 1));
        if a[i] < b[i] {
            assert(a@[i as int] != b@[i as int]);
            return -1;
        }
        if a[i] > b[i] {
            assert(a@[i as int] != b@[i as int]);
            return 1;
        }
        assert(a@.take(i as int + 1) =~= a@.take(i as int).push(a@[i as int]));
        assert(b@.take(i as int + 1) =~= b@.take(i as int).push(b@[i as int]));
        i = i + 1;
    }
    if i == a.len() && i == b.len() {
        assert(a@ =~= a@.take(i as int));
        assert(b@ =~= b@.take(i as int));
        0
    } else if i == a.len() {
        assert(a@.len() != b@.len());
        -1
    } else {
        assert(a@.len() != b@.len());
        1
    }
}

/// Whether key `a` sorts strictly before key `b`.
pub fn key_less(a: &Key, b: &Key) -> (r: bool)
    ensures
        r == key_lt(a.deep_view(), b.deep_view()),
{
    let ghost da = a.deep_view();
    let ghost db = b.deep_view();
    let mut i: usize = 0;
    assert(da.skip(0) =~= da);
    assert(db.skip(0) =~= db);
    while i < a.len() && i < b.len()
        invariant
            da == a.deep_view(),
            db == b.deep_view(),
            i <= a@.len(),
            i <= b@.len(),
            key_lt(da, db) == key_lt(da.skip(i as int), db.skip(i as int)),
        decreases a@.len() - i,
    {
        assert(da.skip(i as int).drop_first() =~= da.skip(i as int + 1));
        assert(db.skip(i as int).drop_first() =~= db.skip(i as int + 1));
        assert(da[i as int] == a@[i as int]@);
        assert(db[i as int] == b@[i as int]@);
        let c = compare_bytes(&a[i], &b[i]);
        if c != 0 {
            return c < 0;
        }
        i = i + 1;
    }
    i < b.len()
}

} // verus!

use vstd::multiset::Multiset;
use vstd::prelude::*;

use crate::error::EngineError;

verus! {

broadcast use {vstd::seq_lib::group_to_multiset_ensures, vstd::multiset::group_multiset_axioms};

/// The field by which input files are ordered.
#[derive(Clone, Copy, Debug, PartialEq, Eq, Structural)]
pub enum OrderKey {
    /// The file name, compared byte by byte.
    Name,
    /// The creation timestamp.
    Created,
    /// The modification timestamp.
    Modified,
}

/// One regular file of the input directory, with what ordering may read of it.
#[derive(Debug)]
pub struct FileEntry {
    /// The path handed on to whoever decodes the file.
    pub path: String,
    /// The file name's bytes.
    pub name: Vec<u8>,
    /// Creation time in nanoseconds since the Unix epoch, if available.
    pub created: Option<i128>,
    /// Modification time in nanoseconds since the Unix epoch, if available.
    pub modified: Option<i128>,
}

/// Byte-wise lexicographic order: a prefix comes first.
pub open spec fn lex_le(a: Seq<u8>, b: Seq<u8>) -> bool
    decreases a.len(),
{
    if a.len() == 0 {
        true
    } else if b.len() == 0 {
        false
    } else if a[0] != b[0] {
        a[0] < b[0]
    } else {
        lex_le(a.drop_first(), b.drop_first())
    }
}

pub open spec fn time_of(t: Option<i128>) -> int {
    match t {
        Some(v) => v as int,
        None => 0,
    }
}

/// `a` may stand before `b` when ordering by `key`.
pub open spec fn entry_le(key: OrderKey, a: FileEntry, b: FileEntry) -> bool {
    match key {
        OrderKey::Name => lex_le(a.name@, b.name@),
        OrderKey::Created => time_of(a.created) <= time_of(b.created),
        OrderKey::Modified => time_of(a.modified) <= time_of(b.modified),
    }
}

/// The entry carries the value that `key` orders by.
pub open spec fn has_key(key: OrderKey, e: FileEntry) -> bool {
    match key {
        OrderKey::Name => true,
        OrderKey::Created => e.created is Some,
        OrderKey::Modified => e.modified is Some,
    }
}

/// Every pair of positions is in order: ascending, or descending when asked.
pub open spec fn sorted_by(key: OrderKey, s: Seq<FileEntry>, descending: bool) -> bool {
    forall|i: int, j: int|
        0 <= i < j < s.len() ==> if descending {
            entry_le(key, #[trigger] s[j], #[trigger] s[i])
        } else {
            entry_le(key, s[i], s[j])
        }
}

pub open spec fn key_at(i: int) -> Option<OrderKey> {
    if i == 0 {
        Some(OrderKey::Name)
    } else if i == 1 {
        Some(OrderKey::Created)
    } else if i == 2 {
        Some(OrderKey::Modified)
    } else {
        None
    }
}

pub proof fn lemma_lex_total(a: Seq<u8>, b: Seq<u8>)
    ensures
        lex_le(a, b) || lex_le(b, a),
    decreases a.len(),
{
    if a.len() > 0 && b.len() > 0 && a[0] == b[0] {
        lemma_lex_total(a.drop_first(), b.drop_first());
    }
}

pub proof fn lemma_lex_trans(a: Seq<u8>, b: Seq<u8>, c: Seq<u8>)
    requires
        lex_le(a, b),
        lex_le(b, c),
    ensures
        lex_le(a, c),
    decreases a.len(),
{
    if a.len() > 0 && b.len() > 0 && c.len() > 0 && a[0] == b[0] && b[0] == c[0] {
        lemma_lex_trans(a.drop_first(), b.drop_first(), c.drop_first());
    }
}

pub proof fn lemma_entry_total(key: OrderKey, a: FileEntry, b: FileEntry)
    ensures
        entry_le(key, a, b) || entry_le(key, b, a),
{
    lemma_lex_total(a.name@, b.name@);
}

pub proof fn lemma_entry_trans(key: OrderKey, a: FileEntry, b: FileEntry, c: FileEntry)
    requires
        entry_le(key, a, b),
        entry_le(key, b, c),
    ensures
        entry_le(key, a, c),
{
    if key == OrderKey::Name {
        lemma_lex_trans(a.name@, b.name@, c.name@);
    }
}

/// Inserting before the first entry that does not stand below `e` keeps an
/// ascending sequence ascending.
proof fn lemma_insert_sorted(key: OrderKey, s: Seq<FileEntry>, p: int, e: FileEntry)
    requires
        sorted_by(key, s, false),
        0 <= p <= s.len(),
        forall|i: int| 0 <= i < p ==> !entry_le(key, e, #[trigger] s[i]),
        p < s.len() ==> entry_le(key, e, s[p]),
    ensures
        sorted_by(key, s.insert(p, e), false),
{
    let t = s.insert(p, e);
    assert forall|i: int, j: int| 0 <= i < j < t.len() implies entry_le(
        key,
        #[trigger] t[i],
        #[trigger] t[j],
    ) by {
        if j < p {
            assert(entry_le(key, s[i], s[j]));
        } else if j == p {
            lemma_entry_total(key, e, s[i]);
        } else if i < p {
            lemma_entry_total(key, e, s[i]);
            assert(entry_le(key, s[i], e));
            assert(entry_le(key, e, s[p]));
            if j - 1 > p {
                assert(entry_le(key, s[p], s[j - 1]));
                lemma_entry_trans(key, e, s[p], s[j - 1]);
            }
            lemma_entry_trans(key, s[i], e, s[j - 1]);
        } else if i == p {
            if j - 1 > p {
                assert(entry_le(key, s[p], s[j - 1]));
                lemma_entry_trans(key, e, s[p], s[j - 1]);
            }
        } else {
            assert(entry_le(key, s[i - 1], s[j - 1]));
        }
    }
}

impl OrderKey {
    /// The key numbered `i`: 0 file name, 1 creation time, 2 modification time.
    pub fn from_index(i: u8) -> (r: Result<OrderKey, EngineError>)
        ensures
            r == match key_at(i as int) {
                Some(k) => Ok::<OrderKey, EngineError>(k),
                None => Err(EngineError::Config),
            },
    {
        match i {
            0 => Ok(OrderKey::Name),
            1 => Ok(OrderKey::Created),
            2 => Ok(OrderKey::Modified),
            _ => Err(EngineError::Config),
        }
    }
}

fn time_le(a: Option<i128>, b: Option<i128>) -> (r: bool)
    ensures
        r == (time_of(a) <= time_of(b)),
{
    let x: i128 = match a {
        Some(v) => v,
        None => 0,
    };
    let y: i128 = match b {
        Some(v) => v,
        None => 0,
    };
    x <= y
}

/// Byte-wise lexicographic comparison of two names.
pub fn name_le(a: &Vec<u8>, b: &Vec<u8>) -> (r: bool)
    ensures
        r == lex_le(a@, b@),
{
    let mut i: usize = 0;
    assert(a@.skip(0) =~= a@);
    assert(b@.skip(0) =~= b@);
    loop
        invariant
            i <= a.len(),
            i <= b.len(),
            lex_le(a@, b@) == lex_le(a@.skip(i as int), b@.skip(i as int)),
        decreases a.len() - i,
    {
        if i == a.len() {
            return true;
        }
        if i == b.len() {
            return false;
        }
        if a[i] != b[i] {
            return a[i] < b[i];
        }
        assert(a@.skip(i as int).drop_first() =~= a@.skip(i + 1));
        assert(b@.skip(i as int).drop_first() =~= b@.skip(i + 1));
        i = i + 1;
    }
}

/// Whether `a` may stand before `b` when ordering by `key`.
pub fn entry_le_exec(key: OrderKey, a: &FileEntry, b: &FileEntry) -> (r: bool)
    ensures
        r == entry_le(key, *a, *b),
{
    match key {
        OrderKey::Name => name_le(&a.name, &b.name),
        OrderKey::Created => time_le(a.created, b.created),
        OrderKey::Modified => time_le(a.modified, b.modified),
    }
}

/// Whether every entry carries the value that `key` orders by.
pub fn all_have_key(key: OrderKey, entries: &Vec<FileEntry>) -> (r: bool)
    ensures
        r == forall|i: int| 0 <= i < entries@.len() ==> has_key(key, #[trigger] entries@[i]),
{
    let mut i: usize = 0;
    while i < entries.len()
        invariant
            i <= entries.len(),
            forall|k: int| 0 <= k < i ==> has_key(key, #[trigger] entries@[k]),
        decreases entries.len() - i,
    {
        let ok = match key {
            OrderKey::Name => true,
            OrderKey::Created => entries[i].created.is_some(),
            OrderKey::Modified => entries[i].modified.is_some(),
        };
        if !ok {
            return false;
        }
        i = i + 1;
    }
    true
}

/// Sorts `entries` ascending by `key`, then reverses the whole sequence when
/// `descending`. The contract leaves the order of entries with equal keys
/// open; this body keeps them in their given order before any reversal.
pub fn order_entries(entries: Vec<FileEntry>, key: OrderKey, descending: bool) -> (r: Vec<
    FileEntry,
>)
    ensures
        r@.to_multiset() == entries@.to_multiset(),
        sorted_by(key, r@, descending),
{
    let ghost given = entries@;
    let mut rest = entries;
    let mut out: Vec<FileEntry> = Vec::new();
    while rest.len() > 0
        invariant
            rest@.to_multiset().add(out@.to_multiset()) == given.to_multiset(),
            sorted_by(key, out@, false),
        decreases rest.len(),
    {
        let ghost before = rest@;
        let e = rest.pop().unwrap();
        assert(before =~= rest@.push(e));
        let mut p: usize = 0;
        while p < out.len() && !entry_le_exec(key, &e, &out[p])
            invariant
                p <= out.len(),
                forall|i: int| 0 <= i < p ==> !entry_le(key, e, #[trigger] out@[i]),
            decreases out.len() - p,
        {
            p = p + 1;
        }
        proof {
            lemma_insert_sorted(key, out@, p as int, e);
        }
        let ghost out_before = out@;
        out.insert(p, e);
        assert(rest@.to_multiset().add(out@.to_multiset()) =~= before.to_multiset().add(
            out_before.to_multiset(),
        ));
    }
    assert(rest@.to_multiset() =~= Multiset::empty());
    assert(out@.to_multiset() =~= given.to_multiset());
    if !descending {
        return out;
    }
    let mut reversed: Vec<FileEntry> = Vec::new();
    let ghost asc = out@;
    while out.len() > 0
        invariant
            asc.len() == out@.len() + reversed@.len(),
            out@ == asc.subrange(0, out@.len() as int),
            forall|k: int| 0 <= k < reversed@.len() ==> #[trigger] reversed@[k] == asc[asc.len() - 1 - k],
        decreases out.len(),
    {
        let e = out.pop().unwrap();
        reversed.push(e);
    }
    assert(reversed@ =~= asc.reverse());
    proof {
        asc.lemma_reverse_to_multiset();
    }
    assert forall|i: int, j: int| 0 <= i < j < reversed@.len() implies entry_le(
        key,
        #[trigger] reversed@[j],
        #[trigger] reversed@[i],
    ) by {
        assert(entry_le(key, asc[asc.len() - 1 - j], asc[asc.len() - 1 - i]));
    }
    reversed
}

} // verus!

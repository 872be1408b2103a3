//! The archive format that holds a compiled program: a list of byte
//! blobs written as
//!
//! - eight bytes: a hash of the format's version string,
//! - eight bytes: how many blobs follow,
//! - eight bytes per blob: its length,
//! - the blobs themselves, one after the other;
//!
//! all numbers little-endian. An archive of no blobs is written as no
//! bytes at all.
use vstd::prelude::*;
use vstd::bytes::{spec_u64_to_le_bytes, spec_u64_from_le_bytes, u64_to_le_bytes, u64_from_le_bytes, lemma_auto_spec_u64_to_from_le_bytes};
use vstd::std_specs::hash::DefaultHasherAdditionalSpecFns;
use vstd::string::StringSliceAdditionalSpecFns;
use std::collections::hash_map::DefaultHasher;
use std::hash::Hasher;
use crate::instruction::lemma_window;

verus! {

/// The version string whose hash opens every archive.
pub const ARCHIVE_VERSION: &'static str = "0.1.0";

/// One blob of an archive.
#[derive(Debug, Clone, PartialEq, Eq, PartialOrd, Ord, Hash)]
pub struct Data(pub Vec<u8>);

impl Data {
    /// The length of the blob.
    pub fn size(&self) -> (r: usize)
        ensures
            r == self.0@.len(),
    {
        self.0.len()
    }
}

/// An archive: blobs in order.
#[derive(Debug, Clone, PartialEq, Eq, PartialOrd, Ord, Hash)]
pub struct Packed {
    data_table: Vec<Data>,
}

/// The contents of a list of blobs.
pub open spec fn blobs(ds: Seq<Data>) -> Seq<Seq<u8>> {
    ds.map_values(|d: Data| d.0@)
}

impl View for Packed {
    type V = Seq<Seq<u8>>;

    closed spec fn view(&self) -> Seq<Seq<u8>> {
        blobs(self.data_table@)
    }
}

/// The length fields of the blobs, in order.
pub open spec fn sizes_bytes(items: Seq<Seq<u8>>) -> Seq<u8>
    decreases items.len(),
{
    if items.len() == 0 {
        Seq::empty()
    } else {
        spec_u64_to_le_bytes(items[0].len() as u64) + sizes_bytes(items.drop_first())
    }
}

/// The blobs one after the other.
pub open spec fn data_bytes(items: Seq<Seq<u8>>) -> Seq<u8>
    decreases items.len(),
{
    if items.len() == 0 {
        Seq::empty()
    } else {
        items[0] + data_bytes(items.drop_first())
    }
}

/// The bytes of an archive of `items` under the version hash `hash`.
pub open spec fn archive_bytes(hash: u64, items: Seq<Seq<u8>>) -> Seq<u8> {
    if items.len() == 0 {
        Seq::empty()
    } else {
        spec_u64_to_le_bytes(hash) + spec_u64_to_le_bytes(items.len() as u64) + sizes_bytes(items) + data_bytes(items)
    }
}

/// The little-endian number in the eight bytes at `p`.
pub open spec fn u64_at(b: Seq<u8>, p: int) -> u64 {
    spec_u64_from_le_bytes(b.subrange(p, p + 8))
}

/// Reads `n` length fields from `p`.
pub open spec fn parse_sizes(b: Seq<u8>, p: int, n: nat) -> Option<(Seq<u64>, int)>
    decreases n,
{
    if n == 0 {
        Some((Seq::empty(), p))
    } else if !(0 <= p && p + 8 <= b.len()) {
        None
    } else {
        match parse_sizes(b, p + 8, (n - 1) as nat) {
            Some((rest, q)) => Some((seq![u64_at(b, p)] + rest, q)),
            None => None,
        }
    }
}

/// Reads blobs of the given lengths from `p`.
pub open spec fn parse_items(b: Seq<u8>, p: int, sizes: Seq<u64>) -> Option<Seq<Seq<u8>>>
    decreases sizes.len(),
{
    if sizes.len() == 0 {
        Some(Seq::empty())
    } else if !(0 <= p && p + sizes[0] <= b.len()) {
        None
    } else {
        match parse_items(b, p + sizes[0], sizes.drop_first()) {
            Some(rest) => Some(seq![b.subrange(p, p + sizes[0])] + rest),
            None => None,
        }
    }
}

/// The blobs an archive's bytes hold: none for no bytes at all, `None`
/// where a field runs past the end. The version hash is not checked and
/// bytes after the last blob are ignored.
pub open spec fn parse_archive(b: Seq<u8>) -> Option<Seq<Seq<u8>>> {
    if b.len() == 0 {
        Some(Seq::empty())
    } else if b.len() < 16 {
        None
    } else {
        match parse_sizes(b, 16, u64_at(b, 8) as nat) {
            Some((sizes, p)) => parse_items(b, p, sizes),
            None => None,
        }
    }
}

/// The bytes the version string is hashed as: its UTF-8 bytes and a
/// closing `0xff`, as `str` feeds a hasher.
pub open spec fn version_hash() -> u64 {
    DefaultHasher::spec_finish(seq![ARCHIVE_VERSION.spec_bytes(), seq![0xffu8]])
}

fn hash_version() -> (r: u64)
    ensures
        r == version_hash(),
{
    let mut hasher = DefaultHasher::new();
    hasher.write(ARCHIVE_VERSION.as_bytes());
    let end: [u8; 1] = [0xff];
    hasher.write(&end);
    assert(end@ =~= seq![0xffu8]);
    assert(hasher@ =~= seq![ARCHIVE_VERSION.spec_bytes(), seq![0xffu8]]);
    hasher.finish()
}

/// The little-endian number in the eight bytes at `p`, if there are
/// eight bytes there.
fn take_u64(bytes: &[u8], p: usize) -> (r: Option<u64>)
    ensures
        p + 8 <= bytes@.len() ==> r == Some(u64_at(bytes@, p as int)),
        p + 8 > bytes@.len() ==> r is None,
{
    let len = bytes.len();
    if p > len || len - p < 8 {
        return None;
    }
    Some(u64_from_le_bytes(&bytes[p..p + 8]))
}

fn copy_bytes(bytes: &[u8], start: usize, end: usize) -> (r: Vec<u8>)
    requires
        start <= end <= bytes@.len(),
    ensures
        r@ == bytes@.subrange(start as int, end as int),
{
    let mut r: Vec<u8> = Vec::new();
    let mut i: usize = start;
    while i < end
        invariant
            start <= i <= end <= bytes@.len(),
            r@ == bytes@.subrange(start as int, i as int),
        decreases end - i,
    {
        r.push(bytes[i]);
        i = i + 1;
        assert(r@ =~= bytes@.subrange(start as int, i as int));
    }
    r
}

fn append_bytes(out: &mut Vec<u8>, bytes: &Vec<u8>)
    ensures
        final(out)@ == old(out)@ + bytes@,
{
    let mut i: usize = 0;
    while i < bytes.len()
        invariant
            i <= bytes@.len(),
            out@ == old(out)@ + bytes@.subrange(0, i as int),
        decreases bytes@.len() - i,
    {
        out.push(bytes[i]);
        i = i + 1;
        assert(out@ =~= old(out)@ + bytes@.subrange(0, i as int));
    }
    assert(bytes@.subrange(0, bytes@.len() as int) =~= bytes@);
}

proof fn lemma_blobs_push(ds: Seq<Data>, d: Data)
    ensures
        blobs(ds.push(d)) == blobs(ds).push(d.0@),
{
    assert(blobs(ds.push(d)) =~= blobs(ds).push(d.0@));
}

proof fn lemma_sizes_push(items: Seq<Seq<u8>>, x: Seq<u8>)
    ensures
        sizes_bytes(items.push(x)) == sizes_bytes(items) + spec_u64_to_le_bytes(x.len() as u64),
    decreases items.len(),
{
    if items.len() == 0 {
        assert(items.push(x).drop_first() =~= Seq::<Seq<u8>>::empty());
        assert(sizes_bytes(items.push(x).drop_first()) == Seq::<u8>::empty());
        assert(items.push(x)[0] == x);
        assert(sizes_bytes(items.push(x)) =~= sizes_bytes(items) + spec_u64_to_le_bytes(x.len() as u64));
    } else {
        assert(items.push(x).drop_first() =~= items.drop_first().push(x));
        lemma_sizes_push(items.drop_first(), x);
        assert(sizes_bytes(items.push(x)) =~= sizes_bytes(items) + spec_u64_to_le_bytes(x.len() as u64));
    }
}

proof fn lemma_data_push(items: Seq<Seq<u8>>, x: Seq<u8>)
    ensures
        data_bytes(items.push(x)) == data_bytes(items) + x,
    decreases items.len(),
{
    if items.len() == 0 {
        assert(items.push(x).drop_first() =~= Seq::<Seq<u8>>::empty());
        assert(data_bytes(items.push(x).drop_first()) == Seq::<u8>::empty());
        assert(items.push(x)[0] == x);
        assert(data_bytes(items.push(x)) =~= data_bytes(items) + x);
    } else {
        assert(items.push(x).drop_first() =~= items.drop_first().push(x));
        lemma_data_push(items.drop_first(), x);
        assert(data_bytes(items.push(x)) =~= data_bytes(items) + x);
    }
}

impl Packed {
    /// An archive of no blobs.
    pub fn new() -> (r: Packed)
        ensures
            r@ == Seq::<Seq<u8>>::empty(),
    {
        Packed { data_table: Vec::new() }
    }

    /// This archive with one more blob at the end.
    pub fn with(self, value: Data) -> (r: Packed)
        ensures
            r@ == self@.push(value.0@),
    {
        let mut s = self;
        proof { lemma_blobs_push(s.data_table@, value); }
        s.data_table.push(value);
        s
    }

    /// The archive's bytes: none for an archive of no blobs.
    pub fn as_bytes(self) -> (r: Vec<u8>)
        ensures
            r@ == archive_bytes(version_hash(), self@),
    {
        let n = self.data_table.len();
        if n == 0 {
            return Vec::new();
        }
        let mut bytes: Vec<u8> = Vec::new();
        let hash = u64_to_le_bytes(hash_version());
        append_bytes(&mut bytes, &hash);
        let count = u64_to_le_bytes(n as u64);
        append_bytes(&mut bytes, &count);
        let ghost head = bytes@;
        let mut i: usize = 0;
        while i < n
            invariant
                n == self.data_table@.len(),
                i <= n,
                bytes@ == head + sizes_bytes(blobs(self.data_table@.subrange(0, i as int))),
            decreases n - i,
        {
            let size = u64_to_le_bytes(self.data_table[i].size() as u64);
            proof {
                assert(blobs(self.data_table@.subrange(0, i + 1 as int))
                    =~= blobs(self.data_table@.subrange(0, i as int)).push(self.data_table@[i as int].0@));
                lemma_sizes_push(blobs(self.data_table@.subrange(0, i as int)), self.data_table@[i as int].0@);
            }
            append_bytes(&mut bytes, &size);
            i = i + 1;
        }
        let ghost mid = bytes@;
        let mut j: usize = 0;
        while j < n
            invariant
                n == self.data_table@.len(),
                j <= n,
                bytes@ == mid + data_bytes(blobs(self.data_table@.subrange(0, j as int))),
            decreases n - j,
        {
            proof {
                assert(blobs(self.data_table@.subrange(0, j + 1 as int))
                    =~= blobs(self.data_table@.subrange(0, j as int)).push(self.data_table@[j as int].0@));
                lemma_data_push(blobs(self.data_table@.subrange(0, j as int)), self.data_table@[j as int].0@);
            }
            append_bytes(&mut bytes, &self.data_table[j].0);
            j = j + 1;
        }
        assert(self.data_table@.subrange(0, n as int) =~= self.data_table@);
        bytes
    }

    /// Reads an archive back from its bytes; `None` where a field runs past
    /// the end. No bytes at all read as an archive of no blobs.
    pub fn from_bytes(bytes: &[u8]) -> (r: Option<Packed>)
        ensures
            match r {
                Some(p) => parse_archive(bytes@) == Some(p@),
                None => parse_archive(bytes@) is None,
            },
    {
        let len = bytes.len();
        if len == 0 {
            return Some(Packed::new());
        }
        if len < 16 {
            return None;
        }
        let count = match take_u64(bytes, 8) {
            Some(c) => c,
            None => return None,
        };
        let mut sizes: Vec<u64> = Vec::new();
        let mut p: usize = 16;
        let mut k: u64 = 0;
        while k < count
            invariant
                len == bytes@.len(),
                16 <= p <= len,
                k <= count,
                count == u64_at(bytes@, 8),
                parse_sizes(bytes@, 16, count as nat) == match parse_sizes(bytes@, p as int, (count - k) as nat) {
                    Some((rest, q)) => Some((sizes@ + rest, q)),
                    None => None,
                },
            decreases count - k,
        {
            let s = match take_u64(bytes, p) {
                Some(s) => s,
                None => return None,
            };
            proof {
                let rest = parse_sizes(bytes@, p + 8, (count - k - 1) as nat);
                if let Some((r, q)) = rest {
                    assert(sizes@ + (seq![s] + r) =~= sizes@.push(s) + r);
                }
            }
            sizes.push(s);
            p = p + 8;
            k = k + 1;
        }
        assert(sizes@ + Seq::<u64>::empty() =~= sizes@);
        assert(parse_archive(bytes@) == parse_items(bytes@, p as int, sizes@));
        let ghost start = p as int;
        let mut data_table: Vec<Data> = Vec::new();
        let mut i: usize = 0;
        assert(sizes@.skip(0) =~= sizes@);
        assert forall|rest: Seq<Seq<u8>>| blobs(data_table@) + rest =~= rest by {}
        while i < sizes.len()
            invariant
                len == bytes@.len(),
                p <= len,
                i <= sizes@.len(),
                parse_archive(bytes@) == parse_items(bytes@, start, sizes@),
                parse_items(bytes@, start, sizes@) == match parse_items(bytes@, p as int, sizes@.skip(i as int)) {
                    Some(rest) => Some(blobs(data_table@) + rest),
                    None => None,
                },
            decreases sizes@.len() - i,
        {
            let size = sizes[i];
            assert(sizes@.skip(i as int)[0] == size);
            if size > (len - p) as u64 {
                return None;
            }
            let end = p + size as usize;
            let blob = copy_bytes(bytes, p, end);
            proof {
                assert(sizes@.skip(i as int).drop_first() =~= sizes@.skip(i + 1 as int));
                lemma_blobs_push(data_table@, Data(blob));
                let rest = parse_items(bytes@, end as int, sizes@.skip(i + 1 as int));
                if let Some(r) = rest {
                    assert(blobs(data_table@) + (seq![blob@] + r) =~= blobs(data_table@).push(blob@) + r);
                }
            }
            data_table.push(Data(blob));
            p = end;
            i = i + 1;
        }
        assert(blobs(data_table@) + Seq::<Seq<u8>>::empty() =~= blobs(data_table@));
        Some(Packed { data_table })
    }
}

impl From<Packed> for Vec<Data> {
    fn from(val: Packed) -> (r: Vec<Data>)
        ensures
            blobs(r@) == val@,
    {
        val.data_table
    }
}

impl vstd::std_specs::convert::FromSpecImpl<Packed> for Vec<Data> {
    open spec fn obeys_from_spec() -> bool {
        true
    }

    closed spec fn from_spec(v: Packed) -> Vec<Data> {
        v.data_table
    }
}

impl From<Vec<Data>> for Packed {
    fn from(val: Vec<Data>) -> (r: Packed)
        ensures
            r@ == blobs(val@),
    {
        Packed { data_table: val }
    }
}

impl vstd::std_specs::convert::FromSpecImpl<Vec<Data>> for Packed {
    open spec fn obeys_from_spec() -> bool {
        true
    }

    closed spec fn from_spec(v: Vec<Data>) -> Packed {
        Packed { data_table: v }
    }
}

impl Default for Packed {
    fn default() -> (r: Packed)
        ensures
            r@ == Seq::<Seq<u8>>::empty(),
    {
        Packed::new()
    }
}

/// The length fields a list of blobs is written with.
pub open spec fn lens(items: Seq<Seq<u8>>) -> Seq<u64> {
    items.map_values(|x: Seq<u8>| x.len() as u64)
}

proof fn lemma_parse_sizes(b: Seq<u8>, p: int, items: Seq<Seq<u8>>)
    requires
        0 <= p,
        p + sizes_bytes(items).len() <= b.len(),
        b.subrange(p, p + sizes_bytes(items).len()) == sizes_bytes(items),
    ensures
        sizes_bytes(items).len() == 8 * items.len(),
        parse_sizes(b, p, items.len()) == Some((lens(items), p + sizes_bytes(items).len())),
    decreases items.len(),
{
    lemma_auto_spec_u64_to_from_le_bytes();
    if items.len() > 0 {
        let all = sizes_bytes(items);
        let tail = sizes_bytes(items.drop_first());
        let tl = tail.len() as int;
        lemma_window(b, p, all, 0, 8);
        assert(all.subrange(0, 8) =~= spec_u64_to_le_bytes(items[0].len() as u64));
        lemma_window(b, p, all, 8, tl);
        assert(all.subrange(8, 8 + tl) =~= tail);
        lemma_parse_sizes(b, p + 8, items.drop_first());
        assert(seq![items[0].len() as u64] + lens(items.drop_first()) =~= lens(items));
    }
}

proof fn lemma_parse_items(b: Seq<u8>, q: int, items: Seq<Seq<u8>>)
    requires
        0 <= q,
        q + data_bytes(items).len() <= b.len(),
        b.subrange(q, q + data_bytes(items).len()) == data_bytes(items),
        forall|i: int| 0 <= i < items.len() ==> #[trigger] items[i].len() <= u64::MAX,
    ensures
        parse_items(b, q, lens(items)) == Some(items),
    decreases items.len(),
{
    if items.len() > 0 {
        let all = data_bytes(items);
        let head = items[0];
        let tail = data_bytes(items.drop_first());
        let hl = head.len() as int;
        let tl = tail.len() as int;
        assert(head.len() <= u64::MAX);
        lemma_window(b, q, all, 0, hl);
        assert(all.subrange(0, hl) =~= head);
        lemma_window(b, q, all, hl, tl);
        assert(all.subrange(hl, hl + tl) =~= tail);
        assert(lens(items).drop_first() =~= lens(items.drop_first()));
        assert forall|i: int| 0 <= i < items.drop_first().len() implies #[trigger] items.drop_first()[i].len() <= u64::MAX by {
            assert(items.drop_first()[i] == items[i + 1]);
        }
        lemma_parse_items(b, q + hl, items.drop_first());
        assert(seq![b.subrange(q, q + hl)] + items.drop_first() =~= items);
    }
}

/// Reading an archive's bytes gives back its blobs, whatever the version
/// hash: the law behind `Packed::from_bytes(&p.as_bytes()) == Some(p)`.
pub proof fn law_archive_roundtrip(hash: u64, items: Seq<Seq<u8>>)
    requires
        items.len() <= u64::MAX,
        forall|i: int| 0 <= i < items.len() ==> #[trigger] items[i].len() <= u64::MAX,
    ensures
        parse_archive(archive_bytes(hash, items)) == Some(items),
{
    lemma_auto_spec_u64_to_from_le_bytes();
    if items.len() > 0 {
        let b = archive_bytes(hash, items);
        let h = spec_u64_to_le_bytes(hash);
        let n = spec_u64_to_le_bytes(items.len() as u64);
        let sz = sizes_bytes(items);
        let d = data_bytes(items);
        let sl = sz.len() as int;
        let dl = d.len() as int;
        assert(b == h + n + sz + d);
        assert(b.subrange(8, 16) =~= n);
        assert(b.subrange(0, b.len() as int) =~= b);
        lemma_window(b, 0, b, 16, sl);
        assert(b.subrange(16, 16 + sl) =~= sz);
        lemma_parse_sizes(b, 16, items);
        lemma_window(b, 0, b, 16 + sl, dl);
        assert(b.subrange(16 + sl, 16 + sl + dl) =~= d);
        lemma_parse_items(b, 16 + sl, items);
    }
}

} // verus!

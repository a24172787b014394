//! Store discovery: turning one directory listing of a frame-store root into
//! the deterministically ordered frame sequence that playback consumes.
//!
//! The listing is plain data: each direct child of the root is either a file
//! or a directory together with the names of its file children. Children
//! whose names do not have the canonical shape are ignored. Loose root files
//! belong to the implicit bucket 0, merged with any explicit bucket 0. The
//! resulting frames are ordered by (bucket, frame number), ties keeping
//! parse order, independent of the listing's own order.

use vstd::prelude::*;

verus! {

use crate::names::{spec_frame_number, spec_parse_u64, frame_number_of_name, parse_u64};
use vstd::multiset::Multiset;

/// One discovered frame: its path relative to the store root and its parsed
/// frame number.
pub struct FrameInfo {
    pub path: Vec<u8>,
    pub number: u64,
}

/// One bucket of the store: its parsed second number and its frames in
/// playback order.
pub struct SecondInfo {
    pub number: u64,
    pub frames: Vec<FrameInfo>,
}

/// A direct child of the store root, as the directory reader saw it: a
/// sub-directory with the names of its file children, or a plain file.
pub enum ListingEntry {
    Dir { name: Vec<u8>, files: Vec<Vec<u8>> },
    File { name: Vec<u8> },
}

/// A discovered frame together with the bucket it belongs to.
pub struct BucketedFrame {
    pub second: u64,
    pub info: FrameInfo,
}

/// Mathematical image of one discovered frame.
#[verifier::ext_equal]
pub ghost struct StoreEntry {
    pub second: u64,
    pub number: u64,
    pub path: Seq<u8>,
}

/// The mathematical value of a `BucketedFrame`.
pub open spec fn entry_of(b: BucketedFrame) -> StoreEntry {
    StoreEntry { second: b.second, number: b.info.number, path: b.info.path@ }
}

/// The mathematical values of a sequence of `BucketedFrame`s.
pub open spec fn entries_view(v: Seq<BucketedFrame>) -> Seq<StoreEntry> {
    v.map_values(|b: BucketedFrame| entry_of(b))
}

/// The frame contributed by one file of a bucket directory: parseable names
/// yield one entry whose path is `<dir>/<file>`, others none.
pub open spec fn file_frame(second: u64, dname: Seq<u8>, fname: Seq<u8>) -> Seq<StoreEntry> {
    match spec_frame_number(fname) {
        Some(n) => seq![
            StoreEntry { second, number: n, path: dname + seq![0x2fu8] + fname },
        ],
        None => Seq::empty(),
    }
}

/// The frames contributed by the files of one bucket directory, in listing
/// order.
pub open spec fn dir_frames(second: u64, dname: Seq<u8>, files: Seq<Vec<u8>>) -> Seq<StoreEntry>
    decreases files.len(),
{
    if files.len() == 0 {
        Seq::empty()
    } else {
        dir_frames(second, dname, files.drop_last()) + file_frame(second, dname, files.last()@)
    }
}

/// The frames contributed by one direct child of the root: a directory
/// named by a number opens that bucket; a loose file with a canonical name
/// joins the implicit bucket 0; anything else is ignored.
pub open spec fn entry_frames(e: ListingEntry) -> Seq<StoreEntry> {
    match e {
        ListingEntry::Dir { name, files } => match spec_parse_u64(name@) {
            Some(second) => dir_frames(second, name@, files@),
            None => Seq::empty(),
        },
        ListingEntry::File { name } => match spec_frame_number(name@) {
            Some(n) => seq![StoreEntry { second: 0, number: n, path: name@ }],
            None => Seq::empty(),
        },
    }
}

/// All frames of a listing in parse order, before sorting.
pub open spec fn listing_frames(l: Seq<ListingEntry>) -> Seq<StoreEntry>
    decreases l.len(),
{
    if l.len() == 0 {
        Seq::empty()
    } else {
        listing_frames(l.drop_last()) + entry_frames(l.last())
    }
}

/// The discovery order: bucket number first, frame number second.
pub open spec fn key_le(a: StoreEntry, b: StoreEntry) -> bool {
    a.second < b.second || (a.second == b.second && a.number <= b.number)
}

/// Stable insertion of `x` into `s`: `x` goes after every element that
/// compares less-or-equal to it.
pub open spec fn insert_ordered(s: Seq<StoreEntry>, x: StoreEntry) -> Seq<StoreEntry>
    decreases s.len(),
{
    if s.len() == 0 {
        seq![x]
    } else if key_le(s.last(), x) {
        s.push(x)
    } else {
        insert_ordered(s.drop_last(), x).push(s.last())
    }
}

/// The stable sort of `s` by `key_le`: elements inserted one by one in
/// their original order.
pub open spec fn ordered_frames(s: Seq<StoreEntry>) -> Seq<StoreEntry>
    decreases s.len(),
{
    if s.len() == 0 {
        Seq::empty()
    } else {
        insert_ordered(ordered_frames(s.drop_last()), s.last())
    }
}

/// Every pair of entries appears in discovery order.
pub open spec fn sorted_by_key(s: Seq<StoreEntry>) -> bool {
    forall|i: int, j: int| 0 <= i <= j < s.len() ==> key_le(#[trigger] s[i], #[trigger] s[j])
}

proof fn lemma_entries_view_push(v: Seq<BucketedFrame>, b: BucketedFrame)
    ensures
        entries_view(v.push(b)) == entries_view(v).push(entry_of(b)),
{
    assert forall|m: int| 0 <= m < v.len() + 1 implies #[trigger] entries_view(v.push(b))[m]
        == entries_view(v).push(entry_of(b))[m] by {
        if m < v.len() {
            assert(v.push(b)[m] == v[m]);
        } else {
            assert(v.push(b)[m] == b);
        }
    }
    assert(entries_view(v.push(b)) =~= entries_view(v).push(entry_of(b)));
}

proof fn lemma_listing_frames_snoc(l: Seq<ListingEntry>, i: int)
    requires
        0 <= i < l.len(),
    ensures
        listing_frames(l.take(i + 1)) == listing_frames(l.take(i)) + entry_frames(l[i]),
{
    assert(l.take(i + 1).drop_last() =~= l.take(i));
    assert(l.take(i + 1).last() == l[i]);
}

proof fn lemma_dir_frames_snoc(second: u64, dname: Seq<u8>, files: Seq<Vec<u8>>, j: int)
    requires
        0 <= j < files.len(),
    ensures
        dir_frames(second, dname, files.take(j + 1)) == dir_frames(second, dname, files.take(j))
            + file_frame(second, dname, files[j]@),
{
    assert(files.take(j + 1).drop_last() =~= files.take(j));
    assert(files.take(j + 1).last() == files[j]);
}

/// Appends all of `src` to `out`.
fn push_bytes(out: &mut Vec<u8>, src: &Vec<u8>)
    ensures
        final(out)@ == old(out)@ + src@,
{
    let mut i: usize = 0;
    while i < src.len()
        invariant
            0 <= i <= src@.len(),
            out@ == old(out)@ + src@.take(i as int),
        decreases src@.len() - i,
    {
        out.push(src[i]);
        proof {
            assert(old(out)@ + src@.take(i + 1) =~= (old(out)@ + src@.take(i as int)).push(
                src@[i as int],
            ));
        }
        i = i + 1;
    }
    proof {
        assert(src@.take(src@.len() as int) =~= src@);
    }
}

/// Parses every child of the listing into its frames, in parse order.
fn parse_listing(listing: &Vec<ListingEntry>) -> (r: Vec<BucketedFrame>)
    ensures
        entries_view(r@) == listing_frames(listing@),
{
    let mut out: Vec<BucketedFrame> = Vec::new();
    let mut i: usize = 0;
    while i < listing.len()
        invariant
            0 <= i <= listing@.len(),
            entries_view(out@) == listing_frames(listing@.take(i as int)),
        decreases listing@.len() - i,
    {
        match &listing[i] {
            ListingEntry::File { name } => {
                match frame_number_of_name(name) {
                    Some(n) => {
                        let mut path: Vec<u8> = Vec::new();
                        push_bytes(&mut path, name);
                        proof {
                            assert(path@ =~= name@);
                        }
                        out.push(BucketedFrame { second: 0, info: FrameInfo { path, number: n } });
                        proof {
                            assert(entries_view(out@) =~= listing_frames(listing@.take(i as int))
                                + entry_frames(listing@[i as int]));
                        }
                    },
                    None => {
                        proof {
                            assert(entries_view(out@) =~= listing_frames(listing@.take(i as int))
                                + entry_frames(listing@[i as int]));
                        }
                    },
                }
            },
            ListingEntry::Dir { name, files } => {
                match parse_u64(name) {
                    Some(second) => {
                        let mut j: usize = 0;
                        while j < files.len()
                            invariant
                                0 <= j <= files@.len(),
                                spec_parse_u64(name@) == Some(second),
                                entries_view(out@) == listing_frames(listing@.take(i as int))
                                    + dir_frames(second, name@, files@.take(j as int)),
                            decreases files@.len() - j,
                        {
                            match frame_number_of_name(&files[j]) {
                                Some(n) => {
                                    let mut path: Vec<u8> = Vec::new();
                                    push_bytes(&mut path, name);
                                    path.push(0x2f);  // '/'
                                    push_bytes(&mut path, &files[j]);
                                    proof {
                                        assert(path@ =~= name@ + seq![0x2fu8] + files@[j as int]@);
                                    }
                                    let ghost prev = out@;
                                    out.push(
                                        BucketedFrame {
                                            second,
                                            info: FrameInfo { path, number: n },
                                        },
                                    );
                                    proof {
                                        let x = out@.last();
                                        assert(out@ == prev.push(x));
                                        lemma_entries_view_push(prev, x);
                                        lemma_dir_frames_snoc(second, name@, files@, j as int);
                                        assert(file_frame(second, name@, files@[j as int]@) =~= seq![
                                            entry_of(x),
                                        ]);
                                        assert(entries_view(out@) =~= listing_frames(
                                            listing@.take(i as int),
                                        ) + dir_frames(second, name@, files@.take(j + 1)));
                                    }
                                },
                                None => {
                                    proof {
                                        lemma_dir_frames_snoc(second, name@, files@, j as int);
                                        assert(file_frame(second, name@, files@[j as int]@)
                                            =~= Seq::<StoreEntry>::empty());
                                        assert(dir_frames(second, name@, files@.take(j + 1))
                                            =~= dir_frames(second, name@, files@.take(j as int)));
                                        assert(entries_view(out@) =~= listing_frames(
                                            listing@.take(i as int),
                                        ) + dir_frames(second, name@, files@.take(j + 1)));
                                    }
                                },
                            }
                            j = j + 1;
                        }
                        proof {
                            assert(files@.take(files@.len() as int) =~= files@);
                            assert(entries_view(out@) =~= listing_frames(listing@.take(i as int))
                                + entry_frames(listing@[i as int]));
                        }
                    },
                    None => {
                        proof {
                            assert(entries_view(out@) =~= listing_frames(listing@.take(i as int))
                                + entry_frames(listing@[i as int]));
                        }
                    },
                }
            },
        }
        proof {
            lemma_listing_frames_snoc(listing@, i as int);
        }
        i = i + 1;
    }
    proof {
        assert(listing@.take(listing@.len() as int) =~= listing@);
    }
    out
}

/// Compares two frames in discovery order.
fn frame_le(a: &BucketedFrame, b: &BucketedFrame) -> (r: bool)
    ensures
        r == key_le(entry_of(*a), entry_of(*b)),
{
    a.second < b.second || (a.second == b.second && a.info.number <= b.info.number)
}

proof fn lemma_insert_ordered_at(s: Seq<StoreEntry>, x: StoreEntry, j: int)
    requires
        0 <= j <= s.len(),
        j == 0 || key_le(s[j - 1], x),
        forall|k: int| j <= k < s.len() ==> !key_le(#[trigger] s[k], x),
    ensures
        insert_ordered(s, x) == s.take(j) + seq![x] + s.skip(j),
    decreases s.len(),
{
    if s.len() == 0 {
        assert(s.take(0) + seq![x] + s.skip(0) =~= seq![x]);
    } else if key_le(s.last(), x) {
        assert(j == s.len());
        assert(s.take(j) + seq![x] + s.skip(j) =~= s.push(x));
    } else {
        assert(j < s.len());
        let d = s.drop_last();
        assert(forall|k: int| j <= k < d.len() ==> d[k] == s[k]);
        assert(j == 0 || d[j - 1] == s[j - 1]);
        lemma_insert_ordered_at(d, x, j);
        assert((d.take(j) + seq![x] + d.skip(j)).push(s.last()) =~= s.take(j) + seq![x] + s.skip(
            j,
        ));
    }
}

/// Sorts parsed frames into discovery order, stably.
fn sort_entries(unsorted: Vec<BucketedFrame>) -> (r: Vec<BucketedFrame>)
    ensures
        entries_view(r@) == ordered_frames(entries_view(unsorted@)),
{
    let ghost all = entries_view(unsorted@);
    let mut rest = unsorted;
    let mut out: Vec<BucketedFrame> = Vec::new();
    let ghost mut k: int = 0;
    while rest.len() > 0
        invariant
            0 <= k <= all.len(),
            all.len() - k == rest@.len(),
            entries_view(rest@) == all.skip(k),
            entries_view(out@) == ordered_frames(all.take(k)),
        decreases rest@.len(),
    {
        let ghost before = rest@;
        let x = rest.remove(0);
        proof {
            assert(entry_of(x) == entries_view(before)[0]);
            assert(entries_view(before)[0] == all.skip(k)[0]);
            assert(all.skip(k)[0] == all[k]);
            assert forall|m: int| 0 <= m < rest@.len() implies entry_of(#[trigger] rest@[m])
                == all[k + 1 + m] by {
                assert(rest@[m] == before[m + 1]);
                assert(entries_view(before)[m + 1] == entry_of(before[m + 1]));
                assert(entries_view(before)[m + 1] == all.skip(k)[m + 1]);
            }
            assert(entries_view(rest@) =~= all.skip(k + 1));
        }
        let mut j: usize = out.len();
        while j > 0 && !frame_le(&out[j - 1], &x)
            invariant
                0 <= j <= out@.len(),
                forall|m: int|
                    j <= m < out@.len() ==> !key_le(entry_of(#[trigger] out@[m]), entry_of(x)),
            decreases j,
        {
            j = j - 1;
        }
        proof {
            assert(forall|m: int|
                j <= m < out@.len() ==> !key_le(#[trigger] entries_view(out@)[m], entry_of(x)));
            assert(j == 0 || key_le(entries_view(out@)[j - 1], entry_of(x)));
            lemma_insert_ordered_at(entries_view(out@), entry_of(x), j as int);
        }
        let ghost prev = entries_view(out@);
        out.insert(j, x);
        proof {
            assert(entries_view(out@) =~= prev.take(j as int) + seq![entry_of(x)] + prev.skip(
                j as int,
            ));
            assert(all.take(k + 1).drop_last() =~= all.take(k));
            assert(all.take(k + 1).last() == all[k]);
            assert(entries_view(out@) == insert_ordered(ordered_frames(all.take(k)), all[k]));
            k = k + 1;
        }
    }
    proof {
        assert(all.take(all.len() as int) =~= all);
    }
    out
}

proof fn lemma_insert_ordered_elems(s: Seq<StoreEntry>, x: StoreEntry)
    ensures
        insert_ordered(s, x).len() == s.len() + 1,
        forall|k: int|
            0 <= k < s.len() + 1 ==> (#[trigger] insert_ordered(s, x)[k] == x || s.contains(
                insert_ordered(s, x)[k],
            )),
    decreases s.len(),
{
    let ins = insert_ordered(s, x);
    if s.len() == 0 {
    } else if key_le(s.last(), x) {
        assert forall|k: int| 0 <= k < s.len() + 1 implies (#[trigger] ins[k] == x || s.contains(
            ins[k],
        )) by {
            if k < s.len() {
                assert(s[k] == ins[k]);
                assert(s.contains(ins[k]));
            }
        }
    } else {
        let d = s.drop_last();
        lemma_insert_ordered_elems(d, x);
        let t = insert_ordered(d, x);
        assert forall|k: int| 0 <= k < s.len() + 1 implies (#[trigger] ins[k] == x || s.contains(
            ins[k],
        )) by {
            if k < t.len() {
                assert(ins[k] == t[k]);
                if t[k] != x {
                    assert(d.contains(t[k]));
                    let w = choose|w: int| 0 <= w < d.len() && d[w] == t[k];
                    assert(s[w] == t[k]);
                    assert(s.contains(ins[k]));
                }
            } else {
                assert(ins[k] == s.last());
                assert(s[s.len() - 1] == s.last());
                assert(s.contains(ins[k]));
            }
        }
    }
}

proof fn lemma_insert_ordered_sorted(s: Seq<StoreEntry>, x: StoreEntry)
    requires
        sorted_by_key(s),
    ensures
        sorted_by_key(insert_ordered(s, x)),
    decreases s.len(),
{
    let ins = insert_ordered(s, x);
    if s.len() == 0 {
    } else if key_le(s.last(), x) {
        assert forall|i: int, j: int| 0 <= i <= j < ins.len() implies key_le(
            #[trigger] ins[i],
            #[trigger] ins[j],
        ) by {
            if j < s.len() {
                assert(key_le(s[i], s[j]));
            } else if i < s.len() {
                assert(key_le(s[i], s[s.len() - 1]));
            }
        }
    } else {
        let d = s.drop_last();
        assert(sorted_by_key(d)) by {
            assert(forall|i: int, j: int|
                0 <= i <= j < d.len() ==> key_le(#[trigger] d[i], #[trigger] d[j]));
        }
        lemma_insert_ordered_sorted(d, x);
        lemma_insert_ordered_elems(d, x);
        let t = insert_ordered(d, x);
        assert forall|i: int, j: int| 0 <= i <= j < ins.len() implies key_le(
            #[trigger] ins[i],
            #[trigger] ins[j],
        ) by {
            if j < t.len() {
                assert(key_le(t[i], t[j]));
            } else if i < t.len() {
                assert(ins[j] == s.last());
                assert(t[i] == x || d.contains(t[i]));
                if t[i] == x {
                } else {
                    let w = choose|w: int| 0 <= w < d.len() && d[w] == t[i];
                    assert(key_le(s[w], s[s.len() - 1]));
                }
            }
        }
    }
}

/// The discovery order is a sort: the output of `ordered_frames` is sorted
/// by (bucket, frame number).
pub proof fn lemma_ordered_frames_sorted(s: Seq<StoreEntry>)
    ensures
        sorted_by_key(ordered_frames(s)),
    decreases s.len(),
{
    if s.len() > 0 {
        lemma_ordered_frames_sorted(s.drop_last());
        lemma_insert_ordered_sorted(ordered_frames(s.drop_last()), s.last());
    }
}

proof fn lemma_insert_ordered_multiset(s: Seq<StoreEntry>, x: StoreEntry)
    ensures
        insert_ordered(s, x).to_multiset() == s.to_multiset().insert(x),
    decreases s.len(),
{
    broadcast use vstd::seq_lib::group_to_multiset_ensures;

    if s.len() == 0 {
        assert(seq![x] =~= Seq::<StoreEntry>::empty().push(x));
        assert(Seq::<StoreEntry>::empty().push(x).to_multiset() =~= Seq::<
            StoreEntry,
        >::empty().to_multiset().insert(x));
        assert(Seq::<StoreEntry>::empty().to_multiset() =~= Multiset::<StoreEntry>::empty());
    } else if key_le(s.last(), x) {
    } else {
        let d = s.drop_last();
        lemma_insert_ordered_multiset(d, x);
        assert(d.push(s.last()) =~= s);
        assert(insert_ordered(d, x).push(s.last()).to_multiset() =~= insert_ordered(
            d,
            x,
        ).to_multiset().insert(s.last()));
        assert(d.to_multiset().insert(x).insert(s.last()) =~= d.to_multiset().insert(
            s.last(),
        ).insert(x));
        assert(d.push(s.last()).to_multiset() =~= d.to_multiset().insert(s.last()));
    }
}

/// The discovery order is a permutation: sorting loses no frame and invents
/// none.
pub proof fn lemma_ordered_frames_permutation(s: Seq<StoreEntry>)
    ensures
        ordered_frames(s).to_multiset() == s.to_multiset(),
    decreases s.len(),
{
    broadcast use vstd::seq_lib::group_to_multiset_ensures;

    if s.len() > 0 {
        let d = s.drop_last();
        lemma_ordered_frames_permutation(d);
        lemma_insert_ordered_multiset(ordered_frames(d), s.last());
        assert(d.push(s.last()) =~= s);
        assert(d.push(s.last()).to_multiset() =~= d.to_multiset().insert(s.last()));
    }
}

/// No two frames share a (bucket, frame number) key — true of every store
/// the writer lays down, since it never reuses a number within a bucket.
pub open spec fn distinct_keys(s: Seq<StoreEntry>) -> bool {
    forall|i: int, j: int|
        0 <= i < j < s.len() ==> !((#[trigger] s[i]).second == (#[trigger] s[j]).second
            && s[i].number == s[j].number)
}

/// The discovery order is unique: two sorted sequences of the same frames
/// with pairwise distinct keys are the same sequence. So for a store whose
/// frame numbers are unique within each bucket, the discovered order does
/// not depend on the order the filesystem listed the root in.
pub proof fn lemma_sorted_distinct_unique(a: Seq<StoreEntry>, b: Seq<StoreEntry>)
    requires
        sorted_by_key(a),
        sorted_by_key(b),
        distinct_keys(a),
        a.to_multiset() == b.to_multiset(),
    ensures
        a == b,
    decreases a.len(),
{
    broadcast use vstd::seq_lib::group_to_multiset_ensures;

    assert(a.len() == a.to_multiset().len());
    assert(b.len() == b.to_multiset().len());
    if a.len() == 0 {
        assert(a =~= b);
    } else {
        let x = a.last();
        let y = b.last();
        assert(a.contains(x)) by {
            assert(a[a.len() - 1] == x);
        }
        assert(b.to_multiset().count(x) > 0);
        assert(b.contains(x));
        let wx = choose|w: int| 0 <= w < b.len() && b[w] == x;
        assert(b.contains(y)) by {
            assert(b[b.len() - 1] == y);
        }
        assert(a.to_multiset().count(y) > 0);
        assert(a.contains(y));
        let wy = choose|w: int| 0 <= w < a.len() && a[w] == y;
        assert(key_le(b[wx], b[b.len() - 1]));
        assert(key_le(a[wy], a[a.len() - 1]));
        // x and y bound each other, so they carry the same key; x sits at
        // the end of a, and a's keys are distinct, so y is x itself.
        assert(x.second == y.second && x.number == y.number);
        assert(y == x) by {
            if wy < a.len() - 1 {
                assert(!(a[wy].second == a[a.len() - 1].second && a[wy].number == a[a.len()
                    - 1].number));
            }
        }
        let da = a.drop_last();
        let db = b.drop_last();
        assert(da.push(x) =~= a);
        assert(db.push(y) =~= b);
        assert(da.push(x).to_multiset() =~= da.to_multiset().insert(x));
        assert(db.push(y).to_multiset() =~= db.to_multiset().insert(y));
        assert(da.to_multiset() =~= db.to_multiset()) by {
            assert forall|e: StoreEntry| true implies da.to_multiset().count(e)
                == db.to_multiset().count(e) by {
                assert(da.to_multiset().insert(x).count(e) == db.to_multiset().insert(y).count(e));
            }
        }
        assert(sorted_by_key(da)) by {
            assert(forall|i: int, j: int|
                0 <= i <= j < da.len() ==> key_le(#[trigger] da[i], #[trigger] da[j]));
        }
        assert(sorted_by_key(db)) by {
            assert(forall|i: int, j: int|
                0 <= i <= j < db.len() ==> key_le(#[trigger] db[i], #[trigger] db[j]));
        }
        assert(distinct_keys(da)) by {
            assert(forall|i: int, j: int|
                0 <= i < j < da.len() ==> !((#[trigger] da[i]).second == (#[trigger] da[j]).second
                    && da[i].number == da[j].number));
        }
        lemma_sorted_distinct_unique(da, db);
        assert(a =~= b);
    }
}

/// What one discovered frame of the flat sequence looks like.
pub open spec fn info_matches(f: FrameInfo, e: StoreEntry) -> bool {
    f.path@ == e.path && f.number == e.number
}

/// Scans a listing of the store root into the ordered frame sequence: every
/// child with a canonical name becomes one frame, loose root files count as
/// bucket 0, and the result is the stable (bucket, frame number) sort of
/// them, whatever order the listing came in.
pub fn discover_and_sort_frames(listing: &Vec<ListingEntry>) -> (r: Vec<FrameInfo>)
    ensures
        r@.len() == ordered_frames(listing_frames(listing@)).len(),
        forall|m: int|
            0 <= m < r@.len() ==> info_matches(
                #[trigger] r@[m],
                ordered_frames(listing_frames(listing@))[m],
            ),
{
    let sorted = sort_entries(parse_listing(listing));
    let ghost target = ordered_frames(listing_frames(listing@));
    let mut rest = sorted;
    let mut out: Vec<FrameInfo> = Vec::new();
    let ghost mut k: int = 0;
    while rest.len() > 0
        invariant
            0 <= k <= target.len(),
            target.len() - k == rest@.len(),
            entries_view(rest@) == target.skip(k),
            out@.len() == k,
            forall|m: int| 0 <= m < k ==> info_matches(#[trigger] out@[m], target[m]),
        decreases rest@.len(),
    {
        let ghost before = rest@;
        let x = rest.remove(0);
        proof {
            assert(entry_of(x) == entries_view(before)[0]);
            assert(entries_view(before)[0] == target.skip(k)[0]);
            assert forall|m: int| 0 <= m < rest@.len() implies entry_of(#[trigger] rest@[m])
                == target[k + 1 + m] by {
                assert(rest@[m] == before[m + 1]);
                assert(entries_view(before)[m + 1] == entry_of(before[m + 1]));
                assert(entries_view(before)[m + 1] == target.skip(k)[m + 1]);
            }
            assert(entries_view(rest@) =~= target.skip(k + 1));
        }
        out.push(x.info);
        proof {
            k = k + 1;
        }
    }
    out
}

/// The frames of one bucket, as entries of the flat discovery sequence.
pub open spec fn second_entries(si: SecondInfo) -> Seq<StoreEntry> {
    si.frames@.map_values(
        |f: FrameInfo| StoreEntry { second: si.number, number: f.number, path: f.path@ },
    )
}

/// The flat discovery sequence described by a bucketed store index.
pub open spec fn seconds_flatten(s: Seq<SecondInfo>) -> Seq<StoreEntry>
    decreases s.len(),
{
    if s.len() == 0 {
        Seq::empty()
    } else {
        seconds_flatten(s.drop_last()) + second_entries(s.last())
    }
}

/// Scans a listing of the store root into a bucketed index: buckets
/// strictly ascending (implicit and explicit bucket 0 merged), each bucket
/// non-empty with its frames ascending by number, and the whole index
/// flattening to exactly the ordered frame sequence.
pub fn discover_seconds(listing: &Vec<ListingEntry>) -> (r: Vec<SecondInfo>)
    ensures
        seconds_flatten(r@) == ordered_frames(listing_frames(listing@)),
        forall|i: int, j: int| 0 <= i < j < r@.len() ==> r@[i].number < r@[j].number,
        forall|i: int| 0 <= i < r@.len() ==> (#[trigger] r@[i]).frames@.len() > 0,
        forall|i: int, a: int, b: int|
            #![trigger r@[i].frames@[a], r@[i].frames@[b]]
            0 <= i < r@.len() && 0 <= a <= b < r@[i].frames@.len() ==> r@[i].frames@[a].number
                <= r@[i].frames@[b].number,
{
    let sorted = sort_entries(parse_listing(listing));
    let ghost target = ordered_frames(listing_frames(listing@));
    proof {
        lemma_ordered_frames_sorted(listing_frames(listing@));
    }
    let mut rest = sorted;
    let mut seconds: Vec<SecondInfo> = Vec::new();
    let ghost mut k: int = 0;
    while rest.len() > 0
        invariant
            0 <= k <= target.len(),
            target.len() - k == rest@.len(),
            entries_view(rest@) == target.skip(k),
            sorted_by_key(target),
            seconds_flatten(seconds@) == target.take(k),
            forall|i: int, j: int|
                0 <= i < j < seconds@.len() ==> seconds@[i].number < seconds@[j].number,
            forall|i: int|
                0 <= i < seconds@.len() ==> (#[trigger] seconds@[i]).frames@.len() > 0,
            forall|i: int, a: int, b: int|
                #![trigger seconds@[i].frames@[a], seconds@[i].frames@[b]]
                0 <= i < seconds@.len() && 0 <= a <= b < seconds@[i].frames@.len() ==> seconds@[i].frames@[a].number
                    <= seconds@[i].frames@[b].number,
            seconds@.len() > 0 <==> k > 0,
            k > 0 ==> seconds@.last().number == target[k - 1].second,
            k > 0 ==> seconds@.last().frames@.last().number == target[k - 1].number,
        decreases rest@.len(),
    {
        let ghost before = rest@;
        let x = rest.remove(0);
        proof {
            assert(entry_of(x) == entries_view(before)[0]);
            assert(entries_view(before)[0] == target.skip(k)[0]);
            assert forall|m: int| 0 <= m < rest@.len() implies entry_of(#[trigger] rest@[m])
                == target[k + 1 + m] by {
                assert(rest@[m] == before[m + 1]);
                assert(entries_view(before)[m + 1] == entry_of(before[m + 1]));
                assert(entries_view(before)[m + 1] == target.skip(k)[m + 1]);
            }
            assert(entries_view(rest@) =~= target.skip(k + 1));
            assert(target.take(k + 1).drop_last() =~= target.take(k));
            assert(target.take(k + 1).last() == target[k]);
            if k > 0 {
                assert(key_le(target[k - 1], target[k]));
            }
        }
        let ghost prev = seconds@;
        let needs_new = seconds.len() == 0 || seconds[seconds.len() - 1].number != x.second;
        if needs_new {
            let mut frames: Vec<FrameInfo> = Vec::new();
            let ghost e = entry_of(x);
            frames.push(x.info);
            let number = x.second;
            seconds.push(SecondInfo { number, frames });
            proof {
                let si = seconds@.last();
                assert(seconds@ == prev.push(si));
                assert(seconds_flatten(seconds@) == seconds_flatten(prev) + second_entries(si)) by {
                    assert(seconds@.drop_last() =~= prev);
                }
                assert(second_entries(si) =~= seq![e]);
                assert(seconds_flatten(seconds@) =~= target.take(k + 1));
            }
        } else {
            let mut si = match seconds.pop() {
                Some(s) => s,
                None => {
                    proof {
                        assert(false);
                    }
                    SecondInfo { number: 0, frames: Vec::new() }
                },
            };
            let ghost old_si = si;
            let ghost e = entry_of(x);
            si.frames.push(x.info);
            seconds.push(si);
            proof {
                let nsi = seconds@.last();
                assert(seconds@ == prev.drop_last().push(nsi));
                assert(nsi.number == old_si.number);
                assert(second_entries(nsi) == second_entries(old_si).push(e)) by {
                    assert forall|m: int| 0 <= m < nsi.frames@.len() implies #[trigger] second_entries(
                        nsi,
                    )[m] == second_entries(old_si).push(e)[m] by {
                        if m < old_si.frames@.len() {
                            assert(nsi.frames@[m] == old_si.frames@[m]);
                            assert(second_entries(old_si)[m] == second_entries(old_si).push(e)[m]);
                        } else {
                            assert(nsi.frames@[m] == nsi.frames@.last());
                        }
                    }
                    assert(second_entries(nsi) =~= second_entries(old_si).push(e));
                }
                assert(seconds_flatten(prev) == seconds_flatten(prev.drop_last()) + second_entries(
                    old_si,
                )) by {
                    assert(prev.drop_last().push(old_si) =~= prev);
                    assert(seconds_flatten(prev.drop_last().push(old_si)) == seconds_flatten(
                        prev.drop_last(),
                    ) + second_entries(old_si)) by {
                        assert(prev.drop_last().push(old_si).drop_last() =~= prev.drop_last());
                    }
                }
                assert(seconds_flatten(seconds@) == seconds_flatten(prev.drop_last())
                    + second_entries(nsi)) by {
                    assert(seconds@.drop_last() =~= prev.drop_last());
                }
                assert(seconds_flatten(seconds@) =~= target.take(k + 1));
            }
        }
        proof {
            k = k + 1;
        }
    }
    proof {
        assert(target.take(target.len() as int) =~= target);
    }
    seconds
}

} // verus!

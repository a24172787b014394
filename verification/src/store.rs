//! The store writer's side of the on-disk layout: canonical names for frame
//! files and bucket-relative paths, and the guard value that records which
//! scratch file a conversion run must remove on every exit path.

use vstd::prelude::*;

verus! {

use crate::names::{
    spec_frame_number, spec_parse_u64, spec_repr, lemma_repr_digits, lemma_repr_parses,
    push_decimal, txt_suffix,
};
use crate::discover::{
    distinct_keys, key_le, lemma_ordered_frames_permutation, lemma_ordered_frames_sorted,
    lemma_sorted_distinct_unique, listing_frames, ordered_frames, sorted_by_key, ListingEntry,
    StoreEntry,
};
use crate::sampler::{
    buckets_monotone, contiguous_numbering, lemma_contiguous_run, lemma_history_keys_distinct,
};

/// Canonical file name of frame `frame` inside its bucket: `<frame>.txt`.
pub open spec fn spec_file_name(frame: nat) -> Seq<u8> {
    spec_repr(frame) + txt_suffix()
}

/// Canonical path of a frame relative to the store root:
/// `<second>/<frame>.txt`.
pub open spec fn spec_rel_path(second: nat, frame: nat) -> Seq<u8> {
    spec_repr(second) + seq![0x2fu8] + spec_file_name(frame)
}

/// Builds the canonical name of the bucket directory for `second`.
pub fn second_dir_name(second: u64) -> (r: Vec<u8>)
    ensures
        r@ == spec_repr(second as nat),
{
    let mut out: Vec<u8> = Vec::new();
    push_decimal(second, &mut out);
    proof {
        assert(out@ =~= spec_repr(second as nat));
    }
    out
}

/// Builds the canonical file name of frame `frame`.
pub fn frame_file_name(frame: u64) -> (r: Vec<u8>)
    ensures
        r@ == spec_file_name(frame as nat),
{
    let mut out: Vec<u8> = Vec::new();
    push_decimal(frame, &mut out);
    out.push(0x2e);  // '.'
    out.push(0x74);  // 't'
    out.push(0x78);  // 'x'
    out.push(0x74);  // 't'
    proof {
        assert(out@ =~= spec_repr(frame as nat) + txt_suffix());
    }
    out
}

/// Builds the canonical store-relative path of frame `frame` in bucket
/// `second`.
pub fn frame_rel_path(second: u64, frame: u64) -> (r: Vec<u8>)
    ensures
        r@ == spec_rel_path(second as nat, frame as nat),
{
    let mut out: Vec<u8> = Vec::new();
    push_decimal(second, &mut out);
    out.push(0x2f);  // '/'
    push_decimal(frame, &mut out);
    out.push(0x2e);  // '.'
    out.push(0x74);  // 't'
    out.push(0x78);  // 'x'
    out.push(0x74);  // 't'
    proof {
        assert(out@ =~= spec_repr(second as nat) + seq![0x2fu8] + spec_file_name(frame as nat));
    }
    out
}

/// A bucket directory's name parses back to exactly the bucket number it
/// was written for.
pub proof fn lemma_bucket_name_round_trip(second: u64)
    ensures
        spec_parse_u64(spec_repr(second as nat)) == Some(second),
{
    lemma_repr_parses(second);
}

/// A frame file written as `<n>.txt` is rediscovered as frame `n`: the name
/// splits at the suffix and its stem parses back to `n`.
pub proof fn lemma_file_name_round_trip(frame: u64)
    ensures
        spec_frame_number(spec_file_name(frame as nat)) == Some(frame),
{
    lemma_repr_digits(frame as nat);
    lemma_repr_parses(frame);
    let name = spec_file_name(frame as nat);
    let r = spec_repr(frame as nat);
    assert(name.len() == r.len() + 4);
    assert(name.skip(name.len() - 4) =~= txt_suffix());
    assert(name.take(name.len() - 4) =~= r);
}

/// The entries a conversion run with kept-frame history `h` lays down on
/// disk: frame `n` of bucket `b` at path `<b>/<n>.txt`.
pub open spec fn written_entries(h: Seq<(u64, u64)>) -> Seq<StoreEntry> {
    h.map_values(
        |p: (u64, u64)| StoreEntry {
            second: p.0,
            number: p.1,
            path: spec_rel_path(p.0 as nat, p.1 as nat),
        },
    )
}

proof fn lemma_written_sorted_distinct(h: Seq<(u64, u64)>)
    requires
        contiguous_numbering(h),
        buckets_monotone(h),
    ensures
        sorted_by_key(written_entries(h)),
        distinct_keys(written_entries(h)),
{
    let w = written_entries(h);
    assert forall|i: int, j: int| 0 <= i <= j < w.len() implies key_le(
        #[trigger] w[i],
        #[trigger] w[j],
    ) by {
        assert(h[i].0 <= h[j].0);
        if i < j && h[i].0 == h[j].0 {
            lemma_contiguous_run(h, i, j);
        }
    }
    assert forall|i: int, j: int| 0 <= i < j < w.len() implies !((#[trigger] w[i]).second == (
    #[trigger] w[j]).second && w[i].number == w[j].number) by {
        if h[i].0 == h[j].0 {
            lemma_history_keys_distinct(h, i, j);
        }
    }
}

/// Writing then discovering is the identity: however the filesystem lists
/// back a store that a conversion run wrote — `l` is any listing whose
/// parseable entries are exactly the written ones — discovery returns
/// exactly the kept frames, in write order.
pub proof fn lemma_store_round_trip(h: Seq<(u64, u64)>, l: Seq<ListingEntry>)
    requires
        contiguous_numbering(h),
        buckets_monotone(h),
        listing_frames(l).to_multiset() == written_entries(h).to_multiset(),
    ensures
        ordered_frames(listing_frames(l)) == written_entries(h),
{
    lemma_written_sorted_distinct(h);
    lemma_ordered_frames_sorted(listing_frames(l));
    lemma_ordered_frames_permutation(listing_frames(l));
    lemma_sorted_distinct_unique(written_entries(h), ordered_frames(listing_frames(l)));
}

/// Records the path of the transient scratch file that a conversion run
/// creates; whoever drives the run removes that file on every exit path.
pub struct CleanupGuard(pub Vec<u8>);

impl CleanupGuard {
    /// Remembers `path` as the file to remove.
    pub fn new(path: Vec<u8>) -> (g: CleanupGuard)
        ensures
            g.0@ == path@,
    {
        CleanupGuard(path)
    }
}

} // verus!

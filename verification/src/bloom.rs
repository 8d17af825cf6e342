//! The Bloom digest over the converged key set.
//!
//! The filter itself comes from the `bloomfilter` crate; this module is the
//! crate's trusted boundary to it. `bloom_items` names what a given filter
//! instance has recorded; the wrappers state how the crate's calls move that
//! set, and `digest_contains` is the verified membership probe built on them.

use vstd::prelude::*;

use crate::keys::KeyModel;
use crate::keys::RecordKey;

verus! {

#[verifier::external_type_specification]
#[verifier::external_body]
#[verifier::reject_recursive_types(T)]
pub struct ExBloom<T: ?Sized>(bloomfilter::Bloom<T>);

/// The set of keys recorded in a filter instance so far.
pub uninterp spec fn bloom_items(b: bloomfilter::Bloom<RecordKey>) -> Set<KeyModel>;

/// Relies on bloomfilter::Bloom::new: a filter of the given bitmap size in
/// bytes for the expected item count, with every bit clear, so nothing is
/// recorded in it yet. The crate rejects a zero size or count.
#[verifier::external_body]
pub(crate) fn bloom_new(bitmap_size: usize, items_count: usize) -> (r: bloomfilter::Bloom<
    RecordKey,
>)
    requires
        bitmap_size >= 1,
        items_count >= 1,
    ensures
        bloom_items(r) == Set::<KeyModel>::empty(),
{
    bloomfilter::Bloom::new(bitmap_size, items_count)
}

/// Relies on bloomfilter::Bloom::set: records the presence of the item.
#[verifier::external_body]
pub(crate) fn bloom_set(b: &mut bloomfilter::Bloom<RecordKey>, key: &RecordKey)
    ensures
        bloom_items(*final(b)) == bloom_items(*old(b)).insert(key@),
{
    b.set(key)
}

/// Relies on bloomfilter::Bloom::check: there can be false positives but no
/// false negatives, so a recorded item answers true; and a filter in which
/// nothing was ever recorded has every bit clear and answers false.
#[verifier::external_body]
pub(crate) fn bloom_check(b: &bloomfilter::Bloom<RecordKey>, key: &RecordKey) -> (r: bool)
    ensures
        bloom_items(*b).contains(key@) ==> r,
        bloom_items(*b).is_empty() ==> !r,
{
    b.check(key)
}

/// Whether the digest may contain a key. A key of the digested set always
/// answers true (the filter has no false negatives); an unrelated key
/// answers false with high probability, and always on an empty digest.
pub fn digest_contains(bloom: &bloomfilter::Bloom<RecordKey>, key: &RecordKey) -> (r: bool)
    ensures
        bloom_items(*bloom).contains(key@) ==> r,
        bloom_items(*bloom).is_empty() ==> !r,
{
    bloom_check(bloom, key)
}

/// The bitmap size in bytes of a digest over this many keys, at the fixed
/// one-percent false-positive target: 9.586 bits — 1.1983 bytes — for each
/// key, rounded up, and at least one byte. One percent keeps the filter at
/// about half the size a one-per-mille rate would take, while two gossip
/// exchanges at one percent already make the residual undetected difference
/// negligible.
pub fn bitmap_bytes(items: usize) -> (r: usize)
    ensures
        r >= 1,
        items == 0 ==> r == 1,
        items >= 1 ==> ({
            let exact = ((items as int) * 11983 + 9999) / 10000;
            r as int == if exact <= usize::MAX as int {
                exact
            } else {
                usize::MAX as int
            }
        }),
{
    let wide: u128 = (items as u128) * 11983;
    let bytes: u128 = (wide + 9999) / 10000;
    if bytes < 1 {
        1
    } else if bytes > (usize::MAX as u128) {
        usize::MAX
    } else {
        bytes as usize
    }
}

} // verus!

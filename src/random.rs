use vstd::prelude::*;

use rand::Rng;
use rand::seq::SliceRandom;

verus! {

/// Relies on rand's `Rng::gen_range` over `lo..hi` on the thread-local
/// generator: a value in `[lo, hi)`; it panics on an empty range, which
/// `requires` rules out.
#[verifier::external_body]
pub(crate) fn random_range(lo: i32, hi: i32) -> (r: i32)
    requires
        lo < hi,
    ensures
        lo <= r < hi,
{
    rand::thread_rng().gen_range(lo..hi)
}

/// Relies on rand's `Rng::gen::<bool>` on the thread-local generator: a fair coin.
#[verifier::external_body]
pub(crate) fn random_bool() -> (r: bool) {
    rand::thread_rng().gen::<bool>()
}

/// Relies on rand's `SliceRandom::choose` on the thread-local generator:
/// `None` for an empty slice, else one of its elements.
#[verifier::external_body]
pub(crate) fn pick<T: Copy>(items: &Vec<T>) -> (r: Option<T>)
    ensures
        r.is_none() <==> items@.len() == 0,
        r matches Some(x) ==> items@.contains(x),
{
    items.choose(&mut rand::thread_rng()).copied()
}

/// Relies on rand's `SliceRandom::choose_weighted`, weighing each pair by its
/// second field: it fails when there is no pair or every weight is zero, and
/// otherwise picks a pair of positive weight, whose first field it returns. The
/// running sum of the weights is a `u64`, so `requires` keeps it from overflowing.
#[verifier::external_body]
pub(crate) fn choose_weighted(items: &Vec<(usize, u64)>) -> (r: Option<usize>)
    requires
        weight_sum(items@) <= u64::MAX,
    ensures
        r.is_none() <==> forall|k: int| 0 <= k < items@.len() ==> #[trigger] items@[k].1 == 0,
        r matches Some(i) ==> exists|k: int|
            0 <= k < items@.len() && #[trigger] items@[k].0 == i && items@[k].1 > 0,
{
    items.choose_weighted(&mut rand::thread_rng(), |p| p.1).ok().map(|p| p.0)
}

/// The sum of the weights of the pairs.
pub open spec fn weight_sum(items: Seq<(usize, u64)>) -> int
    decreases items.len(),
{
    if items.len() == 0 {
        0
    } else {
        weight_sum(items.drop_last()) + items.last().1
    }
}

} // verus!

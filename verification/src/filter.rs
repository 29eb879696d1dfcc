//! The change-detection filter: decides whether a candidate book-top
//! snapshot differs materially from the last published one.

use vstd::prelude::*;

use crate::model::BookV;
use crate::orderbook::BookUpdate;

verus! {

/// The publication threshold: 0.01 price units, in micro-unit scale.
pub const EPSILON_SCALED: i64 = 10_000;

pub open spec fn spec_abs(x: int) -> int {
    if x < 0 {
        -x
    } else {
        x
    }
}

/// Publish iff either side of either snapshot is empty (a transition to or
/// from a one-sided book is material), or a top-of-book price moved by more
/// than the threshold. Quantity-only changes at the same best price are not
/// published.
pub open spec fn important_update(n: BookV, l: BookV) -> bool {
    ||| n.bids.len() == 0
    ||| n.asks.len() == 0
    ||| l.bids.len() == 0
    ||| l.asks.len() == 0
    ||| spec_abs(n.bids[0].price - l.bids[0].price) > EPSILON_SCALED
    ||| spec_abs(n.asks[0].price - l.asks[0].price) > EPSILON_SCALED
}

/// Whether the candidate snapshot `new` must be published, given the last
/// published snapshot `last` of the same instrument.
pub fn is_important_update(new: &BookUpdate, last: &BookUpdate) -> (r: bool)
    ensures
        r == important_update(new@, last@),
{
    if new.bids.len() == 0 || new.asks.len() == 0 || last.bids.len() == 0 || last.asks.len() == 0 {
        return true;
    }
    proof {
        assert(new@.bids[0] == new.bids@[0]@);
        assert(new@.asks[0] == new.asks@[0]@);
        assert(last@.bids[0] == last.bids@[0]@);
        assert(last@.asks[0] == last.asks@[0]@);
    }
    let bd: i128 = new.bids[0].price as i128 - last.bids[0].price as i128;
    let ad: i128 = new.asks[0].price as i128 - last.asks[0].price as i128;
    let bda: i128 = if bd < 0 {
        -bd
    } else {
        bd
    };
    let ada: i128 = if ad < 0 {
        -ad
    } else {
        ad
    };
    bda > EPSILON_SCALED as i128 || ada > EPSILON_SCALED as i128
}

/// The filter never emits a publication when both sides are present in both
/// snapshots and both top prices are within the threshold of the previous
/// publication.
pub proof fn lemma_publication_suppressed(n: BookV, l: BookV)
    requires
        n.bids.len() > 0,
        n.asks.len() > 0,
        l.bids.len() > 0,
        l.asks.len() > 0,
        spec_abs(n.bids[0].price - l.bids[0].price) <= EPSILON_SCALED,
        spec_abs(n.asks[0].price - l.asks[0].price) <= EPSILON_SCALED,
    ensures
        !important_update(n, l),
{
}

} // verus!

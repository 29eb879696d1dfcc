//! The ingress loop's decision core: per-instrument book routing, the
//! per-event pipeline step (apply, snapshot, change filter, publication
//! bookkeeping), and the polling discipline. The loop itself — transports,
//! sleeping, CPU hints — lives outside; it feeds decoded events in and
//! carries the decisions out.

use vstd::prelude::*;

use crate::codec::WireOrder;
use crate::filter::{important_update, is_important_update};
use crate::model::{spec_apply, valid_order, BookV, LevelV, OrderV, TradeV};
use crate::orderbook::{
    clone_bytes, trades_view, BookUpdate, InvalidOrder, Order, OrderBook, Trade,
};

verus! {

// ---------------------------------------------------------------------------
// Ingress validation
// ---------------------------------------------------------------------------

/// Why an order event fails the ingress invariants.
#[derive(Clone, Copy, Debug, PartialEq, Eq, Structural)]
pub enum ValidationError {
    /// The instrument is empty.
    EmptySymbol,
    /// The instrument exceeds sixteen octets.
    SymbolTooLong,
    /// A Limit needs a positive price; a Cancel a non-negative one.
    BadPrice,
    /// A Limit or Market needs a positive quantity; a Cancel a non-negative
    /// one.
    BadQuantity,
}

/// The ingress invariants of an order event, over the wire record and the
/// scaled integer price derived from its price bits.
pub open spec fn ingress_ok(w: crate::codec::WireOrderV, price_scaled: int) -> bool {
    &&& 1 <= w.symbol.len() <= 16
    &&& w.order_type is Limit ==> price_scaled >= 1 && w.amount >= 1
    &&& w.order_type is Market ==> w.amount >= 1
    &&& w.order_type is Cancel ==> w.amount >= 0 && price_scaled >= 0
}

/// Validate a decoded wire record against the ingress invariants and build
/// the order event the book takes. The scaled price is derived from the
/// wire's float64 bits by the caller.
pub fn validate_order(w: &WireOrder, price_scaled: i64) -> (r: Result<Order, ValidationError>)
    ensures
        ({
            match r {
                Ok(o) => {
                    &&& ingress_ok(w@, price_scaled as int)
                    &&& valid_order(o@)
                    &&& o@ == (OrderV {
                        id: w.id as int,
                        symbol: w@.symbol,
                        price: price_scaled as int,
                        amount: w.amount as int,
                        action: w.action,
                        order_type: w.order_type,
                        timestamp: w.timestamp as int,
                    })
                },
                Err(ValidationError::EmptySymbol) => w@.symbol.len() == 0,
                Err(ValidationError::SymbolTooLong) => w@.symbol.len() > 16,
                Err(ValidationError::BadPrice) => 1 <= w@.symbol.len() <= 16 && ((
                w.order_type is Limit && price_scaled < 1) || (w.order_type is Cancel
                    && price_scaled < 0)),
                Err(ValidationError::BadQuantity) => 1 <= w@.symbol.len() <= 16 && (((
                w.order_type is Limit || w.order_type is Market) && w.amount < 1) || (
                w.order_type is Cancel && w.amount < 0)),
            }
        }),
        r is Err <==> !ingress_ok(w@, price_scaled as int),
{
    if w.symbol.len() == 0 {
        return Err(ValidationError::EmptySymbol);
    }
    if w.symbol.len() > 16 {
        return Err(ValidationError::SymbolTooLong);
    }
    match w.order_type {
        crate::orderbook::OrderType::Limit => {
            if price_scaled < 1 {
                return Err(ValidationError::BadPrice);
            }
            if w.amount < 1 {
                return Err(ValidationError::BadQuantity);
            }
        },
        crate::orderbook::OrderType::Market => {
            if w.amount < 1 {
                return Err(ValidationError::BadQuantity);
            }
        },
        crate::orderbook::OrderType::Cancel => {
            if price_scaled < 0 {
                return Err(ValidationError::BadPrice);
            }
            if w.amount < 0 {
                return Err(ValidationError::BadQuantity);
            }
        },
    }
    Ok(
        Order {
            id: w.id as u128,
            symbol: clone_bytes(&w.symbol),
            price: price_scaled,
            amount: w.amount,
            action: w.action,
            order_type: w.order_type,
            timestamp: w.timestamp as u128,
        },
    )
}

// ---------------------------------------------------------------------------
// Polling discipline
// ---------------------------------------------------------------------------

/// What the loop does after an empty poll.
#[derive(Clone, Copy, Debug, PartialEq, Eq, Structural)]
pub enum PollAction {
    /// Busy mode: emit a CPU relaxation hint and re-poll at once.
    PauseHint,
    /// Cooperative mode: sleep this many microseconds, then re-poll.
    SleepMicros(u64),
}

/// Cooperative idle sleep on the message-bus transport.
pub const BUS_IDLE_MICROS: u64 = 1000;

/// Cooperative idle sleep on the shared-memory transport.
pub const SLOT_IDLE_MICROS: u64 = 50;

pub open spec fn spec_idle_action(busy: bool, shared_memory: bool) -> PollAction {
    if busy {
        PollAction::PauseHint
    } else if shared_memory {
        PollAction::SleepMicros(SLOT_IDLE_MICROS)
    } else {
        PollAction::SleepMicros(BUS_IDLE_MICROS)
    }
}

/// The scheduling discipline after an empty poll: busy mode spins with a
/// pause hint; cooperative mode sleeps briefly, longer on the bus than on
/// the shared-memory slot.
pub fn idle_action(busy: bool, shared_memory: bool) -> (r: PollAction)
    ensures
        r == spec_idle_action(busy, shared_memory),
{
    if busy {
        PollAction::PauseHint
    } else if shared_memory {
        PollAction::SleepMicros(SLOT_IDLE_MICROS)
    } else {
        PollAction::SleepMicros(BUS_IDLE_MICROS)
    }
}

/// Whether an environment setting selects busy polling: exactly the octet
/// string "1" does.
pub fn busy_mode_selected(v: &[u8]) -> (r: bool)
    ensures
        r <==> v@ == seq![49u8],
{
    let r = v.len() == 1 && v[0] == 49;
    proof {
        if v@.len() == 1 && v@[0] == 49 {
            assert(v@ =~= seq![49u8]);
        }
    }
    r
}

// ---------------------------------------------------------------------------
// Per-instrument routing
// ---------------------------------------------------------------------------

/// The position of the book for this instrument, if one exists.
pub open spec fn book_idx_of(bs: Seq<OrderBook>, sym: Seq<u8>) -> Option<int>
    decreases bs.len(),
{
    if bs.len() == 0 {
        None
    } else if bs[0]@.symbol == sym {
        Some(0int)
    } else {
        match book_idx_of(bs.drop_first(), sym) {
            Some(i) => Some(i + 1),
            None => None,
        }
    }
}

/// The model of the book for this instrument, if one exists.
pub open spec fn book_view_of(bs: Seq<OrderBook>, sym: Seq<u8>) -> Option<BookV> {
    match book_idx_of(bs, sym) {
        Some(i) => Some(bs[i]@),
        None => None,
    }
}

/// The position of the last published snapshot for this instrument.
pub open spec fn pub_idx_of(ps: Seq<BookUpdate>, sym: Seq<u8>) -> Option<int>
    decreases ps.len(),
{
    if ps.len() == 0 {
        None
    } else if ps[0]@.symbol == sym {
        Some(0int)
    } else {
        match pub_idx_of(ps.drop_first(), sym) {
            Some(i) => Some(i + 1),
            None => None,
        }
    }
}

/// The model of the last published snapshot for this instrument.
pub open spec fn pub_view_of(ps: Seq<BookUpdate>, sym: Seq<u8>) -> Option<BookV> {
    match pub_idx_of(ps, sym) {
        Some(i) => Some(ps[i]@),
        None => None,
    }
}

proof fn lemma_book_idx_props(bs: Seq<OrderBook>, sym: Seq<u8>)
    ensures
        match book_idx_of(bs, sym) {
            Some(i) => 0 <= i < bs.len() && bs[i]@.symbol == sym && forall|j: int|
                0 <= j < i ==> (#[trigger] bs[j])@.symbol != sym,
            None => forall|j: int| 0 <= j < bs.len() ==> (#[trigger] bs[j])@.symbol != sym,
        },
    decreases bs.len(),
{
    if bs.len() > 0 && bs[0]@.symbol != sym {
        lemma_book_idx_props(bs.drop_first(), sym);
        match book_idx_of(bs, sym) {
            Some(i) => {
                assert(bs.drop_first()[i - 1] == bs[i]);
                assert forall|j: int| 0 <= j < i implies (#[trigger] bs[j])@.symbol != sym by {
                    if j >= 1 {
                        assert(bs.drop_first()[j - 1] == bs[j]);
                    }
                }
            },
            None => {
                assert forall|j: int| 0 <= j < bs.len() implies (#[trigger] bs[j])@.symbol
                    != sym by {
                    if j >= 1 {
                        assert(bs.drop_first()[j - 1] == bs[j]);
                    }
                }
            },
        }
    }
}

proof fn lemma_book_idx_update(bs: Seq<OrderBook>, i: int, bk: OrderBook, sym: Seq<u8>)
    requires
        0 <= i < bs.len(),
        bk@.symbol == bs[i]@.symbol,
    ensures
        book_idx_of(bs.update(i, bk), sym) == book_idx_of(bs, sym),
    decreases bs.len(),
{
    let bs2 = bs.update(i, bk);
    if i == 0 {
        assert(bs2[0] == bk);
        assert(bs2.drop_first() =~= bs.drop_first());
    } else {
        assert(bs2[0] == bs[0]);
        assert(bs2.drop_first() =~= bs.drop_first().update(i - 1, bk));
        assert(bs.drop_first()[i - 1] == bs[i]);
        lemma_book_idx_update(bs.drop_first(), i - 1, bk, sym);
    }
}

proof fn lemma_book_idx_push(bs: Seq<OrderBook>, bk: OrderBook, sym: Seq<u8>)
    ensures
        book_idx_of(bs.push(bk), sym) == (match book_idx_of(bs, sym) {
            Some(i) => Some(i),
            None => if bk@.symbol == sym {
                Some(bs.len() as int)
            } else {
                None
            },
        }),
    decreases bs.len(),
{
    let bs2 = bs.push(bk);
    if bs.len() == 0 {
        assert(bs2[0] == bk);
        assert(bs2.drop_first() =~= Seq::<OrderBook>::empty());
    } else {
        assert(bs2[0] == bs[0]);
        assert(bs2.drop_first() =~= bs.drop_first().push(bk));
        lemma_book_idx_push(bs.drop_first(), bk, sym);
    }
}

proof fn lemma_pub_idx_props(ps: Seq<BookUpdate>, sym: Seq<u8>)
    ensures
        match pub_idx_of(ps, sym) {
            Some(i) => 0 <= i < ps.len() && ps[i]@.symbol == sym && forall|j: int|
                0 <= j < i ==> (#[trigger] ps[j])@.symbol != sym,
            None => forall|j: int| 0 <= j < ps.len() ==> (#[trigger] ps[j])@.symbol != sym,
        },
    decreases ps.len(),
{
    if ps.len() > 0 && ps[0]@.symbol != sym {
        lemma_pub_idx_props(ps.drop_first(), sym);
        match pub_idx_of(ps, sym) {
            Some(i) => {
                assert(ps.drop_first()[i - 1] == ps[i]);
                assert forall|j: int| 0 <= j < i implies (#[trigger] ps[j])@.symbol != sym by {
                    if j >= 1 {
                        assert(ps.drop_first()[j - 1] == ps[j]);
                    }
                }
            },
            None => {
                assert forall|j: int| 0 <= j < ps.len() implies (#[trigger] ps[j])@.symbol
                    != sym by {
                    if j >= 1 {
                        assert(ps.drop_first()[j - 1] == ps[j]);
                    }
                }
            },
        }
    }
}

proof fn lemma_pub_idx_update(ps: Seq<BookUpdate>, i: int, u: BookUpdate, sym: Seq<u8>)
    requires
        0 <= i < ps.len(),
        u@.symbol == ps[i]@.symbol,
    ensures
        pub_idx_of(ps.update(i, u), sym) == pub_idx_of(ps, sym),
    decreases ps.len(),
{
    let ps2 = ps.update(i, u);
    if i == 0 {
        assert(ps2[0] == u);
        assert(ps2.drop_first() =~= ps.drop_first());
    } else {
        assert(ps2[0] == ps[0]);
        assert(ps2.drop_first() =~= ps.drop_first().update(i - 1, u));
        assert(ps.drop_first()[i - 1] == ps[i]);
        lemma_pub_idx_update(ps.drop_first(), i - 1, u, sym);
    }
}

proof fn lemma_pub_idx_push(ps: Seq<BookUpdate>, u: BookUpdate, sym: Seq<u8>)
    ensures
        pub_idx_of(ps.push(u), sym) == (match pub_idx_of(ps, sym) {
            Some(i) => Some(i),
            None => if u@.symbol == sym {
                Some(ps.len() as int)
            } else {
                None
            },
        }),
    decreases ps.len(),
{
    let ps2 = ps.push(u);
    if ps.len() == 0 {
        assert(ps2[0] == u);
        assert(ps2.drop_first() =~= Seq::<BookUpdate>::empty());
    } else {
        assert(ps2[0] == ps[0]);
        assert(ps2.drop_first() =~= ps.drop_first().push(u));
        lemma_pub_idx_push(ps.drop_first(), u, sym);
    }
}

/// Compare two symbols octet for octet.
fn bytes_eq(a: &Vec<u8>, b: &Vec<u8>) -> (r: bool)
    ensures
        r <==> a@ == b@,
{
    if a.len() != b.len() {
        proof {
            assert(a@ !~= b@);
        }
        return false;
    }
    let mut j: usize = 0;
    while j < a.len()
        invariant
            j <= a@.len(),
            a@.len() == b@.len(),
            forall|i: int| 0 <= i < j ==> a@[i] == b@[i],
        decreases a@.len() - j,
    {
        if a[j] != b[j] {
            return false;
        }
        j = j + 1;
    }
    proof {
        assert(a@ =~= b@);
    }
    true
}

// ---------------------------------------------------------------------------
// The engine
// ---------------------------------------------------------------------------

/// The fresh, empty book for an instrument.
pub open spec fn empty_book(sym: Seq<u8>) -> BookV {
    BookV { symbol: sym, bids: Seq::<LevelV>::empty(), asks: Seq::<LevelV>::empty(), last_update: 0 }
}

/// The top-of-book restriction of a book: at most one level per side.
pub open spec fn top_snapshot(b: BookV) -> BookV {
    BookV {
        symbol: b.symbol,
        bids: if b.bids.len() == 0 {
            Seq::<LevelV>::empty()
        } else {
            seq![b.bids[0]]
        },
        asks: if b.asks.len() == 0 {
            Seq::<LevelV>::empty()
        } else {
            seq![b.asks[0]]
        },
        last_update: b.last_update,
    }
}

/// What one pipeline step produced: the trades, and the snapshot to publish,
/// if the change filter let one through.
pub struct StepOutput {
    pub trades: Vec<Trade>,
    pub publish: Option<BookUpdate>,
}

/// The validator's state: one book per instrument seen, and the last
/// published snapshot per instrument.
pub struct Engine {
    pub books: Vec<OrderBook>,
    pub last_published: Vec<BookUpdate>,
}

impl Engine {
    /// Every book well-formed, one book and one published snapshot per
    /// instrument.
    pub open spec fn wf(&self) -> bool {
        &&& forall|i: int| 0 <= i < self.books@.len() ==> (#[trigger] self.books@[i]).wf()
        &&& forall|i: int, j: int|
            0 <= i < j < self.books@.len() ==> (#[trigger] self.books@[i])@.symbol != (
            #[trigger] self.books@[j])@.symbol
        &&& forall|i: int, j: int|
            0 <= i < j < self.last_published@.len() ==> (#[trigger] self.last_published@[i])@.symbol
                != (#[trigger] self.last_published@[j])@.symbol
    }

    pub fn new() -> (r: Engine)
        ensures
            r.wf(),
            r.books@.len() == 0,
            r.last_published@.len() == 0,
    {
        Engine { books: Vec::new(), last_published: Vec::new() }
    }

    fn find_book(&self, sym: &Vec<u8>) -> (r: Option<usize>)
        ensures
            match r {
                Some(i) => book_idx_of(self.books@, sym@) == Some(i as int),
                None => book_idx_of(self.books@, sym@) is None,
            },
    {
        let mut i: usize = 0;
        while i < self.books.len()
            invariant
                i <= self.books@.len(),
                forall|j: int| 0 <= j < i ==> (#[trigger] self.books@[j])@.symbol != sym@,
            decreases self.books@.len() - i,
        {
            if bytes_eq(&self.books[i].symbol, sym) {
                proof {
                    lemma_book_idx_props(self.books@, sym@);
                    match book_idx_of(self.books@, sym@) {
                        Some(k) => {
                            if k < i as int {
                            } else if k > i as int {
                                assert(self.books@[i as int]@.symbol != sym@);
                            }
                        },
                        None => {
                            assert(self.books@[i as int]@.symbol != sym@);
                        },
                    }
                }
                return Some(i);
            }
            i = i + 1;
        }
        proof {
            lemma_book_idx_props(self.books@, sym@);
            if book_idx_of(self.books@, sym@) is Some {
                let k = book_idx_of(self.books@, sym@)->Some_0;
                assert(self.books@[k]@.symbol == sym@);
            }
        }
        None
    }

    fn find_pub(&self, sym: &Vec<u8>) -> (r: Option<usize>)
        ensures
            match r {
                Some(i) => pub_idx_of(self.last_published@, sym@) == Some(i as int),
                None => pub_idx_of(self.last_published@, sym@) is None,
            },
    {
        let mut i: usize = 0;
        while i < self.last_published.len()
            invariant
                i <= self.last_published@.len(),
                forall|j: int| 0 <= j < i ==> (#[trigger] self.last_published@[j])@.symbol != sym@,
            decreases self.last_published@.len() - i,
        {
            if bytes_eq(&self.last_published[i].symbol, sym) {
                proof {
                    lemma_pub_idx_props(self.last_published@, sym@);
                    match pub_idx_of(self.last_published@, sym@) {
                        Some(k) => {
                            if k < i as int {
                            } else if k > i as int {
                                assert(self.last_published@[i as int]@.symbol != sym@);
                            }
                        },
                        None => {
                            assert(self.last_published@[i as int]@.symbol != sym@);
                        },
                    }
                }
                return Some(i);
            }
            i = i + 1;
        }
        proof {
            lemma_pub_idx_props(self.last_published@, sym@);
            if pub_idx_of(self.last_published@, sym@) is Some {
                let k = pub_idx_of(self.last_published@, sym@)->Some_0;
                assert(self.last_published@[k]@.symbol == sym@);
            }
        }
        None
    }

    /// One step of the per-event pipeline: route the event to its
    /// instrument's book (creating the book on first sight), apply it, take
    /// the top-of-book snapshot, and consult the change filter — the first
    /// snapshot for an instrument is always offered for publication. The
    /// last-published record is untouched here; the caller moves it through
    /// [`Engine::record_published`] once the write succeeds. A rejected
    /// event changes nothing.
    #[verifier::rlimit(100)]
    pub fn process_order(&mut self, order: &Order) -> (r: Result<StepOutput, InvalidOrder>)
        requires
            old(self).wf(),
            valid_order(order@),
        ensures
            final(self).wf(),
            ({
                let key = order@.symbol;
                let b0 = match book_view_of(old(self).books@, key) {
                    Some(b) => b,
                    None => empty_book(key),
                };
                let st = spec_apply(b0, order@);
                match r {
                    Ok(out) => {
                        &&& st is Some
                        &&& book_view_of(final(self).books@, key) == Some(st->Some_0.0)
                        &&& (forall|s: Seq<u8>|
                            s != key ==> #[trigger] book_view_of(final(self).books@, s)
                                == book_view_of(old(self).books@, s))
                        &&& trades_view(out.trades@) == st->Some_0.1
                        &&& final(self).last_published@ == old(self).last_published@
                        &&& {
                            let snap = top_snapshot(st->Some_0.0);
                            let decide = match pub_view_of(old(self).last_published@, key) {
                                None => true,
                                Some(l) => important_update(snap, l),
                            };
                            &&& (decide ==> (out.publish matches Some(u) && u@ == snap))
                            &&& (!decide ==> out.publish is None)
                        }
                    },
                    Err(_) => {
                        &&& st is None
                        &&& (forall|s: Seq<u8>|
                            #[trigger] book_view_of(final(self).books@, s) == book_view_of(
                                old(self).books@,
                                s,
                            ))
                        &&& final(self).last_published@ == old(self).last_published@
                    },
                }
            }),
    {
        let ghost key = order@.symbol;
        let found = self.find_book(&order.symbol);
        let mut bk: OrderBook;
        let ghost bs0 = self.books@;
        match found {
            Some(i) => {
                proof {
                    lemma_book_idx_props(bs0, key);
                }
                bk = self.books.remove(i);
                let res = bk.add_order(order);
                match res {
                    Ok(trades) => {
                        let snap = bk.snapshot(1);
                        proof {
                            assert(snap@.bids =~= top_snapshot(bk@).bids);
                            assert(snap@.asks =~= top_snapshot(bk@).asks);
                            assert(snap@ == top_snapshot(bk@));
                        }
                        self.books.insert(i, bk);
                        proof {
                            assert(self.books@ =~= bs0.update(i as int, bk));
                            lemma_book_idx_update(bs0, i as int, bk, key);
                            assert(book_view_of(self.books@, key) == Some(bk@));
                            assert forall|s: Seq<u8>| s != key implies #[trigger] book_view_of(
                                self.books@,
                                s,
                            ) == book_view_of(bs0, s) by {
                                lemma_book_idx_update(bs0, i as int, bk, s);
                                lemma_book_idx_props(bs0, s);
                                match book_idx_of(bs0, s) {
                                    Some(m) => {
                                        assert(bs0[m]@.symbol == s);
                                        assert(m != i as int);
                                        assert(self.books@[m] == bs0[m]);
                                    },
                                    None => {},
                                }
                            }
                            assert forall|a: int, b: int|
                                0 <= a < b < self.books@.len() implies (
                            #[trigger] self.books@[a])@.symbol != (
                            #[trigger] self.books@[b])@.symbol by {
                                assert(self.books@[a]@.symbol == bs0[a]@.symbol);
                                assert(self.books@[b]@.symbol == bs0[b]@.symbol);
                            }
                        }
                        Ok(self.decide_publication(order, trades, snap))
                    },
                    Err(e) => {
                        self.books.insert(i, bk);
                        proof {
                            assert(self.books@ =~= bs0.update(i as int, bk));
                            lemma_book_idx_update(bs0, i as int, bk, key);
                            assert forall|s: Seq<u8>| #[trigger] book_view_of(self.books@, s)
                                == book_view_of(bs0, s) by {
                                lemma_book_idx_update(bs0, i as int, bk, s);
                                lemma_book_idx_props(bs0, s);
                                match book_idx_of(bs0, s) {
                                    Some(m) => {
                                        assert(bs0[m]@.symbol == s);
                                        if m != i as int {
                                            assert(self.books@[m] == bs0[m]);
                                        } else {
                                            assert(bk@ == bs0[i as int]@);
                                        }
                                    },
                                    None => {},
                                }
                            }
                            assert forall|a: int, b: int|
                                0 <= a < b < self.books@.len() implies (
                            #[trigger] self.books@[a])@.symbol != (
                            #[trigger] self.books@[b])@.symbol by {
                                assert(self.books@[a]@.symbol == bs0[a]@.symbol);
                                assert(self.books@[b]@.symbol == bs0[b]@.symbol);
                            }
                        }
                        Err(e)
                    },
                }
            },
            None => {
                // first event for this instrument: the book is created now
                bk = OrderBook::new(clone_bytes(&order.symbol));
                proof {
                    assert(bk@ == empty_book(key));
                }
                let res = bk.add_order(order);
                match res {
                    Ok(trades) => {
                        let snap = bk.snapshot(1);
                        proof {
                            assert(snap@.bids =~= top_snapshot(bk@).bids);
                            assert(snap@.asks =~= top_snapshot(bk@).asks);
                            assert(snap@ == top_snapshot(bk@));
                            lemma_book_idx_props(bs0, key);
                            lemma_book_idx_push(bs0, bk, key);
                        }
                        self.books.push(bk);
                        proof {
                            assert(book_view_of(self.books@, key) == Some(bk@));
                            assert forall|s: Seq<u8>| s != key implies #[trigger] book_view_of(
                                self.books@,
                                s,
                            ) == book_view_of(bs0, s) by {
                                lemma_book_idx_push(bs0, bk, s);
                                lemma_book_idx_props(bs0, s);
                                match book_idx_of(bs0, s) {
                                    Some(m) => {
                                        assert(self.books@[m] == bs0[m]);
                                    },
                                    None => {},
                                }
                            }
                            assert forall|a: int, b: int|
                                0 <= a < b < self.books@.len() implies (
                            #[trigger] self.books@[a])@.symbol != (
                            #[trigger] self.books@[b])@.symbol by {
                                if b < bs0.len() {
                                    assert(self.books@[a] == bs0[a]);
                                    assert(self.books@[b] == bs0[b]);
                                } else {
                                    assert(self.books@[a] == bs0[a]);
                                    assert(self.books@[b] == bk);
                                    assert(bs0[a]@.symbol != key);
                                }
                            }
                        }
                        Ok(self.decide_publication(order, trades, snap))
                    },
                    Err(e) => {
                        // an empty book rejects nothing
                        proof {
                            assert(false);
                        }
                        Err(e)
                    },
                }
            },
        }
    }

    /// The publication decision shared by both routing paths: the first
    /// snapshot for an instrument is always published; later ones only when
    /// the change filter finds them material. The last-published record is
    /// not touched here — it moves only when a write succeeds, through
    /// [`Engine::record_published`].
    fn decide_publication(&self, order: &Order, trades: Vec<Trade>, snap: BookUpdate) -> (r:
        StepOutput)
        ensures
            r.trades == trades,
            ({
                let key = order@.symbol;
                let decide = match pub_view_of(self.last_published@, key) {
                    None => true,
                    Some(l) => important_update(snap@, l),
                };
                &&& (decide ==> (r.publish matches Some(u) && u@ == snap@))
                &&& (!decide ==> r.publish is None)
            }),
    {
        let found = self.find_pub(&order.symbol);
        match found {
            Some(p) => {
                proof {
                    lemma_pub_idx_props(self.last_published@, order@.symbol);
                }
                if is_important_update(&snap, &self.last_published[p]) {
                    StepOutput { trades, publish: Some(snap) }
                } else {
                    StepOutput { trades, publish: None }
                }
            },
            None => {
                // first snapshot ever for this instrument
                StepOutput { trades, publish: Some(snap) }
            },
        }
    }

    /// Note a snapshot as published, after its write succeeded. A failed
    /// write leaves the last-published record as it was, so the next
    /// snapshot is judged against the last one that actually went out.
    pub fn record_published(&mut self, update: &BookUpdate)
        requires
            old(self).wf(),
        ensures
            final(self).wf(),
            final(self).books@ == old(self).books@,
            pub_view_of(final(self).last_published@, update@.symbol) == Some(update@),
            forall|s: Seq<u8>|
                s != update@.symbol ==> #[trigger] pub_view_of(final(self).last_published@, s)
                    == pub_view_of(old(self).last_published@, s),
    {
        let ghost key = update@.symbol;
        let ghost ps0 = self.last_published@;
        let stored = update.duplicate();
        let found = self.find_pub(&update.symbol);
        match found {
            Some(p) => {
                proof {
                    lemma_pub_idx_props(ps0, key);
                }
                self.last_published.remove(p);
                self.last_published.insert(p, stored);
                proof {
                    assert(self.last_published@ =~= ps0.update(p as int, stored));
                    lemma_pub_idx_update(ps0, p as int, stored, key);
                    assert forall|s: Seq<u8>| s != key implies #[trigger] pub_view_of(
                        self.last_published@,
                        s,
                    ) == pub_view_of(ps0, s) by {
                        lemma_pub_idx_update(ps0, p as int, stored, s);
                        lemma_pub_idx_props(ps0, s);
                        match pub_idx_of(ps0, s) {
                            Some(m) => {
                                assert(ps0[m]@.symbol == s);
                                assert(m != p as int);
                                assert(self.last_published@[m] == ps0[m]);
                            },
                            None => {},
                        }
                    }
                    assert forall|a: int, b: int|
                        0 <= a < b < self.last_published@.len() implies (
                    #[trigger] self.last_published@[a])@.symbol != (
                    #[trigger] self.last_published@[b])@.symbol by {
                        assert(self.last_published@[a]@.symbol == ps0[a]@.symbol);
                        assert(self.last_published@[b]@.symbol == ps0[b]@.symbol);
                    }
                }
            },
            None => {
                proof {
                    lemma_pub_idx_props(ps0, key);
                    lemma_pub_idx_push(ps0, stored, key);
                }
                self.last_published.push(stored);
                proof {
                    assert forall|s: Seq<u8>| s != key implies #[trigger] pub_view_of(
                        self.last_published@,
                        s,
                    ) == pub_view_of(ps0, s) by {
                        lemma_pub_idx_push(ps0, stored, s);
                        lemma_pub_idx_props(ps0, s);
                        match pub_idx_of(ps0, s) {
                            Some(m) => {
                                assert(self.last_published@[m] == ps0[m]);
                            },
                            None => {},
                        }
                    }
                    assert forall|a: int, b: int|
                        0 <= a < b < self.last_published@.len() implies (
                    #[trigger] self.last_published@[a])@.symbol != (
                    #[trigger] self.last_published@[b])@.symbol by {
                        if b < ps0.len() {
                            assert(self.last_published@[a] == ps0[a]);
                            assert(self.last_published@[b] == ps0[b]);
                        } else {
                            assert(self.last_published@[a] == ps0[a]);
                            assert(self.last_published@[b] == stored);
                            assert(ps0[a]@.symbol != key);
                        }
                    }
                }
            },
        }
    }
}

} // verus!

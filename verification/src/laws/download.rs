//! Laws of a download.
use crate::download::{
    block_offset, block_place, file_offset, offset_fits, open_after, open_at_end, order_for,
    orders_for, take_on, write_order, Action, Driver, Layout, Order, Unsupported,
};
use vstd::prelude::*;

verus! {

/// A file is laid out without gaps from its start: the first block is at zero, a
/// block stands at its place behind the start of its piece, and a piece starts
/// where the one before it ends, however long pieces are.
pub proof fn lemma_pieces_follow_each_other(piece_length: u64, index: u32, begin: u32, next: u32)
    requires
        next == index + 1,
    ensures
        file_offset(0, 0, piece_length) == 0,
        file_offset(index, begin, piece_length) == file_offset(index, 0, piece_length) + begin,
        file_offset(next, 0, piece_length) == file_offset(index, 0, piece_length) + piece_length,
{
    assert((index + 1) * piece_length == index * piece_length + piece_length) by (nonlinear_arith);
    assert(0 * piece_length == 0);
}

/// The offsets of blocks follow each other without gaps from the start of the
/// file.
pub proof fn law_offsets_follow_each_other(
    piece_length: u64,
    index: u32,
    begin: u32,
    next: u32,
    first: u64,
    start: u64,
    place: u64,
    end: u64,
)
    requires
        next == index + 1,
        call_ensures(block_offset, (0u32, 0u32, piece_length), first),
        call_ensures(block_offset, (index, 0u32, piece_length), start),
        call_ensures(block_offset, (index, begin, piece_length), place),
        call_ensures(block_offset, (next, 0u32, piece_length), end),
    ensures
        first == 0,
        place == start + begin,
        end == start + piece_length,
{
    lemma_pieces_follow_each_other(piece_length, index, begin, next);
}

/// The offset of a block is that of its piece, counted in pieces from the start,
/// and its place in the piece; it can be had exactly if it is in range.
pub proof fn law_offset_in_range(
    index: u32,
    begin: u32,
    piece_length: u64,
    fits: bool,
    offset: u64,
)
    requires
        call_ensures(offset_fits, (index, begin, piece_length), fits),
    ensures
        fits <==> index * piece_length + begin <= 0xffff_ffff_ffff_ffff,
        fits ==> call_requires(block_offset, (index, begin, piece_length)),
        call_ensures(block_offset, (index, begin, piece_length), offset) ==> offset == index
            * piece_length + begin,
{
}

/// A torrent is taken on exactly if it has one file and names a tracker; then
/// its length and its tracker are handed on as they are.
pub proof fn law_take_on(
    layout: Layout,
    announce: Option<String>,
    taken: Result<(u64, String), Unsupported>,
)
    requires
        call_ensures(take_on, (layout, announce), taken),
    ensures
        taken is Ok <==> layout is SingleFile && announce is Some,
        taken matches Ok((length, url)) ==> layout == (Layout::SingleFile { length }) && announce
            == Some(url),
        taken == Err::<(u64, String), Unsupported>(Unsupported::MultiFile) <==> layout is MultiFile,
        taken == Err::<(u64, String), Unsupported>(Unsupported::NoAnnounce) <==> layout is SingleFile
            && announce is None,
{
}

/// What is said of a torrent that is not taken on.
pub proof fn law_unsupported_is_said(reason: Unsupported, text: String)
    requires
        call_ensures(Unsupported::message, (&reason,), text),
    ensures
        reason == Unsupported::MultiFile ==> text@
            == "MVP supports single-file torrents only; multi-file mapping is a follow-up"@,
        reason == Unsupported::NoAnnounce ==> text@
            == "torrent has no http announce URL (DHT/magnet is a follow-up)"@,
{
}

/// Whether no action before a place completes the download.
pub open spec fn goes_on_until(actions: Seq<Action>, i: int) -> bool {
    forall|j: int| 0 <= j < i ==> #[trigger] actions[j] != Action::Complete
}

/// Whether no action before a place disconnects a peer.
pub open spec fn kept_until(actions: Seq<Action>, key: u64, i: int) -> bool {
    forall|j: int| 0 <= j < i ==> #[trigger] actions[j] != Action::Disconnect(key)
}

/// What is done at each place is what the action there asks for: a message goes
/// to its peer if the peer could be sent to at the start and was not
/// disconnected since, and is dropped otherwise.
pub proof fn lemma_order_at(open: Set<u64>, actions: Seq<Action>, block: Option<u64>, i: int)
    requires
        0 <= i < actions.len(),
        goes_on_until(actions, i),
    ensures
        actions[i] != Action::Complete ==> i < orders_for(open, actions, block).len(),
        actions[i] matches Action::Send(key) ==> orders_for(open, actions, block)[i] == (if open.contains(
            key,
        ) && kept_until(actions, key, i) {
            Order::Deliver(key)
        } else {
            Order::Discard(key)
        }),
        actions[i] matches Action::PieceVerified(index) ==> orders_for(open, actions, block)[i]
            == Order::ReportVerified(index),
        actions[i] matches Action::PieceCorrupt(index) ==> orders_for(open, actions, block)[i]
            == Order::ReportCorrupt(index),
        actions[i] matches Action::Disconnect(key) ==> orders_for(open, actions, block)[i]
            == Order::HangUp(key),
        actions[i] == Action::Complete && block is None ==> orders_for(open, actions, block).len()
            == i + 1 && orders_for(open, actions, block)[i] == Order::Finish,
        actions[i] == Action::Complete && block is Some ==> orders_for(open, actions, block).len()
            == i + 2 && orders_for(open, actions, block)[i] == Order::Write(block->0) && orders_for(
            open,
            actions,
            block,
        )[i + 1] == Order::Finish,
    decreases actions.len(),
{
    let orders = orders_for(open, actions, block);
    if i > 0 {
        let rest = actions.skip(1);
        let next = open_after(open, actions[0]);
        let inner = orders_for(next, rest, block);
        assert(actions[0] != Action::Complete);
        assert forall|j: int| 0 <= j < i - 1 implies #[trigger] rest[j] != Action::Complete by {
            assert(rest[j] == actions[j + 1]);
        }
        lemma_order_at(next, rest, block, i - 1);
        assert(rest[i - 1] == actions[i]);
        assert(orders =~= seq![order_for(open, actions[0])] + inner);
        if i - 1 < inner.len() {
            assert(orders[i] == inner[i - 1]);
        }
        if i < inner.len() {
            assert(orders[i + 1] == inner[i]);
        }
        if let Action::Send(key) = actions[i] {
            lemma_kept(actions, key, i);
        }
    } else if actions[0] == Action::Complete {
        assert(orders =~= write_order(block).push(Order::Finish));
    } else {
        assert(orders[0] == order_for(open, actions[0]));
    }
}

/// A peer is kept through actions if it is kept through the first and the rest.
proof fn lemma_kept(actions: Seq<Action>, key: u64, i: int)
    requires
        0 < i <= actions.len(),
    ensures
        kept_until(actions, key, i) <==> actions[0] != Action::Disconnect(key) && kept_until(
            actions.skip(1),
            key,
            i - 1,
        ),
{
    let rest = actions.skip(1);
    if kept_until(actions, key, i) {
        assert forall|j: int| 0 <= j < i - 1 implies #[trigger] rest[j] != Action::Disconnect(
            key,
        ) by {
            assert(rest[j] == actions[j + 1]);
        }
        assert(actions[0] != Action::Disconnect(key));
    }
    if actions[0] != Action::Disconnect(key) && kept_until(rest, key, i - 1) {
        assert forall|j: int| 0 <= j < i implies #[trigger] actions[j] != Action::Disconnect(
            key,
        ) by {
            if j > 0 {
                assert(actions[j] == rest[j - 1]);
            }
        }
    }
}

/// Without an end, there is one order for each action, and one more for the
/// block.
pub proof fn lemma_orders_without_end(open: Set<u64>, actions: Seq<Action>, block: Option<u64>)
    requires
        goes_on_until(actions, actions.len() as int),
    ensures
        block is None ==> orders_for(open, actions, block).len() == actions.len(),
        block matches Some(offset) ==> orders_for(open, actions, block).len() == actions.len() + 1
            && orders_for(open, actions, block)[actions.len() as int] == Order::Write(offset),
    decreases actions.len(),
{
    if actions.len() > 0 {
        let rest = actions.skip(1);
        let next = open_after(open, actions[0]);
        assert(actions[0] != Action::Complete);
        assert forall|j: int| 0 <= j < rest.len() implies #[trigger] rest[j] != Action::Complete by {
            assert(rest[j] == actions[j + 1]);
        }
        lemma_orders_without_end(next, rest, block);
        assert(orders_for(open, actions, block) =~= seq![order_for(open, actions[0])] + orders_for(
            next,
            rest,
            block,
        ));
    }
}

/// A peer can be sent to afterwards if it could before and no action up to the
/// end disconnected it.
pub proof fn lemma_open_afterwards(open: Set<u64>, actions: Seq<Action>, key: u64, n: int)
    requires
        0 <= n <= actions.len(),
        goes_on_until(actions, n),
        n < actions.len() ==> actions[n] == Action::Complete,
    ensures
        open_at_end(open, actions).contains(key) <==> open.contains(key) && kept_until(
            actions,
            key,
            n,
        ),
    decreases actions.len(),
{
    if n > 0 {
        let rest = actions.skip(1);
        assert(actions[0] != Action::Complete);
        assert forall|j: int| 0 <= j < n - 1 implies #[trigger] rest[j] != Action::Complete by {
            assert(rest[j] == actions[j + 1]);
        }
        if n < actions.len() {
            assert(rest[n - 1] == actions[n]);
        }
        lemma_open_afterwards(open_after(open, actions[0]), rest, key, n - 1);
        lemma_kept(actions, key, n);
    }
}

/// What is done about the action at a place, if the download goes on until
/// there: a message goes to every peer that can be sent to, reports go to the
/// user, and a peer that is to be disconnected is let go.
pub proof fn law_actions_are_carried_out(
    driver: &mut Driver,
    actions: &Vec<Action>,
    block: Option<(u32, u32)>,
    orders: Vec<Order>,
    i: int,
)
    requires
        call_ensures(Driver::orders, (driver, actions, block), orders),
        0 <= i < actions@.len(),
        goes_on_until(actions@, i),
    ensures
        actions@[i] != Action::Complete ==> i < orders@.len(),
        actions@[i] matches Action::Send(key) ==> orders@[i] == (if old(driver).open().contains(key)
            && kept_until(actions@, key, i) {
            Order::Deliver(key)
        } else {
            Order::Discard(key)
        }),
        actions@[i] matches Action::PieceVerified(index) ==> orders@[i] == Order::ReportVerified(
            index,
        ),
        actions@[i] matches Action::PieceCorrupt(index) ==> orders@[i] == Order::ReportCorrupt(
            index,
        ),
        actions@[i] matches Action::Disconnect(key) ==> orders@[i] == Order::HangUp(key),
{
    lemma_order_at(
        old(driver).open(),
        actions@,
        block_place(block, old(driver).piece_length()),
        i,
    );
}

/// The block that came with an event is written at its offset when the actions
/// are done, and nothing else is done then.
pub proof fn law_block_is_written(
    driver: &mut Driver,
    actions: &Vec<Action>,
    block: Option<(u32, u32)>,
    orders: Vec<Order>,
)
    requires
        call_ensures(Driver::orders, (driver, actions, block), orders),
        goes_on_until(actions@, actions@.len() as int),
    ensures
        block is None ==> orders@.len() == actions@.len(),
        block matches Some((index, begin)) ==> {
            let offset = index * old(driver).piece_length() + begin;
            offset <= u64::MAX ==> {
                &&& orders@.len() == actions@.len() + 1
                &&& orders@[actions@.len() as int] == Order::Write(offset as u64)
            }
        },
{
    lemma_orders_without_end(
        old(driver).open(),
        actions@,
        block_place(block, old(driver).piece_length()),
    );
}

/// Where the engine reports the end, the block is written first, the end is
/// ordered, and nothing after it.
pub proof fn law_end_is_ordered(
    driver: &mut Driver,
    actions: &Vec<Action>,
    block: Option<(u32, u32)>,
    orders: Vec<Order>,
    i: int,
)
    requires
        call_ensures(Driver::orders, (driver, actions, block), orders),
        0 <= i < actions@.len(),
        goes_on_until(actions@, i),
        actions@[i] == Action::Complete,
    ensures
        block is None ==> orders@.len() == i + 1 && orders@[i] == Order::Finish,
        block matches Some((index, begin)) ==> {
            let offset = index * old(driver).piece_length() + begin;
            if offset <= u64::MAX {
                &&& orders@.len() == i + 2
                &&& orders@[i] == Order::Write(offset as u64)
                &&& orders@[i + 1] == Order::Finish
            } else {
                &&& orders@.len() == i + 1
                &&& orders@[i] == Order::Finish
            }
        },
{
    lemma_order_at(
        old(driver).open(),
        actions@,
        block_place(block, old(driver).piece_length()),
        i,
    );
}

/// After an event, exactly those peers can be sent to that could be before and
/// that no action up to the end disconnected; the length of a piece stays.
pub proof fn law_peers_stay_open(
    driver: &mut Driver,
    actions: &Vec<Action>,
    block: Option<(u32, u32)>,
    orders: Vec<Order>,
    key: u64,
    n: int,
)
    requires
        call_ensures(Driver::orders, (driver, actions, block), orders),
        0 <= n <= actions@.len(),
        goes_on_until(actions@, n),
        n < actions@.len() ==> actions@[n] == Action::Complete,
    ensures
        final(driver).open().contains(key) <==> old(driver).open().contains(key) && kept_until(
            actions@,
            key,
            n,
        ),
        final(driver).piece_length() == old(driver).piece_length(),
{
    lemma_open_afterwards(old(driver).open(), actions@, key, n);
}

/// At the start every peer that the tracker named can be sent to, and no other.
pub proof fn law_driver_starts_open(
    peer_count: usize,
    piece_length: u64,
    driver: Driver,
    key: u64,
    yes: bool,
)
    requires
        call_ensures(Driver::new, (peer_count, piece_length), driver),
        call_ensures(Driver::is_open, (&driver, key), yes),
    ensures
        yes <==> key < peer_count,
        driver.open().contains(key) <==> key < peer_count,
        driver.piece_length() == piece_length,
{
}

/// A peer is said to be open exactly if it can be sent to.
pub proof fn law_is_open(driver: &Driver, key: u64, yes: bool)
    requires
        call_ensures(Driver::is_open, (driver, key), yes),
    ensures
        yes <==> driver.open().contains(key),
{
}

/// All events are taken, but for a block that is to be written beyond the range
/// of offsets while the download goes on; and every torrent and every offset in
/// range.
pub proof fn law_events_are_taken(
    driver: &mut Driver,
    actions: &Vec<Action>,
    block: Option<(u32, u32)>,
    layout: Layout,
    announce: Option<String>,
    index: u32,
    begin: u32,
    piece_length: u64,
    peer_count: usize,
)
    ensures
        (block matches Some((i, b)) ==> i * old(driver).piece_length() + b <= u64::MAX)
            ==> call_requires(Driver::orders, (driver, actions, block)),
        actions@.contains(Action::Complete) ==> call_requires(
            Driver::orders,
            (driver, actions, block),
        ),
        call_requires(take_on, (layout, announce)),
        call_requires(offset_fits, (index, begin, piece_length)),
        call_requires(Driver::new, (peer_count, piece_length)),
        index * piece_length + begin <= u64::MAX ==> call_requires(
            block_offset,
            (index, begin, piece_length),
        ),
{
}

} // verus!

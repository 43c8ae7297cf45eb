//! A download: which torrents are taken on, and what is done with each event
//! that the engine has dealt with.
use vstd::prelude::*;

verus! {

/// How the files of a torrent are laid out.
#[derive(Debug, Clone, Copy, PartialEq, Eq)]
pub enum Layout {
    SingleFile { length: u64 },
    MultiFile,
}

/// Why a torrent is not taken on.
#[derive(Debug, Clone, Copy, PartialEq, Eq)]
pub enum Unsupported {
    /// It has several files.
    MultiFile,
    /// It names no tracker.
    NoAnnounce,
}

impl Unsupported {
    /// What is said of the torrent.
    pub open spec fn text(self) -> Seq<char> {
        match self {
            Unsupported::MultiFile =>
            "MVP supports single-file torrents only; multi-file mapping is a follow-up"@,
            Unsupported::NoAnnounce =>
            "torrent has no http announce URL (DHT/magnet is a follow-up)"@,
        }
    }

    /// The reason in words.
    pub fn message(&self) -> (text: String)
        ensures
            text@ == self.text(),
    {
        match self {
            Unsupported::MultiFile =>
            "MVP supports single-file torrents only; multi-file mapping is a follow-up".to_owned(),
            Unsupported::NoAnnounce =>
            "torrent has no http announce URL (DHT/magnet is a follow-up)".to_owned(),
        }
    }
}

/// Takes a torrent on, with its length and its tracker: a torrent of one file
/// that names a tracker, and no other.
pub fn take_on(layout: Layout, announce: Option<String>) -> (taken: Result<
    (u64, String),
    Unsupported,
>)
    ensures
        layout is MultiFile ==> taken == Err::<(u64, String), Unsupported>(Unsupported::MultiFile),
        layout is SingleFile && announce is None ==> taken == Err::<(u64, String), Unsupported>(
            Unsupported::NoAnnounce,
        ),
        layout is SingleFile && announce is Some ==> taken == Ok::<(u64, String), Unsupported>(
            (layout->length, announce->0),
        ),
{
    match layout {
        Layout::SingleFile { length } => match announce {
            Some(url) => Ok((length, url)),
            None => Err(Unsupported::NoAnnounce),
        },
        Layout::MultiFile => Err(Unsupported::MultiFile),
    }
}

/// Where a block stands in the file: behind the pieces before its own, at its
/// place in its piece.
pub open spec fn file_offset(index: u32, begin: u32, piece_length: u64) -> int {
    index * piece_length + begin
}

/// Whether the offset of a block can be written as a `u64`.
pub fn offset_fits(index: u32, begin: u32, piece_length: u64) -> (fits: bool)
    ensures
        fits == (file_offset(index, begin, piece_length) <= u64::MAX),
{
    match (index as u64).checked_mul(piece_length) {
        Some(piece) => piece.checked_add(begin as u64).is_some(),
        None => false,
    }
}

/// The offset of a block in the file.
pub fn block_offset(index: u32, begin: u32, piece_length: u64) -> (offset: u64)
    requires
        file_offset(index, begin, piece_length) <= u64::MAX,
    ensures
        offset == file_offset(index, begin, piece_length),
{
    assert(0 <= index * piece_length) by (nonlinear_arith);
    index as u64 * piece_length + begin as u64
}

/// What the engine asks for; what a message says is left to the sender.
#[derive(Debug, Clone, Copy, PartialEq, Eq)]
pub enum Action {
    Send(u64),
    PieceVerified(u32),
    PieceCorrupt(u32),
    Disconnect(u64),
    Complete,
}

/// What is to be done.
#[derive(Debug, Clone, Copy, PartialEq, Eq)]
pub enum Order {
    /// Hand the message to the peer.
    Deliver(u64),
    /// Drop the message: the peer has been let go.
    Discard(u64),
    /// Tell the user that a piece is right.
    ReportVerified(u32),
    /// Tell the user that a piece is wrong.
    ReportCorrupt(u32),
    /// Let the peer go.
    HangUp(u64),
    /// Tell the user that the download is complete, and end.
    Finish,
    /// Write the block at this offset of the file.
    Write(u64),
}

/// What is to be done about one action, given the peers that can be sent to.
pub open spec fn order_for(open: Set<u64>, action: Action) -> Order {
    match action {
        Action::Send(key) => if open.contains(key) {
            Order::Deliver(key)
        } else {
            Order::Discard(key)
        },
        Action::PieceVerified(index) => Order::ReportVerified(index),
        Action::PieceCorrupt(index) => Order::ReportCorrupt(index),
        Action::Disconnect(key) => Order::HangUp(key),
        Action::Complete => Order::Finish,
    }
}

/// The peers that can be sent to after an action.
pub open spec fn open_after(open: Set<u64>, action: Action) -> Set<u64> {
    match action {
        Action::Disconnect(key) => open.remove(key),
        _ => open,
    }
}

/// What is to be done about the block that came with an event: to write it at
/// its offset, if there is one.
pub open spec fn write_order(block: Option<u64>) -> Seq<Order> {
    match block {
        Some(offset) => seq![Order::Write(offset)],
        None => seq![],
    }
}

/// What is to be done about the actions that follow one event, in order, and
/// about the block that came with it. The block is written when the actions are
/// done; where they complete the download, it is written before the end, so that
/// the file is whole when the user is told so, and what comes after the end is
/// passed over.
pub open spec fn orders_for(open: Set<u64>, actions: Seq<Action>, block: Option<u64>) -> Seq<Order>
    decreases actions.len(),
{
    if actions.len() == 0 {
        write_order(block)
    } else if actions[0] is Complete {
        write_order(block).push(Order::Finish)
    } else {
        seq![order_for(open, actions[0])] + orders_for(
            open_after(open, actions[0]),
            actions.skip(1),
            block,
        )
    }
}

/// The peers that can be sent to after the actions of one event.
pub open spec fn open_at_end(open: Set<u64>, actions: Seq<Action>) -> Set<u64>
    decreases actions.len(),
{
    if actions.len() == 0 || actions[0] is Complete {
        open
    } else {
        open_at_end(open_after(open, actions[0]), actions.skip(1))
    }
}

/// The offset of the block that came with an event, if it came with one; a block
/// of which the offset is out of the range of `u64` has no place in a file.
pub open spec fn block_place(block: Option<(u32, u32)>, piece_length: u64) -> Option<u64> {
    match block {
        Some((index, begin)) if file_offset(index, begin, piece_length) <= u64::MAX => Some(
            file_offset(index, begin, piece_length) as u64,
        ),
        _ => None,
    }
}

/// The state of a download outside the engine: which peers can be sent to, and
/// how long a piece is.
#[derive(Debug)]
pub struct Driver {
    open: Vec<bool>,
    piece_length: u64,
}

impl Driver {
    /// The peers that can be sent to.
    pub closed spec fn open(self) -> Set<u64> {
        Set::new(|key: u64| key < self.open@.len() && self.open@[key as int])
    }

    /// The length of a piece.
    pub closed spec fn piece_length(self) -> u64 {
        self.piece_length
    }

    /// Starts with every peer that the tracker named; peers are numbered from
    /// zero in the order of the answer.
    pub fn new(peer_count: usize, piece_length: u64) -> (driver: Driver)
        ensures
            driver.open() == Set::new(|key: u64| key < peer_count),
            driver.piece_length() == piece_length,
    {
        let mut open: Vec<bool> = Vec::new();
        let mut i: usize = 0;
        while i < peer_count
            invariant
                i <= peer_count,
                open.len() == i,
                forall|j: int| 0 <= j < i ==> open@[j],
            decreases peer_count - i,
        {
            open.push(true);
            i = i + 1;
        }
        let driver = Driver { open, piece_length };
        assert(driver.open() =~= Set::new(|key: u64| key < peer_count));
        driver
    }

    /// Whether a peer can be sent to.
    pub fn is_open(&self, key: u64) -> (yes: bool)
        ensures
            yes == self.open().contains(key),
    {
        key < self.open.len() as u64 && self.open[key as usize]
    }

    /// Lets a peer go.
    fn close(&mut self, key: u64)
        ensures
            final(self).open() == old(self).open().remove(key),
            final(self).piece_length() == old(self).piece_length(),
    {
        if key < self.open.len() as u64 {
            self.open.set(key as usize, false);
        }
        assert(self.open() =~= old(self).open().remove(key));
    }

    /// Decides about one action.
    fn order(&mut self, action: Action) -> (order: Order)
        ensures
            order == order_for(old(self).open(), action),
            final(self).open() == open_after(old(self).open(), action),
            final(self).piece_length() == old(self).piece_length(),
    {
        match action {
            Action::Send(key) => {
                if self.is_open(key) {
                    Order::Deliver(key)
                } else {
                    Order::Discard(key)
                }
            },
            Action::PieceVerified(index) => Order::ReportVerified(index),
            Action::PieceCorrupt(index) => Order::ReportCorrupt(index),
            Action::Disconnect(key) => {
                self.close(key);
                Order::HangUp(key)
            },
            Action::Complete => Order::Finish,
        }
    }

    /// The offset of a block, if it has a place in the file.
    fn place(&self, block: Option<(u32, u32)>) -> (place: Option<u64>)
        ensures
            place == block_place(block, self.piece_length()),
    {
        match block {
            Some((index, begin)) => if offset_fits(index, begin, self.piece_length) {
                Some(block_offset(index, begin, self.piece_length))
            } else {
                None
            },
            None => None,
        }
    }

    /// Decides about the actions that follow one event. `block` is the index
    /// and the place of the block that came with the event, if it brought one;
    /// unless the event completes the download, its offset has to fit.
    pub fn orders(&mut self, actions: &Vec<Action>, block: Option<(u32, u32)>) -> (orders: Vec<
        Order,
    >)
        requires
            block matches Some((index, begin)) ==> actions@.contains(Action::Complete)
                || file_offset(index, begin, old(self).piece_length()) <= u64::MAX,
        ensures
            orders@ == orders_for(
                old(self).open(),
                actions@,
                block_place(block, old(self).piece_length()),
            ),
            final(self).open() == open_at_end(old(self).open(), actions@),
            final(self).piece_length() == old(self).piece_length(),
    {
        let ghost start = self.open();
        let ghost length = self.piece_length();
        let ghost place = block_place(block, length);
        let mut orders: Vec<Order> = Vec::new();
        let mut i: usize = 0;
        assert(actions@.skip(0) =~= actions@);
        assert(orders@ + orders_for(start, actions@, place) =~= orders_for(start, actions@, place));
        while i < actions.len()
            invariant
                i <= actions.len(),
                start == old(self).open(),
                length == old(self).piece_length(),
                place == block_place(block, length),
                self.piece_length() == length,
                orders_for(start, actions@, place) == orders@ + orders_for(
                    self.open(),
                    actions@.skip(i as int),
                    place,
                ),
                open_at_end(start, actions@) == open_at_end(self.open(), actions@.skip(i as int)),
            decreases actions.len() - i,
        {
            let action: Action = actions[i];
            let ghost rest = actions@.skip(i as int);
            let ghost open = self.open();
            let ghost before = orders@;
            assert(rest[0] == action);
            assert(rest.skip(1) =~= actions@.skip(i + 1));
            if let Action::Complete = action {
                if let Some(offset) = self.place(block) {
                    orders.push(Order::Write(offset));
                }
                orders.push(Order::Finish);
                assert(orders@ =~= before + write_order(place).push(Order::Finish));
                return orders;
            }
            let order = self.order(action);
            orders.push(order);
            proof {
                assert(orders@ + orders_for(self.open(), rest.skip(1), place) =~= before
                    + orders_for(open, rest, place));
            }
            i = i + 1;
        }
        let ghost before = orders@;
        if let Some(offset) = self.place(block) {
            orders.push(Order::Write(offset));
        }
        assert(orders@ =~= before + write_order(place));
        assert(orders@ =~= orders_for(start, actions@, place));
        orders
    }
}

/// A block that came with an event is written whatever the actions are: last, or,
/// if the event completes the download, right before the end. Nothing else
/// about the orders depends on it.
pub proof fn lemma_block_is_always_written(open: Set<u64>, actions: Seq<Action>, offset: u64)
    ensures
        orders_for(open, actions, Some(offset)).contains(Order::Write(offset)),
        !actions.contains(Action::Complete) ==> orders_for(open, actions, None).len()
            == actions.len(),
        !actions.contains(Action::Complete) ==> orders_for(open, actions, Some(offset))
            == orders_for(open, actions, None).push(Order::Write(offset)),
        actions.contains(Action::Complete) ==> orders_for(open, actions, Some(offset))
            == orders_for(open, actions, None).drop_last().push(Order::Write(offset)).push(
            Order::Finish,
        ),
    decreases actions.len(),
{
    let with = orders_for(open, actions, Some(offset));
    let without = orders_for(open, actions, None);
    if actions.len() == 0 {
        assert(with =~= without.push(Order::Write(offset)));
        assert(with[0] == Order::Write(offset));
    } else if actions[0] is Complete {
        assert(actions[0] == Action::Complete);
        assert(with =~= without.drop_last().push(Order::Write(offset)).push(Order::Finish));
        assert(with[0] == Order::Write(offset));
    } else {
        let rest = actions.skip(1);
        let next = open_after(open, actions[0]);
        let inner = orders_for(next, rest, Some(offset));
        lemma_block_is_always_written(next, rest, offset);
        lemma_complete_in_rest(actions);
        let k = choose|k: int| 0 <= k < inner.len() && inner[k] == Order::Write(offset);
        assert(with[k + 1] == Order::Write(offset));
        if actions.contains(Action::Complete) {
            lemma_the_end_comes_last(next, rest, None);
            assert(with =~= without.drop_last().push(Order::Write(offset)).push(Order::Finish));
        } else {
            assert(with =~= without.push(Order::Write(offset)));
        }
    }
}

/// Behind an action that does not complete the download, the actions complete it
/// exactly if the rest of them does.
proof fn lemma_complete_in_rest(actions: Seq<Action>)
    requires
        actions.len() > 0,
        !(actions[0] is Complete),
    ensures
        actions.skip(1).contains(Action::Complete) <==> actions.contains(Action::Complete),
{
    let rest = actions.skip(1);
    if rest.contains(Action::Complete) {
        let j = choose|j: int| 0 <= j < rest.len() && rest[j] == Action::Complete;
        assert(actions[j + 1] == Action::Complete);
    }
    if actions.contains(Action::Complete) {
        let j = choose|j: int| 0 <= j < actions.len() && actions[j] == Action::Complete;
        assert(rest[j - 1] == Action::Complete);
    }
}

/// The end of the download is ordered exactly if the engine reports it, and then
/// it is the last thing done: no order follows it.
pub proof fn lemma_the_end_comes_last(open: Set<u64>, actions: Seq<Action>, block: Option<u64>)
    ensures
        orders_for(open, actions, block).contains(Order::Finish) <==> actions.contains(
            Action::Complete,
        ),
        forall|j: int|
            0 <= j < orders_for(open, actions, block).len() - 1 ==> #[trigger] orders_for(
                open,
                actions,
                block,
            )[j] != Order::Finish,
    decreases actions.len(),
{
    let orders = orders_for(open, actions, block);
    if actions.len() > 0 {
        if actions[0] is Complete {
            assert(actions[0] == Action::Complete);
            assert(orders.last() == Order::Finish);
            assert(orders[orders.len() - 1] == Order::Finish);
        } else {
            let rest = actions.skip(1);
            let inner = orders_for(open_after(open, actions[0]), rest, block);
            lemma_the_end_comes_last(open_after(open, actions[0]), rest, block);
            lemma_complete_in_rest(actions);
            assert forall|j: int| 0 <= j < orders.len() - 1 implies #[trigger] orders[j]
                != Order::Finish by {
                if j > 0 {
                    assert(inner[j - 1] == orders[j]);
                }
            }
            if inner.contains(Order::Finish) {
                let j = choose|j: int| 0 <= j < inner.len() && inner[j] == Order::Finish;
                assert(orders[j + 1] == Order::Finish);
            }
            if orders.contains(Order::Finish) {
                let j = choose|j: int| 0 <= j < orders.len() && orders[j] == Order::Finish;
                assert(inner[j - 1] == Order::Finish);
            }
        }
    }
}

/// A peer that cannot be sent to is never sent to, and stays so.
pub proof fn lemma_closed_peers_stay_closed(
    open: Set<u64>,
    actions: Seq<Action>,
    block: Option<u64>,
    key: u64,
)
    requires
        !open.contains(key),
    ensures
        !orders_for(open, actions, block).contains(Order::Deliver(key)),
        !open_at_end(open, actions).contains(key),
    decreases actions.len(),
{
    let orders = orders_for(open, actions, block);
    if actions.len() > 0 && !(actions[0] is Complete) {
        let inner = orders_for(open_after(open, actions[0]), actions.skip(1), block);
        lemma_closed_peers_stay_closed(
            open_after(open, actions[0]),
            actions.skip(1),
            block,
            key,
        );
        if orders.contains(Order::Deliver(key)) {
            let j = choose|j: int| 0 <= j < orders.len() && orders[j] == Order::Deliver(key);
            if j > 0 {
                assert(inner[j - 1] == orders[j]);
            }
        }
    }
}

/// From the moment the engine disconnects a peer, nothing is sent to it: not by
/// the actions that follow, nor after them.
pub proof fn lemma_nothing_is_sent_after_disconnect(
    open: Set<u64>,
    actions: Seq<Action>,
    block: Option<u64>,
    key: u64,
    at: int,
)
    requires
        0 <= at < actions.len(),
        actions[at] == Action::Disconnect(key),
        forall|j: int| 0 <= j < at ==> !(#[trigger] actions[j] is Complete),
    ensures
        forall|j: int|
            at <= j < orders_for(open, actions, block).len() ==> #[trigger] orders_for(
                open,
                actions,
                block,
            )[j] != Order::Deliver(key),
        !open_at_end(open, actions).contains(key),
    decreases actions.len(),
{
    let orders = orders_for(open, actions, block);
    let next = open_after(open, actions[0]);
    let rest = actions.skip(1);
    let inner = orders_for(next, rest, block);
    if at == 0 {
        lemma_closed_peers_stay_closed(next, rest, block, key);
        assert forall|j: int| 0 <= j < orders.len() implies #[trigger] orders[j] != Order::Deliver(
            key,
        ) by {
            if j > 0 {
                assert(inner[j - 1] == orders[j]);
            }
        }
    } else {
        assert(!(actions[0] is Complete));
        assert forall|j: int| 0 <= j < at - 1 implies !(#[trigger] rest[j] is Complete) by {
            assert(rest[j] == actions[j + 1]);
        }
        lemma_nothing_is_sent_after_disconnect(next, rest, block, key, at - 1);
        assert forall|j: int| at <= j < orders.len() implies #[trigger] orders[j] != Order::Deliver(
            key,
        ) by {
            assert(inner[j - 1] == orders[j]);
        }
    }
}

/// Blocks of different pieces, each within its piece, lie apart in the file; so
/// do blocks of one piece that lie apart in it. Writing one never touches the
/// other.
pub proof fn lemma_blocks_lie_apart(
    piece_length: u64,
    index: u32,
    begin: u32,
    length: nat,
    other_index: u32,
    other_begin: u32,
    other_length: nat,
)
    requires
        begin + length <= piece_length,
        other_begin + other_length <= piece_length,
        index < other_index || (index == other_index && begin + length <= other_begin),
    ensures
        file_offset(index, begin, piece_length) + length <= file_offset(
            other_index,
            other_begin,
            piece_length,
        ),
{
    if index < other_index {
        assert((index + 1) * piece_length <= other_index * piece_length) by (nonlinear_arith)
            requires
                index + 1 <= other_index,
                0 <= piece_length,
        ;
        assert((index + 1) * piece_length == index * piece_length + piece_length)
            by (nonlinear_arith);
    }
}

} // verus!

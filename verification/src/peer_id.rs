//! The identity under which the client appears to trackers and peers.
use crate::decimal::{is_digit, ZERO};
use crate::percent::{is_unreserved, lemma_unreserved_pass_through, percent_encode};
use crate::text::chars_of;
use vstd::prelude::*;
use vstd::string::is_ascii_spec_bytes;
use vstd::utf8::encode_utf8;

verus! {

/// The name and version of the client (Azureus style).
pub open spec fn prefix() -> Seq<u8> {
    encode_utf8("-EX0100-"@)
}

/// The bytes of a process id, the least significant first.
pub open spec fn pid_bytes(pid: u32) -> Seq<u8> {
    seq![
        (pid % 256) as u8,
        (pid / 256 % 256) as u8,
        (pid / 65536 % 256) as u8,
        (pid / 16777216) as u8,
    ]
}

/// The digit at a place after the prefix: the last decimal digit of a byte of
/// the process id, the bytes taken in turn.
pub open spec fn tail_digit(pid: u32, i: int) -> u8 {
    (ZERO + pid_bytes(pid)[i % 4] % 10) as u8
}

/// The whole identity.
pub open spec fn peer_id_of(pid: u32) -> Seq<u8> {
    prefix() + Seq::new(12, |i: int| tail_digit(pid, i))
}

/// The prefix, byte by byte.
proof fn lemma_prefix()
    ensures
        prefix().len() == 8,
        forall|i: int| 0 <= i < 8 ==> #[trigger] prefix()[i] == "-EX0100-"@[i] as u8,
        forall|i: int| 0 <= i < 8 ==> is_unreserved(#[trigger] prefix()[i]),
{
    reveal_strlit("-EX0100-");
    is_ascii_spec_bytes("-EX0100-");
}

/// An identity has twenty bytes and needs no escape in a request: it appears
/// there as it is.
pub proof fn lemma_peer_id_is_plain(pid: u32)
    ensures
        peer_id_of(pid).len() == 20,
        prefix().is_prefix_of(peer_id_of(pid)),
        forall|i: int| 8 <= i < 20 ==> is_digit(#[trigger] peer_id_of(pid)[i]),
        percent_encode(peer_id_of(pid)) == chars_of(peer_id_of(pid)),
{
    lemma_prefix();
    let id = peer_id_of(pid);
    assert(id.take(8) =~= prefix());
    assert forall|i: int| 8 <= i < 20 implies is_digit(#[trigger] id[i]) by {
        assert(id[i] == tail_digit(pid, i - 8));
    }
    assert forall|i: int| 0 <= i < id.len() implies is_unreserved(#[trigger] id[i]) by {
        if i < 8 {
            assert(id[i] == prefix()[i]);
        } else {
            assert(is_digit(id[i]));
        }
    }
    lemma_unreserved_pass_through(id);
}

/// Makes the identity of a process: the client's prefix and twelve digits that
/// its process id gives.
pub fn make_peer_id(pid: u32) -> (id: [u8; 20])
    ensures
        id@ == peer_id_of(pid),
{
    let head = "-EX0100-".as_bytes();
    let bytes: [u8; 4] = [
        (pid % 256) as u8,
        (pid / 256 % 256) as u8,
        (pid / 65536 % 256) as u8,
        (pid / 16777216) as u8,
    ];
    assert(bytes@ =~= pid_bytes(pid));
    proof {
        lemma_prefix();
    }
    let mut id: [u8; 20] = [0u8;20];
    let mut i: usize = 0;
    while i < 20
        invariant
            i <= 20,
            head@ == prefix(),
            prefix().len() == 8,
            bytes@ == pid_bytes(pid),
            forall|j: int| 0 <= j < i ==> #[trigger] id@[j] == peer_id_of(pid)[j],
        decreases 20 - i,
    {
        if i < 8 {
            id[i] = head[i];
        } else {
            id[i] = ZERO + bytes[(i - 8) % 4] % 10;
            assert(peer_id_of(pid)[i as int] == tail_digit(pid, i - 8));
        }
        i = i + 1;
    }
    assert(id@ =~= peer_id_of(pid));
    id
}

} // verus!

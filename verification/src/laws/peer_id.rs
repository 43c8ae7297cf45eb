//! Laws of the client's identity.
use crate::peer_id::{lemma_peer_id_is_plain, make_peer_id, pid_bytes, prefix, tail_digit};
use vstd::prelude::*;
use vstd::string::is_ascii_spec_bytes;

verus! {

/// A process id is divided into its bytes, the least significant first.
pub proof fn lemma_pid_bytes(pid: u32, a: u8, b: u8, c: u8, d: u8)
    requires
        pid == a + 256 * b + 65536 * c + 16777216 * d,
    ensures
        pid_bytes(pid) == seq![a, b, c, d],
{
    let high: int = c + 256 * d;
    let upper: int = b + 256 * high;
    assert(pid == a + 256 * upper);
    assert(pid % 256 == a && pid / 256 == upper);
    assert(upper % 256 == b && upper / 256 == high);
    assert(pid / 65536 == high);
    assert(high % 256 == c && high / 256 == d);
    assert(pid / 16777216 == d);
    assert(pid_bytes(pid) =~= seq![a, b, c, d]);
}

/// An identity is the name and version of the client, and then, three times
/// over, the last decimal digit of each byte of the process id, the least
/// significant byte first.
pub proof fn law_make_peer_id(pid: u32, id: [u8; 20], a: u8, b: u8, c: u8, d: u8, i: int)
    requires
        call_ensures(make_peer_id, (pid,), id),
        pid == a + 256 * b + 65536 * c + 16777216 * d,
    ensures
        0 <= i < 8 ==> id@[i] as int == "-EX0100-"@[i] as int,
        0 <= i < 3 ==> {
            &&& id@[8 + 4 * i] == '0' as int + a % 10
            &&& id@[9 + 4 * i] == '0' as int + b % 10
            &&& id@[10 + 4 * i] == '0' as int + c % 10
            &&& id@[11 + 4 * i] == '0' as int + d % 10
        },
{
    lemma_pid_bytes(pid, a, b, c, d);
    lemma_peer_id_is_plain(pid);
    reveal_strlit("-EX0100-");
    is_ascii_spec_bytes("-EX0100-");
    assert(prefix().len() == 8);
    if 0 <= i < 8 {
        assert(id@[i] == prefix()[i]);
    }
    if 0 <= i < 3 {
        assert(id@[8 + 4 * i] == tail_digit(pid, 4 * i));
        assert(id@[9 + 4 * i] == tail_digit(pid, 4 * i + 1));
        assert(id@[10 + 4 * i] == tail_digit(pid, 4 * i + 2));
        assert(id@[11 + 4 * i] == tail_digit(pid, 4 * i + 3));
        assert((4 * i) % 4 == 0 && (4 * i + 1) % 4 == 1 && (4 * i + 2) % 4 == 2 && (4 * i + 3) % 4
            == 3);
    }
}

/// Every process has an identity.
pub proof fn law_processes_are_taken(pid: u32)
    ensures
        call_requires(make_peer_id, (pid,)),
{
}

} // verus!

//! Which address owns which seat.
//!
//! This is the whole of authentication. A two-byte uplink has no room for a
//! token, so a player id is only ever believed when it arrives from the
//! address that claimed it at the door.
use vstd::prelude::*;

verus! {

/// A datagram's source address as plain values: the IP address (an IPv4
/// address in the low 32 bits), the port, and for IPv6 the flow label and
/// scope. Two addresses are the same exactly when every field is.
#[derive(Debug, Clone, Copy, PartialEq, Eq, Structural)]
pub struct PeerAddr {
    pub v6: bool,
    pub ip: u128,
    pub port: u16,
    pub flowinfo: u32,
    pub scope_id: u32,
}

/// The registry as two maps: address to seat, and seat to address.
#[verifier::ext_equal]
pub struct RegistryView {
    pub by_addr: Map<PeerAddr, u8>,
    pub by_player: Map<u8, PeerAddr>,
}

/// `r` after `addr` takes `player`'s seat: the seat's earlier address, if
/// any, loses its binding, and `addr` now names the seat.
pub open spec fn bound(r: RegistryView, addr: PeerAddr, player: u8) -> RegistryView {
    RegistryView {
        by_addr: if r.by_player.contains_key(player) {
            r.by_addr.remove(r.by_player[player]).insert(addr, player)
        } else {
            r.by_addr.insert(addr, player)
        },
        by_player: r.by_player.insert(player, addr),
    }
}

/// `r` after `player`'s seat is freed, with the address that held it.
pub open spec fn released(r: RegistryView, player: u8) -> RegistryView {
    RegistryView {
        by_addr: if r.by_player.contains_key(player) {
            r.by_addr.remove(r.by_player[player])
        } else {
            r.by_addr
        },
        by_player: r.by_player.remove(player),
    }
}

/// An address is believed for a seat only while that seat's own address is
/// the same address.
pub open spec fn believed_only_from_owner(r: RegistryView) -> bool {
    forall|a: PeerAddr|
        #[trigger] r.by_addr.contains_key(a) ==> r.by_player.contains_key(r.by_addr[a])
            && r.by_player[r.by_addr[a]] == a
}

/// An association list as a map, when no key occurs twice.
pub open spec fn assoc<K, V>(entries: Seq<(K, V)>) -> Map<K, V>
    decreases entries.len(),
{
    if entries.len() == 0 {
        Map::empty()
    } else {
        assoc(entries.drop_last()).insert(entries.last().0, entries.last().1)
    }
}

pub open spec fn distinct_keys<K, V>(entries: Seq<(K, V)>) -> bool {
    forall|i: int, j: int|
        0 <= i < j < entries.len() ==> (#[trigger] entries[i]).0 != (#[trigger] entries[j]).0
}

#[derive(Debug)]
pub struct Registry {
    by_addr: Vec<(PeerAddr, u8)>,
    by_player: Vec<(u8, PeerAddr)>,
}

impl View for Registry {
    type V = RegistryView;

    closed spec fn view(&self) -> RegistryView {
        RegistryView { by_addr: assoc(self.by_addr@), by_player: assoc(self.by_player@) }
    }
}

impl Registry {
    #[verifier::type_invariant]
    closed spec fn inv(&self) -> bool {
        distinct_keys(self.by_addr@) && distinct_keys(self.by_player@)
    }
}

/// The map of a list with distinct keys: each entry's key maps to the value
/// beside it, and it holds no other key.
proof fn lemma_assoc<K, V>(entries: Seq<(K, V)>)
    requires
        distinct_keys(entries),
    ensures
        forall|i: int|
            0 <= i < entries.len() ==> #[trigger] assoc(entries).contains_key(entries[i].0)
                && assoc(entries)[entries[i].0] == entries[i].1,
        forall|k: K|
            #[trigger] assoc(entries).contains_key(k) ==> exists|i: int|
                0 <= i < entries.len() && entries[i].0 == k,
    decreases entries.len(),
{
    if entries.len() > 0 {
        let rest = entries.drop_last();
        let last = entries.last();
        assert(distinct_keys(rest)) by {
            assert forall|i: int, j: int| 0 <= i < j < rest.len() implies (#[trigger] rest[i]).0
                != (#[trigger] rest[j]).0 by {
                assert(rest[i] == entries[i] && rest[j] == entries[j]);
            }
        }
        lemma_assoc(rest);
        assert forall|i: int| 0 <= i < entries.len() implies #[trigger] assoc(
            entries,
        ).contains_key(entries[i].0) && assoc(entries)[entries[i].0] == entries[i].1 by {
            if i < entries.len() - 1 {
                assert(rest[i] == entries[i]);
                assert(entries[i].0 != entries[entries.len() - 1].0);
                assert(assoc(rest).contains_key(rest[i].0));
            }
        }
        assert forall|k: K| #[trigger] assoc(entries).contains_key(k) implies exists|i: int|
            0 <= i < entries.len() && entries[i].0 == k by {
            if k == last.0 {
                assert(entries[entries.len() - 1].0 == k);
            } else {
                assert(assoc(rest).contains_key(k));
                let j: int = choose|j: int| 0 <= j < rest.len() && rest[j].0 == k;
                assert(entries[j] == rest[j]);
            }
        }
    }
}

/// Where `k` stands among the seats, if it does.
fn seat_index(entries: &Vec<(u8, PeerAddr)>, k: u8) -> (r: Option<usize>)
    ensures
        match r {
            Some(i) => i < entries@.len() && entries@[i as int].0 == k,
            None => forall|j: int| 0 <= j < entries@.len() ==> (#[trigger] entries@[j]).0 != k,
        },
{
    let mut i: usize = 0;
    while i < entries.len()
        invariant
            i <= entries@.len(),
            forall|j: int| 0 <= j < i ==> (#[trigger] entries@[j]).0 != k,
        decreases entries@.len() - i,
    {
        if entries[i].0 == k {
            return Some(i);
        }
        i = i + 1;
    }
    None
}

/// Where `k` stands among the addresses, if it does.
fn addr_index(entries: &Vec<(PeerAddr, u8)>, k: PeerAddr) -> (r: Option<usize>)
    ensures
        match r {
            Some(i) => i < entries@.len() && entries@[i as int].0 == k,
            None => forall|j: int| 0 <= j < entries@.len() ==> (#[trigger] entries@[j]).0 != k,
        },
{
    let mut i: usize = 0;
    while i < entries.len()
        invariant
            i <= entries@.len(),
            forall|j: int| 0 <= j < i ==> (#[trigger] entries@[j]).0 != k,
        decreases entries@.len() - i,
    {
        if entries[i].0 == k {
            return Some(i);
        }
        i = i + 1;
    }
    None
}

/// Dropping the entry at `i` from a list with distinct keys drops its key
/// from the list's map.
fn remove_at<K: Copy, V: Copy>(entries: &mut Vec<(K, V)>, i: usize) -> (removed: V)
    requires
        distinct_keys(old(entries)@),
        i < old(entries)@.len(),
    ensures
        distinct_keys(final(entries)@),
        assoc(final(entries)@) == assoc(old(entries)@).remove(old(entries)@[i as int].0),
        removed == old(entries)@[i as int].1,
        assoc(old(entries)@).contains_key(old(entries)@[i as int].0),
        assoc(old(entries)@)[old(entries)@[i as int].0] == removed,
{
    let ghost before = entries@;
    let ghost k = before[i as int].0;
    proof {
        lemma_assoc(before);
        assert(assoc(before).contains_key(before[i as int].0));
    }
    let (_, v) = entries.remove(i);
    proof {
        assert(distinct_keys(entries@)) by {
            assert forall|a: int, b: int| 0 <= a < b < entries@.len() implies (
            #[trigger] entries@[a]).0 != (#[trigger] entries@[b]).0 by {
                let a2 = if a < i { a } else { a + 1 };
                let b2 = if b < i { b } else { b + 1 };
                assert(entries@[a] == before[a2]);
                assert(entries@[b] == before[b2]);
            }
        }
        lemma_assoc(entries@);
        assert(assoc(entries@) =~= assoc(before).remove(k)) by {
            assert forall|key: K| #[trigger] assoc(entries@).contains_key(key) <==> assoc(
                before,
            ).remove(k).contains_key(key) by {
                if assoc(entries@).contains_key(key) {
                    let j: int = choose|j: int| 0 <= j < entries@.len() && entries@[j].0 == key;
                    let j2 = if j < i { j } else { j + 1 };
                    assert(entries@[j] == before[j2]);
                }
                if assoc(before).remove(k).contains_key(key) {
                    let j: int = choose|j: int| 0 <= j < before.len() && before[j].0 == key;
                    if j < i {
                        assert(entries@[j] == before[j]);
                    } else if j > i {
                        assert(entries@[j - 1] == before[j]);
                    }
                }
            }
            assert forall|key: K| #[trigger] assoc(entries@).contains_key(key) implies assoc(
                entries@,
            )[key] == assoc(before).remove(k)[key] by {
                let j: int = choose|j: int| 0 <= j < entries@.len() && entries@[j].0 == key;
                let j2 = if j < i { j } else { j + 1 };
                assert(entries@[j] == before[j2]);
            }
        }
    }
    v
}

/// Add a binding for a key the list does not hold yet.
fn push_new<K: Copy, V: Copy>(entries: &mut Vec<(K, V)>, k: K, v: V)
    requires
        distinct_keys(old(entries)@),
        !assoc(old(entries)@).contains_key(k),
    ensures
        distinct_keys(final(entries)@),
        assoc(final(entries)@) == assoc(old(entries)@).insert(k, v),
{
    let ghost before = entries@;
    proof {
        lemma_assoc(before);
    }
    entries.push((k, v));
    proof {
        assert(entries@.drop_last() =~= before);
        assert(distinct_keys(entries@)) by {
            assert forall|a: int, b: int| 0 <= a < b < entries@.len() implies (
            #[trigger] entries@[a]).0 != (#[trigger] entries@[b]).0 by {
                assert(entries@[a] == before[a]);
                if b < before.len() {
                    assert(entries@[b] == before[b]);
                } else {
                    assert(assoc(before).contains_key(before[a].0));
                }
            }
        }
    }
}

/// A key that no entry carries is not in the list's map.
proof fn lemma_assoc_absent<K, V>(entries: Seq<(K, V)>, k: K)
    requires
        distinct_keys(entries),
        forall|j: int| 0 <= j < entries.len() ==> (#[trigger] entries[j]).0 != k,
    ensures
        !assoc(entries).contains_key(k),
{
    lemma_assoc(entries);
    if assoc(entries).contains_key(k) {
        let j: int = choose|j: int| 0 <= j < entries.len() && entries[j].0 == k;
        assert(entries[j].0 != k);
    }
}

impl Default for Registry {
    fn default() -> (r: Self)
        ensures
            r@.by_addr == Map::<PeerAddr, u8>::empty(),
            r@.by_player == Map::<u8, PeerAddr>::empty(),
            believed_only_from_owner(r@),
    {
        Registry { by_addr: Vec::new(), by_player: Vec::new() }
    }
}

impl Registry {
    /// Give `player`'s seat to `addr`. A seat has one address: the seat's
    /// earlier address, if any, no longer drives it.
    pub fn bind(&mut self, addr: PeerAddr, player: u8)
        ensures
            final(self)@ == bound(old(self)@, addr, player),
    {
        proof {
            use_type_invariant(&*self);
        }
        let mut by_player: Vec<(u8, PeerAddr)> = Vec::new();
        let mut by_addr: Vec<(PeerAddr, u8)> = Vec::new();
        std::mem::swap(&mut by_player, &mut self.by_player);
        std::mem::swap(&mut by_addr, &mut self.by_addr);
        proof {
            lemma_assoc(by_player@);
        }
        match seat_index(&by_player, player) {
            Some(i) => {
                let previous = remove_at(&mut by_player, i);
                match addr_index(&by_addr, previous) {
                    Some(j) => {
                        remove_at(&mut by_addr, j);
                    },
                    None => {
                        proof {
                            lemma_assoc_absent(by_addr@, previous);
                            assert(assoc(by_addr@).remove(previous) =~= assoc(by_addr@));
                        }
                    },
                }
            },
            None => {
                proof {
                    lemma_assoc_absent(by_player@, player);
                    assert(assoc(by_player@).remove(player) =~= assoc(by_player@));
                }
            },
        }
        let ghost mid = by_player@;
        push_new(&mut by_player, player, addr);
        let ghost mid_addr = by_addr@;
        match addr_index(&by_addr, addr) {
            Some(j) => {
                remove_at(&mut by_addr, j);
                proof {
                    assert(assoc(mid_addr).remove(addr).insert(addr, player) =~= assoc(
                        mid_addr,
                    ).insert(addr, player));
                }
            },
            None => {
                proof {
                    lemma_assoc_absent(by_addr@, addr);
                    assert(assoc(by_addr@).remove(addr) =~= assoc(by_addr@));
                }
            },
        }
        push_new(&mut by_addr, addr, player);
        proof {
            assert(assoc(mid).remove(player).insert(player, addr) =~= assoc(mid).insert(
                player,
                addr,
            ));
        }
        self.by_player = by_player;
        self.by_addr = by_addr;
    }

    /// Free `player`'s seat and forget its address.
    pub fn release(&mut self, player: u8)
        ensures
            final(self)@ == released(old(self)@, player),
    {
        proof {
            use_type_invariant(&*self);
        }
        let mut by_player: Vec<(u8, PeerAddr)> = Vec::new();
        let mut by_addr: Vec<(PeerAddr, u8)> = Vec::new();
        std::mem::swap(&mut by_player, &mut self.by_player);
        std::mem::swap(&mut by_addr, &mut self.by_addr);
        match seat_index(&by_player, player) {
            Some(i) => {
                let addr = remove_at(&mut by_player, i);
                match addr_index(&by_addr, addr) {
                    Some(j) => {
                        remove_at(&mut by_addr, j);
                    },
                    None => {
                        proof {
                            lemma_assoc_absent(by_addr@, addr);
                            assert(assoc(by_addr@).remove(addr) =~= assoc(by_addr@));
                        }
                    },
                }
            },
            None => {
                proof {
                    lemma_assoc_absent(by_player@, player);
                    assert(assoc(by_player@).remove(player) =~= assoc(by_player@));
                }
            },
        }
        self.by_player = by_player;
        self.by_addr = by_addr;
    }

    /// The seat `addr` holds, if any.
    pub fn player_of(&self, addr: &PeerAddr) -> (p: Option<u8>)
        ensures
            p == if self@.by_addr.contains_key(*addr) {
                Some(self@.by_addr[*addr])
            } else {
                None
            },
    {
        proof {
            use_type_invariant(self);
            lemma_assoc(self.by_addr@);
        }
        match addr_index(&self.by_addr, *addr) {
            Some(i) => Some(self.by_addr[i].1),
            None => None,
        }
    }

    /// The address holding `player`'s seat, if any.
    pub fn addr_of(&self, player: u8) -> (a: Option<PeerAddr>)
        ensures
            a == if self@.by_player.contains_key(player) {
                Some(self@.by_player[player])
            } else {
                None
            },
    {
        proof {
            use_type_invariant(self);
            lemma_assoc(self.by_player@);
        }
        match seat_index(&self.by_player, player) {
            Some(i) => Some(self.by_player[i].1),
            None => None,
        }
    }

    /// Every bound seat with its address, for broadcasting, in no
    /// particular order.
    pub fn endpoints(&self) -> (e: Vec<(u8, PeerAddr)>)
        ensures
            distinct_keys(e@),
            assoc(e@) == self@.by_player,
    {
        proof {
            use_type_invariant(self);
        }
        let mut e: Vec<(u8, PeerAddr)> = Vec::new();
        let mut i: usize = 0;
        while i < self.by_player.len()
            invariant
                i <= self.by_player@.len(),
                e@ == self.by_player@.subrange(0, i as int),
            decreases self.by_player@.len() - i,
        {
            let entry = self.by_player[i];
            e.push(entry);
            i = i + 1;
            proof {
                assert(e@ =~= self.by_player@.subrange(0, i as int));
            }
        }
        proof {
            assert(e@ =~= self.by_player@);
        }
        e
    }
}

/// Binding a seat takes it away from any address that held it before: only
/// the new address is believed for it.
pub proof fn lemma_rebinding_forgets(r: RegistryView, addr: PeerAddr, player: u8)
    requires
        r.by_player.contains_key(player),
        r.by_player[player] != addr,
    ensures
        !bound(r, addr, player).by_addr.contains_key(r.by_player[player]),
        bound(r, addr, player).by_addr[addr] == player,
        bound(r, addr, player).by_player[player] == addr,
{
}

/// Binding is two-way, and releasing the seat clears both sides.
pub proof fn lemma_release_undoes_bind(r: RegistryView, addr: PeerAddr, player: u8)
    ensures
        bound(r, addr, player).by_addr[addr] == player,
        bound(r, addr, player).by_player[player] == addr,
        !released(bound(r, addr, player), player).by_addr.contains_key(addr),
        !released(bound(r, addr, player), player).by_player.contains_key(player),
{
}

/// Binding and releasing keep every believed address the owner of its seat.
pub proof fn lemma_ownership_kept(r: RegistryView, addr: PeerAddr, player: u8, other: u8)
    requires
        believed_only_from_owner(r),
    ensures
        believed_only_from_owner(bound(r, addr, player)),
        believed_only_from_owner(released(r, other)),
{
    let b = bound(r, addr, player);
    assert forall|a: PeerAddr| #[trigger] b.by_addr.contains_key(a) implies b.by_player.contains_key(
        b.by_addr[a],
    ) && b.by_player[b.by_addr[a]] == a by {
        if a != addr {
            assert(r.by_addr.contains_key(a));
        }
    }
    let q = released(r, other);
    assert forall|a: PeerAddr| #[trigger] q.by_addr.contains_key(a) implies q.by_player.contains_key(
        q.by_addr[a],
    ) && q.by_player[q.by_addr[a]] == a by {
        assert(r.by_addr.contains_key(a));
    }
}

} // verus!

//! The table of connected peers.

use std::collections::HashMap;

use vstd::prelude::*;
use vstd::std_specs::hash::group_hash_axioms;

use super::handshake_mac::{le16, siphash13, Address, AddressView, HandshakeMacHasher};

verus! {

broadcast use group_hash_axioms;

/// Peers whose addresses have the same key.
struct Bucket<P> {
    entries: Vec<(Address, P)>,
}

/// What some entries come to.
spec fn table<P>(entries: Seq<(Address, P)>) -> Map<AddressView, P>
    decreases entries.len(),
{
    if entries.len() == 0 {
        Map::empty()
    } else {
        table(entries.drop_last()).insert(entries.last().0@, entries.last().1)
    }
}

/// No address has more than one entry.
spec fn are_distinct<P>(entries: Seq<(Address, P)>) -> bool {
    forall|i: int, j: int|
        0 <= i < j < entries.len() ==> (#[trigger] entries[i]).0@ != (#[trigger] entries[j]).0@
}

proof fn lemma_table<P>(entries: Seq<(Address, P)>)
    requires
        are_distinct(entries),
    ensures
        table(entries).dom().finite(),
        table(entries).dom().len() == entries.len(),
        forall|addr: AddressView| #[trigger]
            table(entries).contains_key(addr) ==> exists|i: int|
                0 <= i < entries.len() && (#[trigger] entries[i]).0@ == addr,
        forall|i: int|
            0 <= i < entries.len() ==> {
                &&& table(entries).contains_key((#[trigger] entries[i]).0@)
                &&& table(entries)[entries[i].0@] == entries[i].1
            },
    decreases entries.len(),
{
    if entries.len() > 0 {
        let shorter = entries.drop_last();
        lemma_table(shorter);
        assert forall|addr: AddressView| #[trigger] table(entries).contains_key(addr) implies exists|
            i: int,
        |
            0 <= i < entries.len() && (#[trigger] entries[i]).0@ == addr by {
            if addr == entries.last().0@ {
                assert(entries[entries.len() - 1].0@ == addr);
            } else {
                assert(table(shorter).contains_key(addr));
                let i = choose|i: int| 0 <= i < shorter.len() && (#[trigger] shorter[i]).0@ == addr;
                assert(entries[i].0@ == addr);
            }
        }
        assert forall|i: int| 0 <= i < entries.len() implies {
            &&& table(entries).contains_key((#[trigger] entries[i]).0@)
            &&& table(entries)[entries[i].0@] == entries[i].1
        } by {
            if i < shorter.len() {
                assert(shorter[i] == entries[i]);
                assert(entries[i].0@ != entries[entries.len() - 1].0@);
            }
        }
        if table(shorter).contains_key(entries.last().0@) {
            let i = choose|i: int|
                0 <= i < shorter.len() && (#[trigger] shorter[i]).0@ == entries.last().0@;
            assert(entries[i].0@ != entries[entries.len() - 1].0@);
        }
        assert(table(entries).dom() =~= table(shorter).dom().insert(entries.last().0@));
    }
}

proof fn lemma_table_remove<P>(entries: Seq<(Address, P)>, i: int)
    requires
        are_distinct(entries),
        0 <= i < entries.len(),
    ensures
        are_distinct(entries.remove(i)),
        table(entries.remove(i)) == table(entries).remove(entries[i].0@),
{
    let rest = entries.remove(i);
    assert(are_distinct(rest)) by {
        assert forall|a: int, b: int| 0 <= a < b < rest.len() implies (#[trigger] rest[a]).0@ != (
        #[trigger] rest[b]).0@ by {
            let a1 = if a < i {
                a
            } else {
                a + 1
            };
            let b1 = if b < i {
                b
            } else {
                b + 1
            };
            assert(entries[a1].0@ != entries[b1].0@);
        }
    }
    lemma_table(entries);
    lemma_table(rest);
    let smaller = table(entries).remove(entries[i].0@);
    assert forall|addr: AddressView| table(rest).contains_key(addr) implies #[trigger] smaller.contains_key(
        addr,
    ) && smaller[addr] == table(rest)[addr] by {
        let a = choose|a: int| 0 <= a < rest.len() && (#[trigger] rest[a]).0@ == addr;
        let a1 = if a < i {
            a
        } else {
            a + 1
        };
        assert(rest[a] == entries[a1]);
        if a1 < i {
            assert(entries[a1].0@ != entries[i].0@);
        } else {
            assert(entries[i].0@ != entries[a1].0@);
        }
    }
    assert forall|addr: AddressView| smaller.contains_key(addr) implies #[trigger] table(
        rest,
    ).contains_key(addr) by {
        assert(table(entries).contains_key(addr));
        let a = choose|a: int| 0 <= a < entries.len() && (#[trigger] entries[a]).0@ == addr;
        let a1 = if a < i {
            a
        } else {
            a - 1
        };
        assert(rest[a1] == entries[a]);
    }
    assert(table(rest) =~= smaller);
}

impl<P> Bucket<P> {
    spec fn view(&self) -> Map<AddressView, P> {
        table(self.entries@)
    }

    spec fn wf(&self) -> bool {
        are_distinct(self.entries@)
    }

    fn new() -> (bucket: Self)
        ensures
            bucket.wf(),
            bucket.view() == Map::<AddressView, P>::empty(),
    {
        Self { entries: Vec::new() }
    }

    fn is_empty(&self) -> (empty: bool)
        ensures
            empty == (self.view() == Map::<AddressView, P>::empty()),
    {
        proof {
            if self.entries@.len() > 0 {
                assert(self.view().contains_key(self.entries@.last().0@));
            }
        }
        self.entries.len() == 0
    }

    /// Finds the entry of an address.
    fn find(&self, addr: &Address) -> (index: Option<usize>)
        requires
            self.wf(),
        ensures
            match index {
                Some(i) => i < self.entries@.len() && self.entries@[i as int].0@ == addr@,
                None => !self.view().contains_key(addr@),
            },
    {
        let mut i: usize = 0;
        while i < self.entries.len()
            invariant
                i <= self.entries@.len(),
                forall|j: int| 0 <= j < i ==> (#[trigger] self.entries@[j]).0@ != addr@,
            decreases self.entries@.len() - i,
        {
            if self.entries[i].0.is(addr) {
                return Some(i);
            }
            i += 1;
        }
        proof {
            lemma_table(self.entries@);
        }
        None
    }

    /// The peer at an address.
    fn get(&self, addr: &Address) -> (peer: Option<&P>)
        requires
            self.wf(),
        ensures
            match peer {
                Some(peer) => self.view().contains_key(addr@) && self.view()[addr@] == *peer,
                None => !self.view().contains_key(addr@),
            },
    {
        match self.find(addr) {
            Some(i) => {
                proof {
                    lemma_table(self.entries@);
                }
                Some(&self.entries[i].1)
            },
            None => None,
        }
    }

    /// Adds a peer.
    fn insert(&mut self, addr: Address, peer: P)
        requires
            old(self).wf(),
            !old(self).view().contains_key(addr@),
        ensures
            final(self).wf(),
            final(self).view() == old(self).view().insert(addr@, peer),
    {
        proof {
            lemma_table(self.entries@);
        }
        self.entries.push((addr, peer));
        assert(self.entries@.drop_last() =~= old(self).entries@);
    }

    /// Removes the peer at an address, if there is one.
    fn remove(&mut self, addr: &Address) -> (peer: Option<P>)
        requires
            old(self).wf(),
        ensures
            final(self).wf(),
            final(self).view() == old(self).view().remove(addr@),
            match peer {
                Some(peer) => old(self).view().contains_key(addr@) && old(self).view()[addr@] == peer,
                None => !old(self).view().contains_key(addr@),
            },
    {
        match self.find(addr) {
            Some(i) => {
                proof {
                    lemma_table(self.entries@);
                    lemma_table_remove(self.entries@, i as int);
                }
                let (_, peer) = self.entries.remove(i);
                Some(peer)
            },
            None => {
                assert(self.view().remove(addr@) =~= self.view());
                None
            },
        }
    }
}

/// The key of the bucket for an address.
spec fn address_key(secret: Seq<u8>, addr: AddressView) -> u64 {
    siphash13(secret, addr.octets + le16(addr.port))
}

/// Peers by their addresses.
pub struct PeerTable<P> {
    // Computes the keys of buckets, under a secret of this table's own
    hasher: HandshakeMacHasher,
    // Buckets by their keys
    buckets: HashMap<u64, Bucket<P>>,
    // Number of peers in all buckets
    count: usize,
    peers: Ghost<Map<AddressView, P>>,
}

/// The peer which some buckets hold for an address, if they do.
spec fn lookup<P>(
    secret: Seq<u8>,
    buckets: Map<u64, Bucket<P>>,
    addr: AddressView,
) -> Option<P> {
    let key = address_key(secret, addr);
    if buckets.contains_key(key) && buckets[key].view().contains_key(addr) {
        Some(buckets[key].view()[addr])
    } else {
        None
    }
}

/// The peer at an address, if there is one.
spec fn entry<P>(peers: Map<AddressView, P>, addr: AddressView) -> Option<P> {
    if peers.contains_key(addr) {
        Some(peers[addr])
    } else {
        None
    }
}

impl<P> View for PeerTable<P> {
    type V = Map<AddressView, P>;

    closed spec fn view(&self) -> Map<AddressView, P> {
        self.peers@
    }
}

impl<P> PeerTable<P> {
    pub closed spec fn inv(&self) -> bool {
        &&& self.peers@.dom().len() == self.count
        &&& forall|key: u64| #[trigger]
            self.buckets@.contains_key(key) ==> self.buckets@[key].wf()
        &&& forall|addr: AddressView| #[trigger]
            lookup(self.hasher.key(), self.buckets@, addr) == entry(self.peers@, addr)
    }

    pub open spec fn wf(&self) -> bool {
        self.inv() && self@.dom().finite()
    }

    pub fn new() -> (table: Self)
        ensures
            table.wf(),
            table@ == Map::<AddressView, P>::empty(),
    {
        Self {
            hasher: HandshakeMacHasher::default(),
            buckets: HashMap::new(),
            count: 0,
            peers: Ghost(Map::empty()),
        }
    }

    /// The number of peers.
    pub fn len(&self) -> (count: usize)
        requires
            self.wf(),
        ensures
            count == self@.dom().len(),
    {
        self.count
    }

    /// The peer at an address.
    pub fn get(&self, addr: &Address) -> (peer: Option<&P>)
        requires
            self.wf(),
        ensures
            match peer {
                Some(peer) => self@.contains_key(addr@) && self@[addr@] == *peer,
                None => !self@.contains_key(addr@),
            },
    {
        assert(lookup(self.hasher.key(), self.buckets@, addr@) == entry(self.peers@, addr@));
        match self.buckets.get(&self.hasher.digest(addr)) {
            Some(bucket) => bucket.get(addr),
            None => None,
        }
    }

    /// Adds a peer.
    pub fn insert(&mut self, addr: Address, peer: P)
        requires
            old(self).wf(),
            !old(self)@.contains_key(addr@),
            old(self)@.dom().len() < usize::MAX,
        ensures
            final(self).wf(),
            final(self)@ == old(self)@.insert(addr@, peer),
    {
        let key: u64 = self.hasher.digest(&addr);
        assert(lookup(self.hasher.key(), self.buckets@, addr@) == entry(self.peers@, addr@));
        let mut bucket = match self.buckets.remove(&key) {
            Some(bucket) => bucket,
            None => Bucket::new(),
        };
        bucket.insert(addr, peer);
        self.buckets.insert(key, bucket);
        self.count += 1;
        self.peers = Ghost(self.peers@.insert(addr@, peer));
        proof {
            let secret = self.hasher.key();
            let before = old(self).buckets@;
            assert forall|other: AddressView| #[trigger]
                lookup(secret, self.buckets@, other) == entry(self.peers@, other) by {
                assert(lookup(secret, before, other) == entry(old(self).peers@, other));
            }
        }
    }

    /// Removes the peer at an address, if there is one.
    pub fn remove(&mut self, addr: &Address) -> (peer: Option<P>)
        requires
            old(self).wf(),
        ensures
            final(self).wf(),
            final(self)@ == old(self)@.remove(addr@),
            match peer {
                Some(peer) => old(self)@.contains_key(addr@) && old(self)@[addr@] == peer,
                None => !old(self)@.contains_key(addr@),
            },
    {
        let key: u64 = self.hasher.digest(addr);
        assert(lookup(self.hasher.key(), self.buckets@, addr@) == entry(self.peers@, addr@));
        let mut bucket = match self.buckets.remove(&key) {
            Some(bucket) => bucket,
            None => {
                assert(self.buckets@ =~= old(self).buckets@);
                assert(self@.remove(addr@) =~= self@);
                return None;
            },
        };
        let removed = bucket.remove(addr);
        let ghost left = bucket.view();
        if !bucket.is_empty() {
            self.buckets.insert(key, bucket);
        }
        if removed.is_some() {
            self.count -= 1;
        }
        self.peers = Ghost(self.peers@.remove(addr@));
        proof {
            let secret = self.hasher.key();
            let before = old(self).buckets@;
            assert forall|other: AddressView| #[trigger]
                lookup(secret, self.buckets@, other) == entry(self.peers@, other) by {
                assert(lookup(secret, before, other) == entry(old(self).peers@, other));
                assert(left == before[key].view().remove(addr@));
                if address_key(secret, other) == key {
                    assert(self.buckets@.contains_key(key) ==> self.buckets@[key].view() == left);
                    assert(!self.buckets@.contains_key(key) ==> !left.contains_key(other));
                } else {
                    let other_key = address_key(secret, other);
                    assert(self.buckets@.contains_key(other_key) == before.contains_key(other_key));
                }
            }
        }
        removed
    }
}

} // verus!

//! The peers that a node gossips with.
//!
//! Nothing here tells good peers from bad ones: every exchange is judged by
//! itself.

use rand::seq::SliceRandom;
use vstd::prelude::*;
use crate::text::texts;

verus! {

/// The addresses of the peers that a node knows.
#[derive(Debug)]
pub struct PeerBook {
    pub(crate) peers: Vec<String>,
}

impl View for PeerBook {
    type V = Seq<Seq<char>>;

    closed spec fn view(&self) -> Seq<Seq<char>> {
        texts(self.peers@)
    }
}

/// `choose` of rand's `SliceRandom`: one of the peers, at random, and none
/// only where there is none. Which one is not said.
#[verifier::external_body]
pub(crate) fn choose_peer(peers: &Vec<String>) -> (r: Option<String>)
    ensures
        match r {
            Some(peer) => texts(peers@).contains(peer@),
            None => peers@.len() == 0,
        },
{
    peers.choose(&mut rand::thread_rng()).cloned()
}

/// The addresses with one that was heard from.
pub open spec fn learned(peers: Seq<Seq<char>>, addr: Seq<char>) -> Seq<Seq<char>> {
    if peers.contains(addr) {
        peers
    } else {
        peers.push(addr)
    }
}

impl PeerBook {
    /// A book with the given peers.
    pub fn new(initial: Vec<String>) -> (r: Self)
        ensures
            r@ == texts(initial@),
    {
        PeerBook { peers: initial }
    }

    /// Whether a random choice among the peers may fall so.
    pub closed spec fn picks(self, choice: Option<String>) -> bool {
        call_ensures(choose_peer, (&self.peers,), choice)
    }

    /// Picks a peer at random, if any is known.
    pub fn random_peer(&self) -> (r: Option<String>)
        ensures
            match r {
                Some(peer) => self@.contains(peer@),
                None => self@.len() == 0,
            },
            self.picks(r),
    {
        choose_peer(&self.peers)
    }

    /// Learns of a peer that is not known yet.
    pub fn learn(&mut self, addr: &str)
        ensures
            final(self)@ == learned(old(self)@, addr@),
    {
        let wanted: String = addr.to_owned();
        let mut i: usize = 0;
        while i < self.peers.len()
            invariant
                *self == *old(self),
                i <= self.peers@.len(),
                wanted@ == addr@,
                forall|j: int| 0 <= j < i ==> #[trigger] self@[j] != addr@,
            decreases self.peers.len() - i,
        {
            assert(self@[i as int] == self.peers@[i as int]@);
            if self.peers[i] == wanted {
                assert(self@.contains(addr@));
                return ;
            }
            i = i + 1;
        }
        assert(!self@.contains(addr@));
        self.peers.push(wanted);
        assert(self@ =~= old(self)@.push(addr@));
    }

    /// All peers that are known.
    pub fn snapshot(&self) -> (r: Vec<String>)
        ensures
            texts(r@) == self@,
    {
        let mut out: Vec<String> = Vec::new();
        let mut i: usize = 0;
        while i < self.peers.len()
            invariant
                i <= self.peers@.len(),
                texts(out@) == self@.take(i as int),
            decreases self.peers.len() - i,
        {
            let ghost before = texts(out@);
            out.push(self.peers[i].clone());
            assert(texts(out@) =~= before.push(self.peers@[i as int]@));
            assert(texts(out@) =~= self@.take(i + 1));
            i = i + 1;
        }
        assert(self@.take(i as int) =~= self@);
        out
    }
}

impl Default for PeerBook {
    fn default() -> (r: Self)
        ensures
            r@ == Seq::<Seq<char>>::empty(),
    {
        let r = PeerBook { peers: Vec::new() };
        assert(r@ =~= Seq::empty());
        r
    }
}

/// A peer that was heard from is known, and no peer is forgotten or entered
/// twice.
pub proof fn law_learned_peer_known(peers: Seq<Seq<char>>, addr: Seq<char>)
    ensures
        learned(peers, addr).contains(addr),
        forall|p: Seq<char>| peers.contains(p) ==> #[trigger] learned(peers, addr).contains(p),
        peers.no_duplicates() ==> learned(peers, addr).no_duplicates(),
        learned(learned(peers, addr), addr) == learned(peers, addr),
{
    let after = learned(peers, addr);
    if !peers.contains(addr) {
        assert(after[peers.len() as int] == addr);
        assert forall|p: Seq<char>| peers.contains(p) implies #[trigger] after.contains(p) by {
            let i = choose|i: int| 0 <= i < peers.len() && peers[i] == p;
            assert(after[i] == p);
        }
    }
}

/// A peer that was heard from is entered behind those that are known, and
/// only where it is not known yet; the others stay as they are.
pub proof fn law_peer_entered_last(peers: Seq<Seq<char>>, addr: Seq<char>)
    ensures
        learned(peers, addr).take(peers.len() as int) == peers,
        peers.contains(addr) ==> learned(peers, addr).len() == peers.len(),
        !peers.contains(addr) ==> learned(peers, addr).len() == peers.len() + 1 && learned(
            peers,
            addr,
        ).last() == addr,
{
    assert(learned(peers, addr).take(peers.len() as int) =~= peers);
}

/// A peer counts as picked only where the random choice among all peers of the
/// book fell on it.
pub(crate) proof fn law_picked_among_all(book: PeerBook, choice: Option<String>)
    requires
        book.picks(choice),
    ensures
        call_ensures(choose_peer, (&book.peers,), choice),
        book@.len() == book.peers@.len(),
        forall|i: int| 0 <= i < book@.len() ==> #[trigger] book@[i] == book.peers@[i]@,
{
}

} // verus!

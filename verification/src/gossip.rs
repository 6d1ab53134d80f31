//! Gossip between nodes.
//!
//! No node is marked as trusted or distrusted. Every exchange is put to the
//! test, and one that fails is ignored, with no memory of it.
//!
//! The test has three parts. A message has to be well formed
//! ([`is_well_formed`]). A response may hold each requested domain once at
//! most, and no other ([`is_valid_rumor_response`]). And it has to answer
//! the [`ConformanceChallenge`] of the request, which takes running the
//! collision rules.

use vstd::prelude::*;
use crate::collision::{resolve, winner, WinCondition};
use crate::domain::DomainName;
use crate::table::StringTable;
use crate::token::{drawn, RegistrationToken};

verus! {

/// How many entries a digest or a batch of rumors may have.
pub const MAX_DIGEST_ENTRIES: usize = 4096;

/// How many domains a request may have.
pub const MAX_REQUEST_ENTRIES: usize = 4096;

/// A fact to pass on: who holds a domain since when.
#[derive(Debug, PartialEq, Eq)]
pub struct RegistrationRumor {
    pub domain: DomainName,
    pub token: RegistrationToken,
    pub client_key: String,
}

/// A test that goes with a request: two tokens and a condition, to be
/// answered with the winner.
#[derive(Debug, Clone, Copy, PartialEq, Eq)]
pub struct ConformanceChallenge {
    pub token_a: RegistrationToken,
    pub token_b: RegistrationToken,
    pub condition: WinCondition,
}

/// What nodes say to each other.
#[derive(Debug, Clone, PartialEq, Eq)]
#[allow(inconsistent_fields)]
pub enum GossipMessage {
    /// "This is what I know", for the other to ask for what it lacks.
    Digest { rumors: Vec<DigestEntry> },
    /// "Tell me of these domains", with a test to be passed.
    Request { domains: Vec<DomainName>, challenge: ConformanceChallenge },
    /// The facts that were asked for, with the answer to the test.
    Rumors { rumors: Vec<RegistrationRumor>, challenge_answer: RegistrationToken },
}

/// A fact in short.
#[derive(Debug, PartialEq, Eq)]
pub struct DigestEntry {
    pub domain: DomainName,
    pub issued_at_millis: u64,
}

impl Clone for RegistrationRumor {
    fn clone(&self) -> (r: Self)
        ensures
            r == *self,
    {
        RegistrationRumor {
            domain: self.domain.clone(),
            token: self.token,
            client_key: self.client_key.clone(),
        }
    }
}

impl Clone for DigestEntry {
    fn clone(&self) -> (r: Self)
        ensures
            r == *self,
    {
        DigestEntry { domain: self.domain.clone(), issued_at_millis: self.issued_at_millis }
    }
}

impl ConformanceChallenge {
    /// The one right answer.
    pub open spec fn answer(self) -> RegistrationToken {
        winner(self.condition, self.token_a, self.token_b)
    }

    /// Whether both tokens were issued at the given time.
    pub open spec fn issued_at(self, millis: u64) -> bool {
        self.token_a.issued_at_millis == millis && self.token_b.issued_at_millis == millis
    }

    /// Whether the challenge may be drawn at the given time: fresh bytes in
    /// both tokens, and a condition by the toss of a coin.
    pub open spec fn drawn_at(self, millis: u64) -> bool {
        &&& self.issued_at(millis)
        &&& drawn(self.token_a.nonce)
        &&& drawn(self.token_b.nonce)
        &&& self.condition.tossed()
    }

    /// A fresh challenge that cannot be foreseen, with both tokens issued at
    /// the given time.
    pub fn random(issued_at_millis: u64) -> (r: Self)
        ensures
            r.drawn_at(issued_at_millis),
    {
        ConformanceChallenge {
            token_a: RegistrationToken::issue(issued_at_millis),
            token_b: RegistrationToken::issue(issued_at_millis),
            condition: WinCondition::random(),
        }
    }

    /// The one right answer: the token that wins under the condition.
    pub fn expected_answer(&self) -> (r: RegistrationToken)
        ensures
            r == self.answer(),
    {
        resolve(self.condition, self.token_a, self.token_b)
    }
}

// ---------------------------------------------------------------------
// The tests
// ---------------------------------------------------------------------

/// A rumor as plain values.
pub struct Claim {
    pub domain: Seq<char>,
    pub token: RegistrationToken,
    pub client_key: Seq<char>,
}

/// A message as plain values. An entry of a digest is a domain and a time.
pub enum Gossip {
    Digest { entries: Seq<(Seq<char>, u64)> },
    Request { domains: Seq<Seq<char>>, challenge: ConformanceChallenge },
    Rumors { claims: Seq<Claim>, answer: RegistrationToken },
}

/// The names of domains.
pub open spec fn domain_names(domains: Seq<DomainName>) -> Seq<Seq<char>> {
    Seq::new(domains.len(), |i: int| domains[i]@)
}

/// Rumors as plain values.
pub open spec fn claims_of(rumors: Seq<RegistrationRumor>) -> Seq<Claim> {
    Seq::new(rumors.len(), |i: int| rumors[i]@)
}

/// The entries of a digest as plain values.
pub open spec fn entries_of(entries: Seq<DigestEntry>) -> Seq<(Seq<char>, u64)> {
    Seq::new(entries.len(), |i: int| (entries[i].domain@, entries[i].issued_at_millis))
}

/// The names in claims.
pub open spec fn claim_names(claims: Seq<Claim>) -> Seq<Seq<char>> {
    Seq::new(claims.len(), |i: int| claims[i].domain)
}

/// The names in a digest.
pub open spec fn entry_names(entries: Seq<(Seq<char>, u64)>) -> Seq<Seq<char>> {
    Seq::new(entries.len(), |i: int| entries[i].0)
}

impl View for RegistrationRumor {
    type V = Claim;

    open spec fn view(&self) -> Claim {
        Claim { domain: self.domain@, token: self.token, client_key: self.client_key@ }
    }
}

impl View for GossipMessage {
    type V = Gossip;

    open spec fn view(&self) -> Gossip {
        match self {
            GossipMessage::Digest { rumors } => Gossip::Digest { entries: entries_of(rumors@) },
            GossipMessage::Request { domains, challenge } => Gossip::Request {
                domains: domain_names(domains@),
                challenge: *challenge,
            },
            GossipMessage::Rumors { rumors, challenge_answer } => Gossip::Rumors {
                claims: claims_of(rumors@),
                answer: *challenge_answer,
            },
        }
    }
}

/// Whether a message may be acted on: it is not too long, and names no
/// domain twice.
pub open spec fn well_formed(message: Gossip) -> bool {
    match message {
        Gossip::Digest { entries } => entries.len() <= MAX_DIGEST_ENTRIES && entry_names(
            entries,
        ).no_duplicates(),
        Gossip::Request { domains, .. } => domains.len() <= MAX_REQUEST_ENTRIES
            && domains.no_duplicates(),
        Gossip::Rumors { claims, .. } => claims.len() <= MAX_DIGEST_ENTRIES && claim_names(
            claims,
        ).no_duplicates(),
    }
}

/// Whether a response keeps to the request: it tells of requested domains
/// only, and of each once at most.
pub open spec fn answers_request(requested: Seq<Seq<char>>, told: Seq<Seq<char>>) -> bool {
    &&& forall|i: int| 0 <= i < told.len() ==> requested.contains(#[trigger] told[i])
    &&& told.no_duplicates()
}

/// Whether no name occurs twice.
fn unique_names(names: &Vec<&str>) -> (r: bool)
    ensures
        r == Seq::new(names@.len(), |i: int| names@[i]@).no_duplicates(),
{
    let ghost all = Seq::new(names@.len(), |i: int| names@[i]@);
    let mut seen: StringTable<bool> = StringTable::new();
    let mut i: usize = 0;
    while i < names.len()
        invariant
            all == Seq::new(names@.len(), |i: int| names@[i]@),
            i <= names@.len(),
            seen.wf(),
            forall|k: Seq<char>| #[trigger]
                seen@.contains_key(k) <==> (exists|j: int| 0 <= j < i && #[trigger] all[j] == k),
            forall|j: int, k: int| 0 <= j < k < i ==> all[j] != all[k],
        decreases names.len() - i,
    {
        let name: &str = names[i];
        assert(all[i as int] == name@);
        if seen.contains(name) {
            let ghost j = choose|j: int| 0 <= j < i && #[trigger] all[j] == name@;
            assert(all[j] == all[i as int]);
            return false;
        }
        let ghost before = seen@;
        seen.insert(name.to_owned(), true);
        assert forall|k: Seq<char>| #[trigger] seen@.contains_key(k) <==> (exists|j: int|
            0 <= j < i + 1 && #[trigger] all[j] == k) by {
            if before.contains_key(k) {
                let j = choose|j: int| 0 <= j < i && #[trigger] all[j] == k;
                assert(all[j] == k);
            }
            if exists|j: int| 0 <= j < i + 1 && #[trigger] all[j] == k {
                let j = choose|j: int| 0 <= j < i + 1 && #[trigger] all[j] == k;
                if j < i {
                    assert(before.contains_key(k));
                }
            }
        }
        assert forall|j: int, k: int| 0 <= j < k < i + 1 implies all[j] != all[k] by {
            if k == i {
                assert(before.contains_key(all[j]));
            }
        }
        i = i + 1;
    }
    true
}

fn names_of_domains(domains: &[DomainName]) -> (r: Vec<&str>)
    ensures
        r@.len() == domains@.len(),
        forall|i: int| 0 <= i < domains@.len() ==> (#[trigger] r@[i])@ == domains@[i]@,
{
    let mut out: Vec<&str> = Vec::new();
    let mut i: usize = 0;
    while i < domains.len()
        invariant
            i <= domains@.len(),
            out@.len() == i,
            forall|j: int| 0 <= j < i ==> (#[trigger] out@[j])@ == domains@[j]@,
        decreases domains.len() - i,
    {
        out.push(domains[i].as_str());
        i = i + 1;
    }
    out
}

fn names_of_rumors(rumors: &[RegistrationRumor]) -> (r: Vec<&str>)
    ensures
        r@.len() == rumors@.len(),
        forall|i: int| 0 <= i < rumors@.len() ==> (#[trigger] r@[i])@ == rumors@[i].domain@,
{
    let mut out: Vec<&str> = Vec::new();
    let mut i: usize = 0;
    while i < rumors.len()
        invariant
            i <= rumors@.len(),
            out@.len() == i,
            forall|j: int| 0 <= j < i ==> (#[trigger] out@[j])@ == rumors@[j].domain@,
        decreases rumors.len() - i,
    {
        out.push(rumors[i].domain.as_str());
        i = i + 1;
    }
    out
}

fn names_of_digest(entries: &Vec<DigestEntry>) -> (r: Vec<&str>)
    ensures
        r@.len() == entries@.len(),
        forall|i: int| 0 <= i < entries@.len() ==> (#[trigger] r@[i])@ == entries@[i].domain@,
{
    let mut out: Vec<&str> = Vec::new();
    let mut i: usize = 0;
    while i < entries.len()
        invariant
            i <= entries@.len(),
            out@.len() == i,
            forall|j: int| 0 <= j < i ==> (#[trigger] out@[j])@ == entries@[j].domain@,
        decreases entries.len() - i,
    {
        out.push(entries[i].domain.as_str());
        i = i + 1;
    }
    out
}

/// Whether a message may be acted on. This looks at the message alone: a
/// node that sends a malformed one is ignored for that one.
pub fn is_well_formed(message: &GossipMessage) -> (r: bool)
    ensures
        r == well_formed(message@),
{
    match message {
        GossipMessage::Digest { rumors } => {
            let names = names_of_digest(rumors);
            assert(Seq::new(names@.len(), |i: int| names@[i]@) =~= entry_names(entries_of(rumors@)));
            rumors.len() <= MAX_DIGEST_ENTRIES && unique_names(&names)
        },
        GossipMessage::Request { domains, .. } => {
            let names = names_of_domains(domains.as_slice());
            assert(Seq::new(names@.len(), |i: int| names@[i]@) =~= domain_names(domains@));
            domains.len() <= MAX_REQUEST_ENTRIES && unique_names(&names)
        },
        GossipMessage::Rumors { rumors, .. } => {
            let names = names_of_rumors(rumors.as_slice());
            assert(Seq::new(names@.len(), |i: int| names@[i]@) =~= claim_names(claims_of(rumors@)));
            rumors.len() <= MAX_DIGEST_ENTRIES && unique_names(&names)
        },
    }
}

/// Whether a response keeps to the request. The answer to the challenge is
/// checked apart from this.
pub fn is_valid_rumor_response(requested: &[DomainName], rumors: &[RegistrationRumor]) -> (r: bool)
    ensures
        r == answers_request(domain_names(requested@), claim_names(claims_of(rumors@))),
{
    let ghost wanted = domain_names(requested@);
    let ghost told = claim_names(claims_of(rumors@));
    let mut known: StringTable<bool> = StringTable::new();
    let mut i: usize = 0;
    while i < requested.len()
        invariant
            wanted == domain_names(requested@),
            i <= requested@.len(),
            known.wf(),
            forall|k: Seq<char>| #[trigger]
                known@.contains_key(k) <==> wanted.take(i as int).contains(k),
        decreases requested.len() - i,
    {
        known.insert(requested[i].to_string(), true);
        proof {
            let front = wanted.take(i as int);
            let next = wanted.take(i + 1);
            assert(next =~= front.push(wanted[i as int]));
            assert forall|k: Seq<char>| next.contains(k) <==> (front.contains(k) || k
                == wanted[i as int]) by {
                if front.contains(k) {
                    let j = choose|j: int| 0 <= j < front.len() && front[j] == k;
                    assert(next[j] == k);
                }
                assert(next[i as int] == wanted[i as int]);
            }
        }
        i = i + 1;
    }
    assert(wanted.take(i as int) =~= wanted);
    let names = names_of_rumors(rumors);
    assert(Seq::new(names@.len(), |i: int| names@[i]@) =~= told);
    let mut j: usize = 0;
    while j < names.len()
        invariant
            wanted == domain_names(requested@),
            told == claim_names(claims_of(rumors@)),
            names@.len() == told.len(),
            forall|k: int| 0 <= k < told.len() ==> (#[trigger] names@[k])@ == told[k],
            j <= names@.len(),
            forall|k: Seq<char>| #[trigger] known@.contains_key(k) <==> wanted.contains(k),
            forall|k: int| 0 <= k < j ==> wanted.contains(#[trigger] told[k]),
        decreases names.len() - j,
    {
        let name: &str = names[j];
        assert(told[j as int] == name@);
        if !known.contains(name) {
            assert(!wanted.contains(told[j as int]));
            return false;
        }
        j = j + 1;
    }
    unique_names(&names)
}

// ---------------------------------------------------------------------
// Laws
// ---------------------------------------------------------------------

/// A challenge with two different tokens has one right answer: one of the
/// tokens is right and the other is wrong.
pub proof fn law_one_right_answer(challenge: ConformanceChallenge)
    ensures
        challenge.answer() == challenge.token_a || challenge.answer() == challenge.token_b,
        challenge.token_a != challenge.token_b ==> (challenge.answer() == challenge.token_a)
            != (challenge.answer() == challenge.token_b),
{
    crate::collision::law_winner_is_one_of_both(
        challenge.condition,
        challenge.token_a,
        challenge.token_b,
    );
}

/// Turning the condition around turns the answer around, so it cannot be
/// given without looking at it.
pub proof fn law_answer_needs_condition(a: RegistrationToken, b: RegistrationToken)
    requires
        a != b,
    ensures
        (ConformanceChallenge {
            token_a: a,
            token_b: b,
            condition: WinCondition::HigherWins,
        }).answer() != (ConformanceChallenge {
            token_a: a,
            token_b: b,
            condition: WinCondition::LowerWins,
        }).answer(),
{
    crate::collision::law_conditions_oppose(a, b);
}

/// A message may be acted on exactly where it lists at most 4096 domains, and
/// none of them twice.
pub proof fn law_well_formed_exactly(
    entries: Seq<(Seq<char>, u64)>,
    domains: Seq<Seq<char>>,
    claims: Seq<Claim>,
    challenge: ConformanceChallenge,
    answer: RegistrationToken,
)
    ensures
        well_formed(Gossip::Digest { entries }) <==> entries.len() <= 4096 && (forall|i: int, j: int|
            0 <= i < j < entries.len() ==> (#[trigger] entries[i]).0 != (#[trigger] entries[j]).0),
        well_formed(Gossip::Request { domains, challenge }) <==> domains.len() <= 4096 && (forall|
            i: int,
            j: int,
        |
            0 <= i < j < domains.len() ==> #[trigger] domains[i] != #[trigger] domains[j]),
        well_formed(Gossip::Rumors { claims, answer }) <==> claims.len() <= 4096 && (forall|
            i: int,
            j: int,
        |
            0 <= i < j < claims.len() ==> (#[trigger] claims[i]).domain != (
            #[trigger] claims[j]).domain),
{
    let names = entry_names(entries);
    if well_formed(Gossip::Digest { entries }) {
        assert forall|i: int, j: int| 0 <= i < j < entries.len() implies (#[trigger] entries[i]).0
            != (#[trigger] entries[j]).0 by {
            assert(names[i] != names[j]);
        }
    }
    let told = claim_names(claims);
    if well_formed(Gossip::Rumors { claims, answer }) {
        assert forall|i: int, j: int| 0 <= i < j < claims.len() implies (
        #[trigger] claims[i]).domain != (#[trigger] claims[j]).domain by {
            assert(told[i] != told[j]);
        }
    }
    if forall|i: int, j: int| 0 <= i < j < domains.len() ==> #[trigger] domains[i]
        != #[trigger] domains[j] {
        assert forall|i: int, j: int| 0 <= i < domains.len() && 0 <= j < domains.len() && i
            != j implies domains[i] != domains[j] by {
            if i < j {
                assert(domains[i] != domains[j]);
            } else {
                assert(domains[j] != domains[i]);
            }
        }
    }
    if forall|i: int, j: int|
        0 <= i < j < entries.len() ==> (#[trigger] entries[i]).0 != (#[trigger] entries[j]).0 {
        assert forall|i: int, j: int| 0 <= i < names.len() && 0 <= j < names.len() && i
            != j implies names[i] != names[j] by {
            if i < j {
                assert(entries[i].0 != entries[j].0);
            } else {
                assert(entries[j].0 != entries[i].0);
            }
        }
    }
    if forall|i: int, j: int|
        0 <= i < j < claims.len() ==> (#[trigger] claims[i]).domain != (#[trigger] claims[j]).domain {
        assert forall|i: int, j: int| 0 <= i < told.len() && 0 <= j < told.len() && i
            != j implies told[i] != told[j] by {
            if i < j {
                assert(claims[i].domain != claims[j].domain);
            } else {
                assert(claims[j].domain != claims[i].domain);
            }
        }
    }
}

/// A response keeps to a request exactly where each domain that it tells of
/// was asked for, and none comes twice. It need not tell of all.
pub proof fn law_response_within_request(requested: Seq<Seq<char>>, told: Seq<Seq<char>>)
    ensures
        answers_request(requested, told) <==> (forall|i: int|
            0 <= i < told.len() ==> requested.contains(#[trigger] told[i])) && (forall|i: int, j: int|
            0 <= i < j < told.len() ==> #[trigger] told[i] != #[trigger] told[j]),
{
    if forall|i: int, j: int| 0 <= i < j < told.len() ==> #[trigger] told[i] != #[trigger] told[j] {
        assert forall|i: int, j: int| 0 <= i < told.len() && 0 <= j < told.len() && i
            != j implies told[i] != told[j] by {
            if i < j {
                assert(told[i] != told[j]);
            } else {
                assert(told[j] != told[i]);
            }
        }
    }
}

/// The right answer to a challenge is the higher of its two tokens or the
/// lower, as the condition says: by the time of issue, and at the same time by
/// the first random byte that differs.
pub proof fn law_answer_by_order(low: RegistrationToken, high: RegistrationToken, k: int)
    requires
        low.issued_at_millis < high.issued_at_millis || (low.issued_at_millis
            == high.issued_at_millis && 0 <= k < 8 && (forall|j: int|
            0 <= j < k ==> #[trigger] low.nonce[j] == high.nonce[j]) && low.nonce[k]
            < high.nonce[k]),
    ensures
        (ConformanceChallenge {
            token_a: low,
            token_b: high,
            condition: WinCondition::HigherWins,
        }).answer() == high,
        (ConformanceChallenge {
            token_a: high,
            token_b: low,
            condition: WinCondition::HigherWins,
        }).answer() == high,
        (ConformanceChallenge {
            token_a: low,
            token_b: high,
            condition: WinCondition::LowerWins,
        }).answer() == low,
        (ConformanceChallenge {
            token_a: high,
            token_b: low,
            condition: WinCondition::LowerWins,
        }).answer() == low,
{
    crate::collision::law_higher_or_lower_wins(low, high, k);
}

/// A message says what its parts say, each at its place.
pub proof fn law_message_says_its_parts(message: GossipMessage, i: int)
    ensures
        match message {
            GossipMessage::Digest { rumors } => message@ matches Gossip::Digest { entries }
                && entries.len() == rumors@.len() && (0 <= i < rumors@.len() ==> entries[i].0
                == rumors@[i].domain@ && entries[i].1 == rumors@[i].issued_at_millis),
            GossipMessage::Request { domains, challenge } => message@ matches Gossip::Request {
                domains: names,
                challenge: posed,
            } && posed == challenge && names.len() == domains@.len() && (0 <= i < domains@.len()
                ==> names[i] == domains@[i]@),
            GossipMessage::Rumors { rumors, challenge_answer } => message@ matches Gossip::Rumors {
                claims,
                answer,
            } && answer == challenge_answer && claims.len() == rumors@.len() && (0 <= i
                < rumors@.len() ==> claims[i].domain == rumors@[i].domain@ && claims[i].token
                == rumors@[i].token && claims[i].client_key == rumors@[i].client_key@),
        },
{
}

/// A challenge that is drawn at a time has two tokens of that time, each with
/// bytes from the random number generator, and a condition by a coin toss.
pub proof fn law_challenge_is_drawn(challenge: ConformanceChallenge, millis: u64)
    requires
        challenge.drawn_at(millis),
    ensures
        challenge.token_a.issued_at_millis == millis,
        challenge.token_b.issued_at_millis == millis,
        drawn(challenge.token_a.nonce),
        drawn(challenge.token_b.nonce),
        challenge.condition.tossed(),
{
}

} // verus!

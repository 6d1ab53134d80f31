//! Arbitration between two claims on the same domain name.
//!
//! Neither "higher wins" nor "lower wins" is fixed beforehand. In a
//! negotiation each peer proposes a condition at random, round by round, and
//! the first round in which both proposed the same one decides. Replicas
//! that only see the two tokens derive the condition from both of them, so
//! that all of them keep the same winner.

use rand::Rng;
use vstd::prelude::*;
use crate::token::{key_less, lex_less, ordering_key, RegistrationToken};

verus! {

/// Which side of the token order wins.
#[derive(Debug, Clone, Copy, PartialEq, Eq, Structural)]
pub enum WinCondition {
    HigherWins,
    LowerWins,
}

/// What one peer proposes in one round.
#[derive(Debug, Clone, Copy, PartialEq, Eq, Structural)]
pub struct RoundProposal {
    pub round: u32,
    pub condition: WinCondition,
}

/// A negotiation from the point of view of one peer.
#[derive(Debug)]
pub struct Negotiation {
    round: u32,
}

/// A coin toss: `gen_ratio` of the thread's random number generator is true
/// once in two times. Nothing is said of a single outcome.
#[verifier::external_body]
pub(crate) fn toss() -> (r: bool) {
    rand::thread_rng().gen_ratio(1, 2)
}

/// Whether a coin toss may fall so.
pub closed spec fn falls(heads: bool) -> bool {
    call_ensures(toss, (), heads)
}

impl WinCondition {
    /// Whether a coin toss may give this condition: heads stand for the
    /// higher token, tails for the lower.
    pub open spec fn tossed(self) -> bool {
        match self {
            WinCondition::HigherWins => falls(true),
            WinCondition::LowerWins => falls(false),
        }
    }

    /// The condition that a toss stands for.
    pub fn from_toss(heads: bool) -> (r: Self)
        ensures
            r == (if heads {
                WinCondition::HigherWins
            } else {
                WinCondition::LowerWins
            }),
    {
        if heads {
            WinCondition::HigherWins
        } else {
            WinCondition::LowerWins
        }
    }

    /// Draws a proposal for one round; both conditions are equally likely.
    /// A coin is tossed, and heads stand for the higher token.
    pub fn random() -> (r: Self)
        ensures
            r.tossed(),
    {
        let heads: bool = toss();
        assert(falls(heads));
        Self::from_toss(heads)
    }
}

impl Negotiation {
    /// The number of rounds so far.
    pub closed spec fn rounds(self) -> u32 {
        self.round
    }

    /// A negotiation before its first round.
    pub fn new() -> (r: Self)
        ensures
            r.rounds() == 0,
    {
        Negotiation { round: 0 }
    }

    /// This peer's proposal for the next round, with a given condition.
    pub fn propose_with(&mut self, condition: WinCondition) -> (r: RoundProposal)
        requires
            old(self).rounds() < u32::MAX,
        ensures
            final(self).rounds() == old(self).rounds() + 1,
            r == (RoundProposal { round: final(self).rounds(), condition }),
    {
        self.round = self.round + 1;
        RoundProposal { round: self.round, condition }
    }

    /// This peer's proposal for the next round, by the toss of a coin.
    pub fn propose(&mut self) -> (r: RoundProposal)
        requires
            old(self).rounds() < u32::MAX,
        ensures
            final(self).rounds() == old(self).rounds() + 1,
            r.round == final(self).rounds(),
            r.condition.tossed(),
    {
        let condition = WinCondition::random();
        self.propose_with(condition)
    }

    /// The condition that both peers proposed in the same round, if they
    /// did.
    pub fn check_agreement(mine: RoundProposal, theirs: RoundProposal) -> (r: Option<WinCondition>)
        ensures
            r == (if mine == theirs {
                Some(mine.condition)
            } else {
                None
            }),
    {
        if mine.round == theirs.round && mine.condition == theirs.condition {
            Some(mine.condition)
        } else {
            None
        }
    }
}

impl Default for Negotiation {
    fn default() -> (r: Self)
        ensures
            r.rounds() == 0,
    {
        Self::new()
    }
}

// ---------------------------------------------------------------------
// Deciding
// ---------------------------------------------------------------------

/// The winner of two tokens under a condition.
pub open spec fn winner(
    condition: WinCondition,
    a: RegistrationToken,
    b: RegistrationToken,
) -> RegistrationToken {
    match condition {
        WinCondition::HigherWins => if lex_less(ordering_key(a), ordering_key(b)) {
            b
        } else {
            a
        },
        WinCondition::LowerWins => if lex_less(ordering_key(b), ordering_key(a)) {
            b
        } else {
            a
        },
    }
}

/// The sum of bytes.
pub open spec fn byte_sum(bytes: Seq<u8>) -> int
    decreases bytes.len(),
{
    if bytes.len() == 0 {
        0
    } else {
        byte_sum(bytes.drop_last()) + bytes.last()
    }
}

/// The condition that two tokens make together: higher wins where the times
/// and the random bytes of both sum up to an even number.
pub open spec fn derived_condition(a: RegistrationToken, b: RegistrationToken) -> WinCondition {
    if (a.issued_at_millis + b.issued_at_millis + byte_sum(a.nonce@) + byte_sum(b.nonce@)) % 2
        == 0 {
        WinCondition::HigherWins
    } else {
        WinCondition::LowerWins
    }
}

/// The token that every replica keeps of two.
pub open spec fn arbitrated(a: RegistrationToken, b: RegistrationToken) -> RegistrationToken {
    winner(derived_condition(a, b), a, b)
}

/// The winning token of two, under an agreed condition.
pub fn resolve(condition: WinCondition, a: RegistrationToken, b: RegistrationToken) -> (r:
    RegistrationToken)
    ensures
        r == winner(condition, a, b),
{
    let key_a = a.raw_ordering_key();
    let key_b = b.raw_ordering_key();
    match condition {
        WinCondition::HigherWins => if key_less(&key_a, &key_b) {
            b
        } else {
            a
        },
        WinCondition::LowerWins => if key_less(&key_b, &key_a) {
            b
        } else {
            a
        },
    }
}

fn parity(nonce: &[u8; 8]) -> (r: u8)
    ensures
        r == byte_sum(nonce@) % 2,
{
    let mut sum: u8 = 0;
    let mut i: usize = 0;
    assert(nonce@.take(0) =~= Seq::empty());
    while i < 8
        invariant
            i <= 8,
            sum < 2,
            sum == byte_sum(nonce@.take(i as int)) % 2,
        decreases 8 - i,
    {
        assert(nonce@.take(i + 1).drop_last() =~= nonce@.take(i as int));
        sum = (sum + nonce[i] % 2) % 2;
        i = i + 1;
    }
    assert(nonce@.take(8) =~= nonce@);
    sum
}

/// Derives the condition from both claims. Each token brings random bytes,
/// and both count alike, so every replica gets the same condition from the
/// same pair.
pub fn mutually_derived_condition(a: RegistrationToken, b: RegistrationToken) -> (r: WinCondition)
    ensures
        r == derived_condition(a, b),
{
    let times: u8 = ((a.issued_at_millis % 2) + (b.issued_at_millis % 2)) as u8;
    let sum: u8 = times + parity(&a.nonce) + parity(&b.nonce);
    if sum % 2 == 0 {
        WinCondition::HigherWins
    } else {
        WinCondition::LowerWins
    }
}

/// Resolves a collision in a way that every node can reproduce from the two
/// tokens alone.
pub fn negotiate_locally(a: RegistrationToken, b: RegistrationToken) -> (r: RegistrationToken)
    ensures
        r == arbitrated(a, b),
{
    resolve(mutually_derived_condition(a, b), a, b)
}

// ---------------------------------------------------------------------
// Laws
// ---------------------------------------------------------------------

/// The winner is one of the two, and of two equal tokens it is that token.
pub proof fn law_winner_is_one_of_both(
    condition: WinCondition,
    a: RegistrationToken,
    b: RegistrationToken,
)
    ensures
        winner(condition, a, b) == a || winner(condition, a, b) == b,
        winner(condition, a, a) == a,
{
}

/// The order of the arguments does not matter.
pub proof fn law_winner_symmetric(
    condition: WinCondition,
    a: RegistrationToken,
    b: RegistrationToken,
)
    ensures
        winner(condition, a, b) == winner(condition, b, a),
{
    crate::token::law_lex_total(ordering_key(a), ordering_key(b));
    if ordering_key(a) == ordering_key(b) {
        crate::token::law_key_tells_tokens_apart(a, b);
    }
}

/// Both conditions are worth something: of two different tokens they pick
/// different winners.
pub proof fn law_conditions_oppose(a: RegistrationToken, b: RegistrationToken)
    requires
        a != b,
    ensures
        winner(WinCondition::HigherWins, a, b) != winner(WinCondition::LowerWins, a, b),
{
    crate::token::law_lex_total(ordering_key(a), ordering_key(b));
    if ordering_key(a) == ordering_key(b) {
        crate::token::law_key_tells_tokens_apart(a, b);
    }
}

/// Two replicas that see the same two claims in either order keep the same
/// one, and it is one of the two.
pub proof fn law_replicas_converge(a: RegistrationToken, b: RegistrationToken)
    ensures
        derived_condition(a, b) == derived_condition(b, a),
        arbitrated(a, b) == arbitrated(b, a),
        arbitrated(a, b) == a || arbitrated(a, b) == b,
{
    law_winner_symmetric(derived_condition(a, b), a, b);
}

/// Seeing the winner again changes nothing.
pub proof fn law_arbitration_settles(a: RegistrationToken, b: RegistrationToken)
    ensures
        arbitrated(arbitrated(a, b), a) == arbitrated(a, b),
        arbitrated(arbitrated(a, b), b) == arbitrated(a, b),
{
    law_replicas_converge(a, b);
}

/// Peers that agree on a condition in a round agree on the winner.
pub proof fn law_agreement_decides(
    mine: RoundProposal,
    theirs: RoundProposal,
    a: RegistrationToken,
    b: RegistrationToken,
)
    requires
        mine == theirs,
    ensures
        winner(mine.condition, a, b) == winner(theirs.condition, b, a),
{
    law_winner_symmetric(mine.condition, a, b);
}

/// Of two tokens the higher is the one that was issued later, and at the same
/// time the one that is greater in the first random byte that differs. The
/// condition says whether the higher or the lower wins.
pub proof fn law_higher_or_lower_wins(a: RegistrationToken, b: RegistrationToken, k: int)
    requires
        a.issued_at_millis < b.issued_at_millis || (a.issued_at_millis == b.issued_at_millis && 0
            <= k < 8 && (forall|j: int| 0 <= j < k ==> #[trigger] a.nonce[j] == b.nonce[j])
            && a.nonce[k] < b.nonce[k]),
    ensures
        winner(WinCondition::HigherWins, a, b) == b,
        winner(WinCondition::HigherWins, b, a) == b,
        winner(WinCondition::LowerWins, a, b) == a,
        winner(WinCondition::LowerWins, b, a) == a,
{
    let x = ordering_key(a);
    let y = ordering_key(b);
    if a.issued_at_millis < b.issued_at_millis {
        crate::token::law_later_token_sorts_higher(a, b);
    } else {
        assert forall|j: int| 0 <= j < 8 + k implies x[j] == y[j] by {
            if j >= 8 {
                assert(a.nonce[j - 8] == b.nonce[j - 8]);
                assert(x[j] == a.nonce@[j - 8]);
                assert(y[j] == b.nonce@[j - 8]);
            }
        }
        assert(x[8 + k] == a.nonce@[k]);
        assert(y[8 + k] == b.nonce@[k]);
        crate::token::law_first_difference_decides(x, y, 8 + k);
    }
    crate::token::law_lex_total(x, y);
}

proof fn lemma_nonce_sum(nonce: [u8; 8])
    ensures
        byte_sum(nonce@) == nonce[0] + nonce[1] + nonce[2] + nonce[3] + nonce[4] + nonce[5]
            + nonce[6] + nonce[7],
{
    let s = nonce@;
    assert(s.take(8) =~= s);
    assert(s.take(8).drop_last() =~= s.take(7));
    assert(s.take(7).drop_last() =~= s.take(6));
    assert(s.take(6).drop_last() =~= s.take(5));
    assert(s.take(5).drop_last() =~= s.take(4));
    assert(s.take(4).drop_last() =~= s.take(3));
    assert(s.take(3).drop_last() =~= s.take(2));
    assert(s.take(2).drop_last() =~= s.take(1));
    assert(s.take(1).drop_last() =~= s.take(0));
    assert(byte_sum(s.take(0)) == 0);
    assert(byte_sum(s.take(1)) == nonce[0]);
    assert(byte_sum(s.take(2)) == byte_sum(s.take(1)) + nonce[1]);
    assert(byte_sum(s.take(3)) == byte_sum(s.take(2)) + nonce[2]);
    assert(byte_sum(s.take(4)) == byte_sum(s.take(3)) + nonce[3]);
    assert(byte_sum(s.take(5)) == byte_sum(s.take(4)) + nonce[4]);
    assert(byte_sum(s.take(6)) == byte_sum(s.take(5)) + nonce[5]);
    assert(byte_sum(s.take(7)) == byte_sum(s.take(6)) + nonce[6]);
    assert(byte_sum(s.take(8)) == byte_sum(s.take(7)) + nonce[7]);
}

/// Both times and all sixteen random bytes count towards the condition: the
/// higher token wins where their sum is even, and the lower where it is odd.
pub proof fn law_condition_by_parity(a: RegistrationToken, b: RegistrationToken)
    ensures
        ({
            let x = a.nonce;
            let y = b.nonce;
            let sum = a.issued_at_millis + b.issued_at_millis + (x[0] + x[1] + x[2] + x[3] + x[4]
                + x[5] + x[6] + x[7]) + (y[0] + y[1] + y[2] + y[3] + y[4] + y[5] + y[6] + y[7]);
            &&& sum % 2 == 0 ==> derived_condition(a, b) == WinCondition::HigherWins
            &&& sum % 2 == 1 ==> derived_condition(a, b) == WinCondition::LowerWins
        }),
{
    lemma_nonce_sum(a.nonce);
    lemma_nonce_sum(b.nonce);
}

/// Of two claims the later one stays where the sum of both times and all
/// random bytes is even, and the earlier one where it is odd, whichever was
/// known first.
pub proof fn law_later_claim_stays_on_even(a: RegistrationToken, b: RegistrationToken)
    requires
        a.issued_at_millis < b.issued_at_millis,
    ensures
        ({
            let x = a.nonce;
            let y = b.nonce;
            let sum = a.issued_at_millis + b.issued_at_millis + (x[0] + x[1] + x[2] + x[3] + x[4]
                + x[5] + x[6] + x[7]) + (y[0] + y[1] + y[2] + y[3] + y[4] + y[5] + y[6] + y[7]);
            &&& sum % 2 == 0 ==> arbitrated(a, b) == b && arbitrated(b, a) == b
            &&& sum % 2 == 1 ==> arbitrated(a, b) == a && arbitrated(b, a) == a
        }),
{
    law_condition_by_parity(a, b);
    law_condition_by_parity(b, a);
    law_higher_or_lower_wins(a, b, 0);
    law_replicas_converge(a, b);
}

/// Of two claims of the same time the one with the greater first random byte
/// that differs stays where the random bytes of both sum up to an even number,
/// and the other one where they do not.
pub proof fn law_greater_claim_stays_on_even(a: RegistrationToken, b: RegistrationToken, k: int)
    requires
        a.issued_at_millis == b.issued_at_millis,
        0 <= k < 8,
        forall|j: int| 0 <= j < k ==> #[trigger] a.nonce[j] == b.nonce[j],
        a.nonce[k] < b.nonce[k],
    ensures
        ({
            let x = a.nonce;
            let y = b.nonce;
            let sum = (x[0] + x[1] + x[2] + x[3] + x[4] + x[5] + x[6] + x[7]) + (y[0] + y[1] + y[2]
                + y[3] + y[4] + y[5] + y[6] + y[7]);
            &&& sum % 2 == 0 ==> arbitrated(a, b) == b && arbitrated(b, a) == b
            &&& sum % 2 == 1 ==> arbitrated(a, b) == a && arbitrated(b, a) == a
        }),
{
    law_condition_by_parity(a, b);
    law_higher_or_lower_wins(a, b, k);
    law_replicas_converge(a, b);
}

/// A condition counts as tossed only where the coin fell for it: heads for the
/// higher token, tails for the lower.
pub(crate) proof fn law_tossed_by_coin(condition: WinCondition)
    requires
        condition.tossed(),
    ensures
        call_ensures(toss, (), condition == WinCondition::HigherWins),
{
}

} // verus!

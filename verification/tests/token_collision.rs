use binda::collision::{
    mutually_derived_condition, negotiate_locally, resolve, Negotiation, RoundProposal,
    WinCondition,
};
use binda::token::{key_less, same_token, RegistrationToken};

fn token(issued_at_millis: u64, nonce: u8) -> RegistrationToken {
    RegistrationToken {
        issued_at_millis,
        nonce: [nonce; 8],
    }
}

#[test]
fn tokens_are_distinct() {
    let a = RegistrationToken::issue(1000);
    let b = RegistrationToken::issue(1000);
    assert_ne!(a.nonce, b.nonce);
}

#[test]
fn raw_ordering_key_encodes_timestamp_then_nonce_big_endian() {
    let token = RegistrationToken {
        issued_at_millis: 0x0102030405060708,
        nonce: [0xAA; 8],
    };
    let key = token.raw_ordering_key();
    assert_eq!(&key[..8], &[1, 2, 3, 4, 5, 6, 7, 8]);
    assert_eq!(&key[8..], &[0xAA; 8]);
}

#[test]
fn later_timestamp_sorts_higher_in_ordering_key() {
    let earlier = RegistrationToken {
        issued_at_millis: 1,
        nonce: [0xFF; 8],
    };
    let later = RegistrationToken {
        issued_at_millis: 2,
        nonce: [0; 8],
    };
    assert!(later.raw_ordering_key() > earlier.raw_ordering_key());
}

#[test]
fn key_order_is_the_order_of_arrays() {
    let keys = [
        token(1, 0).raw_ordering_key(),
        token(1, 1).raw_ordering_key(),
        token(256, 0).raw_ordering_key(),
        token(u64::MAX, 255).raw_ordering_key(),
    ];
    for a in &keys {
        for b in &keys {
            assert_eq!(key_less(a, b), a < b);
        }
    }
}

#[test]
fn same_token_compares_both_parts() {
    assert!(same_token(&token(1, 2), &token(1, 2)));
    assert!(!same_token(&token(1, 2), &token(2, 2)));
    assert!(!same_token(&token(1, 2), &token(1, 3)));
}

#[test]
fn negotiation_terminates_and_is_deterministic_given_agreement() {
    let a = RegistrationToken::issue(1);
    let b = RegistrationToken::issue(2);
    let winner = negotiate_locally(a, b);
    assert!(winner == a || winner == b);
}

#[test]
fn mutually_derived_outcome_is_symmetric_and_convergent() {
    let a = RegistrationToken {
        issued_at_millis: 1,
        nonce: [1; 8],
    };
    let b = RegistrationToken {
        issued_at_millis: 2,
        nonce: [2; 8],
    };
    assert_eq!(
        mutually_derived_condition(a, b),
        mutually_derived_condition(b, a)
    );
    assert_eq!(negotiate_locally(a, b), negotiate_locally(b, a));
}

#[test]
fn condition_follows_the_parity_of_both_tokens() {
    assert_eq!(mutually_derived_condition(token(1, 1), token(2, 2)), WinCondition::LowerWins);
    assert_eq!(mutually_derived_condition(token(1, 1), token(3, 2)), WinCondition::HigherWins);
    let mut odd = token(2, 0);
    odd.nonce[5] = 7;
    assert_eq!(mutually_derived_condition(odd, token(2, 4)), WinCondition::LowerWins);
    assert_eq!(negotiate_locally(odd, token(2, 4)), odd);
    assert_eq!(negotiate_locally(token(4, 0), token(2, 0)), token(4, 0));
}

#[test]
fn winner_meets_the_loser_again() {
    let a = token(5, 3);
    let b = token(9, 8);
    let winner = negotiate_locally(a, b);
    assert_eq!(negotiate_locally(winner, a), winner);
    assert_eq!(negotiate_locally(winner, b), winner);
}

#[test]
fn resolve_higher_wins_picks_greater_key() {
    let a = RegistrationToken {
        issued_at_millis: 1,
        nonce: [0; 8],
    };
    let b = RegistrationToken {
        issued_at_millis: 2,
        nonce: [0; 8],
    };
    assert_eq!(resolve(WinCondition::HigherWins, a, b), b);
    assert_eq!(resolve(WinCondition::LowerWins, a, b), a);
}

#[test]
fn resolve_is_reflexive_for_equal_tokens() {
    let a = RegistrationToken {
        issued_at_millis: 5,
        nonce: [1; 8],
    };
    assert_eq!(resolve(WinCondition::HigherWins, a, a), a);
    assert_eq!(resolve(WinCondition::LowerWins, a, a), a);
}

#[test]
fn resolve_lower_wins_picks_lesser_key_regardless_of_argument_order() {
    let a = RegistrationToken {
        issued_at_millis: 2,
        nonce: [0; 8],
    };
    let b = RegistrationToken {
        issued_at_millis: 1,
        nonce: [0; 8],
    };
    assert_eq!(resolve(WinCondition::LowerWins, a, b), b);
}

#[test]
fn negotiation_proposals_increment_round() {
    let mut negotiation = Negotiation::new();
    let first = negotiation.propose();
    let second = negotiation.propose();
    assert_eq!(first.round, 1);
    assert_eq!(second.round, 2);
}

#[test]
fn proposal_carries_the_condition() {
    let mut negotiation = Negotiation::default();
    let proposal = negotiation.propose_with(WinCondition::from_toss(false));
    assert_eq!(
        proposal,
        RoundProposal {
            round: 1,
            condition: WinCondition::LowerWins
        }
    );
    assert_eq!(WinCondition::from_toss(true), WinCondition::HigherWins);
}

#[test]
fn check_agreement_requires_same_round_and_condition() {
    let same_round_same_condition = RoundProposal {
        round: 1,
        condition: WinCondition::HigherWins,
    };
    assert_eq!(
        Negotiation::check_agreement(same_round_same_condition, same_round_same_condition),
        Some(WinCondition::HigherWins)
    );

    let different_condition = RoundProposal {
        round: 1,
        condition: WinCondition::LowerWins,
    };
    assert_eq!(
        Negotiation::check_agreement(same_round_same_condition, different_condition),
        None
    );

    let different_round = RoundProposal {
        round: 2,
        condition: WinCondition::HigherWins,
    };
    assert_eq!(
        Negotiation::check_agreement(same_round_same_condition, different_round),
        None
    );
}

#[test]
fn win_condition_random_produces_both_variants_eventually() {
    let mut saw_higher = false;
    let mut saw_lower = false;
    for _ in 0..200 {
        match WinCondition::random() {
            WinCondition::HigherWins => saw_higher = true,
            WinCondition::LowerWins => saw_lower = true,
        }
        if saw_higher && saw_lower {
            break;
        }
    }
    assert!(saw_higher && saw_lower);
}

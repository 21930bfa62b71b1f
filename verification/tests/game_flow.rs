use risk_engine::actions::Action;
use risk_engine::board::Board;
use risk_engine::continent::Continent;
use risk_engine::player::Player;
use risk_engine::territory::Territory;
use risk_engine::card::{Card, CardKind};
use risk_engine::game::Game;
use risk_engine::game_config::{
    CardConfig, ContinentConfig, GameConfig, PlayerConfig, PlayerTerritoryConfig, TerritoryConfig,
};
use risk_engine::turn_phase::TurnPhase;

fn territory(name: &str, continent: &str, adjacent: &[&str]) -> TerritoryConfig {
    TerritoryConfig {
        name: name.to_string(),
        continent: continent.to_string(),
        adjacent_territories: adjacent.iter().map(|s| s.to_string()).collect(),
    }
}

fn holding(name: &str, armies: u16) -> PlayerTerritoryConfig {
    PlayerTerritoryConfig { name: name.to_string(), armies }
}

fn player(id: usize, name: &str, holdings: Vec<PlayerTerritoryConfig>) -> PlayerConfig {
    PlayerConfig { id, name: name.to_string(), territories: holdings, cards: Vec::new() }
}

/// A four-territory chain alpha - bravo - charlie - delta over two
/// continents, split between three players.
fn chain_config() -> GameConfig {
    GameConfig {
        players: vec![
            player(0, "Ada", vec![holding("alpha", 5), holding("delta", 3)]),
            player(1, "Blaise", vec![holding("bravo", 6)]),
            player(2, "Kurt", vec![holding("charlie", 1)]),
        ],
        territories: vec![
            territory("alpha", "north", &["bravo"]),
            territory("bravo", "north", &["alpha", "charlie"]),
            territory("charlie", "south", &["bravo", "delta"]),
            territory("delta", "south", &["charlie"]),
        ],
        continents: vec![
            ContinentConfig {
                name: "north".to_string(),
                bonus_armies: 3,
                territories: vec!["alpha".to_string(), "bravo".to_string()],
            },
            ContinentConfig {
                name: "south".to_string(),
                bonus_armies: 2,
                territories: vec!["charlie".to_string(), "delta".to_string()],
            },
        ],
    }
}

#[test]
fn configured_game_opens_correctly() {
    let game = Game::new(&chain_config()).unwrap();
    assert_eq!(game.players.len(), 3);
    assert_eq!(game.current_turn, 0);
    assert_eq!(game.round, 0);
    assert_eq!(game.turn_phase, TurnPhase::Reinforce);
    assert_eq!(game.active_players, vec![0, 1, 2]);
    assert_eq!(game.deck.len(), 6);
    // territory count over three (at least 3): Ada owns two territories
    assert_eq!(game.reinforcement_armies, 3);
    assert_eq!(game.calculate_reinforcements(1), 3);
    assert_eq!(game.players[0].get_armies("alpha"), 5);
    assert_eq!(game.players[0].get_armies("delta"), 3);
}

#[test]
fn duplicate_assignment_is_rejected() {
    let mut config = chain_config();
    config.players[1].territories.push(holding("alpha", 1));
    assert!(Game::new(&config).is_err());
}

#[test]
fn unassigned_continent_member_is_rejected() {
    let mut config = chain_config();
    config.continents[0].territories.push("echo".to_string());
    assert!(Game::new(&config).is_err());
}

#[test]
fn fresh_deck_covers_every_territory_once() {
    let game = Game::new(&chain_config()).unwrap();
    let mut jokers = 0;
    let mut names: Vec<String> = Vec::new();
    for card in &game.deck {
        match &card.territory {
            Some(t) => {
                assert!(card.kind != CardKind::Joker);
                names.push(t.clone());
            }
            None => {
                assert_eq!(card.kind, CardKind::Joker);
                jokers += 1;
            }
        }
    }
    assert_eq!(jokers, 2);
    names.sort();
    assert_eq!(names, vec!["alpha", "bravo", "charlie", "delta"]);
}

#[test]
fn five_reinforcements_exhaust_the_pool_and_advance() {
    let mut game = Game::new(&chain_config()).unwrap();
    game.reinforcement_armies = 5;
    for _ in 0..4 {
        assert_eq!(game.reinforce(0, "alpha", 1), Ok(()));
        assert_eq!(game.turn_phase, TurnPhase::Reinforce);
    }
    assert_eq!(game.reinforce(0, "delta", 1), Ok(()));
    assert_eq!(game.reinforcement_armies, 0);
    assert_eq!(game.turn_phase, TurnPhase::Attack);
    assert_eq!(game.players[0].get_armies("alpha"), 9);
    assert_eq!(game.players[0].get_armies("delta"), 4);
}

#[test]
fn a_full_hand_blocks_leaving_reinforce() {
    let mut game = Game::new(&chain_config()).unwrap();
    for _ in 0..5 {
        game.players[0].cards.push(Card::new(None, CardKind::Joker));
    }
    game.reinforcement_armies = 1;
    assert_eq!(game.reinforce(0, "alpha", 1), Ok(()));
    // the pool is spent, but five cards force a trade before attacking
    assert_eq!(game.turn_phase, TurnPhase::Reinforce);
}

#[test]
fn reinforce_rejects_wrong_phase_player_territory_and_amount() {
    let mut game = Game::new(&chain_config()).unwrap();
    assert!(game.reinforce(9, "alpha", 1).is_err());
    assert!(game.reinforce(0, "bravo", 1).is_err());
    assert!(game.reinforce(0, "alpha", 999).is_err());
    game.turn_phase = TurnPhase::Fortify;
    assert!(game.reinforce(0, "alpha", 1).is_err());
}

#[test]
fn attack_rejections_leave_the_game_unchanged() {
    let mut game = Game::new(&chain_config()).unwrap();
    assert!(game.attack(0, "alpha", "bravo", 3, false).is_err()); // wrong phase
    game.turn_phase = TurnPhase::Attack;
    assert!(game.attack(0, "alpha", "echo", 3, false).is_err()); // nobody owns echo
    assert!(game.attack(9, "alpha", "bravo", 3, false).is_err()); // bad attacker
    assert!(game.attack(0, "bravo", "alpha", 3, false).is_err()); // not the attacker's
    assert!(game.attack(0, "alpha", "charlie", 3, false).is_err()); // not adjacent
    assert!(game.attack(0, "alpha", "delta", 3, false).is_err()); // own territory
    assert!(game.attack(0, "alpha", "bravo", 0, false).is_err()); // no dice
    assert_eq!(game.players[0].get_armies("alpha"), 5);
    assert_eq!(game.players[1].get_armies("bravo"), 6);
}

#[test]
fn attack_round_costs_armies() {
    let mut game = Game::new(&chain_config()).unwrap();
    game.turn_phase = TurnPhase::Attack;
    let before = game.players[0].get_armies("alpha") + game.players[1].get_armies("bravo");
    assert_eq!(game.attack(0, "alpha", "bravo", 3, false), Ok(()));
    let after = game.players[0].get_armies("alpha") + game.players[1].get_armies("bravo");
    if game.turn_phase == TurnPhase::Attack {
        // no conquest: both sides still hold their ground, losses were dealt
        assert!(after < before);
        assert!(game.players[0].get_armies("alpha") >= 1);
        assert!(game.players[1].get_armies("bravo") >= 1);
    } else {
        assert_eq!(game.turn_phase, TurnPhase::MoveArmies);
    }
}

#[test]
fn conquering_the_last_territory_defeats_the_player() {
    let mut config = chain_config();
    // the lone defender of charlie stands with no armies
    config.players[2].territories[0].armies = 0;
    config.players[2].cards.push(CardConfig {
        territory: Some("charlie".to_string()),
        kind: CardKind::Artillery,
    });
    let mut game = Game::new(&config).unwrap();
    game.current_turn = 1;
    game.turn_phase = TurnPhase::Attack;
    assert_eq!(game.attack(1, "bravo", "charlie", 3, false), Ok(()));
    // the territory changed hands the moment it reached zero armies
    assert!(!game.players[2].territories.contains(&"charlie".to_string()));
    assert!(game.players[1].territories.contains(&"charlie".to_string()));
    assert_eq!(game.players[2].get_armies("charlie"), 0);
    // the defender lost its last territory: defeated, out of rotation,
    // cards handed over
    assert_eq!(game.defeated_players, vec![2]);
    assert_eq!(game.active_players, vec![0, 1]);
    assert_eq!(game.players[2].cards.len(), 0);
    assert_eq!(game.players[1].cards.len(), 1);
    assert!(game.conquered_territory);
    assert_eq!(game.turn_phase, TurnPhase::MoveArmies);
    assert_eq!(game.last_attack_from, Some("bravo".to_string()));
    assert_eq!(game.last_attack_to, Some("charlie".to_string()));
    // the follow-up move brings in at least as many armies as the dice used
    assert_eq!(game.last_attack_dice, Some(3));
    assert!(game.move_armies_after_attack(1, "bravo", "charlie", 2).is_err());
    assert_eq!(game.move_armies_after_attack(1, "bravo", "charlie", 3), Ok(()));
    assert_eq!(game.players[1].get_armies("charlie"), 3);
    assert_eq!(game.players[1].get_armies("bravo"), 3);
    assert_eq!(game.turn_phase, TurnPhase::Attack);
    assert_eq!(game.last_attack_from, None);
}

#[test]
fn conquering_everything_ends_the_game() {
    let config = GameConfig {
        players: vec![
            player(0, "Ada", vec![holding("alpha", 8)]),
            player(1, "Blaise", vec![holding("bravo", 0)]),
        ],
        territories: vec![
            territory("alpha", "north", &["bravo"]),
            territory("bravo", "north", &["alpha"]),
        ],
        continents: vec![ContinentConfig {
            name: "north".to_string(),
            bonus_armies: 3,
            territories: vec!["alpha".to_string(), "bravo".to_string()],
        }],
    };
    let mut game = Game::new(&config).unwrap();
    game.turn_phase = TurnPhase::Attack;
    assert_eq!(game.attack(0, "alpha", "bravo", 3, false), Ok(()));
    assert_eq!(game.turn_phase, TurnPhase::GameOver);
    assert!(game.check_win_conditions());
    assert!(game.get_possible_actions().is_empty());
}

#[test]
fn fortify_needs_an_owned_path() {
    let mut game = Game::new(&chain_config()).unwrap();
    // not the fortification phase yet
    assert!(game.fortify(0, "alpha", "delta", 1).is_err());
    game.turn_phase = TurnPhase::Fortify;
    assert!(game.fortify(9, "alpha", "delta", 1).is_err());
    // an undefined name is a lookup error, not a silent failure
    assert!(game.fortify(0, "alpha", "echo", 1).is_err());
    assert!(game.fortify(0, "echo", "alpha", 1).is_err());
    // the only route from alpha to delta runs through enemy land
    assert!(game.fortify(0, "alpha", "delta", 2).is_err());
    assert_eq!(game.players[0].get_armies("alpha"), 5);
    assert_eq!(game.players[0].get_armies("delta"), 3);
    assert_eq!(game.turn_phase, TurnPhase::Fortify);
}

#[test]
fn fortify_moves_armies_and_ends_the_turn() {
    let config = GameConfig {
        players: vec![
            player(
                0,
                "Ada",
                vec![holding("alpha", 5), holding("bravo", 1), holding("charlie", 1)],
            ),
            player(1, "Blaise", vec![holding("delta", 2)]),
        ],
        territories: vec![
            territory("alpha", "north", &["bravo"]),
            territory("bravo", "north", &["alpha", "charlie"]),
            territory("charlie", "south", &["bravo", "delta"]),
            territory("delta", "south", &["charlie"]),
        ],
        continents: vec![
            ContinentConfig {
                name: "north".to_string(),
                bonus_armies: 3,
                territories: vec!["alpha".to_string(), "bravo".to_string()],
            },
            ContinentConfig {
                name: "south".to_string(),
                bonus_armies: 2,
                territories: vec!["charlie".to_string(), "delta".to_string()],
            },
        ],
    };
    let mut game = Game::new(&config).unwrap();
    game.turn_phase = TurnPhase::Fortify;
    assert!(game.are_territories_connected(0, "alpha", "charlie"));
    assert_eq!(game.fortify(0, "alpha", "charlie", 3), Ok(()));
    assert_eq!(game.players[0].get_armies("alpha"), 2);
    assert_eq!(game.players[0].get_armies("charlie"), 4);
    // the turn ended: play moved to the next player in Reinforce
    assert_eq!(game.current_turn, 1);
    assert_eq!(game.turn_phase, TurnPhase::Reinforce);
    // moving everything out is never allowed
    let mut again = Game::new(&config).unwrap();
    again.turn_phase = TurnPhase::Fortify;
    assert!(again.fortify(0, "alpha", "bravo", 5).is_err());
}

#[test]
fn move_after_attack_rejects_bad_requests() {
    let mut game = Game::new(&chain_config()).unwrap();
    // no conquest is pending, so the wrong phase is rejected outright
    assert!(game.move_armies_after_attack(0, "alpha", "delta", 1).is_err());
    game.turn_phase = TurnPhase::MoveArmies;
    assert!(game.move_armies_after_attack(0, "alpha", "delta", 1).is_err()); // nothing recorded
    game.last_attack_from = Some("alpha".to_string());
    game.last_attack_to = Some("delta".to_string());
    game.last_attack_dice = Some(2);
    assert!(game.move_armies_after_attack(9, "alpha", "delta", 2).is_err()); // bad player
    assert!(game.move_armies_after_attack(0, "alpha", "bravo", 2).is_err()); // enemy target
    assert!(game.move_armies_after_attack(0, "alpha", "delta", 1).is_err()); // below the dice used
    assert!(game.move_armies_after_attack(0, "alpha", "delta", 5).is_err()); // nothing may stay
    assert_eq!(game.players[0].get_armies("alpha"), 5);
}

#[test]
fn random_setup_rejects_an_empty_table() {
    assert!(Game::new_random(&chain_config(), 0).is_err());
}

#[test]
fn a_full_pass_increments_the_round_once() {
    let mut game = Game::new(&chain_config()).unwrap();
    let rotation = game.active_players.clone();
    assert_eq!(game.round, 0);
    game.end_turn();
    assert_eq!(game.current_turn, 1);
    assert_eq!(game.round, 0);
    game.end_turn();
    assert_eq!(game.current_turn, 2);
    assert_eq!(game.round, 0);
    game.end_turn();
    assert_eq!(game.current_turn, 0);
    assert_eq!(game.round, 1);
    assert_eq!(game.active_players, rotation);
}

#[test]
fn a_full_hand_also_blocks_advance_phase() {
    let mut game = Game::new(&chain_config()).unwrap();
    for _ in 0..5 {
        game.players[0].cards.push(Card::new(None, CardKind::Joker));
    }
    game.reinforcement_armies = 0;
    game.advance_phase();
    // five cards force a trade before the attack phase opens
    assert_eq!(game.turn_phase, TurnPhase::Reinforce);
}

#[test]
fn advance_phase_follows_the_state_machine() {
    let mut game = Game::new(&chain_config()).unwrap();
    game.advance_phase();
    // armies remain, so Reinforce holds
    assert_eq!(game.turn_phase, TurnPhase::Reinforce);
    game.reinforcement_armies = 0;
    game.advance_phase();
    assert_eq!(game.turn_phase, TurnPhase::Attack);
    game.advance_phase();
    assert_eq!(game.turn_phase, TurnPhase::Fortify);
    game.advance_phase();
    // the turn ended and the next player starts reinforcing
    assert_eq!(game.turn_phase, TurnPhase::Reinforce);
    assert_eq!(game.current_turn, 1);
}

#[test]
fn trading_cards_grants_the_bonus_and_the_bound_territory() {
    let mut config = chain_config();
    config.players[0].cards = vec![
        CardConfig { territory: Some("alpha".to_string()), kind: CardKind::Infantry },
        CardConfig { territory: Some("bravo".to_string()), kind: CardKind::Infantry },
        CardConfig { territory: None, kind: CardKind::Infantry },
        CardConfig { territory: None, kind: CardKind::Joker },
    ];
    let mut game = Game::new(&config).unwrap();
    let pool = game.reinforcement_armies;
    assert_eq!(game.trade_cards(0, vec![0, 1, 2]), Ok(4));
    assert_eq!(game.reinforcement_armies, pool + 4);
    // the first removed card bound to an owned territory (highest index
    // first) grants it two armies: indices 2 and 1 are unbound or enemy
    // land, index 0 is alpha
    assert_eq!(game.players[0].get_armies("alpha"), 7);
    assert_eq!(game.players[0].cards.len(), 1);
    assert_eq!(game.discard_pile.len(), 3);
}

#[test]
fn trade_rejects_bad_selections() {
    let mut config = chain_config();
    config.players[0].cards = vec![
        CardConfig { territory: None, kind: CardKind::Infantry },
        CardConfig { territory: None, kind: CardKind::Infantry },
        CardConfig { territory: None, kind: CardKind::Cavalry },
    ];
    let mut game = Game::new(&config).unwrap();
    game.turn_phase = TurnPhase::Attack;
    assert!(game.trade_cards(0, vec![0, 1, 2]).is_err()); // wrong phase
    game.turn_phase = TurnPhase::Reinforce;
    assert!(game.trade_cards(9, vec![0, 1, 2]).is_err()); // bad player
    assert!(game.trade_cards(0, vec![0, 1]).is_err()); // two cards only
    assert!(game.trade_cards(0, vec![0, 1, 7]).is_err()); // out of range
    assert!(game.trade_cards(0, vec![2, 1, 0]).is_err()); // not increasing
    assert!(game.trade_cards(0, vec![0, 1, 2]).is_err()); // invalid set
    assert_eq!(game.players[0].cards.len(), 3);
    assert_eq!(game.discard_pile.len(), 0);
}

#[test]
fn possible_actions_match_the_phase() {
    let mut game = Game::new(&chain_config()).unwrap();
    let actions = game.get_possible_actions();
    // two owned territories to reinforce, no trades, no end-phase while
    // armies remain
    assert_eq!(actions.len(), 2);
    for a in &actions {
        match a {
            Action::Reinforce { territory, max_armies } => {
                assert!(territory == "alpha" || territory == "delta");
                assert_eq!(*max_armies, game.reinforcement_armies);
            }
            _ => panic!("unexpected action in Reinforce"),
        }
    }
    game.turn_phase = TurnPhase::Attack;
    let attacks = game.get_possible_actions();
    // alpha -> bravo and delta -> charlie, plus the end of the phase
    assert_eq!(attacks.len(), 3);
    assert!(attacks.contains(&Action::EndPhase));
    assert!(attacks.contains(&Action::Attack {
        from: "alpha".to_string(),
        to: "bravo".to_string(),
        max_dice: 3,
    }));
    assert!(attacks.contains(&Action::Attack {
        from: "delta".to_string(),
        to: "charlie".to_string(),
        max_dice: 2,
    }));
    game.turn_phase = TurnPhase::Fortify;
    let forts = game.get_possible_actions();
    // no owned pair is connected, only the end of the phase remains
    assert_eq!(forts, vec![Action::EndPhase]);
}

#[test]
fn trade_offers_enumerate_valid_triples() {
    let mut config = chain_config();
    config.players[0].cards = vec![
        CardConfig { territory: None, kind: CardKind::Infantry },
        CardConfig { territory: None, kind: CardKind::Infantry },
        CardConfig { territory: None, kind: CardKind::Infantry },
        CardConfig { territory: None, kind: CardKind::Joker },
    ];
    let mut game = Game::new(&config).unwrap();
    let actions = game.get_possible_actions();
    let trades: Vec<&Action> = actions
        .iter()
        .filter(|a| matches!(a, Action::TradeCards { .. }))
        .collect();
    // every 3-of-4 selection is valid: three infantry, or two plus the Joker
    assert_eq!(trades.len(), 4);
    assert!(actions.contains(&Action::TradeCards { card_indices: vec![0, 1, 2] }));
    assert!(actions.contains(&Action::TradeCards { card_indices: vec![0, 1, 3] }));
    assert!(actions.contains(&Action::TradeCards { card_indices: vec![0, 2, 3] }));
    assert!(actions.contains(&Action::TradeCards { card_indices: vec![1, 2, 3] }));
}

#[test]
fn snapshot_reports_the_whole_table() {
    let mut game = Game::new(&chain_config()).unwrap();
    let state = game.get_game_state();
    assert_eq!(state.current_player, "Ada");
    assert_eq!(state.current_turn, 0);
    assert_eq!(state.round, 0);
    assert_eq!(state.turn_phase, TurnPhase::Reinforce);
    assert_eq!(state.players.len(), 3);
    assert_eq!(state.players[0].army_supply, 3);
    assert_eq!(state.players[0].total_armies, 8);
    assert_eq!(state.board.territories.len(), 4);
    // attackable pairs: alpha->bravo (5 vs 6), delta->charlie (3 vs 1),
    // bravo->alpha and bravo->charlie (6 vs ...)
    assert_eq!(state.conquer_probs.len(), 4);
    for (from, to, bp) in &state.conquer_probs {
        assert!(*bp <= 10000);
        assert!(from != to);
    }
    assert!(state
        .conquer_probs
        .iter()
        .any(|e| e.0 == "delta" && e.1 == "charlie"));
}

#[test]
fn randomized_setup_partitions_the_board() {
    let config = chain_config();
    let game = Game::new_random(&config, 2).unwrap();
    assert_eq!(game.players.len(), 2);
    for name in ["alpha", "bravo", "charlie", "delta"] {
        let owners: Vec<usize> = (0..2)
            .filter(|&i| game.players[i].territories.contains(&name.to_string()))
            .collect();
        assert_eq!(owners.len(), 1);
        assert!(game.players[owners[0]].get_armies(name) >= 1);
    }
    // each player was topped up to the starting total of 20
    for p in &game.players {
        let total: u32 = p.armies.iter().map(|e| e.1 as u32).sum();
        assert_eq!(total, 20);
    }
    // no player starts holding a whole two-territory continent
    for pair in [["alpha", "bravo"], ["charlie", "delta"]] {
        for p in &game.players {
            assert!(
                !(p.territories.contains(&pair[0].to_string())
                    && p.territories.contains(&pair[1].to_string()))
            );
        }
    }
}

#[test]
fn ledger_operations_behave_like_a_map() {
    let mut p = Player::new(7, "Emmy");
    assert_eq!(p.get_armies("x"), 0);
    p.add_territory("x");
    assert_eq!(p.get_armies("x"), 0);
    p.reinforce("x", 4);
    assert_eq!(p.get_armies("x"), 4);
    p.remove_armies("x", 9);
    assert_eq!(p.get_armies("x"), 0);
    p.set_armies("x", 3);
    p.add_territory("y");
    p.fortify("x", "y", 5);
    // nothing moves when the source holds too few armies
    assert_eq!(p.get_armies("x"), 3);
    assert_eq!(p.get_armies("y"), 0);
    p.fortify("x", "y", 2);
    assert_eq!(p.get_armies("x"), 1);
    assert_eq!(p.get_armies("y"), 2);
    p.remove_territory("x");
    assert!(!p.territories.contains(&"x".to_string()));
    assert_eq!(p.get_armies("x"), 0);
    p.calculate_total_armies();
    assert_eq!(p.total_armies, 2);
}

#[test]
fn board_lookup_finds_territories_and_continents() {
    let mut board = Board::new();
    let mut t = Territory::new("alpha", "north");
    t.add_adjacent("bravo");
    t.add_adjacent("bravo");
    assert!(t.is_adjacent("bravo"));
    assert!(!t.is_adjacent("charlie"));
    assert_eq!(t.get_continent(), "north");
    assert_eq!(t.adjacent_territories.len(), 1);
    board.add_territory(t);
    let mut c = Continent::new("north", 3);
    c.add_territory("alpha");
    assert_eq!(c.get_bonus(), 3);
    board.add_continent(c);
    assert!(board.get_territory("alpha").is_some());
    assert!(board.get_territory("zulu").is_none());
    assert!(board.get_continent("north").is_some());
    assert!(board.get_continent("south").is_none());
    // adding under the same name replaces
    let replacement = Territory::new("alpha", "south");
    board.add_territory(replacement);
    assert_eq!(board.territories.len(), 1);
    assert_eq!(board.get_territory("alpha").unwrap().continent, "south");
}

#[test]
fn continent_bonus_is_granted_for_full_control() {
    let config = GameConfig {
        players: vec![
            player(0, "Ada", vec![holding("alpha", 1), holding("bravo", 1)]),
            player(1, "Blaise", vec![holding("charlie", 1), holding("delta", 1)]),
        ],
        territories: vec![
            territory("alpha", "north", &["bravo"]),
            territory("bravo", "north", &["alpha", "charlie"]),
            territory("charlie", "south", &["bravo", "delta"]),
            territory("delta", "south", &["charlie"]),
        ],
        continents: vec![
            ContinentConfig {
                name: "north".to_string(),
                bonus_armies: 3,
                territories: vec!["alpha".to_string(), "bravo".to_string()],
            },
            ContinentConfig {
                name: "south".to_string(),
                bonus_armies: 2,
                territories: vec!["charlie".to_string(), "delta".to_string()],
            },
        ],
    };
    let game = Game::new(&config).unwrap();
    // base 3 plus the fully-held north
    assert_eq!(game.calculate_reinforcements(0), 6);
    // base 3 plus the fully-held south
    assert_eq!(game.calculate_reinforcements(1), 5);
}

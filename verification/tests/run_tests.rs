use lib::content::{
    ActDef, CardDef, CardRarity, CardType, CharacterDef, Content, EncounterDef, NamedDef, PotionDef,
    PotionRarity, RelicDef, DEFEND_TAG, ETERNAL, STRIKE_TAG,
};
use lib::state::{Card, CardReward, CrystalSphere, Error, Expectation, Game, Phase, Requirement, Rewards, Room};

fn card(id: &str, card_type: CardType, rarity: CardRarity, flags: u16, tags: u16) -> CardDef {
    CardDef { id: id.to_string(), card_type, rarity, flags: [flags, flags], tags, enchantable: 0 }
}

fn relic(id: &str, rarity: u8) -> RelicDef {
    RelicDef { id: id.to_string(), rarity, shop_allowed: true, grouped: true }
}

fn fight(id: &str, tags: u32) -> EncounterDef {
    EncounterDef { id: id.to_string(), tags }
}

fn act(id: &str) -> ActDef {
    ActDef {
        id: id.to_string(),
        events: vec![0, 1],
        encounters: vec![0, 1, 2, 3],
        elites: vec![4],
        bosses: vec![5],
        relics: vec![2, 3, 4],
        potions: vec![0, 1],
        cards: vec![3, 4],
    }
}

pub fn sample_content() -> Content {
    Content {
        cards: vec![
            card("CARD.STRIKE", CardType::Attack, CardRarity::Basic, 0, STRIKE_TAG),
            card("CARD.DEFEND", CardType::Skill, CardRarity::Basic, 0, DEFEND_TAG),
            card("CARD.BASH", CardType::Attack, CardRarity::Basic, 0, 0),
            card("CARD.ANGER", CardType::Attack, CardRarity::Common, 0, 0),
            card("CARD.ARMAMENTS", CardType::Skill, CardRarity::Common, 0, 0),
            card("CARD.INFLAME", CardType::Power, CardRarity::Uncommon, 0, 0),
            card("CARD.BLUDGEON", CardType::Attack, CardRarity::Rare, 0, 0),
            card("CARD.ASCENDERS_BANE", CardType::Curse, CardRarity::Special, ETERNAL, 0),
            card("CARD.WOUND", CardType::Status, CardRarity::Special, 0, 0),
            card("CARD.SWIFT_STRIKE", CardType::Attack, CardRarity::Common, 0, 0),
            card("CARD.DEMON_FORM", CardType::Power, CardRarity::Rare, 0, 0),
        ],
        characters: vec![CharacterDef {
            id: "CHARACTER.IRONCLAD".to_string(),
            hp: 80,
            gold: 99,
            energy: 3,
            draw: 5,
            orb_slots: 0,
            deck: vec![(0, 0), (0, 0), (0, 0), (1, 0), (1, 0), (2, 0)],
            relics: vec![0],
            relic_pool: vec![1],
            cards: vec![3, 4, 5, 6, 10],
            potion_pool: vec![2],
        }],
        acts: vec![act("ACT.THE_OVERGROWTH"), act("ACT.THE_HIVE"), act("ACT.THE_GLORY"), act("ACT.PROLOGUE")],
        encounters: vec![
            fight("ENCOUNTER.SLIMES_WEAK", 1),
            fight("ENCOUNTER.CULTIST_WEAK", 2),
            fight("ENCOUNTER.GREMLINS", 4),
            fight("ENCOUNTER.LOUSES", 1),
            fight("ENCOUNTER.LAGAVULIN_ELITE", 8),
            fight("ENCOUNTER.GUARDIAN_BOSS", 16),
        ],
        events: vec![NamedDef { id: "EVENT.A".to_string() }, NamedDef { id: "EVENT.B".to_string() }],
        relics: vec![
            relic("RELIC.BURNING_BLOOD", 0),
            relic("RELIC.CHARON", 2),
            relic("RELIC.ANCHOR", 0),
            relic("RELIC.LANTERN", 1),
            relic("RELIC.BOWLER_HAT", 0),
            relic("RELIC.ECTOPLASM", 2),
            relic("RELIC.DRAGON_FRUIT", 2),
            relic("RELIC.BING_BONG", 1),
            relic("RELIC.MOLTEN_EGG", 1),
            relic("RELIC.LUCKY_FYSH", 0),
            relic("RELIC.DARKSTONE_PERIAPT", 1),
            relic("RELIC.REGAL_PILLOW", 0),
            relic("RELIC.STONE_HUMIDIFIER", 1),
            relic("RELIC.MINIATURE_TENT", 3),
            relic("RELIC.DREAM_CATCHER", 0),
            relic("RELIC.TINY_MAILBOX", 3),
            relic("RELIC.BOOK_OF_FIVE_RINGS", 2),
            relic("RELIC.SILVER_CRUCIBLE", 3),
        ],
        potions: vec![
            PotionDef { id: "POTION.FIRE".to_string(), rarity: PotionRarity::Common, in_combat: true },
            PotionDef { id: "POTION.ENTROPIC".to_string(), rarity: PotionRarity::Rare, in_combat: false },
            PotionDef { id: "POTION.BLOOD".to_string(), rarity: PotionRarity::Uncommon, in_combat: true },
        ],
        colorless: vec![9],
    }
}

pub fn relic_named(content: &Content, name: &str) -> u16 {
    content.relics.iter().position(|r| r.id == name).unwrap() as u16
}

pub fn started(seed: u64) -> (Content, Game) {
    let content = sample_content();
    let game = Game::new_character(&content, seed, 0).unwrap();
    (content, game)
}

#[test]
fn new_character_sets_up_the_run() {
    let (content, game) = started(7);
    let run = game.run();
    assert_eq!(run.hp, 80);
    assert_eq!(run.max_hp, 80);
    assert_eq!(run.gold, 99);
    assert_eq!(run.energy, 3);
    assert_eq!(run.draw, 5);
    assert_eq!(run.relics, vec![0]);
    assert_eq!(run.potions, vec![None, None, None]);
    assert_eq!(run.deck.len(), 6);
    let ids: Vec<u16> = run.deck.iter().map(|c| c.id).collect();
    assert_eq!(ids, vec![0, 0, 0, 1, 1, 2]);
    let mut instances: Vec<u32> = run.deck.iter().map(|c| c.instance).collect();
    assert!(instances.iter().all(|&i| i != 0));
    instances.sort();
    instances.dedup();
    assert_eq!(instances.len(), 6);
    assert!(matches!(game.phase(), Phase::OnMap));
    assert!(game.combat().is_none());
    assert!(game.map().nodes.is_empty());
    assert!(content.validate());
}

#[test]
fn new_character_fills_the_relic_bags() {
    let (_, game) = started(7);
    let mut common = game.relic_deques[0].clone();
    common.sort();
    assert_eq!(common, vec![2, 4]);
    assert_eq!(game.relic_deques[1], vec![3]);
    assert_eq!(game.relic_deques[2], vec![1]);
    assert!(game.relic_deques[3].is_empty());
    let mut shared = game.shared_relic_deques[0].clone();
    shared.sort();
    assert_eq!(shared, vec![2, 4]);
    assert!(game.shared_relic_deques[2].is_empty());
}

#[test]
fn new_character_rejects_unknown_character() {
    let content = sample_content();
    assert!(matches!(Game::new_character(&content, 1, 3), Err(Error::InvalidContent)));
}

#[test]
fn new_character_rejects_invalid_content() {
    let mut content = sample_content();
    content.characters[0].deck.push((99, 0));
    assert!(matches!(Game::new_character(&content, 1, 0), Err(Error::InvalidContent)));
    let mut content = sample_content();
    content.acts.clear();
    assert!(matches!(Game::new_character(&content, 1, 0), Err(Error::InvalidContent)));
    let mut content = sample_content();
    content.relics[0].rarity = 4;
    assert!(!content.validate());
}

#[test]
fn ascension_four_loses_a_potion_slot() {
    let content = sample_content();
    let game = Game::new_character_ascension(&content, 3, 0, 4).unwrap();
    assert_eq!(game.run().potions.len(), 2);
    assert_eq!(game.run().deck.len(), 6);
    assert_eq!(game.run().ascension, 4);
}

#[test]
fn ascension_five_adds_the_bane() {
    let content = sample_content();
    let game = Game::new_character_ascension(&content, 3, 0, 5).unwrap();
    let deck = &game.run().deck;
    assert_eq!(deck.len(), 7);
    assert_eq!(deck[6].id, 7);
    assert_eq!(deck[6].upgrades, 0);
    assert!(deck[6].instance != 0);
    let game = Game::new_character_ascension(&content, 3, 0, 20).unwrap();
    assert_eq!(game.run().ascension, 10);
}

#[test]
fn ascension_five_needs_the_bane_card() {
    let mut content = sample_content();
    content.cards[7].id = "CARD.SOMETHING_ELSE".to_string();
    assert!(matches!(
        Game::new_character_ascension(&content, 3, 0, 5),
        Err(Error::InvalidContent)
    ));
    assert!(Game::new_character_ascension(&content, 3, 0, 4).is_ok());
}

#[test]
fn same_seed_same_run() {
    let (_, a) = started(42);
    let (_, b) = started(42);
    assert_eq!(a.relic_deques, b.relic_deques);
    assert_eq!(a.rngs.get_positions(), b.rngs.get_positions());
}

#[test]
fn begin_act_prepares_the_first_act() {
    let (content, mut game) = started(11);
    assert_eq!(game.begin_act(&content, 3), Ok(()));
    assert_eq!(game.run().act, 1);
    assert_eq!(game.run().hp, 80);
    assert_eq!(game.run().floor, 1);
    assert_eq!(game.weak_encounters_left, 3);
    assert_eq!(game.regular_encounters_left, 12);
    assert_eq!(game.elite_encounters_left, 15);
    let mut weak = game.encounters.clone();
    weak.sort();
    assert_eq!(weak, vec![0, 1]);
    assert_eq!(game.elites, vec![4]);
    assert_eq!(game.bosses[0], Some(5));
    assert_eq!(game.bosses[1], None);
    let mut events = game.events.clone();
    events.sort();
    assert_eq!(events, vec![0, 1]);
    assert!(matches!(game.phase(), Phase::OnMap));
    let map = game.map();
    assert!(!map.nodes.is_empty());
    assert_eq!(map.current, None);
    assert_eq!(map.nodes.last().unwrap().room, Room::Boss);
    for node in &map.nodes {
        assert!(node.lane < 7);
        for &next in &node.next {
            assert_eq!(map.nodes[next].floor, node.floor + 1);
        }
    }
}

#[test]
fn begin_act_standard_new_run_starts_from_zero_hp() {
    let (content, mut game) = started(11);
    assert_eq!(game.begin_act(&content, 0), Ok(()));
    assert_eq!(game.run().hp, 0);
    assert_eq!(game.run().floor, 0);
}

#[test]
fn begin_act_numbers_the_acts() {
    let (content, mut game) = started(5);
    game.begin_act(&content, 3).unwrap();
    game.begin_act(&content, 1).unwrap();
    assert_eq!(game.run().act, 2);
    assert_eq!(game.regular_encounters_left, 11);
    game.begin_act(&content, 2).unwrap();
    assert_eq!(game.run().act, 3);
    assert_eq!(game.weak_encounters_left, 2);
    assert_eq!(game.regular_encounters_left, 11);
}

#[test]
fn begin_act_rejects_unknown_act() {
    let (content, mut game) = started(5);
    assert_eq!(game.begin_act(&content, 9), Err(Error::InvalidContent));
    assert_eq!(game.run().act, 0);
}

fn with_relic(game: &mut Game, content: &Content, name: &str) {
    game.run.relics.push(relic_named(content, name));
}

#[test]
fn gain_gold_adds_the_amount() {
    let (content, mut game) = started(1);
    game.gain_gold(&content, 25);
    assert_eq!(game.run().gold, 124);
    game.gain_gold(&content, 0);
    game.gain_gold(&content, -10);
    assert_eq!(game.run().gold, 124);
}

#[test]
fn gain_gold_bowler_hat_adds_a_quarter() {
    let (content, mut game) = started(1);
    with_relic(&mut game, &content, "RELIC.BOWLER_HAT");
    game.gain_gold(&content, 10);
    assert_eq!(game.run().gold, 99 + 12);
    game.gain_gold(&content, 3);
    assert_eq!(game.run().gold, 99 + 12 + 3);
}

#[test]
fn gain_gold_ectoplasm_blocks_gold() {
    let (content, mut game) = started(1);
    with_relic(&mut game, &content, "RELIC.ECTOPLASM");
    game.gain_gold(&content, 50);
    assert_eq!(game.run().gold, 99);
}

#[test]
fn gain_gold_melted_relic_does_nothing() {
    let (content, mut game) = started(1);
    with_relic(&mut game, &content, "RELIC.ECTOPLASM");
    game.melted_relics.push(1);
    game.gain_gold(&content, 50);
    assert_eq!(game.run().gold, 149);
}

#[test]
fn gain_gold_dragon_fruit_grows_max_hp() {
    let (content, mut game) = started(1);
    with_relic(&mut game, &content, "RELIC.DRAGON_FRUIT");
    game.gain_gold(&content, 5);
    assert_eq!(game.run().max_hp, 81);
    assert_eq!(game.run().hp, 81);
    assert_eq!(game.run().gold, 104);
}

#[test]
fn gain_gold_saturates() {
    let (content, mut game) = started(1);
    game.run.gold = i32::MAX - 1;
    game.gain_gold(&content, 10);
    assert_eq!(game.run().gold, i32::MAX);
}

#[test]
fn add_card_numbers_new_cards() {
    let (content, mut game) = started(1);
    let next = game.next_card;
    game.add_card(&content, Card::of(3, 0));
    let deck = &game.run().deck;
    assert_eq!(deck.len(), 7);
    assert_eq!(deck[6], Card { id: 3, upgrades: 0, instance: next, flags: 0 });
    assert_eq!(game.next_card, next + 1);
    let kept = Card { id: 4, upgrades: 1, instance: 3, flags: 0 };
    game.add_card(&content, kept);
    assert_eq!(game.run().deck[7], kept);
    assert_eq!(game.next_card, next + 1);
}

#[test]
fn add_card_bing_bong_adds_a_copy() {
    let (content, mut game) = started(1);
    with_relic(&mut game, &content, "RELIC.BING_BONG");
    with_relic(&mut game, &content, "RELIC.LUCKY_FYSH");
    let next = game.next_card;
    game.add_card(&content, Card::of(4, 0));
    let deck = &game.run().deck;
    assert_eq!(deck.len(), 8);
    assert_eq!(deck[6].instance, next);
    assert_eq!(deck[7].instance, next + 1);
    assert_eq!(deck[7].id, 4);
    assert_eq!(game.run().gold, 99 + 30);
}

#[test]
fn add_card_molten_egg_upgrades_attacks() {
    let (content, mut game) = started(1);
    with_relic(&mut game, &content, "RELIC.MOLTEN_EGG");
    game.add_card(&content, Card::of(3, 0));
    game.add_card(&content, Card::of(4, 0));
    let deck = &game.run().deck;
    assert_eq!(deck[6].upgrades, 1);
    assert_eq!(deck[7].upgrades, 0);
}

#[test]
fn add_card_darkstone_periapt_curse_grows_max_hp() {
    let (content, mut game) = started(1);
    with_relic(&mut game, &content, "RELIC.DARKSTONE_PERIAPT");
    game.add_card(&content, Card::of(7, 0));
    assert_eq!(game.run().max_hp, 86);
    assert_eq!(game.run().hp, 86);
    game.add_card(&content, Card::of(3, 0));
    assert_eq!(game.run().max_hp, 86);
}

#[test]
fn add_card_book_of_five_rings_heals_every_fifth() {
    let (content, mut game) = started(1);
    with_relic(&mut game, &content, "RELIC.BOOK_OF_FIVE_RINGS");
    game.run.hp = 30;
    for _ in 0..4 {
        game.add_card(&content, Card::of(3, 0));
    }
    assert_eq!(game.run().hp, 30);
    assert_eq!(game.book_of_five_rings, 4);
    game.add_card(&content, Card::of(3, 0));
    assert_eq!(game.run().hp, 50);
    assert_eq!(game.book_of_five_rings, 0);
    game.run.hp = 75;
    game.book_of_five_rings = 4;
    game.add_card(&content, Card::of(3, 0));
    assert_eq!(game.run().hp, 80);
}

#[test]
fn add_named_card_finds_the_card() {
    let (content, mut game) = started(1);
    game.add_named_card(&content, "CARD.INFLAME");
    assert_eq!(game.run().deck.len(), 7);
    assert_eq!(game.run().deck[6].id, 5);
    game.add_named_card(&content, "CARD.NOT_THERE");
    assert_eq!(game.run().deck.len(), 7);
}

#[test]
fn upgrade_random_upgrades_count_cards() {
    let (content, mut game) = started(9);
    game.add_card(&content, Card::of(7, 0));
    game.add_card(&content, Card::of(8, 0));
    let before = game.run().deck.clone();
    game.upgrade_random(&content, 2, None);
    let deck = &game.run().deck;
    assert_eq!(deck.len(), before.len());
    let changed: Vec<usize> = (0..deck.len()).filter(|&i| deck[i] != before[i]).collect();
    assert_eq!(changed.len(), 2);
    for i in changed {
        assert_eq!(deck[i].upgrades, 1);
        assert!(deck[i].id <= 2);
    }
}

#[test]
fn upgrade_random_never_upgrades_curses_or_statuses() {
    let (content, mut game) = started(9);
    game.add_card(&content, Card::of(7, 0));
    game.add_card(&content, Card::of(8, 0));
    game.upgrade_random(&content, 100, None);
    let deck = &game.run().deck;
    for c in deck.iter() {
        if c.id == 7 || c.id == 8 {
            assert_eq!(c.upgrades, 0);
        } else {
            assert_eq!(c.upgrades, 1);
        }
    }
}

#[test]
fn upgrade_random_of_one_type() {
    let (content, mut game) = started(9);
    game.upgrade_random(&content, 100, Some(CardType::Skill));
    for c in game.run().deck.iter() {
        assert_eq!(c.upgrades, if c.id == 1 { 1 } else { 0 });
    }
}

use lib::rewards::{potion_reward_rarity, reward_rarity, reward_upgrade};
use lib::rng::{Rng, UNIT};

#[test]
fn reward_rarity_boundaries() {
    // 300 / 10000 of UNIT is 503316.48.
    assert_eq!(reward_rarity(0, 300, 3700), CardRarity::Rare);
    assert_eq!(reward_rarity(503_316, 300, 3700), CardRarity::Rare);
    assert_eq!(reward_rarity(503_317, 300, 3700), CardRarity::Uncommon);
    // 4000 / 10000 of UNIT is 6710886.4.
    assert_eq!(reward_rarity(6_710_886, 300, 3700), CardRarity::Uncommon);
    assert_eq!(reward_rarity(6_710_887, 300, 3700), CardRarity::Common);
    assert_eq!(reward_rarity(UNIT - 1, 10_000, 0), CardRarity::Rare);
    assert_eq!(reward_rarity(0, -200, 3700), CardRarity::Uncommon);
}

#[test]
fn reward_upgrade_grows_with_the_act() {
    assert!(reward_upgrade(0, 1, 0));
    assert!(!reward_upgrade(1, 1, 0));
    assert!(reward_upgrade(UNIT / 4, 2, 0));
    assert!(!reward_upgrade(UNIT / 4 + 1, 2, 0));
    assert!(reward_upgrade(UNIT / 8, 2, 7));
    assert!(!reward_upgrade(UNIT / 8 + 1, 2, 7));
    assert!(reward_upgrade(UNIT / 2, 3, 0));
}

#[test]
fn potion_rarity_boundaries() {
    assert_eq!(potion_reward_rarity(1_677_721), PotionRarity::Rare);
    assert_eq!(potion_reward_rarity(1_677_722), PotionRarity::Uncommon);
    assert_eq!(potion_reward_rarity(5_872_025), PotionRarity::Uncommon);
    assert_eq!(potion_reward_rarity(5_872_026), PotionRarity::Common);
}

fn in_act(seed: u64) -> (Content, Game) {
    let (content, mut game) = started(seed);
    game.begin_act(&content, 3).unwrap();
    (content, game)
}

#[test]
fn card_rewards_are_distinct_and_from_the_pool() {
    for seed in 0..20u64 {
        let (content, mut game) = in_act(seed);
        let pool = vec![3u16, 4, 5, 6, 10];
        let cards = game.card_rewards(&content, &pool, 3, Room::Combat);
        assert_eq!(cards.len(), 3);
        for (i, c) in cards.iter().enumerate() {
            assert!(pool.contains(&c.id));
            assert!(c.upgrades <= 1);
            assert_eq!(c.instance, 0);
            for d in &cards[i + 1..] {
                assert!(d.id != c.id);
            }
        }
        assert!(game.rarity_offset >= -500 && game.rarity_offset <= 4000);
    }
}

#[test]
fn card_rewards_stop_when_the_pool_runs_out() {
    let (content, mut game) = in_act(3);
    let pool = vec![3u16, 4, 5, 0, 7];
    let cards = game.card_rewards(&content, &pool, 10, Room::Elite);
    let mut ids: Vec<u16> = cards.iter().map(|c| c.id).collect();
    ids.sort();
    assert_eq!(ids, vec![3, 4, 5]);
}

#[test]
fn card_rewards_boss_cards_are_rare_first() {
    let (content, mut game) = in_act(4);
    let pool = vec![3u16, 4, 5, 6, 10];
    let cards = game.card_rewards(&content, &pool, 2, Room::Boss);
    let mut ids: Vec<u16> = cards.iter().map(|c| c.id).collect();
    ids.sort();
    assert_eq!(ids, vec![6, 10]);
    assert!(cards.iter().all(|c| c.upgrades == 0));
    assert_eq!(game.rarity_offset, -500);
}

#[test]
fn reward_cards_dingy_rug_adds_colorless() {
    let (content, mut game) = in_act(5);
    let base = vec![3u16];
    let cards = game.reward_cards(&content, &base, 3, Room::Combat);
    assert_eq!(cards.len(), 1);
    assert_eq!(cards[0].id, 3);
    let mut content2 = sample_content();
    content2.relics.push(relic("RELIC.DINGY_RUG", 0));
    game.run.relics.push(18);
    let cards = game.reward_cards(&content2, &base, 3, Room::Combat);
    let mut ids: Vec<u16> = cards.iter().map(|c| c.id).collect();
    ids.sort();
    assert_eq!(ids, vec![3, 9]);
}

#[test]
fn reward_cards_prismatic_gem_uses_every_character() {
    let (_, mut game) = in_act(5);
    let mut content = sample_content();
    content.relics.push(relic("RELIC.PRISMATIC_GEM", 0));
    game.run.relics.push(18);
    let base = vec![3u16];
    let cards = game.reward_cards(&content, &base, 3, Room::Combat);
    assert_eq!(cards.len(), 3);
    for c in &cards {
        assert!([3u16, 4, 5, 6, 10].contains(&c.id));
    }
}

#[test]
fn reward_cards_lasting_candy_adds_a_power() {
    let (content, mut game) = in_act(5);
    game.lasting_candy = 2;
    let base = vec![3u16, 4, 5];
    let cards = game.reward_cards(&content, &base, 2, Room::Combat);
    assert_eq!(cards.len(), 3);
    assert_eq!(cards[2].id, 5);
    game.lasting_candy = 3;
    let cards = game.reward_cards(&content, &base, 2, Room::Combat);
    assert_eq!(cards.len(), 2);
}

#[test]
fn modify_reward_cards_upgrades() {
    let (content, mut game) = in_act(5);
    with_relic(&mut game, &content, "RELIC.MOLTEN_EGG");
    let mut cards = vec![Card::of(3, 0), Card::of(4, 0), Card::of(6, 1)];
    game.modify_reward_cards(&content, &mut cards);
    assert_eq!(cards[0].upgrades, 1);
    assert_eq!(cards[1].upgrades, 0);
    assert_eq!(cards[2].upgrades, 1);
    with_relic(&mut game, &content, "RELIC.SILVER_CRUCIBLE");
    for round in 1..=4u8 {
        let mut cards = vec![Card::of(4, 0)];
        game.modify_reward_cards(&content, &mut cards);
        assert_eq!(cards[0].upgrades, if round <= 3 { 1 } else { 0 });
        assert_eq!(game.silver_crucible, round.min(3));
    }
}

#[test]
fn potion_pool_sorts_each_part_by_name() {
    let (content, game) = in_act(5);
    assert_eq!(game.potion_pool(&content), vec![2, 1, 0]);
}

#[test]
fn reward_potions_are_distinct() {
    for seed in 0..20u64 {
        let (content, mut game) = in_act(seed);
        let pool = vec![0u16, 1, 2];
        let potions = game.reward_potions(&content, &pool, 3);
        assert!(potions.len() <= 3);
        for (i, p) in potions.iter().enumerate() {
            assert!(pool.contains(p));
            assert!(!potions[i + 1..].contains(p));
        }
    }
}

use lib::encounters::pull_encounter;

#[test]
fn pull_encounter_refills_and_removes() {
    let content = sample_content();
    let mut rng = Rng::from_seed(4);
    let mut bag: Vec<u16> = Vec::new();
    let first = pull_encounter(&mut rng, &content, &vec![0, 1, 2], &mut bag, None).unwrap();
    assert_eq!(bag.len(), 2);
    assert!(!bag.contains(&first));
    let second = pull_encounter(&mut rng, &content, &vec![0, 1, 2], &mut bag, Some(first)).unwrap();
    assert!(second != first);
    assert_eq!(bag.len(), 1);
}

#[test]
fn pull_encounter_avoids_shared_kinds() {
    let content = sample_content();
    for seed in 0..30u64 {
        let mut rng = Rng::from_seed(seed);
        let mut bag: Vec<u16> = vec![3, 1, 2];
        let id = pull_encounter(&mut rng, &content, &vec![], &mut bag, Some(0)).unwrap();
        assert!(id == 1 || id == 2);
        let mut rest = bag.clone();
        rest.push(id);
        rest.sort();
        assert_eq!(rest, vec![1, 2, 3]);
    }
}

#[test]
fn pull_encounter_takes_anything_when_nothing_fits() {
    let content = sample_content();
    let mut rng = Rng::from_seed(2);
    let mut bag: Vec<u16> = vec![3];
    assert_eq!(pull_encounter(&mut rng, &content, &vec![], &mut bag, Some(0)), Some(3));
    assert!(bag.is_empty());
}

#[test]
fn next_encounter_weak_then_regular() {
    let (content, mut game) = in_act(8);
    let mut seen = Vec::new();
    for _ in 0..3 {
        let id = game.next_encounter(&content, false).unwrap();
        assert!(id == 0 || id == 1);
        seen.push(id);
    }
    assert!(seen[0] != seen[1]);
    assert_eq!(game.weak_encounters_left, 0);
    assert!(game.encounters.is_empty());
    assert_eq!(game.last_encounter, Some(seen[2]));
    let id = game.next_encounter(&content, false).unwrap();
    assert!(id == 2 || id == 3);
    assert_eq!(game.regular_encounters_left, 11);
    assert_eq!(game.last_encounter, Some(id));
}

#[test]
fn next_encounter_elites() {
    let (content, mut game) = in_act(8);
    assert_eq!(game.next_encounter(&content, true), Some(4));
    assert_eq!(game.elite_encounters_left, 14);
    assert_eq!(game.last_elite, Some(4));
    game.elite_encounters_left = 1;
    assert_eq!(game.next_encounter(&content, true), Some(4));
    assert_eq!(game.elite_encounters_left, 0);
    assert!(game.elites.is_empty());
    assert_eq!(game.last_elite, None);
    assert_eq!(game.next_encounter(&content, true), Some(4));
}

#[test]
fn next_encounter_any_fight_when_bags_are_done() {
    let (content, mut game) = in_act(8);
    game.weak_encounters_left = 0;
    game.regular_encounters_left = 0;
    let id = game.next_encounter(&content, false).unwrap();
    assert!(id <= 3);
    assert_eq!(game.weak_encounters_left, 0);
}

#[test]
fn rest_heal_restores_three_tenths() {
    let (content, mut game) = in_act(1);
    game.run.hp = 10;
    let rewards = game.rest_heal(&content);
    assert_eq!(game.run().hp, 34);
    assert_eq!(rewards.gold, 0);
    assert!(rewards.cards.is_empty());
    assert!(rewards.potions.is_empty());
    game.run.hp = 70;
    game.rest_heal(&content);
    assert_eq!(game.run().hp, 80);
}

#[test]
fn rest_heal_with_relics() {
    let (content, mut game) = in_act(1);
    with_relic(&mut game, &content, "RELIC.REGAL_PILLOW");
    game.run.hp = 10;
    game.rest_heal(&content);
    assert_eq!(game.run().hp, 49);
    with_relic(&mut game, &content, "RELIC.STONE_HUMIDIFIER");
    game.rest_heal(&content);
    assert_eq!(game.run().max_hp, 85);
    assert_eq!(game.run().hp, 85);
}

#[test]
fn rest_heal_dream_catcher_and_mailbox() {
    let (content, mut game) = in_act(1);
    with_relic(&mut game, &content, "RELIC.DREAM_CATCHER");
    with_relic(&mut game, &content, "RELIC.TINY_MAILBOX");
    let rewards = game.rest_heal(&content);
    assert_eq!(rewards.cards.len(), 3);
    for c in &rewards.cards {
        assert!([3u16, 4, 5, 6, 10].contains(&c.id));
    }
    assert!(rewards.potions.len() <= 2);
    assert!(!rewards.potions.is_empty());
}

#[test]
fn rest_destination_with_tent() {
    let (content, mut game) = in_act(1);
    assert!(matches!(game.rest_destination(&content, 1), Phase::OnMap));
    assert_eq!(game.rest_used, 1);
    with_relic(&mut game, &content, "RELIC.MINIATURE_TENT");
    assert!(matches!(game.rest_destination(&content, 4), Phase::Rest));
    assert_eq!(game.rest_used, 5);
}

#[test]
fn leave_room_goes_back_to_the_map() {
    let (content, mut game) = in_act(1);
    game.room = Room::Combat;
    game.phase = Phase::Rest;
    game.leave_room(&content);
    assert!(matches!(game.phase(), Phase::OnMap));
    assert_eq!(game.run().act, 1);
}

#[test]
fn leave_room_after_a_boss_moves_on() {
    let (content, mut game) = in_act(1);
    game.room = Room::Boss;
    game.phase = Phase::Rest;
    game.leave_room(&content);
    assert_eq!(game.run().act, 2);
    assert_eq!(game.act, 1);
    assert!(matches!(game.phase(), Phase::OnMap));
    game.room = Room::Boss;
    game.leave_room(&content);
    assert_eq!(game.run().act, 3);
    game.room = Room::Boss;
    game.leave_room(&content);
    assert!(matches!(game.phase(), Phase::Won));
}

use lib::state::{Combat, Pile};

fn in_fight(draw: Vec<Card>, hand: Vec<Card>, discard: Vec<Card>) -> (Content, Game) {
    let (content, mut game) = in_act(2);
    game.phase = Phase::Combat(Combat {
        draw,
        hand,
        discard,
        exhaust: Vec::new(),
        offer: Vec::new(),
        known_draw_top: 0,
        known_draw_bottom: 0,
        energy: 3,
        turn: 1,
    });
    (content, game)
}

fn numbered(ids: &[u16]) -> Vec<Card> {
    ids.iter().enumerate().map(|(i, &id)| Card { id, upgrades: 0, instance: i as u32 + 1, flags: 0 }).collect()
}

fn sorted_instances(cards: &[Card]) -> Vec<u32> {
    let mut v: Vec<u32> = cards.iter().map(|c| c.instance).collect();
    v.sort();
    v
}

#[test]
fn push_and_pop_draw_track_known_cards() {
    let mut combat = Combat {
        draw: numbered(&[0, 1]),
        hand: Vec::new(),
        discard: Vec::new(),
        exhaust: Vec::new(),
        offer: Vec::new(),
        known_draw_top: 0,
        known_draw_bottom: 0,
        energy: 3,
        turn: 1,
    };
    let extra = Card::of(3, 0);
    combat.push_draw(extra);
    assert_eq!(combat.known_draw_top, 1);
    assert_eq!(combat.pop_draw(), Some(extra));
    assert_eq!(combat.known_draw_top, 0);
    assert_eq!(combat.draw.len(), 2);
    let taken = combat.remove_draw(0);
    assert_eq!(taken.instance, 1);
    combat.insert_unknown_draw(1, extra);
    assert_eq!(combat.draw.len(), 2);
    assert_eq!(combat.draw[1], extra);
    combat.forget_draw_order();
    assert_eq!(combat.known_draw_top, 0);
    assert_eq!(combat.known_draw_bottom, 0);
    combat.draw.clear();
    assert_eq!(combat.pop_draw(), None);
}

#[test]
fn shuffle_draw_keeps_the_cards() {
    let (_, mut game) = in_fight(numbered(&[0, 1, 2, 3, 4, 5]), Vec::new(), Vec::new());
    game.shuffle_draw();
    let combat = game.combat().unwrap();
    assert_eq!(sorted_instances(&combat.draw), vec![1, 2, 3, 4, 5, 6]);
    assert_eq!(combat.known_draw_top, 0);
}

#[test]
fn shuffle_discard_into_draw_moves_everything() {
    let (content, mut game) = in_fight(numbered(&[0, 1]), Vec::new(), numbered(&[2, 3, 4]));
    game.shuffle_discard_into_draw(&content);
    let combat = game.combat().unwrap();
    assert!(combat.discard.is_empty());
    assert_eq!(combat.draw.len(), 5);
    let mut ids: Vec<u16> = combat.draw.iter().map(|c| c.id).collect();
    ids.sort();
    assert_eq!(ids, vec![0, 1, 2, 3, 4]);
}

#[test]
fn take_draw_takes_the_top() {
    let (_, mut game) = in_fight(numbered(&[0, 1, 2]), Vec::new(), Vec::new());
    let card = game.take_draw().unwrap();
    assert_eq!(card.instance, 3);
    assert_eq!(game.combat().unwrap().draw.len(), 2);
    game.take_draw();
    game.take_draw();
    assert_eq!(game.take_draw(), None);
    let (_, mut outside) = in_act(2);
    assert_eq!(outside.take_draw(), None);
}

#[test]
fn add_to_hand_overflows_to_discard() {
    let (_, mut game) = in_fight(Vec::new(), numbered(&[0, 0, 0, 0, 0, 0, 0, 0, 0]), Vec::new());
    game.add_to_hand(Card::of(3, 0));
    assert_eq!(game.combat().unwrap().hand.len(), 10);
    game.add_to_hand(Card::of(4, 0));
    let combat = game.combat().unwrap();
    assert_eq!(combat.hand.len(), 10);
    assert_eq!(combat.discard, vec![Card::of(4, 0)]);
}

#[test]
fn pull_relic_takes_the_front_and_clears_every_bag() {
    let (content, mut game) = started(2);
    game.relic_deques[0] = vec![2, 4];
    game.shared_relic_deques[0] = vec![4, 2];
    game.relic_deques[3] = vec![4];
    let id = game.pull_relic(&content, false, 0, false, false);
    assert_eq!(id, Some(2));
    assert_eq!(game.relic_deques[0], vec![4]);
    assert_eq!(game.shared_relic_deques[0], vec![4]);
    let id = game.pull_relic(&content, false, 0, true, false);
    assert_eq!(id, Some(4));
    assert!(game.relic_deques.iter().all(|bag| !bag.contains(&4)));
    assert!(game.shared_relic_deques.iter().all(|bag| !bag.contains(&4)));
}

#[test]
fn pull_relic_falls_back_to_other_rarities() {
    let (content, mut game) = started(2);
    game.relic_deques = [Vec::new(), vec![3], Vec::new(), Vec::new()];
    assert_eq!(game.pull_relic(&content, false, 3, false, false), Some(3));
    assert_eq!(game.pull_relic(&content, false, 3, false, false), None);
}

#[test]
fn pull_relic_in_a_shop_skips_what_merchants_lack() {
    let (mut content, mut game) = started(2);
    content.relics[2].shop_allowed = false;
    game.relic_deques[0] = vec![2, 4];
    assert_eq!(game.pull_relic(&content, false, 0, false, true), Some(4));
    assert_eq!(game.relic_deques[0], vec![2]);
}

#[test]
fn rng_draws_stay_in_range() {
    let mut rng = Rng::from_seed(123);
    for bound in 1..50u32 {
        assert!(rng.below(bound) < bound);
        assert!(rng.index(bound as usize) < bound as usize);
        assert!(rng.unit() < UNIT);
    }
    assert_eq!(rng.count, 49 * 3);
    for _ in 0..100 {
        let g = rng.gaussian(50, 10, 20, 80);
        assert!((20..=80).contains(&g));
    }
    let before = rng.count;
    rng.forward(5);
    assert_eq!(rng.count, before + 5);
}

#[test]
fn rng_is_determined_by_its_seed() {
    let mut a = Rng::from_seed(99);
    let mut b = Rng::from_seed(99);
    let mut c = Rng::from_seed(100);
    let xs: Vec<u64> = (0..5).map(|_| a.next_u64()).collect();
    let ys: Vec<u64> = (0..5).map(|_| b.next_u64()).collect();
    let zs: Vec<u64> = (0..5).map(|_| c.next_u64()).collect();
    assert_eq!(xs, ys);
    assert_ne!(xs, zs);
}

#[test]
fn rng_shuffle_is_a_permutation() {
    let mut rng = Rng::from_seed(5);
    let mut items: Vec<u32> = (0..20).collect();
    rng.shuffle(&mut items);
    let mut sorted = items.clone();
    sorted.sort();
    assert_eq!(sorted, (0..20).collect::<Vec<u32>>());
}

#[test]
fn name_lookups() {
    let content = sample_content();
    assert_eq!(content.card_id("CARD.BASH"), Some(2));
    assert_eq!(content.card_id("CARD.NOPE"), None);
    assert_eq!(content.relic_id("RELIC.ANCHOR"), Some(2));
    assert_eq!(content.act_id("ACT.THE_GLORY"), Some(2));
    assert_eq!(content.event_id("EVENT.B"), Some(1));
    let (content, game) = started(1);
    assert!(game.has_relic(&content, "RELIC.BURNING_BLOOD"));
    assert!(!game.has_relic(&content, "RELIC.ANCHOR"));
}

#[test]
fn text_helpers() {
    assert!(lib::act::contains_text("ENCOUNTER.SLIMES_WEAK", "_WEAK"));
    assert!(!lib::act::contains_text("ENCOUNTER.SLIMES", "_WEAK"));
    assert!(!lib::act::contains_text("W", "_WEAK"));
    assert_eq!(lib::act::name_hash(&Vec::new()), 2166136261);
    assert_eq!(lib::act::name_hash(&b"a".to_vec()), 0xE40C292C);
}

#[test]
fn saturating_helpers() {
    assert_eq!(lib::expect::saturating_add_i16(i16::MAX, 1), i16::MAX);
    assert_eq!(lib::expect::saturating_add_i16(i16::MIN, -1), i16::MIN);
    assert_eq!(lib::expect::saturating_add_i16(3, 4), 7);
    assert_eq!(lib::expect::saturating_add_i32(i32::MAX, 5), i32::MAX);
}

#[test]
fn golden_map_is_a_straight_line() {
    let (_, game) = in_act(6);
    let map = game.golden_map();
    assert_eq!(map.nodes.len(), 17);
    assert_eq!(map.nodes.last().unwrap().room, Room::Boss);
    assert_eq!(map.current, None);
}

// Laws, on concrete values.

#[test]
fn law_pulled_relic_is_gone_example() {
    let (content, mut game) = started(3);
    game.relic_deques[1] = vec![3, 3];
    game.shared_relic_deques[1] = vec![3];
    assert_eq!(game.pull_relic(&content, true, 1, false, false), Some(3));
    assert!(game.relic_deques[1].is_empty());
    assert!(game.shared_relic_deques[1].is_empty());
}

#[test]
fn law_fights_differ_within_bag_example() {
    let content = sample_content();
    for seed in 0..20u64 {
        let mut rng = Rng::from_seed(seed);
        let mut bag: Vec<u16> = vec![0, 1, 2, 3];
        let a = pull_encounter(&mut rng, &content, &vec![], &mut bag, None).unwrap();
        let b = pull_encounter(&mut rng, &content, &vec![], &mut bag, None).unwrap();
        let c = pull_encounter(&mut rng, &content, &vec![], &mut bag, None).unwrap();
        assert!(a != b && b != c && a != c);
    }
}

#[test]
fn law_rest_within_max_example() {
    let (content, mut game) = in_act(1);
    for hp in [-5i16, 0, 40, 79, 80] {
        game.run.hp = hp;
        game.rest_heal(&content);
        assert!(game.run().hp >= hp);
        assert!(game.run().hp <= game.run().max_hp);
    }
}

#[test]
fn law_gold_never_lost_example() {
    let (content, mut game) = started(1);
    with_relic(&mut game, &content, "RELIC.BOWLER_HAT");
    for amount in [-100, -1, 0, 1, 2, 7, 1000] {
        let before = game.run().gold;
        game.gain_gold(&content, amount);
        assert!(game.run().gold >= before);
    }
}

#[test]
fn law_add_card_keeps_instances_example() {
    let (content, mut game) = started(1);
    with_relic(&mut game, &content, "RELIC.BING_BONG");
    for id in [3u16, 4, 5, 7] {
        game.add_card(&content, Card::of(id, 0));
    }
    let instances = sorted_instances(&game.run().deck);
    let mut distinct = instances.clone();
    distinct.dedup();
    assert_eq!(instances, distinct);
    assert!(instances.iter().all(|&i| i != 0 && i < game.next_card));
}

#[test]
fn law_draw_to_hand_keeps_cards_example() {
    let hand = vec![Card { id: 3, upgrades: 0, instance: 9, flags: 0 }];
    let (_, mut game) = in_fight(numbered(&[0, 1, 2]), hand, Vec::new());
    let all = |g: &Game| {
        let c = g.combat().unwrap();
        let mut v: Vec<Card> = c.draw.clone();
        v.extend(c.hand.iter().copied());
        v.extend(c.discard.iter().copied());
        sorted_instances(&v)
    };
    let before = all(&game);
    let card = game.take_draw().unwrap();
    game.add_to_hand(card);
    assert_eq!(all(&game), before);
    assert!(game.combat().unwrap().hand.contains(&card));
}

fn with_new_relic(game: &mut Game, content: &mut Content, name: &str, rarity: u8) {
    content.relics.push(relic(name, rarity));
    game.run.relics.push(content.relics.len() as u16 - 1);
}

fn no_rewards() -> Rewards {
    Rewards { gold: 0, cards: Vec::new(), card_rewards: Vec::new(), relics: Vec::new(), potions: Vec::new(), removals: 0 }
}

#[test]
fn modify_combat_rewards_aubergine_and_stars() {
    let (mut content, mut game) = in_act(3);
    with_new_relic(&mut game, &mut content, "RELIC.AMETHYST_AUBERGINE", 0);
    with_new_relic(&mut game, &mut content, "RELIC.PRAYER_WHEEL", 0);
    with_new_relic(&mut game, &mut content, "RELIC.WHITE_STAR", 0);
    game.room = Room::Combat;
    let mut rewards = no_rewards();
    game.modify_combat_rewards(&content, &mut rewards);
    assert_eq!(rewards.gold, 15);
    assert_eq!(rewards.card_rewards, vec![CardReward::Standard(Room::Combat)]);
    game.room = Room::Elite;
    let mut rewards = no_rewards();
    game.modify_combat_rewards(&content, &mut rewards);
    assert_eq!(rewards.card_rewards, vec![CardReward::Standard(Room::Boss)]);
    game.room = Room::Boss;
    game.run.act = 3;
    let mut rewards = no_rewards();
    game.modify_combat_rewards(&content, &mut rewards);
    assert_eq!(rewards.gold, 0);
}

#[test]
fn modify_combat_rewards_pulls_relics() {
    let (mut content, mut game) = in_act(3);
    with_new_relic(&mut game, &mut content, "RELIC.BLACK_STAR", 0);
    with_new_relic(&mut game, &mut content, "RELIC.WONGOS_MYSTERY_TICKET", 0);
    game.room = Room::Elite;
    game.relic_deques = [vec![2], vec![3], vec![1], Vec::new()];
    game.wongo_combats = Some(5);
    let mut rewards = no_rewards();
    game.modify_combat_rewards(&content, &mut rewards);
    let mut relics = rewards.relics.clone();
    relics.sort();
    assert_eq!(relics, vec![1, 2, 3]);
    assert_eq!(game.wongo_combats, None);
    assert!(game.relic_deques.iter().all(|bag| bag.is_empty()));
}

#[test]
fn fixed_cards_draws_distinct_cards_of_the_rarity() {
    let (content, mut game) = in_act(3);
    let pool = vec![3u16, 4, 5, 6, 10];
    let cards = game.fixed_cards(&content, &pool, CardRarity::Common, 3);
    let mut ids: Vec<u16> = cards.iter().map(|c| c.id).collect();
    ids.sort();
    assert_eq!(ids, vec![3, 4]);
    let cards = game.fixed_cards(&content, &pool, CardRarity::Rare, 1);
    assert_eq!(cards.len(), 1);
    assert!(cards[0].id == 6 || cards[0].id == 10);
    assert_eq!(cards[0].upgrades, 0);
}

#[test]
fn shop_rarity_follows_the_odds() {
    let (content, mut game) = in_act(3);
    game.rarity_offset = 4000;
    let mut seen = Vec::new();
    for _ in 0..40 {
        seen.push(game.shop_rarity(&content));
    }
    assert!(seen.iter().all(|r| *r == CardRarity::Rare || *r == CardRarity::Uncommon || *r == CardRarity::Common));
    assert!(seen.contains(&CardRarity::Rare));
}

#[test]
fn remove_relic_at_shifts_the_marks() {
    let (mut content, mut game) = in_act(3);
    with_relic(&mut game, &content, "RELIC.ANCHOR");
    with_new_relic(&mut game, &mut content, "RELIC.SOZU", 0);
    with_relic(&mut game, &content, "RELIC.LANTERN");
    game.melted_relics = vec![1, 3];
    game.wax_relics = vec![2, 3];
    game.run.energy = 3;
    game.remove_relic_at(&content, 2);
    assert_eq!(game.run().relics, vec![0, 2, 3]);
    assert_eq!(game.run().energy, 2);
    assert_eq!(game.melted_relics, vec![1, 2]);
    assert_eq!(game.wax_relics, vec![2]);
    game.remove_relic_at(&content, 1);
    assert_eq!(game.run().energy, 2);
    assert_eq!(game.melted_relics, vec![1]);
}

#[test]
fn transform_at_swaps_a_card() {
    let (content, mut game) = in_act(3);
    let before = game.run().deck.len();
    let removed = game.run().deck[0];
    let rng = Rng::from_seed(17);
    let after = game.transform_at(&content, 0, rng);
    assert!(after.count > rng.count);
    let deck = &game.run().deck;
    assert_eq!(deck.len(), before);
    assert!(!deck.iter().any(|c| c.instance == removed.instance));
    let new = deck[deck.len() - 1];
    assert!([3u16, 4, 5, 6, 10].contains(&new.id));
    assert!(new.instance != 0);
}

#[test]
fn requirement_checks_the_run() {
    let (_, mut game) = started(1);
    assert!(game.requirement(Requirement::Always));
    assert!(game.requirement(Requirement::Gold(99)));
    assert!(!game.requirement(Requirement::Gold(100)));
    assert!(game.requirement(Requirement::Hp(79)));
    assert!(!game.requirement(Requirement::Hp(80)));
    assert!(game.requirement(Requirement::Deck));
    game.run.deck.clear();
    assert!(!game.requirement(Requirement::Deck));
}

#[test]
fn random_potions_in_combat_skip_what_fights_lack() {
    for seed in 0..20u64 {
        let (content, mut game) = in_act(seed);
        let pool = vec![0u16, 1, 2];
        let potions = game.random_potions(&content, &pool, 3, true, true);
        assert!(!potions.contains(&1));
        assert_eq!(potions.len(), 2);
        let again = game.random_potions(&content, &pool, 4, false, false);
        assert_eq!(again.len(), 4);
    }
}

fn with_events(content: &mut Content, names: &[&str]) {
    for name in names {
        content.events.push(NamedDef { id: name.to_string() });
    }
}

#[test]
fn next_ancient_needs_darv() {
    let (content, mut game) = in_act(3);
    let before = game.rngs.get_positions();
    assert_eq!(game.next_ancient(&content), None);
    assert_eq!(game.rngs.get_positions(), before);
}

#[test]
fn next_ancient_greets_the_first_act_with_neow() {
    let (mut content, mut game) = in_act(3);
    with_events(&mut content, &["EVENT.DARV", "EVENT.NEOW"]);
    assert_eq!(game.next_ancient(&content), Some(3));
    let mut bare = sample_content();
    with_events(&mut bare, &["EVENT.DARV"]);
    assert_eq!(game.next_ancient(&bare), None);
}

#[test]
fn next_ancient_later_acts() {
    let (mut content, mut game) = in_act(3);
    with_events(&mut content, &["EVENT.DARV", "EVENT.OROBAS", "EVENT.PAEL", "EVENT.TEZCATARA", "EVENT.NONUPEIPE", "EVENT.TANX", "EVENT.VAKUU"]);
    game.run.act = 2;
    for _ in 0..20 {
        let id = game.next_ancient(&content).unwrap();
        assert!((2..=5).contains(&id));
    }
    game.run.act = 3;
    game.visited_events.push(2);
    for _ in 0..20 {
        let id = game.next_ancient(&content).unwrap();
        assert!((6..=8).contains(&id));
    }
    game.run.act = 4;
    assert_eq!(game.next_ancient(&content), None);
}

#[test]
fn merchant_card_eggs() {
    let (content, mut game) = in_act(3);
    assert_eq!(game.merchant_card(&content, Card::of(3, 0)).upgrades, 0);
    with_relic(&mut game, &content, "RELIC.MOLTEN_EGG");
    assert_eq!(game.merchant_card(&content, Card::of(3, 0)).upgrades, 1);
    assert_eq!(game.merchant_card(&content, Card::of(4, 0)).upgrades, 0);
}

#[test]
fn push_and_remove_pile() {
    let (_, mut game) = in_fight(numbered(&[0, 1]), numbered(&[2]), Vec::new());
    let extra = Card { id: 5, upgrades: 0, instance: 50, flags: 0 };
    game.push_pile(Pile::Exhaust, extra);
    assert_eq!(game.combat().unwrap().exhaust, vec![extra]);
    game.push_pile(Pile::Draw, extra);
    assert_eq!(game.combat().unwrap().known_draw_top, 1);
    assert_eq!(game.remove_pile(Pile::Draw, 2), extra);
    assert_eq!(game.remove_pile(Pile::Hand, 0).id, 2);
    assert!(game.combat().unwrap().hand.is_empty());
    assert_eq!(game.remove_pile(Pile::Exhaust, 0), extra);
}

#[test]
fn law_new_run_instances_fresh_example() {
    let (_, game) = started(4);
    let instances: Vec<u32> = game.run().deck.iter().map(|c| c.instance).collect();
    assert_eq!(instances, vec![1, 2, 3, 4, 5, 6]);
    assert_eq!(game.next_card, 7);
    let content = sample_content();
    let game = Game::new_character_ascension(&content, 4, 0, 5).unwrap();
    assert_eq!(game.run().deck[6].instance, 7);
    assert_eq!(game.next_card, 8);
}

#[test]
fn law_choice_in_range_example() {
    let (_, mut game) = started(4);
    assert_eq!(game.expectation_choice(1), Some(0));
    assert_eq!(game.expectation_choice(3), None);
    game.expectation = Some(Expectation { choices: vec![5, 1], used: 0, next: None, unknown: false, discarded: 0, drawn: 0 });
    assert_eq!(game.expectation_choice(3), None);
    assert_eq!(game.expectation_choice(3), Some(1));
    assert_eq!(game.expectation_choice(4), None);
    assert_eq!(game.expectation.as_ref().unwrap().next, Some(4));
    assert_eq!(game.expectation.as_ref().unwrap().used, 2);
}

#[test]
fn expectation_counters() {
    let (_, mut game) = started(4);
    game.expectation_draw();
    game.expectation_discard(2);
    game.expectation_unknown();
    assert!(game.expectation.is_none());
    game.expectation = Some(Expectation { choices: vec![], used: 0, next: None, unknown: false, discarded: 0, drawn: 0 });
    game.expectation_draw();
    game.expectation_discard(2);
    game.expectation_unknown();
    let e = game.expectation.as_ref().unwrap();
    assert_eq!(e.drawn, 1);
    assert_eq!(e.discarded, 2);
    assert!(e.unknown);
}

#[test]
fn law_marks_follow_relics_example() {
    let (content, mut game) = in_act(3);
    with_relic(&mut game, &content, "RELIC.ANCHOR");
    with_relic(&mut game, &content, "RELIC.LANTERN");
    with_relic(&mut game, &content, "RELIC.BOWLER_HAT");
    game.melted_relics = vec![1, 3];
    let marked: Vec<u16> = game.melted_relics.iter().map(|&m| game.run().relics[m]).collect();
    game.remove_relic_at(&content, 2);
    let after: Vec<u16> = game.melted_relics.iter().map(|&m| game.run().relics[m]).collect();
    assert_eq!(marked, after);
}

fn with_event(content: &mut Content, name: &str) -> u16 {
    content.events.push(NamedDef { id: name.to_string() });
    content.events.len() as u16 - 1
}

#[test]
fn event_rules() {
    let (mut content, mut game) = in_act(3);
    let cheese = with_event(&mut content, "EVENT.ROOM_FULL_OF_CHEESE");
    let flower = with_event(&mut content, "EVENT.COLOSSAL_FLOWER");
    let amalgamator = with_event(&mut content, "EVENT.AMALGAMATOR");
    let repy = with_event(&mut content, "EVENT.WAR_HISTORIAN_REPY");
    let unrest = with_event(&mut content, "EVENT.UNREST_SITE");
    let holes = with_event(&mut content, "EVENT.FIELD_OF_MAN_SIZED_HOLES");
    let futures = with_event(&mut content, "EVENT.THE_FUTURE_OF_POTIONS");
    let punch = with_event(&mut content, "EVENT.PUNCH_OFF");
    assert!(game.event_allowed(&content, 0));
    assert!(game.event_allowed(&content, cheese));
    assert!(!game.event_allowed(&content, repy));
    assert!(game.event_allowed(&content, flower));
    game.run.hp = 18;
    assert!(!game.event_allowed(&content, flower));
    assert!(game.event_allowed(&content, unrest));
    game.run.hp = 57;
    assert!(!game.event_allowed(&content, unrest));
    assert!(game.event_allowed(&content, amalgamator));
    game.run.deck.remove(3);
    assert!(!game.event_allowed(&content, amalgamator));
    game.add_card(&content, Card::of(1, 0));
    assert!(game.event_allowed(&content, amalgamator));
    assert!(!game.event_allowed(&content, holes));
    content.cards[2].enchantable = lib::content::PERFECT_FIT;
    assert!(game.event_allowed(&content, holes));
    assert!(!game.event_allowed(&content, futures));
    game.run.potions = vec![Some(0), Some(2), None];
    assert!(game.event_allowed(&content, futures));
    assert!(!game.event_allowed(&content, punch));
    game.run.act = 2;
    assert!(game.event_allowed(&content, punch));
    game.run.act = 3;
    assert!(!game.event_allowed(&content, cheese));
}

#[test]
fn tradable_relics_skip_melted_and_used_up() {
    let (mut content, mut game) = in_act(3);
    with_relic(&mut game, &content, "RELIC.ANCHOR");
    with_new_relic(&mut game, &mut content, "RELIC.MANGO", 0);
    with_new_relic(&mut game, &mut content, "RELIC.MAW_BANK", 0);
    with_relic(&mut game, &content, "RELIC.LANTERN");
    game.melted_relics = vec![4];
    assert_eq!(game.tradable_relics(&content), vec![0, 1, 3]);
    game.maw_bank = true;
    assert_eq!(game.tradable_relics(&content), vec![0, 1]);
    content.relics[0].grouped = false;
    assert_eq!(game.tradable_relics(&content), vec![1]);
}

#[test]
fn next_event_prefers_unseen_events() {
    let (content, mut game) = in_act(3);
    game.events = vec![0, 1];
    let first = game.next_event(&content, &vec![0, 1]).unwrap();
    assert_eq!(first, 0);
    assert_eq!(game.events, vec![1, 0]);
    let second = game.next_event(&content, &vec![0, 1]).unwrap();
    assert_eq!(second, 1);
    assert_eq!(game.visited_events, vec![0, 1]);
    let third = game.next_event(&content, &vec![0, 1]).unwrap();
    assert_eq!(third, 0);
    assert_eq!(game.visited_events, vec![0, 1, 0]);
}

#[test]
fn next_event_deals_a_new_deck() {
    let (mut content, mut game) = in_act(3);
    let repy = with_event(&mut content, "EVENT.WAR_HISTORIAN_REPY");
    game.events.clear();
    let event = game.next_event(&content, &vec![repy, 1]).unwrap();
    assert_eq!(event, 1);
    let mut deck = game.events.clone();
    deck.sort();
    assert_eq!(deck, vec![1, repy]);
    game.events = vec![repy];
    assert_eq!(game.next_event(&content, &vec![0]), None);
    assert_eq!(game.events, vec![repy]);
}

#[test]
fn pick_slippery_card_prefers_non_basic_cards() {
    let (content, mut game) = in_act(3);
    game.event_rng = Some(Rng::from_seed(8));
    game.pick_slippery_card(&content, None);
    let picked = game.event_data[1] as u32;
    assert!(game.run().deck.iter().any(|c| c.instance == picked));
    game.add_card(&content, Card::of(3, 0));
    let anger = game.run().deck[6].instance;
    game.pick_slippery_card(&content, None);
    assert_eq!(game.event_data[1] as u32, anger);
    game.event_cards.push(anger);
    game.pick_slippery_card(&content, Some(0));
    let picked = game.event_data[1] as u32;
    let card = game.run().deck.iter().find(|c| c.instance == picked).unwrap();
    assert!(card.id != 0 && card.instance != anger);
}

#[test]
fn pick_slippery_card_without_removable_cards() {
    let (content, mut game) = in_act(3);
    game.run.deck = vec![Card { id: 7, upgrades: 0, instance: 1, flags: 0 }];
    game.pick_slippery_card(&content, None);
    assert_eq!(game.event_data, [0, 0, 0, 0]);
}

#[test]
fn roll_conveyor_serves_dishes() {
    let (_, mut game) = in_act(3);
    game.event_rng = Some(Rng::from_seed(3));
    game.event_data = [0, 3, 0, 0];
    game.roll_conveyor();
    assert_eq!(game.event_data[1], 4);
    let first = game.event_data[0];
    assert!((1..=7).contains(&first) && first != 5 && first != 6);
    assert_eq!(game.event_data[2], first);
    game.roll_conveyor();
    assert_eq!(game.event_data, [8, 5, 8, 0]);
    for _ in 0..20 {
        let served = game.event_data[2];
        game.roll_conveyor();
        if game.event_data[1] % 5 != 0 {
            assert!(game.event_data[0] != served);
        }
    }
}

fn sphere_with(game: &mut Game) -> CrystalSphere {
    game.event_rng = Some(Rng::from_seed(12));
    game.start_crystal(3);
    game.crystal.take().unwrap()
}

#[test]
fn start_crystal_buries_every_item() {
    let (_, mut game) = in_act(3);
    let sphere = sphere_with(&mut game);
    assert_eq!(sphere.cells.len(), 121);
    assert_eq!(sphere.items.len(), 15);
    assert_eq!(sphere.remaining, 3);
    assert!(sphere.clear[0] && sphere.clear[2] && !sphere.clear[3] && sphere.clear[120]);
    for (i, item) in sphere.items.iter().enumerate() {
        for x in item.0..item.0 + item.2 {
            for y in item.1..item.1 + item.3 {
                assert_eq!(sphere.cells[x as usize * 11 + y as usize], Some(i));
                assert!(!sphere.clear[x as usize * 11 + y as usize]);
            }
        }
    }
    let covered = sphere.cells.iter().filter(|c| c.is_some()).count();
    let area: usize = sphere.items.iter().map(|i| i.2 as usize * i.3 as usize).sum();
    assert_eq!(covered, area);
}

#[test]
fn clear_cells_reveals_uncovered_items() {
    let (_, mut game) = in_act(3);
    let mut sphere = sphere_with(&mut game);
    let purse = sphere.items.iter().position(|i| i.4 == 7).unwrap();
    let (x, y) = (sphere.items[purse].0, sphere.items[purse].1);
    sphere.big = false;
    let curses = lib::crystal::clear_cells(&mut sphere, x, y);
    assert_eq!(curses, 0);
    assert!(sphere.clear[x as usize * 11 + y as usize]);
    assert_eq!(sphere.revealed, vec![purse]);
    assert_eq!(sphere.remaining, 2);
}

#[test]
fn crystal_run_to_the_end() {
    let (content, mut game) = in_act(3);
    game.event_rng = Some(Rng::from_seed(12));
    game.start_crystal(2);
    let sphere = game.crystal.as_ref().unwrap();
    let purse = sphere.items.iter().position(|i| i.4 == 8).unwrap();
    let (x, y) = (sphere.items[purse].0, sphere.items[purse].1);
    game.clear_crystal(&content, x + 1, y + 1);
    assert!(game.crystal.as_ref().unwrap().revealed.contains(&purse));
    game.clear_crystal(&content, 0, 0);
    assert!(game.crystal.is_none());
    match game.phase() {
        Phase::Rewards(rewards) => {
            assert!(rewards.gold >= 30);
            assert_eq!(rewards.gold, game.reward_gold_parts.iter().sum::<i32>());
        }
        _ => panic!("expected rewards"),
    }
    assert_eq!(game.resume.as_ref().map(|p| matches!(p, Phase::OnMap)), Some(true));
}

#[test]
fn crystal_curse_adds_doubt() {
    let (mut content, mut game) = in_act(3);
    content.cards.push(card("CARD.DOUBT", CardType::Curse, CardRarity::Special, 0, 0));
    game.event_rng = Some(Rng::from_seed(12));
    game.start_crystal(3);
    let sphere = game.crystal.as_ref().unwrap();
    let curse = sphere.items.iter().position(|i| i.4 == 6).unwrap();
    let (x, y) = (sphere.items[curse].0, sphere.items[curse].1);
    let before = game.run().deck.len();
    game.clear_crystal(&content, x + 1, y + 1);
    assert_eq!(game.run().deck.len(), before + 1);
    assert_eq!(game.run().deck[before].id, 11);
}

#[test]
fn crystal_cards_of_a_rarity() {
    let (content, mut game) = in_act(3);
    game.event_rng = Some(Rng::from_seed(1));
    let cards = game.crystal_cards(&content, CardRarity::Rare);
    let mut ids: Vec<u16> = cards.iter().map(|c| c.id).collect();
    ids.sort();
    assert_eq!(ids, vec![6, 10]);
    assert!(cards.iter().all(|c| c.upgrades == 0));
}

#[test]
fn make_card_reward_kinds() {
    let (mut content, mut game) = in_act(3);
    let cards = game.make_card_reward(&content, CardReward::Standard(Room::Combat));
    assert_eq!(cards.len(), 3);
    let cards = game.make_card_reward(&content, CardReward::Fixed(0, CardRarity::Common));
    let mut ids: Vec<u16> = cards.iter().map(|c| c.id).collect();
    ids.sort();
    assert_eq!(ids, vec![3, 4]);
    assert!(game.make_card_reward(&content, CardReward::Kaleidoscope).is_empty());
    content.characters.push(CharacterDef {
        id: "CHARACTER.SILENT".to_string(),
        hp: 70,
        gold: 99,
        energy: 3,
        draw: 5,
        orb_slots: 0,
        deck: vec![(0, 0)],
        relics: Vec::new(),
        relic_pool: Vec::new(),
        cards: vec![9],
        potion_pool: Vec::new(),
    });
    let cards = game.make_card_reward(&content, CardReward::Kaleidoscope);
    assert_eq!(cards.len(), 1);
    assert_eq!(cards[0].id, 9);
    game.event_rng = Some(Rng::from_seed(2));
    let cards = game.make_card_reward(&content, CardReward::Crystal(CardRarity::Uncommon));
    assert_eq!(cards.len(), 1);
    assert_eq!(cards[0].id, 5);
}

#[test]
fn next_card_reward_takes_the_first_pending() {
    let (content, mut game) = in_act(3);
    game.phase = Phase::Rewards(Rewards {
        gold: 5,
        cards: vec![Card::of(3, 0)],
        card_rewards: vec![CardReward::Fixed(0, CardRarity::Rare), CardReward::Standard(Room::Elite)],
        relics: Vec::new(),
        potions: Vec::new(),
        removals: 0,
    });
    game.next_card_reward(&content);
    match game.phase() {
        Phase::Rewards(r) => {
            assert_eq!(r.card_rewards, vec![CardReward::Standard(Room::Elite)]);
            let mut ids: Vec<u16> = r.cards.iter().map(|c| c.id).collect();
            ids.sort();
            assert_eq!(ids, vec![6, 10]);
            assert_eq!(r.gold, 5);
        }
        _ => panic!("expected rewards"),
    }
    game.next_card_reward(&content);
    game.next_card_reward(&content);
    match game.phase() {
        Phase::Rewards(r) => {
            assert!(r.card_rewards.is_empty());
            assert!(r.cards.is_empty());
        }
        _ => panic!("expected rewards"),
    }
}

/// The sample content with more relics and cards appended; returns it with a started game.
fn obtaining(extra_relics: &[&str], extra_cards: &[(&str, CardType, CardRarity)]) -> (Content, Game) {
    let mut content = sample_content();
    for name in extra_relics {
        content.relics.push(relic(name, 0));
    }
    for (name, card_type, rarity) in extra_cards {
        content.cards.push(card(name, *card_type, *rarity, 0, 0));
    }
    let game = Game::new_character(&content, 7, 0).unwrap();
    (content, game)
}

#[test]
fn obtain_relic_takes_it_from_the_bags() {
    let (content, mut game) = started(7);
    let anchor = relic_named(&content, "RELIC.ANCHOR");
    assert!(game.relic_deques[0].contains(&anchor));
    game.obtain_relic(&content, anchor);
    assert_eq!(game.run.relics, vec![0, anchor]);
    assert!(game.relic_deques.iter().all(|bag| !bag.contains(&anchor)));
    assert!(game.shared_relic_deques.iter().all(|bag| !bag.contains(&anchor)));
    assert_eq!(game.run.hp, 80);
    assert!(matches!(game.phase, Phase::OnMap));
}

#[test]
fn obtain_strawberry_grows_max_hp() {
    let (content, mut game) = obtaining(&["RELIC.STRAWBERRY"], &[]);
    game.run.hp = 50;
    game.obtain_relic(&content, relic_named(&content, "RELIC.STRAWBERRY"));
    assert_eq!(game.run.max_hp, 87);
    assert_eq!(game.run.hp, 57);
}

#[test]
fn obtain_waffles_heal() {
    let (content, mut game) = obtaining(&["RELIC.LEES_WAFFLE", "RELIC.FAKE_LEES_WAFFLE"], &[]);
    game.run.hp = 50;
    game.obtain_relic(&content, relic_named(&content, "RELIC.FAKE_LEES_WAFFLE"));
    assert_eq!(game.run.hp, 58);
    assert_eq!(game.run.max_hp, 80);
    game.run.hp = 79;
    game.obtain_relic(&content, relic_named(&content, "RELIC.FAKE_LEES_WAFFLE"));
    assert_eq!(game.run.hp, 80);
    game.run.hp = 10;
    game.obtain_relic(&content, relic_named(&content, "RELIC.LEES_WAFFLE"));
    assert_eq!(game.run.max_hp, 87);
    assert_eq!(game.run.hp, 87);
}

#[test]
fn obtain_energy_relic_then_lose_it() {
    let (content, mut game) = started(7);
    let ectoplasm = relic_named(&content, "RELIC.ECTOPLASM");
    game.obtain_relic(&content, ectoplasm);
    assert_eq!(game.run.energy, 4);
    let last = game.run.relics.len() - 1;
    game.remove_relic_at(&content, last);
    assert_eq!(game.run.energy, 3);
    assert_eq!(game.run.relics, vec![0]);
}

#[test]
fn obtain_old_coin_gives_gold() {
    let (content, mut game) = obtaining(&["RELIC.OLD_COIN", "RELIC.SILKEN_TRESS"], &[]);
    game.obtain_relic(&content, relic_named(&content, "RELIC.OLD_COIN"));
    assert_eq!(game.run.gold, 399);
    game.obtain_relic(&content, relic_named(&content, "RELIC.SILKEN_TRESS"));
    assert_eq!(game.run.gold, 0);
}

#[test]
fn obtain_old_coin_with_bowler_hat() {
    let (content, mut game) = obtaining(&["RELIC.OLD_COIN"], &[]);
    with_relic(&mut game, &content, "RELIC.BOWLER_HAT");
    game.obtain_relic(&content, relic_named(&content, "RELIC.OLD_COIN"));
    assert_eq!(game.run.gold, 99 + 375);
}

#[test]
fn obtain_potion_belt_adds_slots() {
    let (content, mut game) = obtaining(&["RELIC.POTION_BELT"], &[]);
    game.obtain_relic(&content, relic_named(&content, "RELIC.POTION_BELT"));
    assert_eq!(game.run.potions, vec![None; 5]);
}

#[test]
fn obtain_ticket_and_candle_set_counters() {
    let (content, mut game) = obtaining(&["RELIC.WONGOS_MYSTERY_TICKET", "RELIC.PUMPKIN_CANDLE"], &[]);
    game.obtain_relic(&content, relic_named(&content, "RELIC.WONGOS_MYSTERY_TICKET"));
    assert_eq!(game.wongo_combats, Some(0));
    game.obtain_relic(&content, relic_named(&content, "RELIC.PUMPKIN_CANDLE"));
    assert_eq!(game.pumpkin_candle, 5);
}

#[test]
fn obtain_shears_cost_hp_and_remove_cards() {
    let (content, mut game) = obtaining(&["RELIC.PRECARIOUS_SHEARS", "RELIC.BIIIG_HUG"], &[]);
    game.obtain_relic(&content, relic_named(&content, "RELIC.PRECARIOUS_SHEARS"));
    assert_eq!(game.run.hp, 64);
    assert!(matches!(game.phase, Phase::RemoveCards(2, 0, false)));
    game.run.hp = 10;
    game.obtain_relic(&content, relic_named(&content, "RELIC.PRECARIOUS_SHEARS"));
    assert_eq!(game.run.hp, 0);
    game.obtain_relic(&content, relic_named(&content, "RELIC.BIIIG_HUG"));
    assert!(matches!(game.phase, Phase::RemoveCards(4, 0, false)));
    assert_eq!(game.run.hp, 0);
}

#[test]
fn obtain_cookie_lets_the_player_upgrade() {
    let (content, mut game) = obtaining(&["RELIC.YUMMY_COOKIE", "RELIC.POMANDER"], &[]);
    game.obtain_relic(&content, relic_named(&content, "RELIC.YUMMY_COOKIE"));
    assert!(matches!(game.phase, Phase::UpgradeCards(4, false)));
    game.obtain_relic(&content, relic_named(&content, "RELIC.POMANDER"));
    assert!(matches!(game.phase, Phase::UpgradeCards(1, false)));
}

#[test]
fn obtain_whetstone_upgrades_two_attacks() {
    let (content, mut game) = obtaining(&["RELIC.WHETSTONE"], &[]);
    game.obtain_relic(&content, relic_named(&content, "RELIC.WHETSTONE"));
    let upgraded: Vec<&Card> = game.run.deck.iter().filter(|c| c.upgrades == 1).collect();
    assert_eq!(upgraded.len(), 2);
    assert!(upgraded.iter().all(|c| c.id == 0 || c.id == 2));
}

#[test]
fn obtain_fragrant_mushroom_costs_hp_and_upgrades_three() {
    let (content, mut game) = obtaining(&["RELIC.FRAGRANT_MUSHROOM"], &[]);
    game.obtain_relic(&content, relic_named(&content, "RELIC.FRAGRANT_MUSHROOM"));
    assert_eq!(game.run.hp, 65);
    assert_eq!(game.run.deck.iter().filter(|c| c.upgrades == 1).count(), 3);
}

#[test]
fn obtain_sand_castle_upgrades_the_whole_small_deck() {
    let (content, mut game) = obtaining(&["RELIC.SAND_CASTLE"], &[]);
    game.obtain_relic(&content, relic_named(&content, "RELIC.SAND_CASTLE"));
    assert!(game.run.deck.iter().all(|c| c.upgrades == 1));
}

#[test]
fn obtain_paels_horn_adds_two_relax() {
    let (content, mut game) =
        obtaining(&["RELIC.PAELS_HORN"], &[("CARD.RELAX", CardType::Skill, CardRarity::Special)]);
    let relax = (content.cards.len() - 1) as u16;
    let next = game.next_card;
    game.obtain_relic(&content, relic_named(&content, "RELIC.PAELS_HORN"));
    assert_eq!(game.run.deck.len(), 8);
    assert_eq!(game.run.deck[6].id, relax);
    assert_eq!(game.run.deck[7].id, relax);
    assert_eq!(game.run.deck[6].instance, next);
    assert_eq!(game.run.deck[7].instance, next + 1);
}

#[test]
fn obtain_gift_without_its_card_adds_nothing() {
    let (content, mut game) = obtaining(&["RELIC.JEWELRY_BOX"], &[]);
    game.obtain_relic(&content, relic_named(&content, "RELIC.JEWELRY_BOX"));
    assert_eq!(game.run.deck.len(), 6);
}

#[test]
fn obtain_distinguished_cape_trades_max_hp_for_apparitions() {
    let (content, mut game) = obtaining(
        &["RELIC.DISTINGUISHED_CAPE"],
        &[("CARD.APPARITION", CardType::Skill, CardRarity::Special)],
    );
    game.obtain_relic(&content, relic_named(&content, "RELIC.DISTINGUISHED_CAPE"));
    assert_eq!(game.run.max_hp, 71);
    assert_eq!(game.run.hp, 71);
    assert_eq!(game.run.deck.len(), 9);
}

#[test]
fn obtain_cursed_pearl_and_blood_rose() {
    let (content, mut game) = obtaining(
        &["RELIC.CURSED_PEARL", "RELIC.BLOOD_SOAKED_ROSE"],
        &[
            ("CARD.GREED", CardType::Curse, CardRarity::Special),
            ("CARD.ENTHRALLED", CardType::Curse, CardRarity::Special),
        ],
    );
    game.obtain_relic(&content, relic_named(&content, "RELIC.CURSED_PEARL"));
    assert_eq!(game.run.gold, 99 + 333);
    assert_eq!(game.run.deck.len(), 7);
    game.obtain_relic(&content, relic_named(&content, "RELIC.BLOOD_SOAKED_ROSE"));
    assert_eq!(game.run.energy, 4);
    assert_eq!(game.run.deck.len(), 8);
}

#[test]
fn obtain_calling_bell_offers_three_relics() {
    let (content, mut game) = obtaining(
        &["RELIC.CALLING_BELL"],
        &[("CARD.CURSE_OF_THE_BELL", CardType::Curse, CardRarity::Special)],
    );
    game.obtain_relic(&content, relic_named(&content, "RELIC.CALLING_BELL"));
    assert_eq!(game.run.deck.len(), 7);
    match &game.phase {
        Phase::Rewards(rewards) => {
            assert_eq!(rewards.gold, 0);
            assert!(rewards.cards.is_empty());
            assert!(rewards.potions.is_empty());
            assert_eq!(rewards.relics.len(), 3);
            for id in &rewards.relics {
                assert!(game.relic_deques.iter().all(|bag| !bag.contains(id)));
            }
        }
        _ => panic!("expected a reward screen"),
    }
}

#[test]
fn obtain_small_capsule_offers_one_relic() {
    let (content, mut game) = obtaining(&["RELIC.SMALL_CAPSULE"], &[]);
    game.obtain_relic(&content, relic_named(&content, "RELIC.SMALL_CAPSULE"));
    match &game.phase {
        Phase::Rewards(rewards) => assert_eq!(rewards.relics.len(), 1),
        _ => panic!("expected a reward screen"),
    }
}

#[test]
fn obtain_cauldron_offers_potions() {
    let (content, mut game) = obtaining(&["RELIC.CAULDRON"], &[]);
    game.obtain_relic(&content, relic_named(&content, "RELIC.CAULDRON"));
    match &game.phase {
        Phase::Rewards(rewards) => {
            assert!(!rewards.potions.is_empty());
            assert!(rewards.potions.len() <= 5);
            assert!(rewards.potions.iter().all(|p| [0u16, 1, 2].contains(p)));
        }
        _ => panic!("expected a reward screen"),
    }
}

#[test]
fn obtain_alchemical_coffer_fills_new_slots() {
    let (content, mut game) = obtaining(&["RELIC.ALCHEMICAL_COFFER"], &[]);
    game.obtain_relic(&content, relic_named(&content, "RELIC.ALCHEMICAL_COFFER"));
    assert_eq!(game.run.potions.len(), 7);
    assert!(game.run.potions[3..].iter().all(|slot| slot.is_some()));
}

#[test]
fn obtain_dollys_mirror_lets_the_player_copy_a_card() {
    let (content, mut game) = obtaining(&["RELIC.DOLLYS_MIRROR"], &[]);
    game.obtain_relic(&content, relic_named(&content, "RELIC.DOLLYS_MIRROR"));
    match &game.phase {
        Phase::ChooseCards(cards, 1, false) => assert_eq!(cards, &game.run.deck),
        _ => panic!("expected a card choice"),
    }
}

#[test]
fn obtain_arcane_scroll_adds_a_rare() {
    let (content, mut game) = obtaining(&["RELIC.ARCANE_SCROLL"], &[]);
    game.obtain_relic(&content, relic_named(&content, "RELIC.ARCANE_SCROLL"));
    assert_eq!(game.run.deck.len(), 7);
    let added = game.run.deck[6].id;
    assert!(added == 6 || added == 10);
}

#[test]
fn obtain_orrery_offers_five_card_rewards() {
    let (content, mut game) = obtaining(&["RELIC.ORRERY"], &[]);
    game.run.act = 1;
    game.obtain_relic(&content, relic_named(&content, "RELIC.ORRERY"));
    match &game.phase {
        Phase::Rewards(rewards) => {
            assert!(!rewards.cards.is_empty());
            assert_eq!(rewards.card_rewards.len(), 4);
            assert!(rewards.card_rewards.iter().all(|r| *r == CardReward::Standard(Room::Combat)));
        }
        _ => panic!("expected a reward screen"),
    }
}

#[test]
fn obtain_glass_eye_offers_fixed_rarities() {
    let (content, mut game) = obtaining(&["RELIC.GLASS_EYE"], &[]);
    game.run.act = 1;
    game.obtain_relic(&content, relic_named(&content, "RELIC.GLASS_EYE"));
    match &game.phase {
        Phase::Rewards(rewards) => {
            assert!(rewards.cards.iter().all(|c| content.cards[c.id as usize].rarity == CardRarity::Common));
            assert_eq!(
                rewards.card_rewards,
                vec![
                    CardReward::Fixed(0, CardRarity::Common),
                    CardReward::Fixed(0, CardRarity::Uncommon),
                    CardReward::Fixed(0, CardRarity::Uncommon),
                    CardReward::Fixed(0, CardRarity::Rare),
                ]
            );
        }
        _ => panic!("expected a reward screen"),
    }
}

#[test]
fn obtain_byrdpip_hatches_eggs() {
    let (content, mut game) = obtaining(
        &["RELIC.BYRDPIP"],
        &[
            ("CARD.BYRDONIS_EGG", CardType::Quest, CardRarity::Special),
            ("CARD.BYRD_SWOOP", CardType::Attack, CardRarity::Special),
        ],
    );
    let egg = (content.cards.len() - 2) as u16;
    game.run.deck.push(Card { id: egg, upgrades: 0, instance: 40, flags: 0 });
    game.obtain_relic(&content, relic_named(&content, "RELIC.BYRDPIP"));
    assert_eq!(game.run.deck[6], Card { id: egg + 1, upgrades: 0, instance: 40, flags: 0 });
    assert_eq!(game.run.deck[0].id, 0);
}

#[test]
fn obtain_neows_talisman_upgrades_last_strike_and_defend() {
    let (content, mut game) = obtaining(&["RELIC.NEOWS_TALISMAN"], &[]);
    game.obtain_relic(&content, relic_named(&content, "RELIC.NEOWS_TALISMAN"));
    let upgrades: Vec<u8> = game.run.deck.iter().map(|c| c.upgrades).collect();
    assert_eq!(upgrades, vec![0, 0, 1, 0, 1, 0]);
}

#[test]
fn obtain_archaic_tooth_turns_bash_into_break() {
    let (content, mut game) =
        obtaining(&["RELIC.ARCHAIC_TOOTH"], &[("CARD.BREAK", CardType::Attack, CardRarity::Special)]);
    let bash_instance = game.run.deck[5].instance;
    game.run.deck[5].upgrades = 1;
    game.obtain_relic(&content, relic_named(&content, "RELIC.ARCHAIC_TOOTH"));
    let broken = (content.cards.len() - 1) as u16;
    assert_eq!(game.run.deck[5].id, broken);
    assert_eq!(game.run.deck[5].upgrades, 0);
    assert_eq!(game.run.deck[5].instance, bash_instance);
}

#[test]
fn obtain_touch_of_orobas_upgrades_the_starter_relic() {
    let (content, mut game) = obtaining(&["RELIC.TOUCH_OF_OROBAS", "RELIC.BLACK_BLOOD"], &[]);
    let touch = relic_named(&content, "RELIC.TOUCH_OF_OROBAS");
    game.obtain_relic(&content, touch);
    assert_eq!(game.run.relics, vec![relic_named(&content, "RELIC.BLACK_BLOOD"), touch]);
}

#[test]
fn obtain_touch_of_orobas_without_a_starter_changes_nothing() {
    let (content, mut game) = obtaining(&["RELIC.TOUCH_OF_OROBAS"], &[]);
    let touch = relic_named(&content, "RELIC.TOUCH_OF_OROBAS");
    game.obtain_relic(&content, touch);
    assert_eq!(game.run.relics, vec![0, touch]);
}

#[test]
fn obtain_phial_holster_adds_a_slot_and_fills_empties() {
    let (content, mut game) = obtaining(&["RELIC.PHIAL_HOLSTER"], &[]);
    game.run.potions = vec![Some(0), None, Some(0)];
    game.obtain_relic(&content, relic_named(&content, "RELIC.PHIAL_HOLSTER"));
    assert_eq!(game.run.potions.len(), 4);
    assert_eq!(game.run.potions[0], Some(0));
    assert!(game.run.potions[1].is_some());
    assert_eq!(game.run.potions[2], Some(0));
    assert!(game.run.potions[3].is_some());
    assert_ne!(game.run.potions[1], game.run.potions[3]);
}

#[test]
fn obtain_phial_holster_with_sozu_leaves_slots_empty() {
    let (content, mut game) = obtaining(&["RELIC.PHIAL_HOLSTER", "RELIC.SOZU"], &[]);
    with_relic(&mut game, &content, "RELIC.SOZU");
    game.obtain_relic(&content, relic_named(&content, "RELIC.PHIAL_HOLSTER"));
    assert_eq!(game.run.potions, vec![None; 4]);
}

#[test]
fn obtain_hefty_tablet_offers_the_rares_and_adds_an_injury() {
    let (content, mut game) =
        obtaining(&["RELIC.HEFTY_TABLET"], &[("CARD.INJURY", CardType::Curse, CardRarity::Special)]);
    game.obtain_relic(&content, relic_named(&content, "RELIC.HEFTY_TABLET"));
    assert_eq!(game.run.deck.len(), 7);
    match &game.phase {
        Phase::ChooseCards(cards, 1, true) => {
            let mut ids: Vec<u16> = cards.iter().map(|c| c.id).collect();
            ids.sort();
            assert_eq!(ids, vec![6, 10]);
            assert!(cards.iter().all(|c| c.upgrades == 0 && c.instance == 0));
        }
        _ => panic!("expected a card choice"),
    }
}

#[test]
fn obtain_lead_paperweight_offers_colorless_cards() {
    let (content, mut game) = obtaining(&["RELIC.LEAD_PAPERWEIGHT"], &[]);
    game.run.act = 1;
    game.obtain_relic(&content, relic_named(&content, "RELIC.LEAD_PAPERWEIGHT"));
    assert!(matches!(game.resume, Some(Phase::OnMap)));
    match &game.phase {
        Phase::ChooseCards(cards, 1, true) => {
            assert_eq!(cards.len(), 1);
            assert_eq!(cards[0].id, 9);
        }
        _ => panic!("expected a card choice"),
    }
}

#[test]
fn obtain_lost_coffer_offers_cards_and_a_potion() {
    let (content, mut game) = obtaining(&["RELIC.LOST_COFFER"], &[]);
    game.run.act = 1;
    game.obtain_relic(&content, relic_named(&content, "RELIC.LOST_COFFER"));
    match &game.phase {
        Phase::Rewards(rewards) => {
            assert!(!rewards.cards.is_empty());
            assert!(rewards.cards.len() <= 3);
            assert!(rewards.potions.len() <= 1);
            assert!(rewards.relics.is_empty());
        }
        _ => panic!("expected a reward screen"),
    }
}

#[test]
fn obtain_toy_box_offers_and_remembers_four_relics() {
    let (content, mut game) = obtaining(&["RELIC.TOY_BOX"], &[]);
    game.obtain_relic(&content, relic_named(&content, "RELIC.TOY_BOX"));
    match &game.phase {
        Phase::Rewards(rewards) => {
            assert_eq!(rewards.relics, game.toy_box_offers);
            assert!(rewards.relics.len() <= 4);
            assert!(!rewards.relics.is_empty());
        }
        _ => panic!("expected a reward screen"),
    }
}

#[test]
fn obtain_neows_bones_offers_two_listed_relics() {
    let (content, mut game) = obtaining(
        &["RELIC.NEOWS_BONES", "RELIC.GOLDEN_PEARL", "RELIC.POMANDER", "RELIC.LAVA_ROCK"],
        &[],
    );
    game.obtain_relic(&content, relic_named(&content, "RELIC.NEOWS_BONES"));
    assert!(game.pending_curse);
    match &game.phase {
        Phase::Rewards(rewards) => {
            assert_eq!(rewards.relics.len(), 2);
            assert_ne!(rewards.relics[0], rewards.relics[1]);
            for id in &rewards.relics {
                let name = content.relics[*id as usize].id.as_str();
                assert!(["RELIC.GOLDEN_PEARL", "RELIC.POMANDER", "RELIC.LAVA_ROCK", "RELIC.STONE_HUMIDIFIER"]
                    .contains(&name));
            }
        }
        _ => panic!("expected a reward screen"),
    }
}

#[test]
fn obtain_sere_talon_adds_curses_and_wishes() {
    let (content, mut game) = obtaining(
        &["RELIC.SERE_TALON"],
        &[
            ("CARD.WISH", CardType::Skill, CardRarity::Special),
            ("CARD.REGRET", CardType::Curse, CardRarity::Special),
            ("CARD.DOUBT", CardType::Curse, CardRarity::Special),
            ("CARD.SHAME", CardType::Curse, CardRarity::Special),
        ],
    );
    game.obtain_relic(&content, relic_named(&content, "RELIC.SERE_TALON"));
    assert_eq!(game.run.deck.len(), 6 + 2 + 3);
    let wish = 11u16;
    let curses: Vec<u16> = game.run.deck[6..8].iter().map(|c| c.id).collect();
    assert_ne!(curses[0], curses[1]);
    assert!(curses.iter().all(|&id| (12..=14).contains(&id)));
    assert!(game.run.deck[8..].iter().all(|c| c.id == wish));
}

#[test]
fn obtain_sere_talon_never_adds_the_bane() {
    let (content, mut game) =
        obtaining(&["RELIC.SERE_TALON"], &[("CARD.REGRET", CardType::Curse, CardRarity::Special)]);
    game.obtain_relic(&content, relic_named(&content, "RELIC.SERE_TALON"));
    assert_eq!(game.run.deck.len(), 7);
    assert_eq!(game.run.deck[6].id, 11);
}

#[test]
fn obtain_paels_tooth_keeps_a_small_deck() {
    let (content, mut game) = obtaining(&["RELIC.PAELS_TOOTH"], &[]);
    game.run.deck.truncate(4);
    game.run.deck[0].upgrades = 1;
    game.obtain_relic(&content, relic_named(&content, "RELIC.PAELS_TOOTH"));
    assert!(!game.paels_tooth);
    assert_eq!(game.run.deck.len(), 1);
    assert_eq!(game.run.deck[0].upgrades, 1);
    let names: Vec<&str> = game.paels_cards.iter().map(|c| content.cards[c.id as usize].id.as_str()).collect();
    assert_eq!(names, vec!["CARD.DEFEND", "CARD.STRIKE", "CARD.STRIKE"]);
}

#[test]
fn obtain_paels_tooth_asks_for_five_from_a_big_deck() {
    let (content, mut game) = obtaining(&["RELIC.PAELS_TOOTH"], &[]);
    game.obtain_relic(&content, relic_named(&content, "RELIC.PAELS_TOOTH"));
    assert!(game.paels_tooth);
    assert_eq!(game.run.deck.len(), 6);
    assert!(matches!(game.phase, Phase::RemoveCards(5, 0, false)));
}

#[test]
fn law_obtained_relic_not_pulled_example() {
    let (content, mut game) = started(7);
    let anchor = relic_named(&content, "RELIC.ANCHOR");
    game.obtain_relic(&content, anchor);
    for _ in 0..10 {
        if let Some(id) = game.pull_relic(&content, false, 0, false, false) {
            assert_ne!(id, anchor);
        }
    }
}

#[test]
fn law_energy_relic_round_trip_example() {
    let (content, mut game) = started(11);
    let sozu_like = relic_named(&content, "RELIC.ECTOPLASM");
    let relics = game.run.relics.clone();
    let energy = game.run.energy;
    game.obtain_relic(&content, sozu_like);
    game.remove_relic_at(&content, relics.len());
    assert_eq!(game.run.relics, relics);
    assert_eq!(game.run.energy, energy);
}

#[test]
fn obtain_sea_glass_with_one_character_offers_its_own_cards() {
    let (content, mut game) = obtaining(&["RELIC.SEA_GLASS"], &[]);
    game.run.act = 1;
    game.obtain_relic(&content, relic_named(&content, "RELIC.SEA_GLASS"));
    match &game.phase {
        Phase::ChooseCards(cards, 15, true) => {
            let ids: Vec<u16> = cards.iter().map(|c| c.id).collect();
            assert_eq!(ids.len(), 5);
            let mut sorted = ids.clone();
            sorted.sort();
            assert_eq!(sorted, vec![3, 4, 5, 6, 10]);
            assert!(ids[..2].iter().all(|&id| id == 3 || id == 4));
            assert_eq!(ids[2], 5);
        }
        _ => panic!("expected a card choice"),
    }
}

#[test]
fn obtain_sea_glass_offers_another_characters_cards() {
    let (mut content, _) = obtaining(&["RELIC.SEA_GLASS"], &[]);
    let mut other = CharacterDef {
        id: "CHARACTER.SILENT".to_string(),
        hp: 70,
        gold: 99,
        energy: 3,
        draw: 5,
        orb_slots: 0,
        deck: vec![(0, 0)],
        relics: vec![],
        relic_pool: vec![],
        cards: vec![9],
        potion_pool: vec![],
    };
    other.cards = vec![9];
    content.characters.push(other);
    let mut game = Game::new_character(&content, 7, 0).unwrap();
    game.run.act = 1;
    game.obtain_relic(&content, relic_named(&content, "RELIC.SEA_GLASS"));
    match &game.phase {
        Phase::ChooseCards(cards, 15, true) => {
            assert_eq!(cards.len(), 1);
            assert_eq!(cards[0].id, 9);
        }
        _ => panic!("expected a card choice"),
    }
}

fn reward_screen(gold: i32, potions: Vec<u16>, removals: u8) -> Phase {
    Phase::Rewards(Rewards { gold, cards: vec![], card_rewards: vec![], relics: vec![], potions, removals })
}

#[test]
fn take_reward_gold_takes_it_all() {
    let (content, mut game) = started(7);
    game.phase = reward_screen(25, vec![], 0);
    game.take_reward_gold(&content);
    assert_eq!(game.run.gold, 124);
    match &game.phase {
        Phase::Rewards(rewards) => assert_eq!(rewards.gold, 0),
        _ => panic!("expected a reward screen"),
    }
}

#[test]
fn take_reward_gold_in_parts() {
    let (content, mut game) = started(7);
    game.phase = reward_screen(30, vec![], 0);
    game.reward_gold_parts = vec![10, 20];
    game.take_reward_gold(&content);
    assert_eq!(game.run.gold, 109);
    assert_eq!(game.reward_gold_parts, vec![20]);
    match &game.phase {
        Phase::Rewards(rewards) => assert_eq!(rewards.gold, 20),
        _ => panic!("expected a reward screen"),
    }
}

#[test]
fn take_reward_gold_off_screen_does_nothing() {
    let (content, mut game) = started(7);
    game.take_reward_gold(&content);
    assert_eq!(game.run.gold, 99);
}

#[test]
fn take_reward_potion_fills_the_first_empty_slot() {
    let (content, mut game) = started(7);
    game.run.potions = vec![Some(0), None, None];
    game.phase = reward_screen(0, vec![1, 2], 0);
    game.take_reward_potion(&content, 1);
    assert_eq!(game.run.potions, vec![Some(0), Some(2), None]);
    match &game.phase {
        Phase::Rewards(rewards) => assert_eq!(rewards.potions, vec![1]),
        _ => panic!("expected a reward screen"),
    }
}

#[test]
fn take_reward_potion_with_full_slots_waits() {
    let (content, mut game) = started(7);
    game.run.potions = vec![Some(0), Some(0), Some(0)];
    game.phase = reward_screen(0, vec![1], 0);
    game.take_reward_potion(&content, 0);
    assert_eq!(game.pending_potion, Some(1));
    assert!(game.replacing_potion);
    assert_eq!(game.run.potions, vec![Some(0), Some(0), Some(0)]);
}

#[test]
fn take_reward_potion_with_sozu_throws_it_away() {
    let (content, mut game) = obtaining(&["RELIC.SOZU"], &[]);
    with_relic(&mut game, &content, "RELIC.SOZU");
    game.phase = reward_screen(0, vec![1], 0);
    game.take_reward_potion(&content, 0);
    assert_eq!(game.run.potions, vec![None, None, None]);
    assert_eq!(game.pending_potion, None);
    match &game.phase {
        Phase::Rewards(rewards) => assert!(rewards.potions.is_empty()),
        _ => panic!("expected a reward screen"),
    }
}

#[test]
fn take_reward_removal_opens_the_removal() {
    let (content, mut game) = started(7);
    game.phase = reward_screen(5, vec![], 2);
    game.take_reward_removal(&content);
    assert!(matches!(game.phase, Phase::RemoveCards(1, 0, true)));
    match &game.resume {
        Some(Phase::Rewards(rewards)) => {
            assert_eq!(rewards.removals, 1);
            assert_eq!(rewards.gold, 5);
        }
        _ => panic!("expected the reward screen to wait"),
    }
}

#[test]
fn rest_heals_and_leaves() {
    let (content, mut game) = started(7);
    game.run.act = 1;
    game.run.hp = 40;
    game.phase = Phase::Rest;
    game.rest(&content);
    assert_eq!(game.run.hp, 64);
    assert!(matches!(game.phase, Phase::OnMap));
    assert_eq!(game.rest_used & 1, 1);
}

#[test]
fn rest_with_tent_stays_at_the_site() {
    let (content, mut game) = started(7);
    with_relic(&mut game, &content, "RELIC.MINIATURE_TENT");
    game.run.act = 1;
    game.phase = Phase::Rest;
    game.rest_lift(&content);
    assert_eq!(game.girya, 1);
    assert!(matches!(game.phase, Phase::Rest));
    assert_eq!(game.rest_used & 8, 8);
}

#[test]
fn rest_smith_upgrades_the_card() {
    let (content, mut game) = started(7);
    game.phase = Phase::Rest;
    game.rest_smith(&content, 5);
    assert_eq!(game.run.deck[5].upgrades, 1);
    assert!(matches!(game.phase, Phase::OnMap));
    assert_eq!(game.rest_used, 2);
}

#[test]
fn rest_kindle_and_cook() {
    let (content, mut game) = started(7);
    game.pumpkin_candle = 252;
    game.rest_kindle(&content);
    assert_eq!(game.pumpkin_candle, 255);
    assert_eq!(game.rest_used, 32);
    game.rest_cook(&content);
    assert!(game.cooking);
    assert!(matches!(game.phase, Phase::RemoveCards(2, 0, true)));
}

#[test]
fn rest_hatch_obtains_the_byrdpip() {
    let (content, mut game) = obtaining(&["RELIC.BYRDPIP"], &[]);
    game.rest_hatch(&content);
    assert_eq!(game.run.relics, vec![0, relic_named(&content, "RELIC.BYRDPIP")]);
    assert_eq!(game.rest_used, 4);
    assert!(matches!(game.phase, Phase::OnMap));
}

#[test]
fn take_reward_card_adds_it_and_rolls_the_next() {
    let (content, mut game) = started(7);
    game.run.act = 1;
    game.rerolled_cards = true;
    game.phase = Phase::Rewards(Rewards {
        gold: 0,
        cards: vec![Card { id: 3, upgrades: 0, instance: 0, flags: 0 }],
        card_rewards: vec![CardReward::Standard(Room::Combat)],
        relics: vec![],
        potions: vec![],
        removals: 0,
    });
    game.take_reward_card(&content, 0);
    assert_eq!(game.run.deck.len(), 7);
    assert_eq!(game.run.deck[6].id, 3);
    assert!(!game.rerolled_cards);
    match &game.phase {
        Phase::Rewards(rewards) => {
            assert!(rewards.card_rewards.is_empty());
            assert!(!rewards.cards.is_empty());
        }
        _ => panic!("expected a reward screen"),
    }
}

#[test]
fn take_last_reward_card_empties_the_cards() {
    let (content, mut game) = started(7);
    game.run.act = 1;
    game.phase = Phase::Rewards(Rewards {
        gold: 0,
        cards: vec![Card { id: 4, upgrades: 1, instance: 0, flags: 0 }],
        card_rewards: vec![],
        relics: vec![],
        potions: vec![],
        removals: 0,
    });
    game.take_reward_card(&content, 0);
    assert_eq!(game.run.deck[6].id, 4);
    assert_eq!(game.run.deck[6].upgrades, 1);
    match &game.phase {
        Phase::Rewards(rewards) => assert!(rewards.cards.is_empty()),
        _ => panic!("expected a reward screen"),
    }
}

#[test]
fn ancient_relic_draws_from_the_pool_with_the_event_stream() {
    let (_, mut game) = started(7);
    game.event_rng = Some(lib::rng::Rng::from_seed(3));
    let pool = vec![2u16, 5, 7];
    let relic = game.ancient_relic(&pool);
    assert!(pool.contains(&relic));
    assert_eq!(game.event_rng.map(|r| r.count), Some(1));
}

#[test]
fn rewards_after_a_fight() {
    let (content, mut game) = started(7);
    game.run.act = 1;
    game.room = Room::Combat;
    let odds = game.potion_odds;
    let rewards = game.rewards(&content);
    assert!((10..=20).contains(&rewards.gold));
    assert!(!rewards.cards.is_empty() && rewards.cards.len() <= 3);
    assert!(rewards.relics.is_empty());
    assert_eq!(rewards.removals, 0);
    assert!(rewards.potions.len() <= 1);
    if rewards.potions.is_empty() {
        assert_eq!(game.potion_odds, odds + 10);
    } else {
        assert_eq!(game.potion_odds, odds - 10);
    }
}

#[test]
fn rewards_after_an_elite_bring_a_relic() {
    let (content, mut game) = started(9);
    game.run.act = 1;
    game.room = Room::Elite;
    game.reward_gold_parts = vec![5, 6];
    let rewards = game.rewards(&content);
    assert!((35 + 11..=45 + 11).contains(&rewards.gold));
    assert_eq!(rewards.relics.len(), 1);
    let relic = rewards.relics[0];
    assert!(game.relic_deques.iter().all(|bag| !bag.contains(&relic)));
}

#[test]
fn rewards_on_ascension_three_give_less_gold() {
    let (content, mut game) = started(5);
    game.run.act = 1;
    game.run.ascension = 3;
    game.room = Room::Boss;
    let rewards = game.rewards(&content);
    assert_eq!(rewards.gold, 75);
}

#[test]
fn rewards_after_the_last_boss_are_empty() {
    let (content, mut game) = started(7);
    game.run.act = 3;
    game.room = Room::Boss;
    let rewards = game.rewards(&content);
    assert_eq!(rewards.gold, 0);
    assert!(rewards.cards.is_empty());
    assert!(rewards.potions.is_empty());
    assert!(rewards.relics.is_empty());
}

#[test]
fn rewards_with_white_beast_statue_always_offer_a_potion() {
    let (content, mut game) = obtaining(&["RELIC.WHITE_BEAST_STATUE"], &[]);
    with_relic(&mut game, &content, "RELIC.WHITE_BEAST_STATUE");
    game.run.act = 1;
    game.room = Room::Combat;
    game.potion_odds = -1000;
    let rewards = game.rewards(&content);
    assert_eq!(rewards.potions.len(), 1);
    assert_eq!(game.potion_odds, -1010);
}

#[test]
fn reroll_cards_rolls_a_new_reward() {
    let (content, mut game) = started(7);
    game.run.act = 1;
    game.phase = Phase::Rewards(Rewards {
        gold: 12,
        cards: vec![Card { id: 6, upgrades: 0, instance: 0, flags: 0 }],
        card_rewards: vec![],
        relics: vec![],
        potions: vec![1],
        removals: 0,
    });
    game.reroll_cards(&content);
    assert!(game.rerolled_cards);
    match &game.phase {
        Phase::Rewards(rewards) => {
            assert_eq!(rewards.gold, 12);
            assert_eq!(rewards.potions, vec![1]);
            assert!(!rewards.cards.is_empty() && rewards.cards.len() <= 3);
            assert!(rewards.cards.iter().all(|c| [3u16, 4, 5, 6, 10].contains(&c.id)));
        }
        _ => panic!("expected a reward screen"),
    }
}

#[test]
fn rest_dig_obtains_a_relic_and_leaves() {
    let (content, mut game) = started(7);
    game.run.act = 1;
    game.phase = Phase::Rest;
    game.rest_dig(&content);
    assert_eq!(game.run.relics.len(), 2);
    assert_eq!(game.rest_used, 64);
    assert!(matches!(game.phase, Phase::OnMap));
}

fn relic_screen(relics: Vec<u16>) -> Phase {
    Phase::Rewards(Rewards { gold: 3, cards: vec![], card_rewards: vec![], relics, potions: vec![], removals: 0 })
}

#[test]
fn take_reward_relic_obtains_it_and_keeps_the_screen() {
    let (content, mut game) = started(7);
    let anchor = relic_named(&content, "RELIC.ANCHOR");
    let lantern = relic_named(&content, "RELIC.LANTERN");
    game.phase = relic_screen(vec![anchor, lantern]);
    game.take_reward_relic(&content, 0);
    assert_eq!(game.run.relics, vec![0, anchor]);
    match &game.phase {
        Phase::Rewards(rewards) => {
            assert_eq!(rewards.relics, vec![lantern]);
            assert_eq!(rewards.gold, 3);
        }
        _ => panic!("expected the reward screen"),
    }
    assert!(game.wax_relics.is_empty());
}

#[test]
fn take_reward_relic_that_opens_a_choice_leaves_the_screen_waiting() {
    let (content, mut game) = obtaining(&["RELIC.POMANDER"], &[]);
    let pomander = relic_named(&content, "RELIC.POMANDER");
    game.phase = relic_screen(vec![pomander]);
    game.take_reward_relic(&content, 0);
    assert!(matches!(game.phase, Phase::UpgradeCards(1, false)));
    match &game.resume {
        Some(Phase::Rewards(rewards)) => assert!(rewards.relics.is_empty()),
        _ => panic!("expected the reward screen to wait"),
    }
}

#[test]
fn take_reward_relic_from_the_toy_box_is_wax() {
    let (content, mut game) = started(7);
    let anchor = relic_named(&content, "RELIC.ANCHOR");
    game.toy_box_offers = vec![3, anchor];
    game.phase = relic_screen(vec![anchor]);
    game.take_reward_relic(&content, 0);
    assert_eq!(game.toy_box_offers, vec![3]);
    assert_eq!(game.wax_relics, vec![1]);
}

#[test]
fn take_last_reward_relic_brings_the_waiting_curse() {
    let (content, mut game) =
        obtaining(&[], &[("CARD.REGRET", CardType::Curse, CardRarity::Special)]);
    let anchor = relic_named(&content, "RELIC.ANCHOR");
    game.pending_curse = true;
    game.phase = relic_screen(vec![anchor]);
    game.take_reward_relic(&content, 0);
    assert!(!game.pending_curse);
    assert_eq!(game.run.deck.len(), 7);
    assert_eq!(game.run.deck[6].id, 11);
}

#[test]
fn golden_map_lists_its_rooms_in_one_lane() {
    let (_, game) = in_act(6);
    let map = game.golden_map();
    let rooms = [
        Room::Combat,
        Room::Unknown,
        Room::Combat,
        Room::Rest,
        Room::Combat,
        Room::Rest,
        Room::Unknown,
        Room::Treasure,
        Room::Unknown,
        Room::Treasure,
        Room::Unknown,
        Room::Shop,
        Room::Elite,
        Room::Rest,
        Room::Elite,
        Room::Rest,
    ];
    for (i, room) in rooms.iter().enumerate() {
        assert_eq!(map.nodes[i].floor as usize, i + 1);
        assert_eq!(map.nodes[i].lane, 3);
        assert_eq!(map.nodes[i].room, *room);
        assert_eq!(map.nodes[i].next, vec![i + 1]);
    }
    assert_eq!(map.nodes[16].floor, 17);
    assert_eq!(map.nodes[16].lane, 3);
    assert!(map.nodes[16].next.is_empty());
}

#[test]
fn golden_map_has_two_bosses_at_ascension_ten_on_the_last_act() {
    let (content, mut game) = started(6);
    game.run.ascension = 10;
    game.begin_act(&content, 2).unwrap();
    assert_eq!(game.run.act, 3);
    let map = game.golden_map();
    assert_eq!(map.nodes.len(), 18);
    assert_eq!(map.nodes[16].next, vec![17]);
    assert_eq!(map.nodes[17].floor, 18);
    assert_eq!(map.nodes[17].room, Room::Boss);
}

fn check_laid_out(game: &Game, length: u8, standard: bool, two: bool) {
    let nodes = &game.map.nodes;
    let bosses = if two { 2 } else { 1 };
    for i in 0..nodes.len() {
        for j in i + 1..nodes.len() {
            assert!((nodes[i].floor, nodes[i].lane) < (nodes[j].floor, nodes[j].lane));
        }
        let mut next = nodes[i].next.clone();
        next.sort();
        next.dedup();
        assert_eq!(next.len(), nodes[i].next.len());
        assert_eq!(nodes[i].floor == 0, standard && i == 0);
        if i < nodes.len() - bosses {
            assert!(nodes[i].floor < length);
        }
        let floor = nodes[i].floor;
        if floor == 1 {
            assert_eq!(nodes[i].room, Room::Combat);
        }
        if floor == length - 1 {
            assert_eq!(nodes[i].room, Room::Rest);
        }
        if floor == length - 7 {
            assert_eq!(nodes[i].room, Room::Treasure);
        }
        if nodes[i].room == Room::Rest {
            assert!(floor == length - 1 || (6..length - 3).contains(&floor));
        }
        if nodes[i].room == Room::Elite {
            assert!(floor >= 6);
        }
        if nodes[i].room == Room::Treasure {
            assert_eq!(floor, length - 7);
        }
        if nodes[i].room == Room::Boss {
            assert!(floor >= length);
        }
        if nodes[i].room == Room::Event {
            assert_eq!(floor, 0);
        }
    }
    let boss = &nodes[nodes.len() - bosses];
    assert_eq!(boss.lane, 3);
    assert_eq!(nodes[nodes.len() - 1].lane, 3);
    if standard {
        assert_eq!(nodes[0].lane, 3);
        assert_eq!(nodes[0].room, Room::Event);
    }
    assert_eq!(boss.floor, length);
    assert_eq!(boss.room, Room::Boss);
    if two {
        assert_eq!(boss.next, vec![nodes.len() - 1]);
        assert_eq!(nodes[nodes.len() - 1].floor, length + 1);
    } else {
        assert!(boss.next.is_empty());
    }
}

#[test]
fn begin_act_lays_out_the_map_by_floor_and_lane() {
    for seed in 0..6u64 {
        let (content, mut game) = started(seed);
        game.begin_act(&content, 0).unwrap();
        check_laid_out(&game, 14, true, false);
        game.begin_act(&content, 1).unwrap();
        check_laid_out(&game, 15, true, false);
        game.run.ascension = 10;
        game.begin_act(&content, 2).unwrap();
        check_laid_out(&game, 16, true, true);
        game.begin_act(&content, 3).unwrap();
        check_laid_out(&game, 14, false, false);
    }
}

#[test]
fn begin_act_keeps_the_rest_of_the_run() {
    let (content, mut game) = started(4);
    game.run.ascension = 3;
    game.run.gold = 123;
    game.next_card = 40;
    game.rarity_offset = 7;
    game.begin_act(&content, 0).unwrap();
    assert_eq!(game.run.ascension, 3);
    assert_eq!(game.run.gold, 123);
    assert_eq!(game.next_card, 40);
    assert_eq!(game.rarity_offset, 7);
    assert_eq!(game.run.potions.len(), 3);
}

#[test]
fn obtain_golden_compass_replaces_the_map() {
    let (content, mut game) = obtaining(&["RELIC.GOLDEN_COMPASS"], &[]);
    game.begin_act(&content, 0).unwrap();
    game.obtain_relic(&content, relic_named(&content, "RELIC.GOLDEN_COMPASS"));
    assert_eq!(game.golden_compass, Some(1));
    assert_eq!(game.map.nodes.len(), 17);
    assert_eq!(game.map.nodes[7].room, Room::Treasure);
}

#[test]
fn obtain_fur_coat_marks_up_to_seven_fights() {
    let (content, mut game) = obtaining(&["RELIC.FUR_COAT"], &[]);
    game.begin_act(&content, 0).unwrap();
    let fights: Vec<(u8, u8)> = game
        .map
        .nodes
        .iter()
        .filter(|n| n.room == Room::Combat || n.room == Room::Elite)
        .map(|n| (n.lane, n.floor))
        .collect();
    game.obtain_relic(&content, relic_named(&content, "RELIC.FUR_COAT"));
    assert_eq!(game.fur_coat_act, Some(1));
    assert_eq!(game.fur_coat.len(), fights.len().min(7));
    for mark in &game.fur_coat {
        assert!(fights.contains(mark));
    }
}

#[test]
fn obtain_dusty_tome_gives_an_upgraded_ancient_card() {
    let (mut content, _) = obtaining(&["RELIC.DUSTY_TOME"], &[("CARD.APOTHEOSIS_OLD", CardType::Skill, CardRarity::Ancient)]);
    let ancient = (content.cards.len() - 1) as u16;
    content.characters[0].cards.push(ancient);
    let mut game = Game::new_character(&content, 7, 0).unwrap();
    let before = game.run.deck.len();
    game.obtain_relic(&content, relic_named(&content, "RELIC.DUSTY_TOME"));
    assert_eq!(game.run.deck.len(), before + 1);
    let added = game.run.deck.last().unwrap();
    assert_eq!(added.id, ancient);
    assert_eq!(added.upgrades, 1);
}

#[test]
fn obtain_dusty_tome_skips_the_excluded_ancients() {
    let (mut content, _) = obtaining(&["RELIC.DUSTY_TOME"], &[("CARD.BREAK", CardType::Attack, CardRarity::Ancient)]);
    let excluded = (content.cards.len() - 1) as u16;
    content.characters[0].cards.push(excluded);
    let mut game = Game::new_character(&content, 7, 0).unwrap();
    let before = game.run.deck.clone();
    game.obtain_relic(&content, relic_named(&content, "RELIC.DUSTY_TOME"));
    assert_eq!(game.run.deck, before);
}

#[test]
fn rng_draws_the_splitmix64_sequence() {
    let mut rng = lib::rng::Rng { state: 0, count: 0 };
    assert_eq!(rng.next_u64(), 0xE220_A839_7B1D_CDAF);
    assert_eq!(rng.next_u64(), 0x6E78_9E6A_A1B9_65F4);
    assert_eq!(rng.count, 2);
    assert_eq!(rng.state, 0x9E37_79B9_7F4A_7C15u64.wrapping_mul(2));
}

#[test]
fn rng_shuffle_is_determined_by_the_stream() {
    let mut a = lib::rng::Rng::from_seed(42);
    let mut b = lib::rng::Rng::from_seed(42);
    let mut x: Vec<u32> = (0..20).collect();
    let mut y: Vec<u32> = (0..20).collect();
    a.shuffle(&mut x);
    b.shuffle(&mut y);
    assert_eq!(x, y);
    assert_eq!(a, b);
    assert_eq!(a.count, 19);
}

#[test]
fn card_rewards_move_the_rarity_offset() {
    for seed in 0..20u64 {
        let (content, mut game) = in_act(seed);
        let before = game.rarity_offset;
        let pool = vec![3u16, 4, 5, 6, 10];
        let cards = game.card_rewards(&content, &pool, 1, Room::Combat);
        assert_eq!(cards.len(), 1);
        let rare = content.cards[cards[0].id as usize].rarity == CardRarity::Rare;
        if rare {
            assert_eq!(game.rarity_offset, -500);
        } else {
            assert!(game.rarity_offset == -500 || game.rarity_offset == (before + 100).min(4000));
        }
    }
}

#[test]
fn obtain_preserved_fog_opens_three_removals_and_queues_a_folly() {
    let (content, mut game) = obtaining(&["RELIC.PRESERVED_FOG"], &[]);
    game.obtain_relic(&content, relic_named(&content, "RELIC.PRESERVED_FOG"));
    assert!(matches!(game.phase, Phase::RemoveCards(3, 0, false)));
    assert_eq!(game.run_queue.len(), 1);
    match &game.run_queue[0] {
        lib::state::RunEffect::AddCard(name, count) => {
            assert_eq!(name, "CARD.FOLLY");
            assert_eq!(*count, 1);
        }
    }
}

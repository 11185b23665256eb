use vstd::prelude::*;
use crate::content::{Content, Id};
use crate::deck::{card_added, gold_gained};
use crate::encounters::{pulled, refilled};
use crate::piles::all_cards;
use crate::rooms::rested;
use crate::state::{Card, Combat, Game, Expectation, Run};
use crate::game::fresh;
use crate::expect::choice_taken;
use crate::relics::{shifted, without_relic, relic_pulled, relic_removed_at, energy_relic, fallback, first_allowed};
use crate::content::CardType;
use crate::events::event_allowed_spec;
use crate::fight_rewards::{potion_chance_rolled, next_reward_roll};
use crate::rng::{UNIT, Rng};
use crate::rewards::{reward_rolls_drawn, roll_at, rolled_upgrade};
use crate::content::CardRarity;
use crate::crystal::{relics_offered, relics_pulled_in_turn, pulled_ids, lemma_pulls_all_given};
use crate::state::Room;
use crate::obtain::{taken_in, relic_effect, relic_obtained, plain_relic, growth_of, energized};

verus! {

/// Every card of the deck carries its own instance number, below the next one to give.
pub open spec fn instances_fresh(g: Game) -> bool {
    &&& g.next_card >= 1
    &&& forall|i: int| 0 <= i < g.run.deck@.len() ==> (#[trigger] g.run.deck@[i]).instance != 0
        && g.run.deck@[i].instance < g.next_card
    &&& forall|i: int, j: int| 0 <= i < j < g.run.deck@.len() ==> (#[trigger] g.run.deck@[i]).instance
        != (#[trigger] g.run.deck@[j]).instance
}

/// A relic taken from the bags is in none of them afterwards, so it is never offered
/// twice.
pub proof fn law_pulled_relic_gone(bag: Seq<Id>, id: Id)
    ensures
        !without_relic(bag, id).contains(id),
{
    broadcast use vstd::seq_lib::group_filter_ensures;

    let kept = without_relic(bag, id);
    if kept.contains(id) {
        let k = choose|k: int| 0 <= k < kept.len() && #[trigger] kept[k] == id;
    }
}

/// Taking a relic puts it at the end of the relics held and leaves it in no relic bag
/// of either set (before the relic's own effect acts; see `relic_obtained`).
pub proof fn law_taken_relic_held_last_and_unbagged(g: Game, mid: Game, id: Id)
    requires
        taken_in(g, mid, id),
    ensures
        mid.run.relics@.last() == id,
        forall|r: int| 0 <= r < 4 ==> !(#[trigger] mid.relic_deques@[r])@.contains(id),
        forall|r: int| 0 <= r < 4 ==> !(#[trigger] mid.shared_relic_deques@[r])@.contains(id),
{
    assert forall|r: int| 0 <= r < 4 implies !(#[trigger] mid.relic_deques@[r])@.contains(id) by {
        law_pulled_relic_gone(g.relic_deques@[r]@, id);
    }
    assert forall|r: int| 0 <= r < 4 implies !(#[trigger] mid.shared_relic_deques@[r])@.contains(id) by {
        law_pulled_relic_gone(g.shared_relic_deques@[r]@, id);
    }
}

/// Two fights drawn one after the other from a bag without repeats differ, unless the
/// bag ran out in between.
pub proof fn law_fights_differ_within_bag(
    content: &Content,
    bag: Seq<Id>,
    candidates: Seq<Id>,
    middle: Seq<Id>,
    last: Seq<Id>,
    first_previous: Option<Id>,
    second_previous: Option<Id>,
    first: Id,
    second: Id,
)
    requires
        refilled(bag, candidates).no_duplicates(),
        pulled(content, bag, candidates, middle, first_previous, first),
        middle.len() > 0,
        pulled(content, middle, candidates, last, second_previous, second),
    ensures
        first != second,
{
    broadcast use vstd::seq_lib::group_to_multiset_ensures;
    broadcast use vstd::multiset::group_multiset_axioms;

    let from = refilled(bag, candidates);
    from.lemma_multiset_has_no_duplicates();
    assert(from.to_multiset().count(first) == 1);
    assert(middle.to_multiset().count(first) == 0);
    assert(refilled(middle, candidates) == middle);
    assert(middle.contains(second));
    assert(middle.to_multiset().count(second) > 0);
}

/// Resting never lowers hp and never leaves it above max hp.
pub proof fn law_rest_within_max(g: Game, content: &Content)
    requires
        g.wf(content),
    ensures
        g.run.hp <= rested(g, content).0 <= rested(g, content).1,
        g.run.max_hp <= rested(g, content).1,
{
    assert(g.run.max_hp * 3 / 10 >= 0);
}

/// Gaining gold never loses any.
pub proof fn law_gold_never_lost(g: Game, content: &Content, amount: i32)
    ensures
        gold_gained(g, content, amount) >= g.run.gold,
{
}

/// Adding a card that has no instance number yet keeps every instance number in the
/// deck distinct and below the next one (while the counter has room).
pub proof fn law_add_card_keeps_instances(before: Game, after: Game, content: &Content, card: Card)
    requires
        instances_fresh(before),
        card_added(before, after, content, card),
        card.instance == 0,
        before.next_card < u32::MAX - 1,
    ensures
        instances_fresh(after),
{
    let n = before.run.deck@.len();
    let added = crate::deck::added_cards(before, content, card);
    assert(after.run.deck@ == before.run.deck@ + added);
    assert forall|i: int| 0 <= i < after.run.deck@.len() implies (#[trigger] after.run.deck@[i]).instance != 0
        && after.run.deck@[i].instance < after.next_card by {
        if i < n {
            assert(after.run.deck@[i] == before.run.deck@[i]);
        } else {
            assert(after.run.deck@[i] == added[i - n]);
        }
    }
    assert forall|i: int, j: int| 0 <= i < j < after.run.deck@.len() implies (#[trigger] after.run.deck@[i]).instance
        != (#[trigger] after.run.deck@[j]).instance by {
        if j < n {
            assert(after.run.deck@[i] == before.run.deck@[i]);
            assert(after.run.deck@[j] == before.run.deck@[j]);
        } else if i < n {
            assert(after.run.deck@[i] == before.run.deck@[i]);
            assert(after.run.deck@[j] == added[j - n]);
        } else {
            assert(after.run.deck@[i] == added[i - n]);
            assert(after.run.deck@[j] == added[j - n]);
        }
    }
}

/// Drawing a card and putting it in hand keeps the cards of the fight.
pub proof fn law_draw_to_hand_keeps_cards(start: Combat, drawn: Combat, end: Combat, card: Card)
    requires
        all_cards(start).count(card) > 0,
        all_cards(drawn) == all_cards(start).remove(card),
        all_cards(end) == all_cards(drawn).insert(card),
    ensures
        all_cards(end) == all_cards(start),
{
    broadcast use vstd::multiset::group_multiset_axioms;

    assert(all_cards(end) =~= all_cards(start));
}


/// A new run numbers its cards one by one: every instance is distinct and below the
/// next one to give.
pub proof fn law_new_run_instances_fresh(g: Game, content: &Content, seed: u64, character: Id, ascension: u8)
    requires
        character < content.characters@.len(),
        Game::started(g, content, seed, character, ascension),
        content.characters@[character as int].deck@.len() + 1 < u32::MAX,
    ensures
        instances_fresh(g),
{
    let n = content.characters@[character as int].deck@.len();
    assert forall|i: int| 0 <= i < g.run.deck@.len() implies (#[trigger] g.run.deck@[i]).instance == i + 1 by {
        if i == n {
        } else {
            assert(g.run.deck@[i].instance == i + 1);
        }
    }
    assert forall|i: int, j: int| 0 <= i < j < g.run.deck@.len() implies (#[trigger] g.run.deck@[i]).instance
        != (#[trigger] g.run.deck@[j]).instance by {
        assert(g.run.deck@[i].instance == i + 1);
        assert(g.run.deck@[j].instance == j + 1);
    }
}

/// A scripted choice is only ever taken when it is one of the branches.
pub proof fn law_choice_in_range(e: Expectation, count: usize)
    ensures
        choice_taken(e, count) matches Some(c) ==> c < count,
{
}

/// When relic `index` is lost, each mark (wax or melted) on another relic still points
/// at that same relic.
pub proof fn law_marks_follow_relics(relics: Seq<Id>, marks: Seq<usize>, index: usize)
    requires
        index < relics.len(),
        forall|k: int| 0 <= k < marks.len() ==> #[trigger] marks[k] < relics.len(),
    ensures
        forall|j: int| 0 <= j < shifted(marks, index).len() ==> {
            let m = #[trigger] shifted(marks, index)[j];
            &&& m < relics.remove(index as int).len()
            &&& exists|k: int| 0 <= k < marks.len() && marks[k] != index && relics.remove(index as int)[m as int]
                == relics[marks[k] as int]
        },
    decreases marks.len(),
{
    if marks.len() > 0 {
        let rest = marks.drop_last();
        law_marks_follow_relics(relics, rest, index);
        let x = marks.last();
        let s = shifted(marks, index);
        let r = shifted(rest, index);
        assert forall|j: int| 0 <= j < s.len() implies {
            let m = #[trigger] s[j];
            &&& m < relics.remove(index as int).len()
            &&& exists|k: int| 0 <= k < marks.len() && marks[k] != index && relics.remove(index as int)[m as int]
                == relics[marks[k] as int]
        } by {
            if j < r.len() {
                assert(s[j] == r[j]);
                let m = r[j];
                let k = choose|k: int| 0 <= k < rest.len() && rest[k] != index && relics.remove(index as int)[m as int]
                    == relics[rest[k] as int];
                assert(marks[k] == rest[k]);
            } else {
                let k = marks.len() - 1;
                assert(marks[k] == x);
                assert(x < relics.len());
            }
        }
    }
}

/// A relic once obtained is in no relic bag, so no later pull from the bags offers it
/// again.
pub proof fn law_obtained_relic_not_pulled(
    g: Game,
    mid: Game,
    after: Game,
    content: &Content,
    id: Id,
    shared: bool,
    rarity: usize,
    back: bool,
    shop: bool,
    pulled_id: Id,
)
    requires
        taken_in(g, mid, id),
        relic_pulled(mid, after, content, shared, rarity, back, shop, Some(pulled_id)),
    ensures
        pulled_id != id,
{
    let (k, i) = choose|k: int, i: usize|
        0 <= k < fallback(rarity).len() && (forall|j: int|
            0 <= j < k ==> first_allowed(
                #[trigger] mid.bags(shared)@[fallback(rarity)[j] as int]@,
                content,
                shop,
                back,
                None,
            )) && first_allowed(mid.bags(shared)@[fallback(rarity)[k] as int]@, content, shop, back, Some(i))
            && mid.bags(shared)@[fallback(rarity)[k] as int]@[i as int] == pulled_id;
    let r = fallback(rarity)[k] as int;
    assert(0 <= r < 4);
    let bag = mid.bags(shared)@[r]@;
    assert(i < bag.len());
    if pulled_id == id {
        if shared {
            law_pulled_relic_gone(g.shared_relic_deques@[r]@, id);
            assert(bag == without_relic(g.shared_relic_deques@[r]@, id));
        } else {
            law_pulled_relic_gone(g.relic_deques@[r]@, id);
            assert(bag == without_relic(g.relic_deques@[r]@, id));
        }
        assert(bag.contains(bag[i as int]));
    }
}

/// A list of relic indices all below `index` is unchanged when relic `index` is given up.
proof fn lemma_shifted_below(marks: Seq<usize>, index: usize)
    requires
        forall|k: int| 0 <= k < marks.len() ==> #[trigger] marks[k] < index,
    ensures
        shifted(marks, index) == marks,
    decreases marks.len(),
{
    if marks.len() > 0 {
        lemma_shifted_below(marks.drop_last(), index);
        assert(marks.drop_last().push(marks.last()) =~= marks);
    }
}

/// Obtaining an energy relic and then giving it up again (the last relic held, when no
/// wax or melted mark names it or anything past the relics held before) gives back the
/// run as it was: the same relics, energy and marks, and nothing else changed but the
/// relic bags, which no longer hold that relic.
pub proof fn law_energy_relic_round_trip(
    g: Game,
    held: Game,
    back: Game,
    content: &Content,
    id: Id,
)
    requires
        g.wf(content),
        id < content.relics@.len(),
        energy_relic(content.relics@[id as int].id@),
        g.run.energy < u8::MAX,
        forall|k: int| 0 <= k < g.wax_relics@.len() ==> #[trigger] g.wax_relics@[k] < g.run.relics@.len(),
        forall|k: int| 0 <= k < g.melted_relics@.len() ==> #[trigger] g.melted_relics@[k] < g.run.relics@.len(),
        relic_obtained(g, held, content, id),
        relic_removed_at(held, back, content, g.run.relics.len()),
    ensures
        back.run.relics@ == g.run.relics@,
        back.run.energy == g.run.energy,
        back.wax_relics@ == g.wax_relics@,
        back.melted_relics@ == g.melted_relics@,
        back.run == (Run { relics: back.run.relics, ..g.run }),
        back == (Game {
            run: back.run,
            wax_relics: back.wax_relics,
            melted_relics: back.melted_relics,
            relic_deques: back.relic_deques,
            shared_relic_deques: back.shared_relic_deques,
            ..g
        }),
{
    let name = content.relics@[id as int].id@;
    let index = g.run.relics.len();
    let mid = choose|mid: Game| #[trigger] taken_in(g, mid, id) && mid.wf(content) && relic_effect(mid, held, content, name);
    lemma_energy_relic_plain(name);
    assert(held == energized(mid));
    assert(held.run.relics@ == g.run.relics@.push(id));
    assert(held.run.relics@[index as int] == id);
    assert(held.run.relics@.remove(index as int) =~= g.run.relics@);
    assert(!held.melted_relics@.contains(index)) by {
        if held.melted_relics@.contains(index) {
            let k = choose|k: int| 0 <= k < held.melted_relics@.len() && held.melted_relics@[k] == index;
            assert(g.melted_relics@[k] < index);
        }
    }
    lemma_shifted_below(g.wax_relics@, index);
    lemma_shifted_below(g.melted_relics@, index);
}

/// An energy relic is a plain relic whose effect is one more energy.
proof fn lemma_energy_relic_plain(name: Seq<char>)
    requires
        energy_relic(name),
    ensures
        plain_relic(name),
        growth_of(name) == 0,
        name != "RELIC.LEES_WAFFLE"@,
        name != "RELIC.FAKE_LEES_WAFFLE"@,
{
    reveal_strlit("RELIC.BLESSED_ANTLER");
    reveal_strlit("RELIC.ECTOPLASM");
    reveal_strlit("RELIC.PHILOSOPHERS_STONE");
    reveal_strlit("RELIC.PRISMATIC_GEM");
    reveal_strlit("RELIC.SOZU");
    reveal_strlit("RELIC.SPIKED_GAUNTLETS");
    reveal_strlit("RELIC.VELVET_CHOKER");
    reveal_strlit("RELIC.WHISPERING_EARRING");
    reveal_strlit("RELIC.STRAWBERRY");
    reveal_strlit("RELIC.PEAR");
    reveal_strlit("RELIC.MANGO");
    reveal_strlit("RELIC.FAKE_MANGO");
    reveal_strlit("RELIC.BIG_MUSHROOM");
    reveal_strlit("RELIC.NUTRITIOUS_OYSTER");
    reveal_strlit("RELIC.LOOMING_FRUIT");
    reveal_strlit("RELIC.LEES_WAFFLE");
    reveal_strlit("RELIC.FAKE_LEES_WAFFLE");
    assert("RELIC.BLESSED_ANTLER"@.len() == 20);
    assert("RELIC.ECTOPLASM"@.len() == 15);
    assert("RELIC.PHILOSOPHERS_STONE"@.len() == 24);
    assert("RELIC.PRISMATIC_GEM"@.len() == 19);
    assert("RELIC.SOZU"@.len() == 10);
    assert("RELIC.SPIKED_GAUNTLETS"@.len() == 22);
    assert("RELIC.VELVET_CHOKER"@.len() == 19);
    assert("RELIC.WHISPERING_EARRING"@.len() == 24);
    assert("RELIC.STRAWBERRY"@.len() == 16);
    assert("RELIC.PEAR"@.len() == 10);
    assert("RELIC.MANGO"@.len() == 11);
    assert("RELIC.FAKE_MANGO"@.len() == 16);
    assert("RELIC.BIG_MUSHROOM"@.len() == 18);
    assert("RELIC.NUTRITIOUS_OYSTER"@.len() == 23);
    assert("RELIC.LOOMING_FRUIT"@.len() == 19);
    assert("RELIC.LEES_WAFFLE"@.len() == 17);
    assert("RELIC.FAKE_LEES_WAFFLE"@.len() == 22);
    assert("RELIC.PRISMATIC_GEM"@[6] != "RELIC.LOOMING_FRUIT"@[6]);
    assert("RELIC.SOZU"@[6] != "RELIC.PEAR"@[6]);
    assert("RELIC.SPIKED_GAUNTLETS"@[6] != "RELIC.FAKE_LEES_WAFFLE"@[6]);
    assert("RELIC.VELVET_CHOKER"@[6] != "RELIC.LOOMING_FRUIT"@[6]);
}


/// A new run is determined by its inputs: two runs started from the same content, seed,
/// character and ascension (see `Game::started`) agree on every field, each list by its
/// contents: the record, the deck, the relics, the potion slots, both sets of relic
/// bags, the card numbering, the random streams and everything else a new run holds.
pub proof fn law_start_is_determined(g1: Game, g2: Game, content: &Content, seed: u64, character: Id, ascension: u8)
    requires
        character < content.characters@.len(),
        content.characters@[character as int].deck@.len() + 1 < u32::MAX,
        Game::started(g1, content, seed, character, ascension),
        Game::started(g2, content, seed, character, ascension),
    ensures
        g1.run.deck@ == g2.run.deck@,
        g1.run.relics@ == g2.run.relics@,
        g1.run.potions@ == g2.run.potions@,
        g1.run == (Run { deck: g1.run.deck, relics: g1.run.relics, potions: g1.run.potions, ..g2.run }),
        forall|r: int| 0 <= r < 4 ==> (#[trigger] g1.relic_deques@[r])@ == g2.relic_deques@[r]@,
        forall|r: int| 0 <= r < 4 ==> (#[trigger] g1.shared_relic_deques@[r])@ == g2.shared_relic_deques@[r]@,
        g1.rngs == g2.rngs,
        g1.next_card == g2.next_card,
        fresh(g1, seed) && fresh(g2, seed),
{
    let n = content.characters@[character as int].deck@.len();
    assert(g1.run.deck@.len() == g2.run.deck@.len());
    assert forall|i: int| 0 <= i < g1.run.deck@.len() implies g1.run.deck@[i] == g2.run.deck@[i] by {
        if i == n {
            let c1 = g1.run.deck@[i];
            let c2 = g2.run.deck@[i];
            let names = content.card_names();
            if c1.id < c2.id {
                assert(names[c1.id as int] == "CARD.ASCENDERS_BANE"@);
            } else if c2.id < c1.id {
                assert(names[c2.id as int] == "CARD.ASCENDERS_BANE"@);
            }
        }
    }
    assert(g1.run.deck@ =~= g2.run.deck@);
    assert(g1.run.potions@ =~= g2.run.potions@);
}

/// The Crystal Sphere may come up only past the first act and with at least 100 gold;
/// then it always may.
pub proof fn law_crystal_sphere_needs_gold(g: Game, content: &Content, id: Id)
    requires
        id < content.events@.len(),
        content.events@[id as int].id@ == "EVENT.CRYSTAL_SPHERE"@,
    ensures
        event_allowed_spec(g, content, id) <==> (g.run.act > 1 && g.run.gold >= 100),
        g.run.gold < 100 ==> !event_allowed_spec(g, content, id),
{
    reveal_strlit("EVENT.CRYSTAL_SPHERE");
    reveal_strlit("EVENT.AMALGAMATOR");
    reveal_strlit("EVENT.BRAIN_LEECH");
    reveal_strlit("EVENT.ROOM_FULL_OF_CHEESE");
    reveal_strlit("EVENT.BYRDONIS_NEST");
    reveal_strlit("EVENT.COLOSSAL_FLOWER");
    let name = content.events@[id as int].id@;
    assert(name.len() == 20);
    assert(name != "EVENT.AMALGAMATOR"@ && name != "EVENT.BRAIN_LEECH"@ && name != "EVENT.ROOM_FULL_OF_CHEESE"@
        && name != "EVENT.BYRDONIS_NEST"@ && name != "EVENT.COLOSSAL_FLOWER"@) by {
        assert("EVENT.AMALGAMATOR"@.len() == 17);
        assert("EVENT.BRAIN_LEECH"@.len() == 17);
        assert("EVENT.ROOM_FULL_OF_CHEESE"@.len() == 25);
        assert("EVENT.BYRDONIS_NEST"@.len() == 19);
        assert("EVENT.COLOSSAL_FLOWER"@.len() == 21);
    }
}

/// An unupgraded card enters the deck upgraded, every copy of it, when an egg of its
/// type is held and not melted: the Molten Egg for attacks, the Toxic Egg for skills,
/// the Frozen Egg for powers. A card that is already upgraded keeps its upgrades.
pub proof fn law_egg_upgrades_new_card(before: Game, after: Game, content: &Content, card: Card, i: int)
    requires
        card_added(before, after, content, card),
        card.id < content.cards@.len(),
        0 <= i < before.run.relics@.len(),
        !before.melted_relics@.contains(i as usize),
        ({
            let name = content.relics@[before.run.relics@[i] as int].id@;
            let kind = content.cards@[card.id as int].card_type;
            ||| kind == CardType::Attack && name == "RELIC.MOLTEN_EGG"@
            ||| kind == CardType::Skill && name == "RELIC.TOXIC_EGG"@
            ||| kind == CardType::Power && name == "RELIC.FROZEN_EGG"@
        }),
    ensures
        after.run.deck@.len() > before.run.deck@.len(),
        forall|k: int| before.run.deck@.len() <= k < after.run.deck@.len() ==> {
            &&& (#[trigger] after.run.deck@[k]).id == card.id
            &&& after.run.deck@[k].upgrades == if card.upgrades == 0 { 1 } else { card.upgrades }
        },
{
    let kind = content.cards@[card.id as int].card_type;
    let n = before.run.deck@.len();
    let added = crate::deck::added_cards(before, content, card);
    if kind == CardType::Attack {
        assert(before.spec_has_relic(content, "RELIC.MOLTEN_EGG"@));
    } else if kind == CardType::Skill {
        assert(before.spec_has_relic(content, "RELIC.TOXIC_EGG"@));
    } else {
        assert(before.spec_has_relic(content, "RELIC.FROZEN_EGG"@));
    }
    assert forall|k: int| n <= k < after.run.deck@.len() implies {
        &&& (#[trigger] after.run.deck@[k]).id == card.id
        &&& after.run.deck@[k].upgrades == if card.upgrades == 0 { 1 } else { card.upgrades }
    } by {
        assert(after.run.deck@[k] == added[k - n]);
    }
}

/// Without the White Beast Statue, a won fight offers a potion exactly when the roll
/// drawn from the reward stream, as a fraction of one, is below the potion odds in
/// percent (an eighth more after an elite); the odds then fall by ten, and otherwise
/// rise by ten.
pub proof fn law_potion_offered_below_odds(before: Game, after: Game, content: &Content, potion: bool)
    requires
        potion_chance_rolled(before, after, content, potion),
        !before.spec_has_relic(content, "RELIC.WHITE_BEAST_STATUE"@),
        i32::MIN + 10 <= before.potion_odds <= i32::MAX - 10,
    ensures
        ({
            let roll = next_reward_roll(before) as int;
            let bonus = if before.room == Room::Elite { 25 * (UNIT as int) / 2 } else { 0 };
            potion <==> roll * 100 < before.potion_odds * (UNIT as int) + bonus
        }),
        after.potion_odds == before.potion_odds + if potion { -10int } else { 10 },
{
}

/// A card reward that is not rare comes upgraded exactly when its upgrade roll, as a
/// fraction of one, is at most a quarter per act past the first (an eighth from
/// ascension 7); a rare one never does.
pub proof fn law_reward_upgrade_by_act(
    r: Rng,
    start: i32,
    room: Room,
    act: u8,
    ascension: u8,
    rolled: Seq<CardRarity>,
    cards: Seq<Card>,
    k: int,
)
    requires
        reward_rolls_drawn(r, start, room, act, ascension, rolled, cards),
        0 <= k < cards.len(),
    ensures
        rolled[k] == CardRarity::Rare ==> cards[k].upgrades == 0,
        rolled[k] != CardRarity::Rare ==> (cards[k].upgrades == 1 <==> roll_at(r, 3 * k + 2) * (if ascension >= 7 {
            8int
        } else {
            4
        }) <= (act - 1) * (UNIT as int)),
        cards[k].upgrades <= 1,
{
    reveal(reward_rolls_drawn);
}

/// The chance of an upgraded card reward grows with the act and never shrinks by
/// going down in ascension; in the first act only a roll of zero upgrades.
pub proof fn law_reward_upgrade_monotone(roll: int, act: u8, later: u8, ascension: u8)
    requires
        0 <= roll < UNIT,
        1 <= act <= later,
    ensures
        rolled_upgrade(roll, act, ascension) ==> rolled_upgrade(roll, later, ascension),
        rolled_upgrade(roll, act, ascension) ==> rolled_upgrade(roll, act, 0),
        rolled_upgrade(roll, 1, ascension) <==> roll == 0,
{
}

/// Each relic item revealed in the Crystal Sphere offers the relic that its pull takes
/// from the relic bags: while the rare bag still holds a relic at the end, the rewards
/// hold exactly one relic per relic item.
pub proof fn law_crystal_relic_per_item(first: Game, last: Game, content: &Content, count: nat, relics: Seq<Id>)
    requires
        relics_offered(first, last, content, count, relics),
        last.relic_deques@[2]@.len() > 0,
    ensures
        relics.len() == count,
{
    let (pre, post, rarities, pulls) = choose|pre: Seq<Game>, post: Seq<Game>, rarities: Seq<usize>, pulls: Seq<Option<Id>>|
        #[trigger] relics_pulled_in_turn(first, last, content, pre, post, rarities, pulls) && pulls.len() == count
            && relics == pulled_ids(pulls);
    lemma_pulls_all_given(first, last, content, pre, post, rarities, pulls);
}

} // verus!

use vstd::prelude::*;
use crate::content::{Content, CardType, CardRarity, ids_below};
use crate::expect::{clamp_i16, clamp_i32, saturating_add_i16, saturating_add_i32};
use crate::game::cards_valid;
use crate::state::{Card, Game, Run, Rngs};
use crate::rng::{Rng, shuffled};
use crate::piles::card_precedes;
use crate::rewards::rewardable;

verus! {

/// The amount actually gained with the Bowler Hat: a quarter more, rounded down.
pub open spec fn bowler_amount(amount: i32, bowler: bool) -> int {
    if bowler {
        clamp_i32(amount * 5) / 4
    } else {
        amount as int
    }
}

/// The gold of `g` after gaining `amount`.
pub open spec fn gold_gained(g: Game, content: &Content, amount: i32) -> i32 {
    if amount <= 0 || g.spec_has_relic(content, "RELIC.ECTOPLASM"@) {
        g.run.gold
    } else {
        clamp_i32(g.run.gold + bowler_amount(amount, g.spec_has_relic(content, "RELIC.BOWLER_HAT"@)))
    }
}

/// Whether gaining `amount` gold feeds the Dragon Fruit (one more max hp).
pub open spec fn fruit_fed(g: Game, content: &Content, amount: i32) -> bool {
    amount > 0 && !g.spec_has_relic(content, "RELIC.ECTOPLASM"@) && g.spec_has_relic(
        content,
        "RELIC.DRAGON_FRUIT"@,
    )
}

/// `after` is `before` once `amount` gold was gained (see `Game::gain_gold`).
pub open spec fn gold_gain_applied(before: Game, after: Game, content: &Content, amount: i32) -> bool {
    &&& !fruit_fed(before, content, amount) ==> after == (Game {
        run: Run { gold: gold_gained(before, content, amount), ..before.run },
        ..before
    })
    &&& fruit_fed(before, content, amount) ==> after == (Game {
        run: Run {
            gold: gold_gained(before, content, amount),
            max_hp: clamp_i16(before.run.max_hp + 1),
            hp: clamp_i16(before.run.hp + 1),
            ..before.run
        },
        ..before
    })
}

impl Game {
    /// Gains `amount` gold: nothing for a non-positive amount or with the Ectoplasm, a
    /// quarter more with the Bowler Hat, and one max hp (and hp) with the Dragon Fruit.
    pub fn gain_gold(&mut self, content: &Content, amount: i32)
        requires
            old(self).wf(content),
        ensures
            final(self).wf(content),
            gold_gain_applied(*old(self), *final(self), content, amount),
    {
        if amount <= 0 || self.has_relic(content, "RELIC.ECTOPLASM") {
            return;
        }
        let gained = if self.has_relic(content, "RELIC.BOWLER_HAT") {
            let five: i64 = amount as i64 * 5;
            let five: i32 = if five > i32::MAX as i64 {
                i32::MAX
            } else {
                five as i32
            };
            five / 4
        } else {
            amount
        };
        self.run.gold = saturating_add_i32(self.run.gold, gained);
        if self.has_relic(content, "RELIC.DRAGON_FRUIT") {
            self.run.max_hp = saturating_add_i16(self.run.max_hp, 1);
            self.run.hp = saturating_add_i16(self.run.hp, 1);
        }
    }
}

/// The card as it enters the deck: unupgraded cards of the type an egg upgrades come
/// in upgraded.
pub open spec fn hatched(g: Game, content: &Content, card: Card) -> Card {
    let card_type = content.cards@[card.id as int].card_type;
    let egg = match card_type {
        CardType::Attack => g.spec_has_relic(content, "RELIC.MOLTEN_EGG"@),
        CardType::Skill => g.spec_has_relic(content, "RELIC.TOXIC_EGG"@),
        CardType::Power => g.spec_has_relic(content, "RELIC.FROZEN_EGG"@),
        _ => false,
    };
    if card.upgrades == 0 && egg {
        Card { upgrades: 1, ..card }
    } else {
        card
    }
}

/// The next instance number after `n` (held at the largest).
pub open spec fn next_instance(n: u32) -> u32 {
    if n < u32::MAX {
        (n + 1) as u32
    } else {
        n
    }
}

/// How many copies of a card enter the deck (two with the Bing Bong).
pub open spec fn copies(g: Game, content: &Content) -> int {
    if g.spec_has_relic(content, "RELIC.BING_BONG"@) {
        2
    } else {
        1
    }
}

/// The gold each copy brings (the Lucky Fysh).
pub open spec fn fysh_gold(g: Game, content: &Content) -> i32 {
    if g.spec_has_relic(content, "RELIC.LUCKY_FYSH"@) {
        15
    } else {
        0
    }
}

/// The max hp gained when `card` enters the deck: one per copy that feeds the Dragon
/// Fruit, and six per copy of a curse with the Darkstone Periapt.
pub open spec fn max_hp_bonus(g: Game, content: &Content, card: Card) -> int {
    let fruit = if fruit_fed(g, content, fysh_gold(g, content)) {
        copies(g, content)
    } else {
        0
    };
    let dark = if content.cards@[card.id as int].card_type == CardType::Curse
        && g.spec_has_relic(content, "RELIC.DARKSTONE_PERIAPT"@) {
        6 * copies(g, content)
    } else {
        0
    };
    fruit + dark
}

/// The cards that enter the deck for `card`.
pub open spec fn added_cards(g: Game, content: &Content, card: Card) -> Seq<Card> {
    let first = if card.instance == 0 {
        Card { instance: g.next_card, ..hatched(g, content, card) }
    } else {
        hatched(g, content, card)
    };
    let next = if card.instance == 0 {
        next_instance(g.next_card)
    } else {
        g.next_card
    };
    if copies(g, content) == 2 {
        seq![first, Card { instance: next, ..first }]
    } else {
        seq![first]
    }
}

/// The instance counter after `card` entered the deck.
pub open spec fn next_card_after(g: Game, content: &Content, card: Card) -> u32 {
    let next = if card.instance == 0 {
        next_instance(g.next_card)
    } else {
        g.next_card
    };
    if copies(g, content) == 2 {
        next_instance(next)
    } else {
        next
    }
}

/// The gold after `card` entered the deck.
pub open spec fn gold_after_add(g: Game, content: &Content) -> i32 {
    let once = gold_gained(g, content, fysh_gold(g, content));
    if copies(g, content) == 2 {
        gold_gained(Game { run: Run { gold: once, ..g.run }, ..g }, content, fysh_gold(g, content))
    } else {
        once
    }
}

/// `after` is `before` once `card` entered the deck (see `Game::add_card`).
pub open spec fn card_added(before: Game, after: Game, content: &Content, card: Card) -> bool {
    let bonus = max_hp_bonus(before, content, card);
    &&& after.run.deck@ == before.run.deck@ + added_cards(before, content, card)
    &&& after.next_card == next_card_after(before, content, card)
    &&& after.run.gold == gold_after_add(before, content)
    &&& after.run.max_hp == clamp_i16(before.run.max_hp + bonus)
    &&& !before.spec_has_relic(content, "RELIC.BOOK_OF_FIVE_RINGS"@) ==> after.run.hp == clamp_i16(
        before.run.hp + bonus,
    ) && after.book_of_five_rings == before.book_of_five_rings
    &&& before.spec_has_relic(content, "RELIC.BOOK_OF_FIVE_RINGS"@) ==> {
        let cards = before.book_of_five_rings + copies(before, content);
        let hp = clamp_i16(before.run.hp + bonus);
        &&& after.book_of_five_rings == cards % 5
        &&& after.run.hp == if hp + 20 * (cards / 5) < after.run.max_hp {
            hp + 20 * (cards / 5)
        } else {
            after.run.max_hp as int
        }
    }
    &&& after == (Game {
        run: Run {
            deck: after.run.deck,
            gold: after.run.gold,
            hp: after.run.hp,
            max_hp: after.run.max_hp,
            ..before.run
        },
        next_card: after.next_card,
        book_of_five_rings: after.book_of_five_rings,
        ..before
    })
}

proof fn lemma_clamp_steps(x: i16, a: int, b: int)
    requires
        a >= 0,
        b >= 0,
    ensures
        clamp_i16(clamp_i16(x + a) + b) == clamp_i16(x + a + b),
{
}

impl Game {
    /// Adds `card` to the deck with the effects of the relics held: an egg upgrades
    /// it, the Bing Bong adds a second copy, the Lucky Fysh brings 15 gold per copy,
    /// the Darkstone Periapt gives 6 max hp per copy of a curse, and every fifth card
    /// heals 20 with the Book of Five Rings. A card without an instance number gets
    /// the next one; the copy always gets a new one.
    #[verifier::spinoff_prover]
    #[verifier::rlimit(90)]
    pub fn add_card(&mut self, content: &Content, card: Card)
        requires
            old(self).wf(content),
            card.id < content.cards@.len(),
        ensures
            final(self).wf(content),
            card_added(*old(self), *final(self), content, card),
    {
        let ghost g0 = *self;
        let duplicate = self.has_relic(content, "RELIC.BING_BONG");
        let darkstone_periapt = self.has_relic(content, "RELIC.DARKSTONE_PERIAPT");
        let book_of_five_rings = self.has_relic(content, "RELIC.BOOK_OF_FIVE_RINGS");
        let gold: i32 = if self.has_relic(content, "RELIC.LUCKY_FYSH") {
            15
        } else {
            0
        };
        let card_type = content.cards[card.id as usize].card_type;
        let egg = match card_type {
            CardType::Attack => self.has_relic(content, "RELIC.MOLTEN_EGG"),
            CardType::Skill => self.has_relic(content, "RELIC.TOXIC_EGG"),
            CardType::Power => self.has_relic(content, "RELIC.FROZEN_EGG"),
            _ => false,
        };
        let mut hatched_card = card;
        if hatched_card.upgrades == 0 && egg {
            hatched_card.upgrades = 1;
        }
        assert(hatched_card == hatched(g0, content, card));
        self.add_copies(content, hatched_card, duplicate, gold);
        let added: i16 = if duplicate {
            2
        } else {
            1
        };
        let ghost g5 = *self;
        proof {
            lemma_same_relics(g0, g5, content);
            assert(g5.run.deck@ =~= g0.run.deck@ + added_cards(g0, content, card));
        }
        let dark = card_type == CardType::Curse && darkstone_periapt;
        proof {
            let f = if fruit_fed(g0, content, gold) { copies(g0, content) } else { 0 };
            lemma_clamp_steps(g0.run.max_hp, f, if dark { 6 * added } else { 0 });
            lemma_clamp_steps(g0.run.hp, f, if dark { 6 * added } else { 0 });
        }
        self.grow_and_heal(content, dark, book_of_five_rings, added);
    }

    /// The hp effects of `added` cards entering the deck: six max hp (and hp) each when
    /// `dark`, and with `book` a heal of 20 for every fifth card (the count carries over).
    fn grow_and_heal(&mut self, content: &Content, dark: bool, book: bool, added: i16)
        requires
            old(self).wf(content),
            1 <= added <= 2,
        ensures
            final(self).wf(content),
            final(self).run.max_hp == if dark { clamp_i16(old(self).run.max_hp + 6 * added) } else { old(self).run.max_hp },
            ({
                let hp = if dark { clamp_i16(old(self).run.hp + 6 * added) } else { old(self).run.hp };
                let cards = old(self).book_of_five_rings + added;
                &&& !book ==> final(self).run.hp == hp && final(self).book_of_five_rings == old(self).book_of_five_rings
                &&& book ==> final(self).book_of_five_rings == cards % 5
                &&& book ==> final(self).run.hp == if hp + 20 * (cards / 5) < final(self).run.max_hp {
                    hp + 20 * (cards / 5)
                } else {
                    final(self).run.max_hp as int
                }
            }),
            *final(self) == (Game {
                run: Run { hp: final(self).run.hp, max_hp: final(self).run.max_hp, ..old(self).run },
                book_of_five_rings: final(self).book_of_five_rings,
                ..*old(self)
            }),
    {
        if dark {
            self.run.max_hp = saturating_add_i16(self.run.max_hp, 6 * added);
            self.run.hp = saturating_add_i16(self.run.hp, 6 * added);
        }
        if book {
            let cards: i16 = self.book_of_five_rings as i16 + added;
            self.book_of_five_rings = (cards % 5) as u8;
            let healed: i32 = self.run.hp as i32 + 20 * (cards / 5) as i32;
            self.run.hp = if healed < self.run.max_hp as i32 {
                healed as i16
            } else {
                self.run.max_hp
            };
        }
    }

    /// Puts `card` in the deck, and a copy with a new instance number when `twice`,
    /// gaining `gold` after each.
    #[verifier::rlimit(30)]
    fn add_copies(&mut self, content: &Content, card: Card, twice: bool, gold: i32)
        requires
            old(self).wf(content),
            card.id < content.cards@.len(),
        ensures
            final(self).wf(content),
            ({
                let first = if card.instance == 0 {
                    Card { instance: old(self).next_card, ..card }
                } else {
                    card
                };
                let next = if card.instance == 0 {
                    next_instance(old(self).next_card)
                } else {
                    old(self).next_card
                };
                let once = gold_gained(*old(self), content, gold);
                let fed = if fruit_fed(*old(self), content, gold) {
                    if twice { 2int } else { 1 }
                } else {
                    0
                };
                &&& twice ==> final(self).run.deck@ == old(self).run.deck@ + seq![first, Card { instance: next, ..first }]
                &&& twice ==> final(self).next_card == next_instance(next)
                &&& twice ==> final(self).run.gold == gold_gained(
                    Game { run: Run { gold: once, ..old(self).run }, ..*old(self) },
                    content,
                    gold,
                )
                &&& !twice ==> final(self).run.deck@ == old(self).run.deck@.push(first)
                &&& !twice ==> final(self).next_card == next
                &&& !twice ==> final(self).run.gold == once
                &&& final(self).run.max_hp == clamp_i16(old(self).run.max_hp + fed)
                &&& final(self).run.hp == clamp_i16(old(self).run.hp + fed)
            }),
            *final(self) == (Game {
                run: Run {
                    deck: final(self).run.deck,
                    gold: final(self).run.gold,
                    hp: final(self).run.hp,
                    max_hp: final(self).run.max_hp,
                    ..old(self).run
                },
                next_card: final(self).next_card,
                ..*old(self)
            }),
    {
        let ghost g0 = *self;
        let entered = self.enter_deck(content, card, false);
        let ghost g1 = *self;
        proof {
            lemma_same_relics(g0, g1, content);
        }
        self.gain_gold(content, gold);
        let ghost g2 = *self;
        proof {
            lemma_same_relics(g0, g2, content);
            lemma_clamp_steps(g0.run.max_hp, 0, 0);
            lemma_clamp_steps(g0.run.hp, 0, 0);
        }
        if twice {
            self.enter_deck(content, entered, true);
            let ghost g3 = *self;
            proof {
                lemma_same_relics(g0, g3, content);
            }
            self.gain_gold(content, gold);
            proof {
                lemma_same_relics(g0, Game { run: Run { gold: g2.run.gold, ..g0.run }, ..g0 }, content);
                if fruit_fed(g0, content, gold) {
                    lemma_clamp_steps(g0.run.max_hp, 1, 1);
                    lemma_clamp_steps(g0.run.hp, 1, 1);
                }
                assert(self.run.deck@ =~= g0.run.deck@ + seq![entered, Card { instance: g2.next_card, ..entered }]);
            }
        }
    }

    /// Puts `card` at the end of the deck, giving it the next instance number when it
    /// has none or `fresh` asks for one; returns the card as it entered.
    fn enter_deck(&mut self, content: &Content, card: Card, fresh: bool) -> (entered: Card)
        requires
            old(self).wf(content),
            card.id < content.cards@.len(),
        ensures
            final(self).wf(content),
            entered == if fresh || card.instance == 0 {
                Card { instance: old(self).next_card, ..card }
            } else {
                card
            },
            final(self).next_card == if fresh || card.instance == 0 {
                next_instance(old(self).next_card)
            } else {
                old(self).next_card
            },
            final(self).run.deck@ == old(self).run.deck@.push(entered),
            *final(self) == (Game {
                run: Run { deck: final(self).run.deck, ..old(self).run },
                next_card: final(self).next_card,
                ..*old(self)
            }),
    {
        let mut card = card;
        if fresh || card.instance == 0 {
            card.instance = self.next_card;
            self.next_card = self.next_card.saturating_add(1);
        }
        self.run.deck.push(card);
        proof {
            assert(cards_valid(self.run.deck@, content)) by {
                assert forall|i: int| 0 <= i < self.run.deck@.len() implies (#[trigger] self.run.deck@[i]).id
                    < content.cards@.len() by {
                    if i < old(self).run.deck@.len() {
                        assert(self.run.deck@[i] == old(self).run.deck@[i]);
                    }
                }
            }
        }
        card
    }
}

/// Games with the same relics hold the same relics by name.
pub proof fn lemma_same_relics(a: Game, b: Game, content: &Content)
    requires
        a.run.relics == b.run.relics,
        a.melted_relics == b.melted_relics,
    ensures
        forall|name: Seq<char>| #[trigger] a.spec_has_relic(content, name) == b.spec_has_relic(content, name),
{
}


/// Whether `card` may be upgraded by a random upgrade of `card_type` (any type when
/// `None`): not yet upgraded, and not a status, curse or quest.
pub open spec fn upgradable(content: &Content, card: Card, card_type: Option<CardType>) -> bool {
    let t = content.cards@[card.id as int].card_type;
    &&& card.upgrades == 0
    &&& t != CardType::Status && t != CardType::Curse && t != CardType::Quest
    &&& card_type matches Some(wanted) ==> t == wanted
}

/// How many of the first `n` cards of `deck` are upgradable.
pub open spec fn count_upgradable(content: &Content, deck: Seq<Card>, card_type: Option<CardType>, n: int) -> nat
    decreases n,
{
    if n <= 0 {
        0
    } else {
        count_upgradable(content, deck, card_type, n - 1) + if upgradable(content, deck[n - 1], card_type) {
            1nat
        } else {
            0
        }
    }
}

/// `deck` with the cards at the indices in `chosen` upgraded.
pub open spec fn upgraded_at(deck: Seq<Card>, chosen: Set<usize>) -> Seq<Card> {
    Seq::new(deck.len(), |i: int| if chosen.contains(i as usize) { Card { upgrades: 1, ..deck[i] } } else { deck[i] })
}

/// The indices of the first `n` cards of `deck` that are upgradable, in order.
pub open spec fn upgradable_indices(content: &Content, deck: Seq<Card>, card_type: Option<CardType>, n: int) -> Seq<usize>
    decreases n,
{
    if n <= 0 {
        seq![]
    } else if upgradable(content, deck[n - 1], card_type) {
        upgradable_indices(content, deck, card_type, n - 1).push((n - 1) as usize)
    } else {
        upgradable_indices(content, deck, card_type, n - 1)
    }
}

/// The position where the stable insertion of index `x` into `out` stops when it
/// starts at `at`: it moves down past every index whose card `x`'s card sorts before.
pub open spec fn index_insert_at(content: &Content, deck: Seq<Card>, out: Seq<usize>, x: usize, at: int) -> int
    decreases at,
{
    if at <= 0 || at > out.len() || !card_precedes(content, deck[x as int], deck[out[at - 1] as int]) {
        at
    } else {
        index_insert_at(content, deck, out, x, at - 1)
    }
}

/// `indices` stably sorted by the cards of `deck` they point at (by name, then
/// upgrades), by insertion one index after the other.
pub open spec fn sort_by_card(content: &Content, deck: Seq<Card>, indices: Seq<usize>) -> Seq<usize>
    decreases indices.len(),
{
    if indices.len() == 0 {
        indices
    } else {
        let before = sort_by_card(content, deck, indices.drop_last());
        before.insert(index_insert_at(content, deck, before, indices.last(), before.len() as int), indices.last())
    }
}

/// The indices of the cards that a random upgrade of `count` cards picks: the
/// upgradable ones, sorted by card, shuffled with `rng`, the first `count` of them.
pub open spec fn upgrade_picks(content: &Content, deck: Seq<Card>, card_type: Option<CardType>, count: usize, rng: Rng) -> Seq<usize> {
    let order = shuffled(rng, sort_by_card(content, deck, upgradable_indices(content, deck, card_type, deck.len() as int))).0;
    order.take(if count < order.len() { count as int } else { order.len() as int })
}

/// `indices` stably sorted by the names of the deck cards they point at.
fn sort_indices(content: &Content, deck: &Vec<Card>, indices: Vec<usize>) -> (sorted: Vec<usize>)
    requires
        cards_valid(deck@, content),
        forall|k: int| 0 <= k < indices@.len() ==> (#[trigger] indices@[k]) < deck@.len(),
    ensures
        sorted@.to_multiset() == indices@.to_multiset(),
        forall|k: int| 0 <= k < sorted@.len() ==> (#[trigger] sorted@[k]) < deck@.len(),
        sorted@ == sort_by_card(content, deck@, indices@),
{
    broadcast use vstd::seq_lib::group_to_multiset_ensures;

    let mut out: Vec<usize> = Vec::new();
    let mut i: usize = 0;
    while i < indices.len()
        invariant
            i <= indices@.len(),
            cards_valid(deck@, content),
            forall|k: int| 0 <= k < indices@.len() ==> (#[trigger] indices@[k]) < deck@.len(),
            forall|k: int| 0 <= k < out@.len() ==> (#[trigger] out@[k]) < deck@.len(),
            out@.to_multiset() == indices@.take(i as int).to_multiset(),
            out@ == sort_by_card(content, deck@, indices@.take(i as int)),
        decreases indices@.len() - i,
    {
        let x = indices[i];
        let mut at: usize = out.len();
        while at > 0 && crate::piles::card_before(content, deck[x], deck[out[at - 1]])
            invariant
                at <= out@.len(),
                x < deck@.len(),
                cards_valid(deck@, content),
                forall|k: int| 0 <= k < out@.len() ==> (#[trigger] out@[k]) < deck@.len(),
                index_insert_at(content, deck@, out@, x, out@.len() as int) == index_insert_at(content, deck@, out@, x, at as int),
            decreases at,
        {
            at = at - 1;
        }
        let ghost before = out@;
        out.insert(at, x);
        proof {
            vstd::seq_lib::to_multiset_insert(before, at as int, x);
            assert(indices@.take(i + 1) =~= indices@.take(i as int).push(x));
            assert(indices@.take(i + 1).drop_last() =~= indices@.take(i as int));
            vstd::seq_lib::to_multiset_build(indices@.take(i as int), x);
            assert forall|k: int| 0 <= k < out@.len() implies (#[trigger] out@[k]) < deck@.len() by {
                if k < at {
                    assert(out@[k] == before[k]);
                } else if k > at {
                    assert(out@[k] == before[k - 1]);
                }
            }
        }
        i = i + 1;
    }
    proof {
        assert(indices@.take(indices@.len() as int) =~= indices@);
    }
    out
}

/// `after` is `before` with `count` upgradable cards of its deck upgraded (all of them
/// when fewer), chosen by its random streams (see `Game::upgrade_random`).
pub open spec fn randomly_upgraded(before: Game, after: Game, content: &Content, count: usize, card_type: Option<CardType>) -> bool {
    &&& exists|chosen: Set<usize>|
        {
            &&& chosen.finite()
            &&& chosen.len() == if count < count_upgradable(content, before.run.deck@, card_type, before.run.deck@.len() as int) {
                count as nat
            } else {
                count_upgradable(content, before.run.deck@, card_type, before.run.deck@.len() as int)
            }
            &&& forall|i: usize| #[trigger] chosen.contains(i) ==> i < before.run.deck@.len()
                && upgradable(content, before.run.deck@[i as int], card_type)
            &&& after.run.deck@ == upgraded_at(before.run.deck@, chosen)
        }
    &&& after.run.deck@ == upgraded_at(
        before.run.deck@,
        upgrade_picks(content, before.run.deck@, card_type, count, before.rngs.niche).to_set(),
    )
    &&& after.rngs == (Rngs {
        niche: shuffled(
            before.rngs.niche,
            sort_by_card(content, before.run.deck@, upgradable_indices(content, before.run.deck@, card_type, before.run.deck@.len() as int)),
        ).1,
        ..before.rngs
    })
    &&& after == (Game {
        run: Run { deck: after.run.deck, ..before.run },
        rngs: after.rngs,
        ..before
    })
}

impl Game {
    /// Upgrades `count` random upgradable cards of the deck (all of them when fewer),
    /// drawing from the niche stream.
    pub fn upgrade_random(&mut self, content: &Content, count: usize, card_type: Option<CardType>)
        requires
            old(self).wf(content),
        ensures
            final(self).wf(content),
            randomly_upgraded(*old(self), *final(self), content, count, card_type),
    {
        broadcast use vstd::seq_lib::group_to_multiset_ensures;
        broadcast use vstd::multiset::group_multiset_axioms;

        let ghost deck0 = self.run.deck@;
        let mut cards: Vec<usize> = Vec::new();
        let mut i: usize = 0;
        while i < self.run.deck.len()
            invariant
                i <= deck0.len(),
                self.run.deck@ == deck0,
                self.wf(content),
                cards@.len() == count_upgradable(content, deck0, card_type, i as int),
                cards@ == upgradable_indices(content, deck0, card_type, i as int),
                forall|k: int| 0 <= k < cards@.len() ==> (#[trigger] cards@[k]) < i && upgradable(content, deck0[cards@[k] as int], card_type),
                forall|a: int, b: int| 0 <= a < b < cards@.len() ==> cards@[a] < cards@[b],
            decreases deck0.len() - i,
        {
            let card = self.run.deck[i];
            let t = content.cards[card.id as usize].card_type;
            let wanted = match card_type {
                Some(w) => t == w,
                None => true,
            };
            if card.upgrades == 0 && t != CardType::Status && t != CardType::Curse && t != CardType::Quest && wanted {
                cards.push(i);
            }
            i = i + 1;
        }
        let ghost collected = cards@;
        proof {
            assert(collected.no_duplicates());
            collected.lemma_multiset_has_no_duplicates();
        }
        let sorted = sort_indices(content, &self.run.deck, cards);
        let ghost sorted_seq = sorted@;
        proof {
            assert(sorted_seq.len() == collected.len()) by {
                sorted_seq.to_multiset_ensures();
                collected.to_multiset_ensures();
            }
        }
        let mut cards = sorted;
        self.rngs.niche.shuffle(&mut cards);
        let ghost shuffled = cards@;
        let ghost rngs_after = self.rngs;
        proof {
            assert(shuffled.len() == collected.len());
            assert forall|x: usize| shuffled.to_multiset().contains(x) implies shuffled.to_multiset().count(x) == 1 by {
                assert(collected.to_multiset().contains(x));
            }
            shuffled.lemma_multiset_has_no_duplicates_conv();
            assert forall|k: int| 0 <= k < shuffled.len() implies (#[trigger] shuffled[k]) < deck0.len()
                && upgradable(content, deck0[shuffled[k] as int], card_type) by {
                assert(shuffled.contains(shuffled[k]));
                assert(shuffled.to_multiset().count(shuffled[k]) > 0);
                assert(collected.contains(shuffled[k]));
            }
        }
        let take = if count < cards.len() {
            count
        } else {
            cards.len()
        };
        let mut j: usize = 0;
        while j < take
            invariant
                j <= take <= shuffled.len(),
                cards@ == shuffled,
                self.wf(content),
                self.run.deck@ == upgraded_at(deck0, shuffled.take(j as int).to_set()),
                forall|k: int| 0 <= k < shuffled.len() ==> (#[trigger] shuffled[k]) < deck0.len(),
                *self == (Game { run: Run { deck: self.run.deck, ..old(self).run }, rngs: self.rngs, ..*old(self) }),
                self.rngs == rngs_after,
            decreases take - j,
        {
            let index = cards[j];
            let mut card = self.run.deck[index];
            card.upgrades = 1;
            let ghost before = self.run.deck@;
            self.run.deck.set(index, card);
            let n = self.run.deck.len();
            proof {
                assert(shuffled.take(j + 1) =~= shuffled.take(j as int).push(index));
                assert forall|a: usize| shuffled.take(j + 1).contains(a) <==> shuffled.take(j as int).to_set().insert(index).contains(a) by {
                    if shuffled.take(j as int).contains(a) {
                        let k = choose|k: int| 0 <= k < j && shuffled.take(j as int)[k] == a;
                        assert(shuffled.take(j + 1)[k] == a);
                    }
                    if shuffled.take(j + 1).contains(a) && a != index {
                        let k = choose|k: int| 0 <= k < j + 1 && #[trigger] shuffled.take(j + 1)[k] == a;
                        assert(k < j);
                        assert(shuffled.take(j as int)[k] == a);
                    }
                    if a == index {
                        assert(shuffled.take(j + 1)[j as int] == a);
                    }
                }
                assert(shuffled.take(j + 1).to_set() =~= shuffled.take(j as int).to_set().insert(index));
                let s0 = shuffled.take(j as int).to_set();
                let s1 = shuffled.take(j + 1).to_set();
                assert forall|k: int| 0 <= k < deck0.len() implies #[trigger] self.run.deck@[k] == upgraded_at(deck0, s1)[k] by {
                    assert(k < n);
                    assert(s1.contains(k as usize) == (s0.contains(k as usize) || k as usize == index));
                    if k != index as int {
                        assert(self.run.deck@[k] == before[k]);
                    }
                }
                assert(self.run.deck@ =~= upgraded_at(deck0, shuffled.take(j + 1).to_set()));
                assert(cards_valid(self.run.deck@, content)) by {
                    assert forall|k: int| 0 <= k < self.run.deck@.len() implies (#[trigger] self.run.deck@[k]).id < content.cards@.len() by {
                        assert(self.run.deck@[k].id == deck0[k].id);
                    }
                }
            }
            j = j + 1;
        }
        proof {
            let chosen = shuffled.take(take as int).to_set();
            assert(shuffled.take(take as int).no_duplicates());
            shuffled.take(take as int).unique_seq_to_set();
            assert forall|x: usize| #[trigger] chosen.contains(x) implies x < deck0.len() && upgradable(content, deck0[x as int], card_type) by {
                let k = choose|k: int| 0 <= k < take && shuffled.take(take as int)[k] == x;
                assert(shuffled[k] == x);
            }
            assert(chosen.finite());
            assert(collected.len() == shuffled.len());
            assert(chosen.len() == take);
            assert(self.run.deck@ == upgraded_at(deck0, chosen));
            assert(shuffled.take(take as int) == upgrade_picks(content, deck0, card_type, count, old(self).rngs.niche));
        }
    }
}


/// `after` is `before` once the first card named `name` entered the deck as a new
/// card (see `Game::add_named_card`); unchanged when no card has that name.
pub open spec fn named_added(before: Game, after: Game, content: &Content, name: Seq<char>) -> bool {
    exists|id: Option<crate::content::Id>| {
        &&& crate::content::first_named(content.card_names(), name, id)
        &&& id matches Some(i) ==> card_added(before, after, content, Card { id: i, upgrades: 0, instance: 0, flags: 0 })
        &&& id is None ==> after == before
    }
}

impl Game {
    /// Adds the first card named `name` (unupgraded, without an instance number), as
    /// `add_card` does; nothing when no card has that name.
    pub fn add_named_card(&mut self, content: &Content, name: &str)
        requires
            old(self).wf(content),
        ensures
            final(self).wf(content),
            named_added(*old(self), *final(self), content, name@),
    {
        let found = content.card_id(name);
        match found {
            Some(id) => {
                self.add_card(content, Card::of(id, 0));
            },
            None => {},
        }
    }
}


/// Whether card `a`'s name sorts strictly before card `b`'s, byte by byte.
pub open spec fn id_name_before(content: &Content, a: crate::content::Id, b: crate::content::Id) -> bool {
    crate::piles::bytes_less_from(crate::piles::name_bytes(content, a as int), crate::piles::name_bytes(content, b as int), 0)
}

/// The position where the stable insertion of card id `x` into `out` stops when it
/// starts at `at`: it moves down past every id whose name `x`'s name sorts before.
pub open spec fn id_insert_at(content: &Content, out: Seq<crate::content::Id>, x: crate::content::Id, at: int) -> int
    decreases at,
{
    if at <= 0 || at > out.len() || !id_name_before(content, x, out[at - 1]) {
        at
    } else {
        id_insert_at(content, out, x, at - 1)
    }
}

/// `ids` stably sorted by card name, by insertion one id after the other.
pub open spec fn sort_ids_by_name(content: &Content, ids: Seq<crate::content::Id>) -> Seq<crate::content::Id>
    decreases ids.len(),
{
    if ids.len() == 0 {
        ids
    } else {
        let before = sort_ids_by_name(content, ids.drop_last());
        before.insert(id_insert_at(content, before, ids.last(), before.len() as int), ids.last())
    }
}

/// `ids` ordered by card name (a stable insertion sort).
pub(crate) fn sort_card_ids(content: &Content, ids: Vec<crate::content::Id>) -> (sorted: Vec<crate::content::Id>)
    requires
        ids_below(ids@, content.cards@.len() as int),
    ensures
        sorted@.to_multiset() == ids@.to_multiset(),
        ids_below(sorted@, content.cards@.len() as int),
        sorted@ == sort_ids_by_name(content, ids@),
{
    broadcast use vstd::seq_lib::group_to_multiset_ensures;

    let mut out: Vec<crate::content::Id> = Vec::new();
    let mut i: usize = 0;
    while i < ids.len()
        invariant
            i <= ids@.len(),
            ids_below(ids@, content.cards@.len() as int),
            ids_below(out@, content.cards@.len() as int),
            out@.to_multiset() == ids@.take(i as int).to_multiset(),
            out@ == sort_ids_by_name(content, ids@.take(i as int)),
        decreases ids@.len() - i,
    {
        let x = ids[i];
        let mut at: usize = out.len();
        while at > 0 && crate::rewards::name_before(&content.cards[x as usize].id, &content.cards[out[at - 1] as usize].id)
            invariant
                at <= out@.len(),
                x < content.cards@.len(),
                ids_below(out@, content.cards@.len() as int),
                id_insert_at(content, out@, x, out@.len() as int) == id_insert_at(content, out@, x, at as int),
            decreases at,
        {
            at = at - 1;
        }
        let ghost before = out@;
        out.insert(at, x);
        proof {
            vstd::seq_lib::to_multiset_insert(before, at as int, x);
            assert(ids@.take(i + 1) =~= ids@.take(i as int).push(x));
            assert(ids@.take(i + 1).drop_last() =~= ids@.take(i as int));
            vstd::seq_lib::to_multiset_build(ids@.take(i as int), x);
            assert forall|k: int| 0 <= k < out@.len() implies (#[trigger] out@[k]) < content.cards@.len() by {
                if k < at {
                    assert(out@[k] == before[k]);
                } else if k > at {
                    assert(out@[k] == before[k - 1]);
                }
            }
        }
        i = i + 1;
    }
    proof {
        assert(ids@.take(ids@.len() as int) =~= ids@);
    }
    out
}

/// A card the character can turn `old` into: one of its own cards, another one, of a
/// rarity that rewards offer.
pub open spec fn transform_target(g: Game, content: &Content, old: Card, id: crate::content::Id) -> bool {
    &&& content.characters@[g.run.character as int].cards@.contains(id)
    &&& id != old.id
    &&& rewardable(content.cards@[id as int].rarity)
}

/// The cards among the first `n` of `cards` that `old` can turn into, in order: another
/// card, of a rarity that rewards offer.
pub open spec fn transform_candidates(content: &Content, cards: Seq<crate::content::Id>, old: Card, n: int) -> Seq<crate::content::Id>
    decreases n,
{
    if n <= 0 {
        seq![]
    } else if cards[n - 1] != old.id && rewardable(content.cards@[cards[n - 1] as int].rarity) {
        transform_candidates(content, cards, old, n - 1).push(cards[n - 1])
    } else {
        transform_candidates(content, cards, old, n - 1)
    }
}

/// The card that `old` turns into with the stream at `rng`: the candidates of the
/// character sorted by name, one picked by the next draw.
pub open spec fn transform_pick(g: Game, content: &Content, old: Card, rng: Rng) -> crate::content::Id {
    let cards = content.characters@[g.run.character as int].cards@;
    let pool = sort_ids_by_name(content, transform_candidates(content, cards, old, cards.len() as int));
    pool[(crate::rng::raw_value(rng) % (pool.len() as u64)) as int]
}

impl Game {
    /// Transforms the card at `index` with `rng`: it leaves the deck and a random
    /// other card of the character (by name order, then the draw) enters it as a new
    /// card would. Returns the stream after the draw.
    pub fn transform_at(&mut self, content: &Content, index: usize, rng: Rng) -> (after: Rng)
        requires
            old(self).wf(content),
            index < old(self).run.deck@.len(),
            exists|id: crate::content::Id| transform_target(*old(self), content, old(self).run.deck@[index as int], id),
        ensures
            final(self).wf(content),
            after.count >= rng.count,
            after == crate::rng::next_rng(rng),
            exists|id: crate::content::Id, mid: Game| {
                &&& id == transform_pick(*old(self), content, old(self).run.deck@[index as int], rng)
                &&& transform_target(*old(self), content, old(self).run.deck@[index as int], id)
                &&& mid == (Game { run: Run { deck: mid.run.deck, ..old(self).run }, ..*old(self) })
                &&& mid.run.deck@ == old(self).run.deck@.remove(index as int)
                &&& card_added(mid, *final(self), content, Card { id, upgrades: 0, instance: 0, flags: 0 })
            },
    {
        let mut rng = rng;
        let old_card = self.run.deck[index];
        let def = &content.characters[self.run.character as usize];
        assert(def.wf(content));
        let mut pool: Vec<crate::content::Id> = Vec::new();
        let mut i: usize = 0;
        while i < def.cards.len()
            invariant
                i <= def.cards@.len(),
                *def == content.characters@[old(self).run.character as int],
                ids_below(def.cards@, content.cards@.len() as int),
                ids_below(pool@, content.cards@.len() as int),
                forall|k: int| 0 <= k < pool@.len() ==> transform_target(*old(self), content, old_card, #[trigger] pool@[k]),
                forall|k: int| 0 <= k < i && transform_target(*old(self), content, old_card, #[trigger] def.cards@[k])
                    ==> pool@.contains(def.cards@[k]),
                pool@ == transform_candidates(content, def.cards@, old_card, i as int),
            decreases def.cards@.len() - i,
        {
            let id = def.cards[i];
            let rarity = content.cards[id as usize].rarity;
            let ghost before = pool@;
            if id != old_card.id && (rarity == CardRarity::Common || rarity == CardRarity::Uncommon
                || rarity == CardRarity::Rare) {
                pool.push(id);
                proof {
                    assert(def.cards@.contains(def.cards@[i as int]));
                }
            }
            proof {
                assert forall|k: int| 0 <= k < i + 1 && transform_target(*old(self), content, old_card, #[trigger] def.cards@[k])
                    implies pool@.contains(def.cards@[k]) by {
                    if k < i {
                        let m = choose|m: int| 0 <= m < before.len() && before[m] == def.cards@[k];
                        assert(pool@[m] == def.cards@[k]);
                    } else {
                        assert(pool@[pool@.len() - 1] == id);
                    }
                }
            }
            i = i + 1;
        }
        proof {
            let id = choose|id: crate::content::Id| transform_target(*old(self), content, old_card, id);
            let k = choose|k: int| 0 <= k < def.cards@.len() && def.cards@[k] == id;
            assert(transform_target(*old(self), content, old_card, def.cards@[k]));
            assert(pool@.len() > 0);
        }
        let ghost unsorted = pool@;
        let pool = sort_card_ids(content, pool);
        proof {
            assert(pool@.len() == unsorted.len()) by {
                pool@.to_multiset_ensures();
                unsorted.to_multiset_ensures();
            }
        }
        let pick = rng.index(pool.len());
        let id = pool[pick];
        proof {
            pool@.to_multiset_ensures();
            unsorted.to_multiset_ensures();
            assert(pool@.contains(pool@[pick as int]));
            assert(pool@.to_multiset().count(id) > 0);
            assert(unsorted.to_multiset().count(id) > 0);
            assert(unsorted.contains(id));
            let m = choose|m: int| 0 <= m < unsorted.len() && unsorted[m] == id;
            assert(transform_target(*old(self), content, old_card, unsorted[m]));
        }
        self.run.deck.remove(index);
        let ghost mid = *self;
        proof {
            assert forall|k: int| 0 <= k < self.run.deck@.len() implies (#[trigger] self.run.deck@[k]).id < content.cards@.len() by {
                if k < index {
                    assert(self.run.deck@[k] == old(self).run.deck@[k]);
                } else {
                    assert(self.run.deck@[k] == old(self).run.deck@[k + 1]);
                }
            }
        }
        self.add_card(content, Card::of(id, 0));
        proof {
            assert(mid == (Game { run: Run { deck: mid.run.deck, ..old(self).run }, ..*old(self) }));
        }
        rng
    }
}


impl Game {
    /// A card as a merchant offers it: an egg of its type upgrades it.
    pub fn merchant_card(&self, content: &Content, card: Card) -> (offered: Card)
        requires
            self.wf(content),
            card.id < content.cards@.len(),
        ensures
            offered == hatched(*self, content, card),
    {
        let egg = match content.cards[card.id as usize].card_type {
            CardType::Attack => self.has_relic(content, "RELIC.MOLTEN_EGG"),
            CardType::Skill => self.has_relic(content, "RELIC.TOXIC_EGG"),
            CardType::Power => self.has_relic(content, "RELIC.FROZEN_EGG"),
            _ => false,
        };
        let mut card = card;
        if card.upgrades == 0 && egg {
            card.upgrades = 1;
        }
        card
    }
}

} // verus!

use vstd::prelude::*;
use vstd::multiset::Multiset;
use crate::content::Content;
use crate::state::{Card, Combat, Game, Phase, Pile};
use crate::game::cards_valid;
use crate::rng::shuffled;

verus! {

/// The cards of one pile.
pub open spec fn pile_of(c: Combat, pile: Pile) -> Seq<Card> {
    match pile {
        Pile::Draw => c.draw@,
        Pile::Hand => c.hand@,
        Pile::Discard => c.discard@,
        Pile::Exhaust => c.exhaust@,
        Pile::Offer => c.offer@,
    }
}

/// Every card of the fight, in whichever pile it lies.
pub open spec fn all_cards(c: Combat) -> Multiset<Card> {
    c.draw@.to_multiset().add(c.hand@.to_multiset()).add(c.discard@.to_multiset()).add(
        c.exhaust@.to_multiset(),
    ).add(c.offer@.to_multiset())
}

impl Combat {
    /// The known cards on top and at the bottom of the draw pile do not overlap.
    pub open spec fn wf(&self) -> bool {
        self.known_draw_top + self.known_draw_bottom <= self.draw@.len()
    }

    /// Puts `card` on top of the draw pile, where the player knows it lies.
    pub fn push_draw(&mut self, card: Card)
        requires
            old(self).wf(),
        ensures
            final(self).wf(),
            final(self).draw@ == old(self).draw@.push(card),
            final(self).known_draw_top == old(self).known_draw_top + 1,
            final(self).known_draw_bottom == old(self).known_draw_bottom,
            final(self).hand == old(self).hand,
            final(self).discard == old(self).discard,
            final(self).exhaust == old(self).exhaust,
            final(self).offer == old(self).offer,
    {
        self.draw.push(card);
        assert(self.known_draw_top < self.draw.len());
        self.known_draw_top = self.known_draw_top + 1;
    }

    /// Takes the top card of the draw pile.
    pub fn pop_draw(&mut self) -> (card: Option<Card>)
        requires
            old(self).wf(),
        ensures
            final(self).wf(),
            old(self).draw@.len() == 0 ==> card is None && *final(self) == *old(self),
            old(self).draw@.len() > 0 ==> card == Some(old(self).draw@.last()) && final(self).draw@
                == old(self).draw@.drop_last(),
            final(self).hand == old(self).hand,
            final(self).discard == old(self).discard,
            final(self).exhaust == old(self).exhaust,
            final(self).offer == old(self).offer,
    {
        if self.draw.len() == 0 {
            return None;
        }
        let card = self.draw.pop();
        if card.is_some() {
            if self.known_draw_top > 0 {
                self.known_draw_top = self.known_draw_top - 1;
            } else if self.known_draw_bottom > self.draw.len() {
                self.known_draw_bottom = self.draw.len();
            }
        }
        card
    }

    /// Takes the card at `index` (counted from the bottom) out of the draw pile.
    pub fn remove_draw(&mut self, index: usize) -> (card: Card)
        requires
            old(self).wf(),
            index < old(self).draw@.len(),
        ensures
            final(self).wf(),
            card == old(self).draw@[index as int],
            final(self).draw@ == old(self).draw@.remove(index as int),
            final(self).hand == old(self).hand,
            final(self).discard == old(self).discard,
            final(self).exhaust == old(self).exhaust,
            final(self).offer == old(self).offer,
    {
        let len = self.draw.len();
        if index < self.known_draw_bottom {
            self.known_draw_bottom = self.known_draw_bottom - 1;
        } else if index >= len - self.known_draw_top {
            self.known_draw_top = self.known_draw_top - 1;
        } else if self.known_draw_top + self.known_draw_bottom == len {
            self.known_draw_top = self.known_draw_top - 1;
        }
        self.draw.remove(index)
    }

    /// Slips `card` into the draw pile at `index` (counted from the bottom), unseen.
    pub fn insert_unknown_draw(&mut self, index: usize, card: Card)
        requires
            old(self).wf(),
            index <= old(self).draw@.len(),
        ensures
            final(self).wf(),
            final(self).draw@ == old(self).draw@.insert(index as int, card),
            final(self).hand == old(self).hand,
            final(self).discard == old(self).discard,
            final(self).exhaust == old(self).exhaust,
            final(self).offer == old(self).offer,
    {
        let len = self.draw.len();
        if self.known_draw_bottom > index {
            self.known_draw_bottom = index;
        }
        if self.known_draw_top > len - index {
            self.known_draw_top = len - index;
        }
        self.draw.insert(index, card);
    }

    /// The order of the draw pile is no longer known.
    pub fn forget_draw_order(&mut self)
        ensures
            final(self).known_draw_top == 0,
            final(self).known_draw_bottom == 0,
            final(self).draw == old(self).draw,
            final(self).hand == old(self).hand,
            final(self).discard == old(self).discard,
            final(self).exhaust == old(self).exhaust,
            final(self).offer == old(self).offer,
            final(self).energy == old(self).energy,
            final(self).turn == old(self).turn,
    {
        self.known_draw_top = 0;
        self.known_draw_bottom = 0;
    }
}

/// The fight of a game that is in one.
pub open spec fn fight(g: Game) -> Combat {
    g.phase->Combat_0
}

/// The bytes of the name of card definition `id`.
pub open spec fn name_bytes(content: &Content, id: int) -> Seq<u8> {
    vstd::utf8::encode_utf8(content.cards@[id].id@)
}

/// Whether `x` sorts strictly before `y` byte by byte, looking from byte `i` on, with a
/// shorter sequence first when one is a prefix of the other.
pub open spec fn bytes_less_from(x: Seq<u8>, y: Seq<u8>, i: int) -> bool
    decreases x.len() - i,
{
    if i < 0 || i >= x.len() || i >= y.len() {
        x.len() < y.len()
    } else if x[i] != y[i] {
        x[i] < y[i]
    } else {
        bytes_less_from(x, y, i + 1)
    }
}

/// Whether card `a` sorts before card `b`: by the name of its definition, then by
/// upgrades when the names are equal.
pub open spec fn card_precedes(content: &Content, a: Card, b: Card) -> bool {
    let x = name_bytes(content, a.id as int);
    let y = name_bytes(content, b.id as int);
    if x == y {
        a.upgrades < b.upgrades
    } else {
        bytes_less_from(x, y, 0)
    }
}

/// The position where the stable insertion of `x` into `out` stops when it starts at
/// `at`: it moves down past every card that `x` sorts before.
pub open spec fn insert_at(content: &Content, out: Seq<Card>, x: Card, at: int) -> int
    decreases at,
{
    if at <= 0 || at > out.len() || !card_precedes(content, x, out[at - 1]) {
        at
    } else {
        insert_at(content, out, x, at - 1)
    }
}

/// `cards` stably sorted by name and upgrades, by insertion one card after the other.
pub open spec fn sort_by_name(content: &Content, cards: Seq<Card>) -> Seq<Card>
    decreases cards.len(),
{
    if cards.len() == 0 {
        cards
    } else {
        let before = sort_by_name(content, cards.drop_last());
        before.insert(insert_at(content, before, cards.last(), before.len() as int), cards.last())
    }
}

/// Whether card `a` sorts before card `b`: by the name of its definition, then by upgrades.
pub(crate) fn card_before(content: &Content, a: Card, b: Card) -> (before: bool)
    requires
        a.id < content.cards@.len(),
        b.id < content.cards@.len(),
    ensures
        before == card_precedes(content, a, b),
{
    let x = content.cards[a.id as usize].id.as_str().as_bytes();
    let y = content.cards[b.id as usize].id.as_str().as_bytes();
    let ghost xs = name_bytes(content, a.id as int);
    let ghost ys = name_bytes(content, b.id as int);
    assert(x@ == xs && y@ == ys);
    let mut i: usize = 0;
    while i < x.len() && i < y.len()
        invariant
            x@ == xs,
            y@ == ys,
            xs == name_bytes(content, a.id as int),
            ys == name_bytes(content, b.id as int),
            i <= xs.len() && i <= ys.len(),
            forall|k: int| 0 <= k < i ==> xs[k] == ys[k],
            bytes_less_from(xs, ys, 0) == bytes_less_from(xs, ys, i as int),
        decreases x@.len() - i,
    {
        if x[i] != y[i] {
            proof {
                assert(xs != ys) by {
                    assert(xs[i as int] != ys[i as int]);
                }
                assert(bytes_less_from(xs, ys, i as int) == (xs[i as int] < ys[i as int]));
            }
            return x[i] < y[i];
        }
        i = i + 1;
    }
    if x.len() != y.len() {
        return x.len() < y.len();
    }
    proof {
        assert(xs =~= ys);
    }
    a.upgrades < b.upgrades
}

/// `cards` stably sorted by name and upgrades.
fn sort_cards(content: &Content, cards: Vec<Card>) -> (sorted: Vec<Card>)
    requires
        cards_valid(cards@, content),
    ensures
        sorted@.to_multiset() == cards@.to_multiset(),
        cards_valid(sorted@, content),
        sorted@ == sort_by_name(content, cards@),
{
    broadcast use vstd::seq_lib::group_to_multiset_ensures;

    let mut out: Vec<Card> = Vec::new();
    let mut i: usize = 0;
    while i < cards.len()
        invariant
            i <= cards@.len(),
            cards_valid(cards@, content),
            cards_valid(out@, content),
            out@.to_multiset() == cards@.take(i as int).to_multiset(),
            out@ == sort_by_name(content, cards@.take(i as int)),
        decreases cards@.len() - i,
    {
        let x = cards[i];
        let mut at: usize = out.len();
        while at > 0 && card_before(content, x, out[at - 1])
            invariant
                at <= out@.len(),
                x.id < content.cards@.len(),
                cards_valid(out@, content),
                insert_at(content, out@, x, out@.len() as int) == insert_at(content, out@, x, at as int),
            decreases at,
        {
            at = at - 1;
        }
        let ghost before = out@;
        out.insert(at, x);
        proof {
            assert(cards@.take(i + 1).drop_last() =~= cards@.take(i as int));
            assert(cards@.take(i + 1).last() == x);
            assert(out@ == sort_by_name(content, cards@.take(i + 1)));
            assert(out@ == before.insert(at as int, x));
            vstd::seq_lib::to_multiset_insert(before, at as int, x);
            assert(cards@.take(i + 1) =~= cards@.take(i as int).push(x));
            vstd::seq_lib::to_multiset_build(cards@.take(i as int), x);
            assert(out@.to_multiset() == cards@.take(i + 1).to_multiset());
            assert forall|k: int| 0 <= k < out@.len() implies (#[trigger] out@[k]).id < content.cards@.len() by {
                if k < at {
                    assert(out@[k] == before[k]);
                } else if k > at {
                    assert(out@[k] == before[k - 1]);
                }
            }
        }
        i = i + 1;
    }
    proof {
        assert(cards@.take(cards@.len() as int) =~= cards@);
    }
    out
}

/// `cards` in reverse order.
fn reversed(cards: Vec<Card>) -> (out: Vec<Card>)
    ensures
        out@ == cards@.reverse(),
{
    let mut out: Vec<Card> = Vec::new();
    let mut i: usize = cards.len();
    while i > 0
        invariant
            i <= cards@.len(),
            out@ == cards@.subrange(i as int, cards@.len() as int).reverse(),
        decreases i,
    {
        i = i - 1;
        out.push(cards[i]);
        proof {
            assert(cards@.subrange(i as int, cards@.len() as int).reverse() =~= cards@.subrange(
                i + 1,
                cards@.len() as int,
            ).reverse().push(cards@[i as int]));
        }
    }
    proof {
        assert(cards@.subrange(0, cards@.len() as int) =~= cards@);
    }
    out
}

impl Game {
    /// Adds `card` to the hand, or to the discard pile when the hand already holds ten
    /// (which a simulated step counts as a discard).
    pub fn add_to_hand(&mut self, card: Card)
        requires
            old(self).in_combat(),
        ensures
            final(self).in_combat(),
            fight(*old(self)).hand@.len() < 10 ==> fight(*final(self)).hand@ == fight(*old(self)).hand@.push(card)
                && fight(*final(self)).discard == fight(*old(self)).discard,
            fight(*old(self)).hand@.len() >= 10 ==> fight(*final(self)).discard@ == fight(*old(self)).discard@.push(card)
                && fight(*final(self)).hand == fight(*old(self)).hand,
            fight(*final(self)).draw == fight(*old(self)).draw,
            fight(*final(self)).exhaust == fight(*old(self)).exhaust,
            fight(*final(self)).offer == fight(*old(self)).offer,
            fight(*final(self)).known_draw_top == fight(*old(self)).known_draw_top,
            fight(*final(self)).known_draw_bottom == fight(*old(self)).known_draw_bottom,
            all_cards(fight(*final(self))) == all_cards(fight(*old(self))).insert(card),
            final(self).run == old(self).run,
            final(self).rngs == old(self).rngs,
            fight(*old(self)).hand@.len() >= 10 ==> final(self).expectation == match old(self).expectation {
                Some(e) => Some(crate::state::Expectation { discarded: crate::expect::clamp_i16(e.discarded + 1), ..e }),
                None => None,
            },
            fight(*old(self)).hand@.len() < 10 ==> final(self).expectation == old(self).expectation,
    {
        broadcast use vstd::seq_lib::group_to_multiset_ensures;
        broadcast use vstd::multiset::group_multiset_axioms;

        let full = match &self.phase {
            Phase::Combat(c) => c.hand.len() >= 10,
            _ => false,
        };
        if full {
            self.expectation_discard(1);
        }
        match &mut self.phase {
            Phase::Combat(combat) => {
                if combat.hand.len() < 10 {
                    combat.hand.push(card);
                } else {
                    combat.discard.push(card);
                }
            },
            _ => {},
        }
        proof {
            let o = fight(*old(self));
            let f = fight(*final(self));
            assert(all_cards(f) =~= all_cards(o).insert(card));
        }
    }
}

impl Game {
    /// Shuffles the draw pile (left as it is while a step is being simulated); its
    /// order is no longer known.
    pub fn shuffle_draw(&mut self)
        ensures
            !old(self).in_combat() ==> *final(self) == *old(self),
            old(self).in_combat() ==> {
                let o = fight(*old(self));
                let f = fight(*final(self));
                &&& final(self).in_combat()
                &&& f.draw@.to_multiset() == o.draw@.to_multiset()
                &&& old(self).expectation is Some ==> f.draw == o.draw && final(self).rngs == old(self).rngs
                &&& old(self).expectation is None ==> f.draw@ == shuffled(old(self).rngs.shuffle, o.draw@).0
                    && final(self).rngs.shuffle == shuffled(old(self).rngs.shuffle, o.draw@).1
                &&& f.hand == o.hand && f.discard == o.discard && f.exhaust == o.exhaust && f.offer == o.offer
                &&& f.known_draw_top == 0 && f.known_draw_bottom == 0
                &&& all_cards(f) == all_cards(o)
                &&& final(self).run == old(self).run
            },
    {
        let simulated = self.expectation.is_some();
        match &mut self.phase {
            Phase::Combat(combat) => {
                if !simulated {
                    self.rngs.shuffle.shuffle(&mut combat.draw);
                }
                combat.forget_draw_order();
            },
            _ => {},
        }
    }

    /// Moves the discard pile under the draw pile's cards: sorted by name, appended,
    /// shuffled (unless a step is being simulated) and turned over; the order of the
    /// draw pile is no longer known.
    pub fn shuffle_discard_into_draw(&mut self, content: &Content)
        requires
            old(self).in_combat() ==> cards_valid(fight(*old(self)).discard@, content),
        ensures
            !old(self).in_combat() ==> *final(self) == *old(self),
            old(self).in_combat() ==> {
                let o = fight(*old(self));
                let f = fight(*final(self));
                &&& final(self).in_combat()
                &&& f.draw@.to_multiset() == o.draw@.to_multiset().add(o.discard@.to_multiset())
                &&& old(self).expectation is Some ==> f.draw@ == (o.draw@ + sort_by_name(content, o.discard@)).reverse()
                    && final(self).rngs == old(self).rngs
                &&& old(self).expectation is None ==> f.draw@ == shuffled(
                    old(self).rngs.shuffle,
                    o.draw@ + sort_by_name(content, o.discard@),
                ).0.reverse() && final(self).rngs.shuffle == shuffled(
                    old(self).rngs.shuffle,
                    o.draw@ + sort_by_name(content, o.discard@),
                ).1
                &&& f.discard@.len() == 0
                &&& f.hand == o.hand && f.exhaust == o.exhaust && f.offer == o.offer
                &&& f.known_draw_top == 0 && f.known_draw_bottom == 0
                &&& all_cards(f) == all_cards(o)
                &&& final(self).run == old(self).run
            },
    {
        broadcast use vstd::seq_lib::group_to_multiset_ensures;
        broadcast use vstd::multiset::group_multiset_axioms;

        let simulated = self.expectation.is_some();
        match &mut self.phase {
            Phase::Combat(combat) => {
                let ghost o_draw = combat.draw@;
                let ghost o_discard = combat.discard@;
                let mut discard: Vec<Card> = Vec::new();
                std::mem::swap(&mut discard, &mut combat.discard);
                let mut sorted = sort_cards(content, discard);
                let ghost sorted_cards = sorted@;
                combat.draw.append(&mut sorted);
                proof {
                    vstd::seq_lib::lemma_multiset_commutative(o_draw, sorted_cards);
                    assert(combat.draw@ == o_draw + sorted_cards);
                }
                let ghost appended = combat.draw@;
                if !simulated {
                    self.rngs.shuffle.shuffle(&mut combat.draw);
                }
                let mut draw: Vec<Card> = Vec::new();
                std::mem::swap(&mut draw, &mut combat.draw);
                let ghost shuffled = draw@;
                combat.draw = reversed(draw);
                proof {
                    shuffled.lemma_reverse_to_multiset();
                    assert(combat.draw@.to_multiset() =~= o_draw.to_multiset().add(o_discard.to_multiset()));
                }
                combat.forget_draw_order();
            },
            _ => {},
        }
        proof {
            if old(self).in_combat() {
                let o = fight(*old(self));
                let f = fight(*final(self));
                assert(f.discard@ =~= Seq::<Card>::empty());
                assert(all_cards(f) =~= all_cards(o));
            }
        }
    }

    /// Draws the top card of the draw pile; while a step is being simulated and the top
    /// of the pile is unknown, the card is one of the unknown ones, as the expectation
    /// chooses (the lowest when it cannot).
    pub fn take_draw(&mut self) -> (card: Option<Card>)
        requires
            old(self).in_combat() ==> fight(*old(self)).wf(),
        ensures
            !old(self).in_combat() ==> card is None && *final(self) == *old(self),
            old(self).in_combat() ==> {
                let o = fight(*old(self));
                let f = fight(*final(self));
                &&& final(self).in_combat()
                &&& f.wf()
                &&& f.hand == o.hand && f.discard == o.discard && f.exhaust == o.exhaust && f.offer == o.offer
                &&& final(self).run == old(self).run
                &&& final(self).rngs == old(self).rngs
                &&& match card {
                    None => o.draw@.len() == 0 && f.draw == o.draw,
                    Some(c) => exists|i: int| 0 <= i < o.draw@.len() && o.draw@[i] == c && f.draw@ == o.draw@.remove(i),
                }
                &&& card matches Some(c) ==> all_cards(o).count(c) > 0 && all_cards(f) == all_cards(o).remove(c)
                &&& o.draw@.len() > 0 ==> card is Some
                &&& (old(self).expectation is None || o.known_draw_top > 0 || o.draw@.len() <= o.known_draw_bottom + o.known_draw_top)
                    && o.draw@.len() > 0 ==> card == Some(o.draw@.last())
            },
    {
        let (unknown, top, bottom) = match &self.phase {
            Phase::Combat(c) => {
                let len = c.draw.len();
                assert(c.wf());
                let known = c.known_draw_bottom + c.known_draw_top;
                (len - known, c.known_draw_top, c.known_draw_bottom)
            },
            _ => {
                return None;
            },
        };
        let ghost o = fight(*self);
        if self.expectation.is_some() && top == 0 && unknown > 0 {
            let choice = match self.expectation_choice(unknown) {
                Some(c) => c,
                None => 0,
            };
            proof {
                if unknown == 1 {
                    assert(choice == 0);
                }
                if let Some(e) = old(self).expectation {
                    if unknown != 1 {
                        assert(choice_le(crate::expect::choice_taken(e, unknown), unknown));
                    }
                }
            }
            match &mut self.phase {
                Phase::Combat(combat) => {
                    let card = combat.remove_draw(bottom + choice);
                    proof {
                        lemma_all_cards_remove(o, *combat, (bottom + choice) as int);
                    }
                    return Some(card);
                },
                _ => {
                    return None;
                },
            }
        } else {
            match &mut self.phase {
                Phase::Combat(combat) => {
                    let card = combat.pop_draw();
                    proof {
                        if o.draw@.len() > 0 {
                            assert(o.draw@.drop_last() =~= o.draw@.remove(o.draw@.len() - 1));
                            lemma_all_cards_remove(o, *combat, o.draw@.len() - 1);
                        }
                    }
                    return card;
                },
                _ => {
                    return None;
                },
            }
        }
    }
}

/// Taking the card at `i` out of the draw pile takes it out of the fight's cards.
pub proof fn lemma_all_cards_remove(o: Combat, f: Combat, i: int)
    requires
        0 <= i < o.draw@.len(),
        f.draw@ == o.draw@.remove(i),
        f.hand == o.hand,
        f.discard == o.discard,
        f.exhaust == o.exhaust,
        f.offer == o.offer,
    ensures
        all_cards(o).count(o.draw@[i]) > 0,
        all_cards(f) == all_cards(o).remove(o.draw@[i]),
{
    broadcast use vstd::seq_lib::group_to_multiset_ensures;
    broadcast use vstd::multiset::group_multiset_axioms;

    assert(o.draw@.contains(o.draw@[i]));
    assert(o.draw@.to_multiset().count(o.draw@[i]) > 0);
    assert(all_cards(f) =~= all_cards(o).remove(o.draw@[i]));
}

/// A taken branch is below the branch count.
pub open spec fn choice_le(choice: Option<usize>, count: usize) -> bool {
    choice matches Some(c) ==> c < count
}


impl Game {
    /// Puts `card` on top of `pile` (known there when it is the draw pile).
    pub fn push_pile(&mut self, pile: Pile, card: Card)
        requires
            old(self).in_combat(),
            fight(*old(self)).wf(),
        ensures
            final(self).in_combat(),
            fight(*final(self)).wf(),
            pile_of(fight(*final(self)), pile) == pile_of(fight(*old(self)), pile).push(card),
            forall|other: Pile| other != pile ==> #[trigger] pile_of(fight(*final(self)), other) == pile_of(fight(*old(self)), other),
            all_cards(fight(*final(self))) == all_cards(fight(*old(self))).insert(card),
            *final(self) == (Game { phase: final(self).phase, ..*old(self) }),
    {
        broadcast use vstd::seq_lib::group_to_multiset_ensures;
        broadcast use vstd::multiset::group_multiset_axioms;

        match &mut self.phase {
            Phase::Combat(combat) => {
                match pile {
                    Pile::Draw => combat.push_draw(card),
                    Pile::Hand => combat.hand.push(card),
                    Pile::Discard => combat.discard.push(card),
                    Pile::Exhaust => combat.exhaust.push(card),
                    Pile::Offer => combat.offer.push(card),
                }
            },
            _ => {},
        }
        proof {
            assert(all_cards(fight(*self)) =~= all_cards(fight(*old(self))).insert(card));
        }
    }

    /// Takes the card at `index` out of `pile`.
    pub fn remove_pile(&mut self, pile: Pile, index: usize) -> (card: Card)
        requires
            old(self).in_combat(),
            fight(*old(self)).wf(),
            index < pile_of(fight(*old(self)), pile).len(),
        ensures
            final(self).in_combat(),
            fight(*final(self)).wf(),
            card == pile_of(fight(*old(self)), pile)[index as int],
            pile_of(fight(*final(self)), pile) == pile_of(fight(*old(self)), pile).remove(index as int),
            forall|other: Pile| other != pile ==> #[trigger] pile_of(fight(*final(self)), other) == pile_of(fight(*old(self)), other),
            all_cards(fight(*final(self))) == all_cards(fight(*old(self))).remove(card),
            *final(self) == (Game { phase: final(self).phase, ..*old(self) }),
    {
        broadcast use vstd::seq_lib::group_to_multiset_ensures;
        broadcast use vstd::multiset::group_multiset_axioms;

        let card = match &mut self.phase {
            Phase::Combat(combat) => {
                match pile {
                    Pile::Draw => combat.remove_draw(index),
                    Pile::Hand => combat.hand.remove(index),
                    Pile::Discard => combat.discard.remove(index),
                    Pile::Exhaust => combat.exhaust.remove(index),
                    Pile::Offer => combat.offer.remove(index),
                }
            },
            _ => Card::of(0, 0),
        };
        proof {
            let o = pile_of(fight(*old(self)), pile);
            assert(o.contains(o[index as int]));
            assert(all_cards(fight(*self)) =~= all_cards(fight(*old(self))).remove(card));
        }
        card
    }
}

} // verus!

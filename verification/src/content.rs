use vstd::prelude::*;

verus! {

/// Index of an entry in one of the content tables.
pub type Id = u16;

/// The card can never be removed or transformed.
pub const ETERNAL: u16 = 0x0001;
/// The card exhausts when it is left in hand at the end of a turn.
pub const ETHEREAL: u16 = 0x0002;
/// The card cannot be played.
pub const UNPLAYABLE: u16 = 0x0004;
/// The card is never offered by random generation.
pub const NO_GENERATE: u16 = 0x0008;

/// Enchantment a card can take: Perfect Fit.
pub const PERFECT_FIT: u8 = 0x01;
/// Enchantment a card can take: Soul's Power.
pub const SOULS_POWER: u8 = 0x02;
/// Enchantment a card can take: Spiral.
pub const SPIRAL: u8 = 0x04;

/// Card tag: a basic strike.
pub const STRIKE_TAG: u16 = 0x0001;
/// Card tag: a basic defend.
pub const DEFEND_TAG: u16 = 0x0002;

#[derive(Clone, Copy, Debug, PartialEq, Eq, Structural)]
pub enum CardType {
    Attack,
    Skill,
    Power,
    Status,
    Curse,
    Quest,
}

#[derive(Clone, Copy, Debug, PartialEq, Eq, Structural)]
pub enum CardRarity {
    Basic,
    Common,
    Uncommon,
    Rare,
    Special,
    Event,
    Ancient,
}

pub struct CardDef {
    pub id: String,
    pub card_type: CardType,
    pub rarity: CardRarity,
    /// Flags of the base card and of its upgraded form.
    pub flags: [u16; 2],
    pub tags: u16,
    /// The enchantments the card can take (bits).
    pub enchantable: u8,
}

pub struct CharacterDef {
    pub id: String,
    pub hp: i16,
    pub gold: i32,
    pub energy: u8,
    pub draw: u8,
    pub orb_slots: u8,
    /// Starting deck: card ids with their upgrade counts.
    pub deck: Vec<(Id, u8)>,
    /// Starting relics.
    pub relics: Vec<Id>,
    /// Relics that only this character can find.
    pub relic_pool: Vec<Id>,
    /// Cards that this character's rewards draw from.
    pub cards: Vec<Id>,
    pub potion_pool: Vec<Id>,
}

pub struct ActDef {
    pub id: String,
    pub events: Vec<Id>,
    pub encounters: Vec<Id>,
    pub elites: Vec<Id>,
    pub bosses: Vec<Id>,
    /// Relics shared by every character (read from the first act).
    pub relics: Vec<Id>,
    pub potions: Vec<Id>,
    pub cards: Vec<Id>,
}

pub struct NamedDef {
    pub id: String,
}

pub struct EncounterDef {
    pub id: String,
    /// Kinds of the encounter (bits); two fights in a row never share one.
    pub tags: u32,
}

pub struct RelicDef {
    pub id: String,
    /// Which relic bag the relic starts in (common, uncommon, rare, shop).
    pub rarity: u8,
    /// Whether a merchant may stock the relic.
    pub shop_allowed: bool,
    /// Whether the relic belongs to a rarity group (and so has a price).
    pub grouped: bool,
}

#[derive(Clone, Copy, Debug, PartialEq, Eq, Structural)]
pub enum PotionRarity {
    Common,
    Uncommon,
    Rare,
}

pub struct PotionDef {
    pub id: String,
    pub rarity: PotionRarity,
    /// Whether a fight may generate the potion.
    pub in_combat: bool,
}

pub struct Content {
    pub cards: Vec<CardDef>,
    pub characters: Vec<CharacterDef>,
    pub acts: Vec<ActDef>,
    pub encounters: Vec<EncounterDef>,
    pub events: Vec<NamedDef>,
    pub relics: Vec<RelicDef>,
    pub potions: Vec<PotionDef>,
    /// Cards that belong to no character.
    pub colorless: Vec<Id>,
}

/// Every id in `ids` indexes a table of `len` entries.
pub open spec fn ids_below(ids: Seq<Id>, len: int) -> bool {
    forall|i: int| 0 <= i < ids.len() ==> (#[trigger] ids[i]) < len
}

impl CharacterDef {
    pub open spec fn wf(&self, content: &Content) -> bool {
        &&& self.hp >= 0
        &&& forall|i: int|
            0 <= i < self.deck@.len() ==> (#[trigger] self.deck@[i]).0 < content.cards@.len()
        &&& ids_below(self.relics@, content.relics@.len() as int)
        &&& ids_below(self.relic_pool@, content.relics@.len() as int)
        &&& ids_below(self.cards@, content.cards@.len() as int)
        &&& ids_below(self.potion_pool@, content.potions@.len() as int)
    }
}

impl ActDef {
    pub open spec fn wf(&self, content: &Content) -> bool {
        &&& ids_below(self.events@, content.events@.len() as int)
        &&& ids_below(self.encounters@, content.encounters@.len() as int)
        &&& ids_below(self.elites@, content.encounters@.len() as int)
        &&& ids_below(self.bosses@, content.encounters@.len() as int)
        &&& ids_below(self.relics@, content.relics@.len() as int)
        &&& ids_below(self.potions@, content.potions@.len() as int)
        &&& ids_below(self.cards@, content.cards@.len() as int)
    }
}

impl Content {
    /// Every table fits the id type, there is at least one act, and every id that a
    /// table entry names indexes the table it refers to.
    pub open spec fn wf(&self) -> bool {
        &&& self.cards@.len() <= u16::MAX
        &&& self.characters@.len() <= u16::MAX
        &&& self.acts@.len() <= u16::MAX
        &&& self.encounters@.len() <= u16::MAX
        &&& self.events@.len() <= u16::MAX
        &&& self.relics@.len() <= u16::MAX
        &&& self.potions@.len() <= u16::MAX
        &&& self.acts@.len() > 0
        &&& ids_below(self.colorless@, self.cards@.len() as int)
        &&& forall|i: int| 0 <= i < self.characters@.len() ==> (#[trigger] self.characters@[i]).wf(self)
        &&& forall|i: int| 0 <= i < self.acts@.len() ==> (#[trigger] self.acts@[i]).wf(self)
        &&& forall|i: int| 0 <= i < self.relics@.len() ==> (#[trigger] self.relics@[i]).rarity < 4
    }

    /// Checks the content tables (see `wf`).
    pub fn validate(&self) -> (valid: bool)
        ensures
            valid == self.wf(),
    {
        if self.cards.len() > 65535 || self.characters.len() > 65535 || self.acts.len() > 65535
            || self.encounters.len() > 65535 || self.events.len() > 65535 || self.relics.len()
            > 65535 || self.potions.len() > 65535 || self.acts.len() == 0 || !all_below(
            &self.colorless,
            self.cards.len(),
        ) {
            return false;
        }
        let mut i: usize = 0;
        while i < self.characters.len()
            invariant
                i <= self.characters@.len(),
                forall|k: int| 0 <= k < i ==> (#[trigger] self.characters@[k]).wf(self),
            decreases self.characters@.len() - i,
        {
            let c = &self.characters[i];
            if c.hp < 0 {
                return false;
            }
            let mut j: usize = 0;
            while j < c.deck.len()
                invariant
                    i < self.characters@.len(),
                    *c == self.characters@[i as int],
                    j <= c.deck@.len(),
                    forall|k: int| 0 <= k < j ==> (#[trigger] c.deck@[k]).0 < self.cards@.len(),
                decreases c.deck@.len() - j,
            {
                if c.deck[j].0 as usize >= self.cards.len() {
                    assert(!self.characters@[i as int].wf(self)) by {
                        assert(c.deck@[j as int].0 >= self.cards@.len());
                    }
                    return false;
                }
                j = j + 1;
            }
            if !all_below(&c.relics, self.relics.len()) || !all_below(&c.relic_pool, self.relics.len())
                || !all_below(&c.cards, self.cards.len()) || !all_below(
                &c.potion_pool,
                self.potions.len(),
            ) {
                return false;
            }
            i = i + 1;
        }
        let mut i: usize = 0;
        while i < self.acts.len()
            invariant
                i <= self.acts@.len(),
                forall|k: int| 0 <= k < i ==> (#[trigger] self.acts@[k]).wf(self),
            decreases self.acts@.len() - i,
        {
            let a = &self.acts[i];
            if !all_below(&a.events, self.events.len()) || !all_below(
                &a.encounters,
                self.encounters.len(),
            ) || !all_below(&a.elites, self.encounters.len()) || !all_below(
                &a.bosses,
                self.encounters.len(),
            ) || !all_below(&a.relics, self.relics.len()) || !all_below(
                &a.potions,
                self.potions.len(),
            ) || !all_below(&a.cards, self.cards.len()) {
                return false;
            }
            i = i + 1;
        }
        let mut i: usize = 0;
        while i < self.relics.len()
            invariant
                i <= self.relics@.len(),
                forall|k: int| 0 <= k < i ==> (#[trigger] self.relics@[k]).rarity < 4,
            decreases self.relics@.len() - i,
        {
            if self.relics[i].rarity >= 4 {
                return false;
            }
            i = i + 1;
        }
        true
    }

    pub open spec fn card_names(&self) -> Seq<Seq<char>> {
        self.cards@.map_values(|d: CardDef| d.id@)
    }

    /// The first card whose name is `name`.
    pub fn card_id(&self, name: &str) -> (id: Option<Id>)
        requires
            self.cards@.len() <= u16::MAX,
        ensures
            first_named(self.card_names(), name@, id),
    {
        let mut i: usize = 0;
        let ghost names = self.card_names();
        while i < self.cards.len()
            invariant
                i <= self.cards@.len(),
                self.cards@.len() <= u16::MAX,
                names == self.card_names(),
                forall|k: int| 0 <= k < i ==> names[k] != name@,
            decreases self.cards@.len() - i,
        {
            if same_name(&self.cards[i].id, name) {
                return Some(i as Id);
            }
            i = i + 1;
        }
        None
    }

    pub open spec fn relic_names(&self) -> Seq<Seq<char>> {
        self.relics@.map_values(|d: RelicDef| d.id@)
    }

    /// The first relic whose name is `name`.
    pub fn relic_id(&self, name: &str) -> (id: Option<Id>)
        requires
            self.relics@.len() <= u16::MAX,
        ensures
            first_named(self.relic_names(), name@, id),
    {
        let mut i: usize = 0;
        let ghost names = self.relic_names();
        while i < self.relics.len()
            invariant
                i <= self.relics@.len(),
                self.relics@.len() <= u16::MAX,
                names == self.relic_names(),
                forall|k: int| 0 <= k < i ==> names[k] != name@,
            decreases self.relics@.len() - i,
        {
            if same_name(&self.relics[i].id, name) {
                return Some(i as Id);
            }
            i = i + 1;
        }
        None
    }

    pub open spec fn act_names(&self) -> Seq<Seq<char>> {
        self.acts@.map_values(|d: ActDef| d.id@)
    }

    /// The first act whose name is `name`.
    pub fn act_id(&self, name: &str) -> (id: Option<Id>)
        requires
            self.acts@.len() <= u16::MAX,
        ensures
            first_named(self.act_names(), name@, id),
    {
        let mut i: usize = 0;
        let ghost names = self.act_names();
        while i < self.acts.len()
            invariant
                i <= self.acts@.len(),
                self.acts@.len() <= u16::MAX,
                names == self.act_names(),
                forall|k: int| 0 <= k < i ==> names[k] != name@,
            decreases self.acts@.len() - i,
        {
            if same_name(&self.acts[i].id, name) {
                return Some(i as Id);
            }
            i = i + 1;
        }
        None
    }

    pub open spec fn event_names(&self) -> Seq<Seq<char>> {
        self.events@.map_values(|d: NamedDef| d.id@)
    }

    /// The first event whose name is `name`.
    pub fn event_id(&self, name: &str) -> (id: Option<Id>)
        requires
            self.events@.len() <= u16::MAX,
        ensures
            first_named(self.event_names(), name@, id),
    {
        let mut i: usize = 0;
        let ghost names = self.event_names();
        while i < self.events.len()
            invariant
                i <= self.events@.len(),
                self.events@.len() <= u16::MAX,
                names == self.event_names(),
                forall|k: int| 0 <= k < i ==> names[k] != name@,
            decreases self.events@.len() - i,
        {
            if same_name(&self.events[i].id, name) {
                return Some(i as Id);
            }
            i = i + 1;
        }
        None
    }
}

/// `id` is the index of the first name in `names` equal to `name`, or `None` when
/// no name is equal to it.
pub open spec fn first_named(names: Seq<Seq<char>>, name: Seq<char>, id: Option<Id>) -> bool {
    match id {
        Some(i) => i < names.len() && names[i as int] == name && forall|k: int|
            0 <= k < i ==> names[k] != name,
        None => forall|k: int| 0 <= k < names.len() ==> names[k] != name,
    }
}

/// A permutation of valid ids holds valid ids.
pub proof fn lemma_perm_ids_below(a: Seq<Id>, b: Seq<Id>, len: int)
    requires
        a.to_multiset() == b.to_multiset(),
        ids_below(b, len),
    ensures
        ids_below(a, len),
{
    assert forall|i: int| 0 <= i < a.len() implies (#[trigger] a[i]) < len by {
        a.to_multiset_ensures();
        b.to_multiset_ensures();
        assert(a.contains(a[i]));
        assert(a.to_multiset().count(a[i]) > 0);
        assert(b.contains(a[i]));
        let k = choose|k: int| 0 <= k < b.len() && b[k] == a[i];
    }
}

/// Whether every id in `ids` is below `len`.
pub fn all_below(ids: &Vec<Id>, len: usize) -> (all: bool)
    ensures
        all == ids_below(ids@, len as int),
{
    let mut i: usize = 0;
    while i < ids.len()
        invariant
            i <= ids@.len(),
            forall|k: int| 0 <= k < i ==> (#[trigger] ids@[k]) < len,
        decreases ids@.len() - i,
    {
        if ids[i] as usize >= len {
            return false;
        }
        i = i + 1;
    }
    true
}

/// Whether a table entry's name is `name`.
pub fn same_name(id: &String, name: &str) -> (same: bool)
    ensures
        same == (id@ == name@),
{
    let owned: String = name.to_owned();
    *id == owned
}

} // verus!

use vstd::prelude::*;
use crate::state::{Game, Expectation};

verus! {

pub open spec fn clamp_i16(x: int) -> i16 {
    if x > i16::MAX {
        i16::MAX
    } else if x < i16::MIN {
        i16::MIN
    } else {
        x as i16
    }
}

pub open spec fn clamp_i32(x: int) -> i32 {
    if x > i32::MAX {
        i32::MAX
    } else if x < i32::MIN {
        i32::MIN
    } else {
        x as i32
    }
}

/// `a + b`, held at the bounds of `i16`.
pub fn saturating_add_i16(a: i16, b: i16) -> (sum: i16)
    ensures
        sum == clamp_i16(a + b),
{
    let s: i32 = a as i32 + b as i32;
    if s > i16::MAX as i32 {
        i16::MAX
    } else if s < i16::MIN as i32 {
        i16::MIN
    } else {
        s as i16
    }
}

/// `a + b`, held at the bounds of `i32`.
pub fn saturating_add_i32(a: i32, b: i32) -> (sum: i32)
    ensures
        sum == clamp_i32(a + b),
{
    let s: i64 = a as i64 + b as i64;
    if s > i32::MAX as i64 {
        i32::MAX
    } else if s < i32::MIN as i64 {
        i32::MIN
    } else {
        s as i32
    }
}

/// The expectation after choosing among `count` branches (see `expectation_choice`).
pub open spec fn after_choice(e: Expectation, count: usize) -> Expectation {
    if e.next is Some {
        e
    } else if e.used < e.choices@.len() {
        Expectation { used: (e.used + 1) as usize, ..e }
    } else {
        Expectation { next: Some(count), ..e }
    }
}

/// The branch taken among `count` (see `expectation_choice`).
pub open spec fn choice_taken(e: Expectation, count: usize) -> Option<usize> {
    if e.next is Some {
        None
    } else if e.used < e.choices@.len() {
        let choice = e.choices@[e.used as int];
        if choice < count {
            Some(choice)
        } else {
            None
        }
    } else {
        None
    }
}

impl Game {
    /// Picks among `count` branches while a step is being simulated: a single branch
    /// is always taken; otherwise the next scripted choice is used if it is in range,
    /// and once the script runs out the branch count is recorded and nothing is taken.
    pub fn expectation_choice(&mut self, count: usize) -> (choice: Option<usize>)
        ensures
            count == 1 ==> choice == Some(0usize) && *final(self) == *old(self),
            count != 1 ==> match old(self).expectation {
                None => choice is None && *final(self) == *old(self),
                Some(e) => {
                    &&& choice == choice_taken(e, count)
                    &&& *final(self) == (Game { expectation: Some(after_choice(e, count)), ..*old(self) })
                },
            },
    {
        if count == 1 {
            return Some(0);
        }
        match self.expectation.take() {
            None => None,
            Some(mut e) => {
                if e.next.is_some() {
                    self.expectation = Some(e);
                    return None;
                }
                if e.used < e.choices.len() {
                    let choice = e.choices[e.used];
                    e.used = e.used + 1;
                    self.expectation = Some(e);
                    return if choice < count {
                        Some(choice)
                    } else {
                        None
                    };
                }
                e.next = Some(count);
                self.expectation = Some(e);
                None
            },
        }
    }

    /// Marks the simulated step as one whose outcome cannot be enumerated.
    pub fn expectation_unknown(&mut self)
        ensures
            match old(self).expectation {
                None => *final(self) == *old(self),
                Some(e) => *final(self) == (Game { expectation: Some(Expectation { unknown: true, ..e }), ..*old(self) }),
            },
    {
        if let Some(mut e) = self.expectation.take() {
            e.unknown = true;
            self.expectation = Some(e);
        }
    }

    /// Counts `count` discarded cards in the simulated step.
    pub fn expectation_discard(&mut self, count: usize)
        ensures
            match old(self).expectation {
                None => *final(self) == *old(self),
                Some(e) => *final(self) == (Game { expectation: Some(
                    Expectation { discarded: clamp_i16(e.discarded + (count as i16)), ..e },
                ), ..*old(self) }),
            },
    {
        if let Some(mut e) = self.expectation.take() {
            e.discarded = saturating_add_i16(e.discarded, count as i16);
            self.expectation = Some(e);
        }
    }

    /// Counts one drawn card in the simulated step.
    pub fn expectation_draw(&mut self)
        ensures
            match old(self).expectation {
                None => *final(self) == *old(self),
                Some(e) => *final(self) == (Game { expectation: Some(
                    Expectation { drawn: clamp_i16(e.drawn + 1), ..e },
                ), ..*old(self) }),
            },
    {
        if let Some(mut e) = self.expectation.take() {
            e.drawn = saturating_add_i16(e.drawn, 1);
            self.expectation = Some(e);
        }
    }
}

} // verus!

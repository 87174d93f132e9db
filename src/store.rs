use vstd::prelude::*;
use crate::filter::{select, select_cards};
use crate::model::{
    cards_view, dedup, dedup_strings, distinct_entries, strings_view, Card, CardFilters, CardView, GenerationResult, MealzError,
    PlanConstraints,
};
use crate::schedule::{build_plan, expand, ideas_view, plan_of, shuffled_inventory};

verus! {

/// Identifiers strictly increase along the sequence, so none repeats.
pub open spec fn ids_ascending(s: Seq<CardView>) -> bool {
    forall|i: int, j: int| 0 <= i < j < s.len() ==> #[trigger] s[i].id < #[trigger] s[j].id
}

/// A card after an update: each supplied field replaced, the rest kept;
/// supplied tags and ingredients lose their repeated entries.
pub open spec fn patched(
    c: CardView,
    name: Option<String>,
    tags: Option<Vec<String>>,
    ingredients: Option<Vec<String>>,
    max_batch_size: Option<u8>,
) -> CardView {
    CardView {
        id: c.id,
        name: match name {
            Some(s) => s@,
            None => c.name,
        },
        tags: match tags {
            Some(v) => dedup(strings_view(v@)),
            None => c.tags,
        },
        ingredients: match ingredients {
            Some(v) => dedup(strings_view(v@)),
            None => c.ingredients,
        },
        max_batch_size: match max_batch_size {
            Some(b) => b,
            None => c.max_batch_size,
        },
    }
}

/// The card store and plan generator: an in-memory list of cards with
/// identifiers issued in increasing order.
pub struct MealzPlug {
    cards: Vec<Card>,
    next_id: u64,
}

impl MealzPlug {
    /// The stored cards, in insertion order.
    pub closed spec fn cards(&self) -> Seq<CardView> {
        cards_view(self.cards@)
    }

    /// The identifier the next added card receives.
    pub closed spec fn next_id(&self) -> u64 {
        self.next_id
    }

    pub open spec fn wf(&self) -> bool {
        &&& ids_ascending(self.cards())
        &&& forall|i: int| 0 <= i < self.cards().len() ==> #[trigger] self.cards()[i].id < self.next_id()
        &&& self.next_id() >= 1
        &&& forall|i: int|
            0 <= i < self.cards().len() ==> distinct_entries(#[trigger] self.cards()[i].tags)
                && distinct_entries(self.cards()[i].ingredients)
    }

    /// An empty store whose first card gets identifier 1.
    pub fn new() -> (r: Self)
        ensures
            r.wf(),
            r.cards() == Seq::<CardView>::empty(),
            r.next_id() == 1,
    {
        let r = MealzPlug { cards: Vec::new(), next_id: 1 };
        assert(r.cards() =~= Seq::<CardView>::empty());
        r
    }

    /// Stores a new card under the next identifier; repeated tags and
    /// ingredients are kept once, and the max batch size defaults to 1. Fails with `Invalid` on a max batch size of zero or
    /// when no identifier is left.
    pub fn add_card(
        &mut self,
        name: String,
        tags: Vec<String>,
        ingredients: Vec<String>,
        max_batch_size: Option<u8>,
    ) -> (r: Result<Card, MealzError>)
        requires
            old(self).wf(),
        ensures
            final(self).wf(),
            r is Err <==> (max_batch_size == Some(0u8) || old(self).next_id() == u64::MAX),
            match r {
                Ok(c) => {
                    &&& c@ == (CardView {
                        id: old(self).next_id(),
                        name: name@,
                        tags: dedup(strings_view(tags@)),
                        ingredients: dedup(strings_view(ingredients@)),
                        max_batch_size: match max_batch_size {
                            Some(b) => b,
                            None => 1u8,
                        },
                    })
                    &&& final(self).cards() == old(self).cards().push(c@)
                    &&& final(self).next_id() == old(self).next_id() + 1
                },
                Err(e) => {
                    &&& e == MealzError::Invalid
                    &&& final(self).cards() == old(self).cards()
                    &&& final(self).next_id() == old(self).next_id()
                },
            },
    {
        let batch = match max_batch_size {
            Some(b) => b,
            None => 1,
        };
        if batch == 0 || self.next_id == u64::MAX {
            return Err(MealzError::Invalid);
        }
        let card = Card {
            id: self.next_id,
            name,
            tags: dedup_strings(tags),
            ingredients: dedup_strings(ingredients),
            max_batch_size: batch,
        };
        let stored = card.duplicate();
        let ghost before = self.cards@;
        self.cards.push(stored);
        self.next_id = self.next_id + 1;
        assert(self.cards() =~= cards_view(before).push(card@));
        Ok(card)
    }

    /// All stored cards, in insertion order.
    pub fn list_cards(&self) -> (r: &Vec<Card>)
        ensures
            cards_view(r@) == self.cards(),
    {
        &self.cards
    }

    /// The index of the card with identifier `card_id`, if one is stored.
    fn position_of(&self, card_id: u64) -> (r: Option<usize>)
        ensures
            match r {
                Some(i) => i < self.cards().len() && self.cards()[i as int].id == card_id,
                None => forall|i: int| 0 <= i < self.cards().len() ==> #[trigger] self.cards()[i].id != card_id,
            },
    {
        let mut i: usize = 0;
        while i < self.cards.len()
            invariant
                i <= self.cards@.len(),
                forall|j: int| 0 <= j < i ==> #[trigger] self.cards()[j].id != card_id,
            decreases self.cards@.len() - i,
        {
            assert(self.cards()[i as int] == self.cards@[i as int]@);
            if self.cards[i].id == card_id {
                return Some(i);
            }
            i = i + 1;
        }
        None
    }

    /// Replaces the supplied fields of the card with identifier `card_id`
    /// and returns the updated card; `NotFound` leaves the store unchanged.
    pub fn update_card(
        &mut self,
        card_id: u64,
        new_name: Option<String>,
        new_tags: Option<Vec<String>>,
        new_ingredients: Option<Vec<String>>,
        new_max_batch_size: Option<u8>,
    ) -> (r: Result<Card, MealzError>)
        requires
            old(self).wf(),
        ensures
            final(self).wf(),
            final(self).next_id() == old(self).next_id(),
            match r {
                Ok(c) => exists|i: int|
                    0 <= i < old(self).cards().len() && #[trigger] old(self).cards()[i].id == card_id
                        && c@ == patched(
                        old(self).cards()[i],
                        new_name,
                        new_tags,
                        new_ingredients,
                        new_max_batch_size,
                    ) && final(self).cards() == old(self).cards().update(i, c@),
                Err(e) => {
                    &&& e == MealzError::NotFound(card_id)
                    &&& final(self).cards() == old(self).cards()
                    &&& forall|i: int|
                        0 <= i < old(self).cards().len() ==> #[trigger] old(self).cards()[i].id != card_id
                },
            },
    {
        let i = match self.position_of(card_id) {
            Some(i) => i,
            None => {
                return Err(MealzError::NotFound(card_id));
            },
        };
        let ghost old_cards = self.cards();
        let ghost patch = patched(old_cards[i as int], new_name, new_tags, new_ingredients, new_max_batch_size);
        let mut card = self.cards[i].duplicate();
        assert(card@ == old_cards[i as int]);
        assert(distinct_entries(old_cards[i as int].tags));
        if let Some(name) = new_name {
            card.name = name;
        }
        if let Some(tags) = new_tags {
            card.tags = dedup_strings(tags);
        }
        if let Some(ingredients) = new_ingredients {
            card.ingredients = dedup_strings(ingredients);
        }
        if let Some(batch) = new_max_batch_size {
            card.max_batch_size = batch;
        }
        assert(card@ == patch);
        assert(distinct_entries(card@.tags) && distinct_entries(card@.ingredients));
        let out = card.duplicate();
        self.cards.set(i, card);
        assert(self.cards() =~= old_cards.update(i as int, patch));
        assert forall|j: int| 0 <= j < self.cards().len() implies distinct_entries(#[trigger] self.cards()[j].tags)
            && distinct_entries(self.cards()[j].ingredients) by {
            if j != i {
                assert(self.cards()[j] == old_cards[j]);
            }
        }
        Ok(out)
    }

    /// A copy of the card with identifier `card_id`.
    pub fn get_card(&self, card_id: u64) -> (r: Result<Card, MealzError>)
        ensures
            match r {
                Ok(c) => exists|i: int|
                    0 <= i < self.cards().len() && #[trigger] self.cards()[i].id == card_id && c@
                        == self.cards()[i],
                Err(e) => {
                    &&& e == MealzError::NotFound(card_id)
                    &&& forall|i: int|
                        0 <= i < self.cards().len() ==> #[trigger] self.cards()[i].id != card_id
                },
            },
    {
        match self.position_of(card_id) {
            Some(i) => {
                assert(self.cards()[i as int] == self.cards@[i as int]@);
                Ok(self.cards[i].duplicate())
            },
            None => Err(MealzError::NotFound(card_id)),
        }
    }

    /// Takes the card with identifier `card_id` out of the store.
    pub fn remove_card(&mut self, card_id: u64) -> (r: Result<Card, MealzError>)
        requires
            old(self).wf(),
        ensures
            final(self).wf(),
            final(self).next_id() == old(self).next_id(),
            match r {
                Ok(c) => exists|i: int|
                    0 <= i < old(self).cards().len() && #[trigger] old(self).cards()[i].id == card_id
                        && c@ == old(self).cards()[i] && final(self).cards() == old(self).cards().remove(i),
                Err(e) => {
                    &&& e == MealzError::NotFound(card_id)
                    &&& final(self).cards() == old(self).cards()
                    &&& forall|i: int|
                        0 <= i < old(self).cards().len() ==> #[trigger] old(self).cards()[i].id != card_id
                },
            },
    {
        let i = match self.position_of(card_id) {
            Some(i) => i,
            None => {
                return Err(MealzError::NotFound(card_id));
            },
        };
        let ghost old_cards = self.cards();
        let c = self.cards.remove(i);
        proof {
            assert(c@ == old_cards[i as int]);
            assert(self.cards() =~= old_cards.remove(i as int));
            assert forall|a: int, b: int| 0 <= a < b < self.cards().len() implies #[trigger] self.cards()[a].id
                < #[trigger] self.cards()[b].id by {
                let a0 = if a < i { a } else { a + 1 };
                let b0 = if b < i { b } else { b + 1 };
                assert(self.cards()[a] == old_cards[a0]);
                assert(self.cards()[b] == old_cards[b0]);
            }
            assert forall|a: int| 0 <= a < self.cards().len() implies #[trigger] self.cards()[a].id
                < self.next_id() by {
                let a0 = if a < i { a } else { a + 1 };
                assert(self.cards()[a] == old_cards[a0]);
            }
        }
        Ok(c)
    }

    /// Copies of the stored cards that pass the filters, in order.
    pub fn find_candidates(&self, filters: &CardFilters) -> (r: Vec<Card>)
        ensures
            cards_view(r@) == select(self.cards(), filters@),
    {
        select_cards(&self.cards, filters)
    }

    /// Generates a meal plan: the cards that pass the filters are expanded
    /// to their batch sizes, shuffled, scheduled under the repetition rules
    /// and reduced to an idea list. Fails with `NoCandidates` exactly when no
    /// card passes the filters.
    pub fn generate_plan(&self, constraints: &PlanConstraints) -> (r: Result<GenerationResult, MealzError>)
        ensures
            r is Err <==> select(self.cards(), constraints.filters@).len() == 0,
            match r {
                Ok(g) => {
                    &&& g.plan.schedule is Ideas
                    &&& exists|inv: Seq<usize>|
                        inv.to_multiset() == expand(select(self.cards(), constraints.filters@)).to_multiset()
                            && (ideas_view(g), g.warnings@) == #[trigger] plan_of(
                            select(self.cards(), constraints.filters@),
                            inv,
                            constraints.number_of_meals as nat,
                            constraints.no_consecutive,
                            constraints.max_repeats_per_plan,
                        )
                },
                Err(e) => e == MealzError::NoCandidates,
            },
    {
        let candidates = self.find_candidates(&constraints.filters);
        if candidates.len() == 0 {
            return Err(MealzError::NoCandidates);
        }
        let inventory = shuffled_inventory(&candidates);
        let ghost inv = inventory@;
        let g = build_plan(&candidates, inventory, constraints);
        assert(plan_of(
            select(self.cards(), constraints.filters@),
            inv,
            constraints.number_of_meals as nat,
            constraints.no_consecutive,
            constraints.max_repeats_per_plan,
        ) == (ideas_view(g), g.warnings@));
        Ok(g)
    }
}

impl Default for MealzPlug {
    /// The same as `MealzPlug::new`.
    fn default() -> (r: Self)
        ensures
            r.wf(),
            r.cards() == Seq::<CardView>::empty(),
            r.next_id() == 1,
    {
        MealzPlug::new()
    }
}

} // verus!

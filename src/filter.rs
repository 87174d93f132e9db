use vstd::prelude::*;
use crate::model::{
    cards_view, strings_view, BatchMode, Card, CardFilters, CardView, FilterMode, FiltersView,
};
use crate::text::{has_entry, has_joker_tag, is_infix, joker_tag, lower_of, name_contains_folded};

verus! {

/// The wanted entries are met by `have` under `mode`; no wanted entry means
/// no constraint.
pub open spec fn entries_match(wanted: Seq<Seq<char>>, have: Seq<Seq<char>>, mode: FilterMode) -> bool {
    wanted.len() == 0 || match mode {
        FilterMode::All => forall|i: int| 0 <= i < wanted.len() ==> have.contains(#[trigger] wanted[i]),
        FilterMode::Any => exists|i: int| 0 <= i < wanted.len() && have.contains(#[trigger] wanted[i]),
    }
}

pub open spec fn batch_match(max_batch_size: u8, mode: BatchMode) -> bool {
    match mode {
        BatchMode::Allow => true,
        BatchMode::Only => max_batch_size > 1,
        BatchMode::Prevent => max_batch_size <= 1,
    }
}

/// Case-insensitive substring test; an empty pattern matches every name.
pub open spec fn name_match(name: Seq<char>, pattern: Seq<char>) -> bool {
    pattern.len() == 0 || is_infix(lower_of(pattern), lower_of(name))
}

pub open spec fn joker_match(allow_jokers: bool, tags: Seq<Seq<char>>) -> bool {
    allow_jokers || !tags.contains(joker_tag())
}

/// The card passes every predicate of the filters.
pub open spec fn card_matches(c: CardView, f: FiltersView) -> bool {
    &&& name_match(c.name, f.name_contains)
    &&& batch_match(c.max_batch_size, f.batch_mode)
    &&& entries_match(f.tag_filters, c.tags, f.tag_mode)
    &&& entries_match(f.ingredient_filters, c.ingredients, f.ingredient_mode)
    &&& joker_match(f.allow_jokers, c.tags)
}

/// The cards that pass the filters, in the order they are stored.
pub open spec fn select(cs: Seq<CardView>, f: FiltersView) -> Seq<CardView>
    decreases cs.len(),
{
    if cs.len() == 0 {
        Seq::empty()
    } else {
        let rest = select(cs.drop_last(), f);
        if card_matches(cs.last(), f) {
            rest.push(cs.last())
        } else {
            rest
        }
    }
}

/// Whether `have` meets the wanted entries under `mode`.
pub fn entries_match_exec(wanted: &Vec<String>, have: &Vec<String>, mode: FilterMode) -> (r: bool)
    ensures
        r == entries_match(strings_view(wanted@), strings_view(have@), mode),
{
    if wanted.len() == 0 {
        return true;
    }
    let ghost w = strings_view(wanted@);
    let ghost h = strings_view(have@);
    let mut i: usize = 0;
    match mode {
        FilterMode::All => {
            while i < wanted.len()
                invariant
                    i <= wanted@.len(),
                    w == strings_view(wanted@),
                    h == strings_view(have@),
                    mode == FilterMode::All,
                    wanted@.len() > 0,
                    forall|j: int| 0 <= j < i ==> h.contains(#[trigger] w[j]),
                decreases wanted@.len() - i,
            {
                if !has_entry(have, &wanted[i]) {
                    assert(w[i as int] == wanted@[i as int]@);
                    assert(w.len() == wanted@.len());
                    assert(!h.contains(w[i as int]));
                    return false;
                }
                i = i + 1;
            }
            true
        },
        FilterMode::Any => {
            while i < wanted.len()
                invariant
                    i <= wanted@.len(),
                    w == strings_view(wanted@),
                    h == strings_view(have@),
                    mode == FilterMode::Any,
                    wanted@.len() > 0,
                    forall|j: int| 0 <= j < i ==> !h.contains(#[trigger] w[j]),
                decreases wanted@.len() - i,
            {
                if has_entry(have, &wanted[i]) {
                    assert(w[i as int] == wanted@[i as int]@);
                    assert(w.len() == wanted@.len());
                    assert(h.contains(w[i as int]));
                    return true;
                }
                i = i + 1;
            }
            false
        },
    }
}

/// Whether the card passes every predicate of the filters.
pub fn card_matches_exec(card: &Card, filters: &CardFilters) -> (r: bool)
    ensures
        r == card_matches(card@, filters@),
{
    let name_ok = filters.name_contains.as_str().unicode_len() == 0 || name_contains_folded(
        &card.name,
        &filters.name_contains,
    );
    let batch_ok = match filters.batch_mode {
        BatchMode::Allow => true,
        BatchMode::Only => card.max_batch_size > 1,
        BatchMode::Prevent => card.max_batch_size <= 1,
    };
    let tags_ok = entries_match_exec(&filters.tag_filters, &card.tags, filters.tag_mode);
    let ingredients_ok = entries_match_exec(
        &filters.ingredient_filters,
        &card.ingredients,
        filters.ingredient_mode,
    );
    let joker_ok = filters.allow_jokers || !has_joker_tag(&card.tags);
    name_ok && batch_ok && tags_ok && ingredients_ok && joker_ok
}

/// Copies of the cards that pass the filters, in the order they are stored.
pub fn select_cards(cards: &Vec<Card>, filters: &CardFilters) -> (r: Vec<Card>)
    ensures
        cards_view(r@) == select(cards_view(cards@), filters@),
{
    let mut r: Vec<Card> = Vec::new();
    let mut i: usize = 0;
    while i < cards.len()
        invariant
            i <= cards@.len(),
            cards_view(r@) == select(cards_view(cards@.subrange(0, i as int)), filters@),
        decreases cards@.len() - i,
    {
        let ghost before = cards_view(cards@.subrange(0, i as int));
        let ghost upto = cards_view(cards@.subrange(0, i + 1));
        assert(upto.drop_last() =~= before);
        assert(upto.last() == cards@[i as int]@);
        if card_matches_exec(&cards[i], filters) {
            let c = cards[i].duplicate();
            r.push(c);
            assert(cards_view(r@) =~= select(before, filters@).push(c@));
        }
        i = i + 1;
    }
    assert(cards@.subrange(0, cards@.len() as int) =~= cards@);
    r
}

/// With no name text, no wanted tags or ingredients, jokers allowed and
/// batch mode `Allow`, every card is selected, in order.
pub proof fn lemma_open_filters_keep_all(cs: Seq<CardView>, f: FiltersView)
    requires
        f.name_contains.len() == 0,
        f.tag_filters.len() == 0,
        f.ingredient_filters.len() == 0,
        f.allow_jokers,
        f.batch_mode == BatchMode::Allow,
    ensures
        select(cs, f) == cs,
    decreases cs.len(),
{
    if cs.len() > 0 {
        lemma_open_filters_keep_all(cs.drop_last(), f);
        assert(cs.drop_last().push(cs.last()) =~= cs);
    }
}

} // verus!

use std::collections::HashMap;
use vstd::prelude::*;

verus! {

/// A reusable meal record.
#[derive(Debug, Clone)]
pub struct Card {
    pub id: u64,
    pub name: String,
    pub tags: Vec<String>,
    pub ingredients: Vec<String>,
    pub max_batch_size: u8,
}

/// What the logic reads of a card, as mathematical values.
pub struct CardView {
    pub id: u64,
    pub name: Seq<char>,
    pub tags: Seq<Seq<char>>,
    pub ingredients: Seq<Seq<char>>,
    pub max_batch_size: u8,
}

pub open spec fn strings_view(v: Seq<String>) -> Seq<Seq<char>> {
    v.map_values(|s: String| s@)
}

pub open spec fn cards_view(v: Seq<Card>) -> Seq<CardView> {
    v.map_values(|c: Card| c@)
}

impl View for Card {
    type V = CardView;

    open spec fn view(&self) -> CardView {
        CardView {
            id: self.id,
            name: self.name@,
            tags: strings_view(self.tags@),
            ingredients: strings_view(self.ingredients@),
            max_batch_size: self.max_batch_size,
        }
    }
}

/// Copies a list of strings.
pub fn copy_strings(v: &Vec<String>) -> (r: Vec<String>)
    ensures
        strings_view(r@) == strings_view(v@),
{
    let mut r: Vec<String> = Vec::new();
    let mut i: usize = 0;
    while i < v.len()
        invariant
            i <= v@.len(),
            strings_view(r@) == strings_view(v@.subrange(0, i as int)),
        decreases v@.len() - i,
    {
        r.push(v[i].clone());
        assert(strings_view(v@.subrange(0, i + 1)) =~= strings_view(v@.subrange(0, i as int)).push(
            v@[i as int]@,
        ));
        assert(strings_view(r@) =~= strings_view(v@.subrange(0, i + 1)));
        i = i + 1;
    }
    assert(v@.subrange(0, v@.len() as int) =~= v@);
    r
}

impl Card {
    /// A copy of the card with every field equal.
    pub fn duplicate(&self) -> (r: Card)
        ensures
            r@ == self@,
    {
        Card {
            id: self.id,
            name: self.name.clone(),
            tags: copy_strings(&self.tags),
            ingredients: copy_strings(&self.ingredients),
            max_batch_size: self.max_batch_size,
        }
    }
}

/// How a set of wanted tags (or ingredients) is matched against a card.
#[derive(Debug, Default, Clone, Copy, PartialEq, Eq, Structural)]
pub enum FilterMode {
    /// Every wanted entry must be present.
    All,
    /// At least one wanted entry must be present.
    #[default]
    Any,
}

/// Which cards pass with respect to their max batch size.
#[derive(Debug, Default, Clone, Copy, PartialEq, Eq, Structural)]
pub enum BatchMode {
    /// Batchable and non-batchable cards alike.
    #[default]
    Allow,
    /// Only cards with a max batch size above one.
    Only,
    /// Only cards with a max batch size of at most one.
    Prevent,
}

/// Which cards a plan may draw from. The default admits every card that is
/// not a joker: empty name text, no wanted tags or ingredients, mode `Any`,
/// jokers excluded, batch mode `Allow`.
#[derive(Debug, Default)]
pub struct CardFilters {
    pub name_contains: String,
    pub tag_filters: Vec<String>,
    pub tag_mode: FilterMode,
    pub ingredient_filters: Vec<String>,
    pub ingredient_mode: FilterMode,
    pub allow_jokers: bool,
    pub batch_mode: BatchMode,
}

pub struct FiltersView {
    pub name_contains: Seq<char>,
    pub tag_filters: Seq<Seq<char>>,
    pub tag_mode: FilterMode,
    pub ingredient_filters: Seq<Seq<char>>,
    pub ingredient_mode: FilterMode,
    pub allow_jokers: bool,
    pub batch_mode: BatchMode,
}

impl View for CardFilters {
    type V = FiltersView;

    open spec fn view(&self) -> FiltersView {
        FiltersView {
            name_contains: self.name_contains@,
            tag_filters: strings_view(self.tag_filters@),
            tag_mode: self.tag_mode,
            ingredient_filters: strings_view(self.ingredient_filters@),
            ingredient_mode: self.ingredient_mode,
            allow_jokers: self.allow_jokers,
            batch_mode: self.batch_mode,
        }
    }
}

/// What a generated plan must respect. `max_repeats_per_plan == 0` means
/// no limit.
#[derive(Debug, Default)]
pub struct PlanConstraints {
    pub number_of_meals: u8,
    pub filters: CardFilters,
    pub no_consecutive: bool,
    pub max_repeats_per_plan: u8,
}

/// One of the fourteen fixed slots of a week.
#[derive(Debug, Clone, Copy, PartialEq, Eq, Hash, Structural)]
pub enum DaySlot {
    MondayLunch,
    MondayDinner,
    TuesdayLunch,
    TuesdayDinner,
    WednesdayLunch,
    WednesdayDinner,
    ThursdayLunch,
    ThursdayDinner,
    FridayLunch,
    FridayDinner,
    SaturdayLunch,
    SaturdayDinner,
    SundayLunch,
    SundayDinner,
}

/// The shape of a plan. Only `Ideas` is produced by the generator; `Weekly`
/// is reserved for a day-slot assignment that nothing builds yet.
#[derive(Debug)]
pub enum PlanSchedule {
    Ideas(Vec<Card>),
    Weekly(HashMap<DaySlot, Card>),
}

#[derive(Debug)]
pub struct MealPlan {
    pub schedule: PlanSchedule,
}

/// A relaxation that happened while a plan was generated.
#[derive(Debug, Clone, Copy, PartialEq, Eq, Structural)]
pub enum PlanWarning {
    /// The inventory ran out; the raw plan stopped at this many meals.
    OutOfPortions(usize),
    /// No remaining portion met the repetition rules; one was taken anyway.
    ConstraintsRelaxed,
    /// Jokers or repeated cards were left out of the idea list.
    DuplicatesRemoved,
}

#[derive(Debug)]
pub struct GenerationResult {
    pub plan: MealPlan,
    pub warnings: Vec<PlanWarning>,
}

/// Why a store or plan operation failed.
#[derive(Debug, Clone, Copy, PartialEq, Eq, Structural)]
pub enum MealzError {
    /// No card has the given identifier.
    NotFound(u64),
    /// No card passes the filters.
    NoCandidates,
    /// The card cannot be stored: a max batch size of zero, or no
    /// identifier left to assign.
    Invalid,
}

/// No entry occurs twice.
pub open spec fn distinct_entries<A>(s: Seq<A>) -> bool {
    forall|i: int, j: int| 0 <= i < j < s.len() ==> #[trigger] s[i] != #[trigger] s[j]
}

/// The entries of `s` in order, each kept at its first occurrence only.
pub open spec fn dedup(s: Seq<Seq<char>>) -> Seq<Seq<char>>
    decreases s.len(),
{
    if s.len() == 0 {
        Seq::empty()
    } else {
        let d = dedup(s.drop_last());
        if d.contains(s.last()) {
            d
        } else {
            d.push(s.last())
        }
    }
}

pub proof fn lemma_push_contains<A>(s: Seq<A>, a: A, x: A)
    ensures
        s.push(a).contains(x) == (s.contains(x) || a == x),
{
    if s.contains(x) {
        let i = choose|i: int| 0 <= i < s.len() && s[i] == x;
        assert(s.push(a)[i] == x);
    }
    if a == x {
        assert(s.push(a)[s.len() as int] == x);
    }
    if s.push(a).contains(x) {
        let i = choose|i: int| 0 <= i < s.push(a).len() && s.push(a)[i] == x;
        if i < s.len() {
            assert(s[i] == x);
        }
    }
}

/// The strings of `v`, each kept at its first occurrence only: the same
/// set of entries, none repeated.
pub fn dedup_strings(v: Vec<String>) -> (r: Vec<String>)
    ensures
        strings_view(r@) == dedup(strings_view(v@)),
        distinct_entries(strings_view(r@)),
        forall|x: Seq<char>| #[trigger] strings_view(r@).contains(x) == strings_view(v@).contains(x),
{
    let ghost sv = strings_view(v@);
    let mut r: Vec<String> = Vec::new();
    let mut i: usize = 0;
    while i < v.len()
        invariant
            sv == strings_view(v@),
            i <= v@.len(),
            strings_view(r@) == dedup(sv.subrange(0, i as int)),
            distinct_entries(strings_view(r@)),
            forall|x: Seq<char>| #[trigger] strings_view(r@).contains(x) == sv.subrange(0, i as int).contains(x),
        decreases v@.len() - i,
    {
        let ghost pre = sv.subrange(0, i as int);
        let ghost r0 = strings_view(r@);
        proof {
            assert(sv.subrange(0, i + 1) =~= pre.push(sv[i as int]));
            assert(sv.subrange(0, i + 1).drop_last() =~= pre);
            assert(sv[i as int] == v@[i as int]@);
            assert forall|x: Seq<char>| #[trigger] sv.subrange(0, i + 1).contains(x) == (pre.contains(x) || sv[i as int] == x) by {
                lemma_push_contains(pre, sv[i as int], x);
            }
        }
        if !crate::text::has_entry(&r, &v[i]) {
            let s = v[i].clone();
            r.push(s);
            proof {
                assert(strings_view(r@) =~= r0.push(sv[i as int]));
                assert forall|x: Seq<char>| #[trigger] strings_view(r@).contains(x) == (r0.contains(x) || sv[i as int] == x) by {
                    lemma_push_contains(r0, sv[i as int], x);
                }
            }
        }
        i = i + 1;
    }
    assert(sv.subrange(0, v@.len() as int) =~= sv);
    r
}

} // verus!

use rand::seq::SliceRandom;
use vstd::multiset::Multiset;
use vstd::prelude::*;
use crate::model::{
    cards_view, lemma_push_contains, Card, CardView, GenerationResult, MealPlan, PlanConstraints, PlanSchedule,
    PlanWarning,
};
use crate::text::{has_joker_tag, joker_tag};

verus! {

broadcast use vstd::seq_lib::group_to_multiset_ensures;

/// `p` repeated `b` times.
pub open spec fn repeat(b: nat, p: usize) -> Seq<usize> {
    Seq::new(b, |_k: int| p)
}

/// The inventory: for each card, in order, its position repeated as many
/// times as its max batch size.
pub open spec fn expand(cs: Seq<CardView>) -> Seq<usize>
    decreases cs.len(),
{
    if cs.len() == 0 {
        Seq::empty()
    } else {
        expand(cs.drop_last()) + repeat(cs.last().max_batch_size as nat, (cs.len() - 1) as usize)
    }
}

/// The identifiers of the cards at the given positions.
pub open spec fn ids_of(cs: Seq<CardView>, ps: Seq<usize>) -> Seq<u64> {
    ps.map_values(|p: usize| cs[p as int].id)
}

/// How many times `x` occurs in `s`.
pub open spec fn occurrences(s: Seq<u64>, x: u64) -> nat
    decreases s.len(),
{
    if s.len() == 0 {
        0
    } else {
        occurrences(s.drop_last(), x) + if s.last() == x {
            1nat
        } else {
            0nat
        }
    }
}

/// Appending the card at `p` to `out` would repeat the previous card while
/// consecutive repeats are refused, or exceed the per-plan limit `k`.
pub open spec fn blocked(cs: Seq<CardView>, out: Seq<usize>, p: usize, nc: bool, k: u8) -> bool {
    (nc && out.len() > 0 && cs[out.last() as int].id == cs[p as int].id) || (k > 0 && occurrences(
        ids_of(cs, out),
        cs[p as int].id,
    ) >= k)
}

/// The first position at or after `j` whose card is not blocked, or
/// `inv.len()` if there is none.
pub open spec fn first_open(
    cs: Seq<CardView>,
    inv: Seq<usize>,
    out: Seq<usize>,
    nc: bool,
    k: u8,
    j: int,
) -> int
    decreases inv.len() - j,
{
    if j >= inv.len() {
        inv.len() as int
    } else if !blocked(cs, out, inv[j], nc, k) {
        j
    } else {
        first_open(cs, inv, out, nc, k, j + 1)
    }
}

/// The raw schedule and its warnings, from the state (`inv`, `out`, `warns`)
/// on, until `n` meals are scheduled or the inventory is empty.
pub open spec fn run(
    cs: Seq<CardView>,
    inv: Seq<usize>,
    out: Seq<usize>,
    warns: Seq<PlanWarning>,
    n: nat,
    nc: bool,
    k: u8,
) -> (Seq<usize>, Seq<PlanWarning>)
    decreases inv.len(),
{
    if out.len() >= n {
        (out, warns)
    } else if inv.len() == 0 {
        (out, warns.push(PlanWarning::OutOfPortions(out.len() as usize)))
    } else {
        let j = first_open(cs, inv, out, nc, k, 0);
        if 0 <= j < inv.len() {
            run(cs, inv.remove(j), out.push(inv[j]), warns, n, nc, k)
        } else {
            run(cs, inv.remove(0), out.push(inv[0]), warns.push(PlanWarning::ConstraintsRelaxed), n, nc, k)
        }
    }
}

pub open spec fn is_joker(c: CardView) -> bool {
    c.tags.contains(joker_tag())
}

/// The positions kept from the raw schedule: in order, no joker, and only
/// the first occurrence of each identifier.
pub open spec fn finalize(cs: Seq<CardView>, raw: Seq<usize>) -> Seq<usize>
    decreases raw.len(),
{
    if raw.len() == 0 {
        Seq::empty()
    } else {
        let kept = finalize(cs, raw.drop_last());
        let p = raw.last();
        if !is_joker(cs[p as int]) && !ids_of(cs, kept).contains(cs[p as int].id) {
            kept.push(p)
        } else {
            kept
        }
    }
}

/// The idea list and the warnings of a plan drawn from the inventory `inv`
/// (already shuffled) of the candidates `cs`.
pub open spec fn plan_of(cs: Seq<CardView>, inv: Seq<usize>, n: nat, nc: bool, k: u8) -> (
    Seq<CardView>,
    Seq<PlanWarning>,
) {
    let raw = run(cs, inv, Seq::empty(), Seq::empty(), n, nc, k);
    let kept = finalize(cs, raw.0);
    (
        kept.map_values(|p: usize| cs[p as int]),
        if kept.len() < raw.0.len() {
            raw.1.push(PlanWarning::DuplicatesRemoved)
        } else {
            raw.1
        },
    )
}

/// The cards of an idea list; empty for a weekly schedule.
pub open spec fn ideas_view(g: GenerationResult) -> Seq<CardView> {
    match g.plan.schedule {
        PlanSchedule::Ideas(v) => cards_view(v@),
        PlanSchedule::Weekly(_) => Seq::empty(),
    }
}

pub open spec fn positions_below(s: Seq<usize>, n: int) -> bool {
    forall|i: int| 0 <= i < s.len() ==> #[trigger] s[i] < n
}

pub proof fn lemma_occurrences_push(s: Seq<u64>, a: u64)
    ensures
        forall|x: u64|
            #[trigger] occurrences(s.push(a), x) == occurrences(s, x) + if a == x {
                1nat
            } else {
                0nat
            },
{
    assert(s.push(a).drop_last() =~= s);
}

pub proof fn lemma_ids_of_push(cs: Seq<CardView>, ps: Seq<usize>, p: usize)
    ensures
        ids_of(cs, ps.push(p)) == ids_of(cs, ps).push(cs[p as int].id),
{
    assert(ids_of(cs, ps.push(p)) =~= ids_of(cs, ps).push(cs[p as int].id));
}

/// The inventory of the candidates: position `p` appears exactly
/// `max_batch_size` times, for every candidate.
pub fn expand_inventory(candidates: &Vec<Card>) -> (r: Vec<usize>)
    ensures
        r@ == expand(cards_view(candidates@)),
        forall|p: usize|
            #[trigger] r@.to_multiset().count(p) == if p < candidates@.len() {
                candidates@[p as int].max_batch_size as nat
            } else {
                0
            },
{
    let ghost cs = cards_view(candidates@);
    let mut r: Vec<usize> = Vec::new();
    let mut i: usize = 0;
    while i < candidates.len()
        invariant
            cs == cards_view(candidates@),
            i <= candidates@.len(),
            r@ == expand(cs.subrange(0, i as int)),
            forall|p: usize|
                #[trigger] r@.to_multiset().count(p) == if p < i {
                    candidates@[p as int].max_batch_size as nat
                } else {
                    0
                },
        decreases candidates@.len() - i,
    {
        let b = candidates[i].max_batch_size;
        let ghost base = r@;
        let mut c: u8 = 0;
        while c < b
            invariant
                i < candidates@.len(),
                c <= b,
                r@ == base + Seq::new(c as nat, |_k: int| i),
                forall|p: usize|
                    #[trigger] r@.to_multiset().count(p) == if p < i {
                        candidates@[p as int].max_batch_size as nat
                    } else if p == i {
                        c as nat
                    } else {
                        0
                    },
            decreases b - c,
        {
            let ghost prev = r@;
            r.push(i);
            assert(r@ =~= base + Seq::new((c + 1) as nat, |_k: int| i));
            assert forall|p: usize| #[trigger] r@.to_multiset().count(p) == prev.to_multiset().count(p) + if p == i {
                1nat
            } else {
                0nat
            } by {
                assert(r@ == prev.push(i));
            }
            c = c + 1;
        }
        proof {
            let up = cs.subrange(0, i + 1);
            assert(up.drop_last() =~= cs.subrange(0, i as int));
            assert(up.last() == candidates@[i as int]@);
        }
        i = i + 1;
    }
    assert(cs.subrange(0, candidates@.len() as int) =~= cs);
    r
}

/// How many of the scheduled positions hold a card with identifier `id`.
fn count_id(candidates: &Vec<Card>, out: &Vec<usize>, id: u64) -> (r: usize)
    requires
        positions_below(out@, candidates@.len() as int),
    ensures
        r == occurrences(ids_of(cards_view(candidates@), out@), id),
{
    let ghost cs = cards_view(candidates@);
    let mut r: usize = 0;
    let mut i: usize = 0;
    while i < out.len()
        invariant
            cs == cards_view(candidates@),
            positions_below(out@, candidates@.len() as int),
            i <= out@.len(),
            r == occurrences(ids_of(cs, out@.subrange(0, i as int)), id),
            r <= i,
        decreases out@.len() - i,
    {
        proof {
            assert(out@.subrange(0, i + 1) =~= out@.subrange(0, i as int).push(out@[i as int]));
            lemma_ids_of_push(cs, out@.subrange(0, i as int), out@[i as int]);
            lemma_occurrences_push(ids_of(cs, out@.subrange(0, i as int)), cs[out@[i as int] as int].id);
        }
        if candidates[out[i]].id == id {
            r = r + 1;
        }
        i = i + 1;
    }
    assert(out@.subrange(0, out@.len() as int) =~= out@);
    r
}

/// Whether appending the card at `p` would break a repetition rule.
fn blocked_exec(candidates: &Vec<Card>, out: &Vec<usize>, p: usize, nc: bool, k: u8) -> (r: bool)
    requires
        positions_below(out@, candidates@.len() as int),
        p < candidates@.len(),
    ensures
        r == blocked(cards_view(candidates@), out@, p, nc, k),
{
    let consecutive = nc && out.len() > 0 && candidates[out[out.len() - 1]].id == candidates[p].id;
    let over_limit = k > 0 && count_id(candidates, out, candidates[p].id) >= k as usize;
    consecutive || over_limit
}

/// Draws the raw schedule from the inventory, in its present order: at each
/// step the first portion that breaks no repetition rule is taken; if none
/// is, a warning is recorded and the first portion is taken anyway. Stops
/// after `number_of_meals` meals, or with a warning when the inventory runs
/// out. Without a relaxation warning, the schedule respects the rules.
pub fn build_raw_schedule(
    candidates: &Vec<Card>,
    inventory: Vec<usize>,
    constraints: &PlanConstraints,
) -> (r: (Vec<usize>, Vec<PlanWarning>))
    requires
        positions_below(inventory@, candidates@.len() as int),
    ensures
        (r.0@, r.1@) == run(
            cards_view(candidates@),
            inventory@,
            Seq::empty(),
            Seq::empty(),
            constraints.number_of_meals as nat,
            constraints.no_consecutive,
            constraints.max_repeats_per_plan,
        ),
        r.0@.len() <= constraints.number_of_meals,
        positions_below(r.0@, candidates@.len() as int),
        !r.1@.contains(PlanWarning::ConstraintsRelaxed) ==> respects_rules(
            cards_view(candidates@),
            r.0@,
            constraints.no_consecutive,
            constraints.max_repeats_per_plan,
        ),
{
    let ghost cs = cards_view(candidates@);
    let n = constraints.number_of_meals;
    let nc = constraints.no_consecutive;
    let k = constraints.max_repeats_per_plan;
    let ghost target = run(cs, inventory@, Seq::empty(), Seq::empty(), n as nat, nc, k);
    proof {
        lemma_raw_schedule_respects_rules(cs, inventory@, n as nat, nc, k);
    }
    let mut inventory = inventory;
    let mut out: Vec<usize> = Vec::new();
    let mut warnings: Vec<PlanWarning> = Vec::new();
    let mut exhausted = false;
    while !exhausted && out.len() < n as usize
        invariant
            cs == cards_view(candidates@),
            positions_below(inventory@, candidates@.len() as int),
            positions_below(out@, candidates@.len() as int),
            out@.len() <= n,
            exhausted ==> (out@, warnings@) == target,
            !exhausted ==> run(cs, inventory@, out@, warnings@, n as nat, nc, k) == target,
        decreases inventory@.len() + if exhausted {
            0int
        } else {
            1int
        },
    {
        if inventory.len() == 0 {
            warnings.push(PlanWarning::OutOfPortions(out.len()));
            exhausted = true;
        } else {
            let mut j: usize = 0;
            while j < inventory.len() && blocked_exec(candidates, &out, inventory[j], nc, k)
                invariant
                    cs == cards_view(candidates@),
                    positions_below(inventory@, candidates@.len() as int),
                    positions_below(out@, candidates@.len() as int),
                    j <= inventory@.len(),
                    first_open(cs, inventory@, out@, nc, k, 0) == first_open(cs, inventory@, out@, nc, k, j as int),
                decreases inventory@.len() - j,
            {
                j = j + 1;
            }
            let ghost inv0 = inventory@;
            if j == inventory.len() {
                warnings.push(PlanWarning::ConstraintsRelaxed);
                j = 0;
            }
            let p = inventory.remove(j);
            out.push(p);
            proof {
                assert forall|i: int| 0 <= i < inventory@.len() implies #[trigger] inventory@[i]
                    < candidates@.len() by {
                    if i < j {
                        assert(inventory@[i] == inv0[i]);
                    } else {
                        assert(inventory@[i] == inv0[i + 1]);
                    }
                }
            }
        }
    }
    (out, warnings)
}

/// Keeps, in order, each scheduled position whose card is no joker and
/// whose identifier was not kept before.
pub fn finalize_ideas(candidates: &Vec<Card>, raw: &Vec<usize>) -> (r: Vec<usize>)
    requires
        positions_below(raw@, candidates@.len() as int),
    ensures
        r@ == finalize(cards_view(candidates@), raw@),
        r@.len() <= raw@.len(),
        positions_below(r@, candidates@.len() as int),
        forall|i: int| 0 <= i < r@.len() ==> !is_joker(#[trigger] cards_view(candidates@)[r@[i] as int]),
        forall|i: int, j: int|
            0 <= i < j < r@.len() ==> cards_view(candidates@)[#[trigger] r@[i] as int].id
                != cards_view(candidates@)[#[trigger] r@[j] as int].id,
{
    let ghost cs = cards_view(candidates@);
    proof {
        lemma_finalize_distinct(cs, raw@);
    }
    let mut kept: Vec<usize> = Vec::new();
    let mut seen: Vec<u64> = Vec::new();
    let mut i: usize = 0;
    while i < raw.len()
        invariant
            cs == cards_view(candidates@),
            positions_below(raw@, candidates@.len() as int),
            i <= raw@.len(),
            kept@ == finalize(cs, raw@.subrange(0, i as int)),
            seen@ == ids_of(cs, kept@),
        decreases raw@.len() - i,
    {
        let p = raw[i];
        proof {
            assert(raw@.subrange(0, i + 1).drop_last() =~= raw@.subrange(0, i as int));
            assert(cs[p as int] == candidates@[p as int]@);
        }
        if !has_joker_tag(&candidates[p].tags) && !contains_id(&seen, candidates[p].id) {
            let ghost kept0 = kept@;
            kept.push(p);
            seen.push(candidates[p].id);
            proof {
                lemma_ids_of_push(cs, kept0, p);
            }
        }
        i = i + 1;
    }
    assert(raw@.subrange(0, raw@.len() as int) =~= raw@);
    kept
}

fn contains_id(v: &Vec<u64>, x: u64) -> (r: bool)
    ensures
        r == v@.contains(x),
{
    let mut i: usize = 0;
    while i < v.len()
        invariant
            i <= v@.len(),
            forall|j: int| 0 <= j < i ==> v@[j] != x,
        decreases v@.len() - i,
    {
        if v[i] == x {
            return true;
        }
        i = i + 1;
    }
    false
}

/// Copies of the cards at the given positions, in order.
fn pick_cards(candidates: &Vec<Card>, ps: &Vec<usize>) -> (r: Vec<Card>)
    requires
        positions_below(ps@, candidates@.len() as int),
    ensures
        cards_view(r@) == ps@.map_values(|p: usize| cards_view(candidates@)[p as int]),
{
    let ghost cs = cards_view(candidates@);
    let mut r: Vec<Card> = Vec::new();
    let mut i: usize = 0;
    while i < ps.len()
        invariant
            cs == cards_view(candidates@),
            positions_below(ps@, candidates@.len() as int),
            i <= ps@.len(),
            cards_view(r@) == ps@.subrange(0, i as int).map_values(|p: usize| cs[p as int]),
        decreases ps@.len() - i,
    {
        let c = candidates[ps[i]].duplicate();
        let ghost r0 = r@;
        r.push(c);
        proof {
            assert(cs[ps@[i as int] as int] == candidates@[ps@[i as int] as int]@);
            assert(cards_view(r@) =~= cards_view(r0).push(c@));
            assert(ps@.subrange(0, i + 1) =~= ps@.subrange(0, i as int).push(ps@[i as int]));
        }
        assert(cards_view(r@) =~= ps@.subrange(0, i + 1).map_values(|p: usize| cs[p as int]));
        i = i + 1;
    }
    assert(ps@.subrange(0, ps@.len() as int) =~= ps@);
    r
}

/// Builds the plan from an inventory that is already in its drawing order:
/// the raw schedule, then the idea list without jokers and repeated cards.
/// A warning is added when that list is shorter than the raw schedule.
pub fn build_plan(
    candidates: &Vec<Card>,
    inventory: Vec<usize>,
    constraints: &PlanConstraints,
) -> (r: GenerationResult)
    requires
        positions_below(inventory@, candidates@.len() as int),
    ensures
        r.plan.schedule is Ideas,
        (ideas_view(r), r.warnings@) == plan_of(
            cards_view(candidates@),
            inventory@,
            constraints.number_of_meals as nat,
            constraints.no_consecutive,
            constraints.max_repeats_per_plan,
        ),
{
    let (raw, mut warnings) = build_raw_schedule(candidates, inventory, constraints);
    let kept = finalize_ideas(candidates, &raw);
    let ideas = pick_cards(candidates, &kept);
    if kept.len() < raw.len() {
        warnings.push(PlanWarning::DuplicatesRemoved);
    }
    GenerationResult { plan: MealPlan { schedule: PlanSchedule::Ideas(ideas) }, warnings }
}

/// Relies on rand's `SliceRandom::shuffle` with the thread-local generator
/// of `rand::rng()`: the elements are permuted in place by swaps, none is
/// added or lost.
#[verifier::external_body]
fn shuffle_positions(v: &mut Vec<usize>)
    ensures
        final(v)@.to_multiset() == old(v)@.to_multiset(),
{
    v.shuffle(&mut rand::rng());
}

/// The inventory of the candidates in a uniformly random order.
pub fn shuffled_inventory(candidates: &Vec<Card>) -> (r: Vec<usize>)
    ensures
        r@.to_multiset() == expand(cards_view(candidates@)).to_multiset(),
        positions_below(r@, candidates@.len() as int),
{
    let mut inv = expand_inventory(candidates);
    let ghost before = inv@;
    shuffle_positions(&mut inv);
    proof {
        assert forall|i: int| 0 <= i < inv@.len() implies #[trigger] inv@[i] < candidates@.len() by {
            assert(inv@.to_multiset().count(inv@[i]) > 0);
            assert(before.to_multiset().count(inv@[i]) > 0);
        }
    }
    inv
}

proof fn lemma_count_repeat(base: Seq<usize>, b: nat, q: usize)
    ensures
        forall|x: usize|
            #[trigger] (base + repeat(b, q)).to_multiset().count(x) == base.to_multiset().count(x)
                + if x == q {
                b
            } else {
                0
            },
    decreases b,
{
    if b > 0 {
        lemma_count_repeat(base, (b - 1) as nat, q);
        assert(base + repeat(b, q) =~= (base + repeat((b - 1) as nat, q)).push(q));
    } else {
        assert(base + repeat(b, q) =~= base);
    }
}

/// However the inventory is ordered, each candidate's position occurs in it
/// exactly as many times as the candidate's max batch size.
pub proof fn lemma_expand_counts(cs: Seq<CardView>)
    requires
        cs.len() <= usize::MAX,
    ensures
        forall|p: usize|
            #[trigger] expand(cs).to_multiset().count(p) == if p < cs.len() {
                cs[p as int].max_batch_size as nat
            } else {
                0
            },
    decreases cs.len(),
{
    if cs.len() > 0 {
        let rest = cs.drop_last();
        lemma_expand_counts(rest);
        lemma_count_repeat(expand(rest), cs.last().max_batch_size as nat, (cs.len() - 1) as usize);
        assert forall|p: usize| p < rest.len() implies rest[p as int] == cs[p as int] by {}
    } else {
        assert(expand(cs).to_multiset() =~= Multiset::empty());
    }
}

/// The idea list keeps no joker and no identifier twice, and is never
/// longer than the raw schedule it comes from.
pub proof fn lemma_finalize_distinct(cs: Seq<CardView>, raw: Seq<usize>)
    requires
        positions_below(raw, cs.len() as int),
    ensures
        finalize(cs, raw).len() <= raw.len(),
        positions_below(finalize(cs, raw), cs.len() as int),
        forall|m: int| 0 <= m < finalize(cs, raw).len() ==> !is_joker(#[trigger] cs[finalize(cs, raw)[m] as int]),
        forall|m: int, l: int|
            0 <= m < l < finalize(cs, raw).len() ==> cs[#[trigger] finalize(cs, raw)[m] as int].id
                != cs[#[trigger] finalize(cs, raw)[l] as int].id,
    decreases raw.len(),
{
    if raw.len() > 0 {
        let rest = raw.drop_last();
        lemma_finalize_distinct(cs, rest);
        let kept = finalize(cs, rest);
        let p = raw.last();
        if !is_joker(cs[p as int]) && !ids_of(cs, kept).contains(cs[p as int].id) {
            let f = kept.push(p);
            assert forall|m: int, l: int| 0 <= m < l < f.len() implies cs[#[trigger] f[m] as int].id
                != cs[#[trigger] f[l] as int].id by {
                if l == kept.len() {
                    assert(ids_of(cs, kept)[m] == cs[kept[m] as int].id);
                } else {
                    assert(f[m] == kept[m] && f[l] == kept[l]);
                }
            }
            assert forall|m: int| 0 <= m < f.len() implies !is_joker(#[trigger] cs[f[m] as int]) by {
                if m < kept.len() {
                    assert(f[m] == kept[m]);
                }
            }
        }
    }
}

/// The schedule `out` honours the repetition rules: no identifier right
/// after itself (when `nc` is set) and none more than `k` times (when `k`
/// is nonzero).
pub open spec fn respects_rules(cs: Seq<CardView>, out: Seq<usize>, nc: bool, k: u8) -> bool {
    &&& nc ==> forall|j: int|
        0 < j < out.len() ==> cs[out[j - 1] as int].id != cs[#[trigger] out[j] as int].id
    &&& k > 0 ==> forall|x: u64| #[trigger] occurrences(ids_of(cs, out), x) <= k
}

proof fn lemma_first_open(cs: Seq<CardView>, inv: Seq<usize>, out: Seq<usize>, nc: bool, k: u8, j: int)
    requires
        0 <= j,
    ensures
        j <= first_open(cs, inv, out, nc, k, j) <= inv.len() || first_open(cs, inv, out, nc, k, j)
            == inv.len(),
        first_open(cs, inv, out, nc, k, j) < inv.len() ==> !blocked(
            cs,
            out,
            inv[first_open(cs, inv, out, nc, k, j)],
            nc,
            k,
        ),
    decreases inv.len() - j,
{
    if j < inv.len() && blocked(cs, out, inv[j], nc, k) {
        lemma_first_open(cs, inv, out, nc, k, j + 1);
    }
}

proof fn lemma_run_respects_rules(
    cs: Seq<CardView>,
    inv: Seq<usize>,
    out: Seq<usize>,
    warns: Seq<PlanWarning>,
    n: nat,
    nc: bool,
    k: u8,
)
    requires
        positions_below(inv, cs.len() as int),
        positions_below(out, cs.len() as int),
        !warns.contains(PlanWarning::ConstraintsRelaxed) ==> respects_rules(cs, out, nc, k),
    ensures
        !run(cs, inv, out, warns, n, nc, k).1.contains(PlanWarning::ConstraintsRelaxed)
            ==> respects_rules(cs, run(cs, inv, out, warns, n, nc, k).0, nc, k),
    decreases inv.len(),
{
    if out.len() >= n {
    } else if inv.len() == 0 {
        lemma_push_contains(warns, PlanWarning::OutOfPortions(out.len() as usize), PlanWarning::ConstraintsRelaxed);
    } else {
        let j = first_open(cs, inv, out, nc, k, 0);
        lemma_first_open(cs, inv, out, nc, k, 0);
        let i = if 0 <= j < inv.len() { j } else { 0 };
        let p = inv[i];
        let next = out.push(p);
        assert forall|m: int| 0 <= m < inv.remove(i).len() implies #[trigger] inv.remove(i)[m] < cs.len() by {
            if m < i {
                assert(inv.remove(i)[m] == inv[m]);
            } else {
                assert(inv.remove(i)[m] == inv[m + 1]);
            }
        }
        if 0 <= j < inv.len() {
            if !warns.contains(PlanWarning::ConstraintsRelaxed) {
                lemma_ids_of_push(cs, out, p);
                lemma_occurrences_push(ids_of(cs, out), cs[p as int].id);
                if nc {
                    assert forall|m: int| 0 < m < next.len() implies cs[next[m - 1] as int].id
                        != cs[#[trigger] next[m] as int].id by {
                        if m < out.len() {
                            assert(next[m - 1] == out[m - 1] && next[m] == out[m]);
                        }
                    }
                }
            }
            lemma_run_respects_rules(cs, inv.remove(i), next, warns, n, nc, k);
        } else {
            let w = warns.push(PlanWarning::ConstraintsRelaxed);
            lemma_push_contains(warns, PlanWarning::ConstraintsRelaxed, PlanWarning::ConstraintsRelaxed);
            lemma_run_respects_rules(cs, inv.remove(i), next, w, n, nc, k);
        }
    }
}

/// Unless the scheduler reported that it relaxed the rules, the raw
/// schedule has no identifier right after itself when consecutive repeats
/// are refused, and no identifier more often than a nonzero per-plan limit.
pub proof fn lemma_raw_schedule_respects_rules(cs: Seq<CardView>, inv: Seq<usize>, n: nat, nc: bool, k: u8)
    requires
        positions_below(inv, cs.len() as int),
    ensures
        !run(cs, inv, Seq::empty(), Seq::empty(), n, nc, k).1.contains(PlanWarning::ConstraintsRelaxed)
            ==> respects_rules(cs, run(cs, inv, Seq::empty(), Seq::empty(), n, nc, k).0, nc, k),
{
    assert forall|x: u64| #[trigger] occurrences(ids_of(cs, Seq::empty()), x) <= k by {
        assert(ids_of(cs, Seq::empty()).len() == 0);
    }
    lemma_run_respects_rules(cs, inv, Seq::empty(), Seq::empty(), n, nc, k);
}

} // verus!

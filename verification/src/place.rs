//! The organizer's move phase: give every task a destination name inside
//! its category folder, disambiguating collisions with numbered suffixes.

use vstd::prelude::*;
use crate::names::{cand_s, disambig_name};
use crate::scan::{MoveTask, TaskModel};

verus! {

/// How many numbered alternatives a single move tries before giving up.
pub const MAX_NAME_TRIES: u64 = 1000;

/// A destination slot that is already occupied: a file name inside a
/// category folder.
pub struct DestRef {
    pub category: String,
    pub name: String,
}

/// Ghost model of a [`DestRef`].
pub struct DestModel {
    pub category: Seq<char>,
    pub name: Seq<char>,
}

impl View for DestRef {
    type V = DestModel;

    open spec fn view(&self) -> DestModel {
        DestModel { category: self.category@, name: self.name@ }
    }
}

impl DeepView for DestRef {
    type V = DestModel;

    open spec fn deep_view(&self) -> DestModel {
        self.view()
    }
}

/// One resolved move: the source file, and the category folder and file
/// name it will be renamed to.
pub struct Placement {
    pub source: Vec<String>,
    pub category: String,
    pub name: String,
}

/// Ghost model of a [`Placement`].
pub struct PlacementModel {
    pub source: Seq<Seq<char>>,
    pub category: Seq<char>,
    pub name: Seq<char>,
}

impl PlacementModel {
    /// The destination slot this placement occupies.
    pub open spec fn dest(self) -> DestModel {
        DestModel { category: self.category, name: self.name }
    }
}

impl View for Placement {
    type V = PlacementModel;

    open spec fn view(&self) -> PlacementModel {
        PlacementModel {
            source: self.source.deep_view(),
            category: self.category@,
            name: self.name@,
        }
    }
}

impl DeepView for Placement {
    type V = PlacementModel;

    open spec fn deep_view(&self) -> PlacementModel {
        self.view()
    }
}

/// Whether the slot `cat`/`name` is already occupied in `taken`.
pub open spec fn dest_taken(taken: Seq<DestModel>, cat: Seq<char>, name: Seq<char>) -> bool {
    exists|i: int| 0 <= i < taken.len() && taken[i].category == cat && taken[i].name == name
}

/// The least candidate index at or above `k` whose name is free, searched
/// with `budget` tries left; `None` when the budget runs out.
pub open spec fn first_free_from(
    name: Seq<char>,
    cat: Seq<char>,
    taken: Seq<DestModel>,
    k: nat,
    budget: nat,
) -> Option<nat>
    decreases budget,
{
    if budget == 0 {
        None
    } else if !dest_taken(taken, cat, cand_s(name, k)) {
        Some(k)
    } else {
        first_free_from(name, cat, taken, k + 1, (budget - 1) as nat)
    }
}

/// The index of the first free candidate name for `name` in `cat`, trying
/// the name itself and then the numbered alternatives.
pub open spec fn first_free(name: Seq<char>, cat: Seq<char>, taken: Seq<DestModel>) -> Option<
    nat,
> {
    first_free_from(name, cat, taken, 0, (MAX_NAME_TRIES + 1) as nat)
}

/// The chosen candidate is free, and every earlier candidate was occupied.
pub proof fn lemma_first_free_props(
    name: Seq<char>,
    cat: Seq<char>,
    taken: Seq<DestModel>,
    k: nat,
    budget: nat,
)
    ensures
        match first_free_from(name, cat, taken, k, budget) {
            Some(m) => k <= m < k + budget && !dest_taken(taken, cat, cand_s(name, m))
                && forall|j: nat| k <= j < m ==> dest_taken(taken, cat, cand_s(name, j)),
            None => forall|j: nat| k <= j < k + budget ==> dest_taken(taken, cat, cand_s(name, j)),
        },
    decreases budget,
{
    if budget == 0 {
    } else if !dest_taken(taken, cat, cand_s(name, k)) {
    } else {
        lemma_first_free_props(name, cat, taken, k + 1, (budget - 1) as nat);
    }
}

/// The error a move reports when no free destination name is found within
/// the bounded number of tries.
#[derive(Clone, Copy, PartialEq, Eq, Structural, Debug)]
pub enum PlaceError {
    NoFreeName,
}

/// Whether the slot `cat`/`name` is occupied in `taken`.
pub fn dest_taken_x(taken: &Vec<DestRef>, cat: &String, name: &String) -> (r: bool)
    ensures
        r == dest_taken(taken.deep_view(), cat@, name@),
{
    let mut i: usize = 0;
    while i < taken.len()
        invariant
            i <= taken@.len(),
            forall|j: int|
                0 <= j < i ==> !(taken@[j].category@ == cat@ && taken@[j].name@ == name@),
        decreases taken@.len() - i,
    {
        if taken[i].category == *cat && taken[i].name == *name {
            proof {
                assert(taken.deep_view()[i as int] == taken@[i as int]@);
            }
            return true;
        }
        i = i + 1;
    }
    proof {
        assert forall|j: int| 0 <= j < taken.deep_view().len() implies !(taken.deep_view()[j]
            .category == cat@ && taken.deep_view()[j].name == name@) by {
            assert(taken.deep_view()[j] == taken@[j]@);
        }
    }
    false
}

/// Finds the first free destination name for `name` inside `cat`: the name
/// itself when its slot is open, otherwise the numbered alternatives in
/// order, up to the bounded number of tries.
pub fn resolve_name(name: &String, cat: &String, taken: &Vec<DestRef>) -> (r: Result<
    String,
    PlaceError,
>)
    ensures
        match (r, first_free(name@, cat@, taken.deep_view())) {
            (Ok(n), Some(k)) => n@ == cand_s(name@, k),
            (Err(_), None) => true,
            _ => false,
        },
{
    let mut k: u64 = 0;
    let mut candidate = name.clone();
    while dest_taken_x(taken, cat, &candidate)
        invariant
            k <= MAX_NAME_TRIES,
            candidate@ == cand_s(name@, k as nat),
            first_free(name@, cat@, taken.deep_view()) == first_free_from(
                name@,
                cat@,
                taken.deep_view(),
                k as nat,
                (MAX_NAME_TRIES + 1 - k) as nat,
            ),
        decreases MAX_NAME_TRIES - k,
    {
        if k == MAX_NAME_TRIES {
            proof {
                let td = taken.deep_view();
                assert(dest_taken(td, cat@, cand_s(name@, k as nat)));
                assert(first_free_from(name@, cat@, td, (k + 1) as nat, 0) is None);
                assert(first_free_from(name@, cat@, td, k as nat, 1) is None);
            }
            return Err(PlaceError::NoFreeName);
        }
        k = k + 1;
        candidate = disambig_name(name, k);
    }
    Ok(candidate)
}

/// The outcome of the move phase: the resolved placements, and the tasks
/// skipped because no free name was found for them.
pub struct MovePlan {
    pub placements: Vec<Placement>,
    pub failed: Vec<MoveTask>,
}

/// Ghost model of a [`MovePlan`].
pub struct PlanModel {
    pub placements: Seq<PlacementModel>,
    pub failed: Seq<TaskModel>,
}

/// The move plan for `tasks`, processed in scan order against the occupied
/// slots `taken`: each task takes the first free candidate name in its
/// category, and every resolved destination occupies its slot for the
/// tasks after it.
pub open spec fn plan_places_s(tasks: Seq<TaskModel>, taken: Seq<DestModel>) -> PlanModel
    decreases tasks.len(),
{
    if tasks.len() == 0 {
        PlanModel { placements: Seq::<PlacementModel>::empty(), failed: Seq::<TaskModel>::empty() }
    } else {
        let t = tasks.first();
        match first_free(t.name_v(), t.category, taken) {
            Some(k) => {
                let p = PlacementModel {
                    source: t.source,
                    category: t.category,
                    name: cand_s(t.name_v(), k),
                };
                let rest = plan_places_s(tasks.drop_first(), taken.push(p.dest()));
                PlanModel {
                    placements: seq![p] + rest.placements,
                    failed: rest.failed,
                }
            },
            None => {
                let rest = plan_places_s(tasks.drop_first(), taken);
                PlanModel { placements: rest.placements, failed: seq![t] + rest.failed }
            },
        }
    }
}

/// Resolves every task in order against the slots already occupied in
/// `existing`, threading each resolved destination into the set of
/// occupied slots.
pub fn plan_placements(tasks: Vec<MoveTask>, existing: Vec<DestRef>) -> (r: MovePlan)
    requires
        forall|i: int| 0 <= i < tasks@.len() ==> (#[trigger] tasks@[i])@.source.len() >= 1,
    ensures
        r.placements.deep_view() == plan_places_s(tasks.deep_view(), existing.deep_view())
            .placements,
        r.failed.deep_view() == plan_places_s(tasks.deep_view(), existing.deep_view()).failed,
{
    let ghost tasks_dv = tasks.deep_view();
    let ghost existing_dv = existing.deep_view();
    let mut rest = tasks;
    let mut taken = existing;
    let mut placements: Vec<Placement> = Vec::new();
    let mut failed: Vec<MoveTask> = Vec::new();
    proof {
        assert(rest.deep_view() =~= tasks_dv);
        assert(taken.deep_view() =~= existing_dv);
    }
    while rest.len() > 0
        invariant
            forall|i: int| 0 <= i < rest@.len() ==> (#[trigger] rest@[i])@.source.len() >= 1,
            plan_places_s(tasks_dv, existing_dv).placements =~= placements.deep_view()
                + plan_places_s(rest.deep_view(), taken.deep_view()).placements,
            plan_places_s(tasks_dv, existing_dv).failed =~= failed.deep_view() + plan_places_s(
                rest.deep_view(),
                taken.deep_view(),
            ).failed,
        decreases rest@.len(),
    {
        let ghost rd = rest.deep_view();
        let ghost td = taken.deep_view();
        let t = rest.remove(0);
        proof {
            assert(rd[0] == t@);
            assert(rest.deep_view() =~= rd.drop_first());
        }
        let name = &t.source[t.source.len() - 1];
        proof {
            assert(t.source.deep_view().last() == name@);
            assert(t@.name_v() == name@);
        }
        match resolve_name(name, &t.category, &taken) {
            Ok(n) => {
                let ghost old_placements = placements.deep_view();
                let ghost old_taken = taken.deep_view();
                let dest = DestRef { category: t.category.clone(), name: n.clone() };
                let p = Placement { source: t.source, category: t.category, name: n };
                proof {
                    let ff = first_free(t@.name_v(), t@.category, td);
                    assert(ff is Some);
                    let k = ff->0;
                    assert(p@ == PlacementModel {
                        source: rd[0].source,
                        category: rd[0].category,
                        name: cand_s(rd[0].name_v(), k),
                    });
                    assert(dest@ == p@.dest());
                }
                placements.push(p);
                taken.push(dest);
                proof {
                    assert(placements.deep_view() =~= old_placements.push(p@));
                    assert(taken.deep_view() =~= old_taken.push(p@.dest()));
                    assert(plan_places_s(rd, td).placements =~= seq![p@] + plan_places_s(
                        rd.drop_first(),
                        td.push(p@.dest()),
                    ).placements);
                    assert(old_placements + plan_places_s(rd, td).placements
                        =~= placements.deep_view() + plan_places_s(
                        rest.deep_view(),
                        taken.deep_view(),
                    ).placements);
                }
            },
            Err(_) => {
                let ghost old_failed = failed.deep_view();
                failed.push(t);
                proof {
                    assert(failed.deep_view() =~= old_failed.push(t@));
                    assert(plan_places_s(rd, td).failed =~= seq![t@] + plan_places_s(
                        rd.drop_first(),
                        td,
                    ).failed);
                    assert(old_failed + plan_places_s(rd, td).failed =~= failed.deep_view()
                        + plan_places_s(rest.deep_view(), taken.deep_view()).failed);
                }
            },
        }
    }
    proof {
        assert(rest.deep_view() =~= Seq::<TaskModel>::empty());
        assert(plan_places_s(rest.deep_view(), taken.deep_view()).placements
            =~= Seq::<PlacementModel>::empty());
        assert(plan_places_s(rest.deep_view(), taken.deep_view()).failed
            =~= Seq::<TaskModel>::empty());
        assert(placements.deep_view() =~= plan_places_s(tasks_dv, existing_dv).placements);
        assert(failed.deep_view() =~= plan_places_s(tasks_dv, existing_dv).failed);
    }
    MovePlan { placements, failed }
}

/// No two placements of one plan share a destination, and no placement
/// lands on a slot that was already occupied: nothing is overwritten and
/// no data is lost to a collision.
pub proof fn lemma_placements_collision_free(tasks: Seq<TaskModel>, taken: Seq<DestModel>)
    ensures
        forall|i: int|
            0 <= i < plan_places_s(tasks, taken).placements.len() ==> !dest_taken(
                taken,
                #[trigger] plan_places_s(tasks, taken).placements[i].category,
                plan_places_s(tasks, taken).placements[i].name,
            ),
        forall|i: int, j: int|
            0 <= i < j < plan_places_s(tasks, taken).placements.len() ==> !(#[trigger] plan_places_s(
                tasks,
                taken,
            ).placements[i].dest() == #[trigger] plan_places_s(tasks, taken).placements[j].dest()),
    decreases tasks.len(),
{
    if tasks.len() == 0 {
    } else {
        let t = tasks.first();
        let ps = plan_places_s(tasks, taken).placements;
        match first_free(t.name_v(), t.category, taken) {
            Some(k) => {
                let p = PlacementModel {
                    source: t.source,
                    category: t.category,
                    name: cand_s(t.name_v(), k),
                };
                let taken2 = taken.push(p.dest());
                lemma_first_free_props(
                    t.name_v(),
                    t.category,
                    taken,
                    0,
                    (MAX_NAME_TRIES + 1) as nat,
                );
                lemma_placements_collision_free(tasks.drop_first(), taken2);
                let rest = plan_places_s(tasks.drop_first(), taken2).placements;
                assert(ps =~= seq![p] + rest);
                assert forall|i: int| 0 <= i < ps.len() implies !dest_taken(
                    taken,
                    ps[i].category,
                    ps[i].name,
                ) by {
                    if i == 0 {
                        assert(ps[0] == p);
                    } else {
                        assert(ps[i] == rest[i - 1]);
                        assert(!dest_taken(taken2, rest[i - 1].category, rest[i - 1].name));
                        if dest_taken(taken, ps[i].category, ps[i].name) {
                            let w = choose|w: int|
                                0 <= w < taken.len() && taken[w].category == ps[i].category
                                    && taken[w].name == ps[i].name;
                            assert(taken2[w] == taken[w]);
                        }
                    }
                }
                assert forall|i: int, j: int| 0 <= i < j < ps.len() implies !(ps[i].dest()
                    == ps[j].dest()) by {
                    if i == 0 {
                        assert(ps[j] == rest[j - 1]);
                        assert(!dest_taken(taken2, rest[j - 1].category, rest[j - 1].name));
                        assert(taken2[taken.len() as int] == p.dest());
                        if ps[0].dest() == ps[j].dest() {
                            assert(dest_taken(taken2, rest[j - 1].category, rest[j - 1].name));
                        }
                    } else {
                        assert(ps[i] == rest[i - 1]);
                        assert(ps[j] == rest[j - 1]);
                    }
                }
            },
            None => {
                lemma_placements_collision_free(tasks.drop_first(), taken);
                let rest = plan_places_s(tasks.drop_first(), taken).placements;
                assert(ps =~= rest);
            },
        }
    }
}

/// A task is served by a plan when some placement carries its source and
/// category, or it stands among the failed tasks.
pub open spec fn task_served(pl: PlanModel, t: TaskModel) -> bool {
    ||| exists|j: int|
        0 <= j < pl.placements.len() && (#[trigger] pl.placements[j]).source == t.source
            && pl.placements[j].category == t.category
    ||| pl.failed.contains(t)
}

/// Every task is accounted for: it either receives a placement carrying
/// its source and category, or is reported among the failed tasks.
pub proof fn lemma_tasks_accounted(tasks: Seq<TaskModel>, taken: Seq<DestModel>, i: int)
    requires
        0 <= i < tasks.len(),
    ensures
        task_served(plan_places_s(tasks, taken), tasks[i]),
    decreases tasks.len(),
{
    let t0 = tasks.first();
    let pl = plan_places_s(tasks, taken);
    match first_free(t0.name_v(), t0.category, taken) {
        Some(k) => {
            let p = PlacementModel {
                source: t0.source,
                category: t0.category,
                name: cand_s(t0.name_v(), k),
            };
            let taken2 = taken.push(p.dest());
            let rest = plan_places_s(tasks.drop_first(), taken2);
            assert(pl.placements =~= seq![p] + rest.placements);
            assert(pl.failed =~= rest.failed);
            if i == 0 {
                assert(pl.placements[0] == p);
                assert(pl.placements[0].source == tasks[i].source && pl.placements[0].category
                    == tasks[i].category);
            } else {
                lemma_tasks_accounted(tasks.drop_first(), taken2, i - 1);
                assert(tasks.drop_first()[i - 1] == tasks[i]);
                if exists|j: int|
                    0 <= j < rest.placements.len() && (#[trigger] rest.placements[j]).source
                        == tasks[i].source && rest.placements[j].category == tasks[i].category {
                    let j = choose|j: int|
                        0 <= j < rest.placements.len() && (#[trigger] rest.placements[j]).source
                            == tasks[i].source && rest.placements[j].category
                            == tasks[i].category;
                    assert(pl.placements[j + 1] == rest.placements[j]);
                    assert(pl.placements[j + 1].source == tasks[i].source && pl.placements[j
                        + 1].category == tasks[i].category);
                } else {
                    assert(rest.failed.contains(tasks[i]));
                }
            }
        },
        None => {
            let rest = plan_places_s(tasks.drop_first(), taken);
            assert(pl.placements =~= rest.placements);
            assert(pl.failed =~= seq![t0] + rest.failed);
            if i == 0 {
                assert(pl.failed[0] == tasks[i]);
            } else {
                lemma_tasks_accounted(tasks.drop_first(), taken, i - 1);
                assert(tasks.drop_first()[i - 1] == tasks[i]);
                if exists|j: int|
                    0 <= j < rest.placements.len() && (#[trigger] rest.placements[j]).source
                        == tasks[i].source && rest.placements[j].category == tasks[i].category {
                    let j = choose|j: int|
                        0 <= j < rest.placements.len() && (#[trigger] rest.placements[j]).source
                            == tasks[i].source && rest.placements[j].category
                            == tasks[i].category;
                    assert(pl.placements[j] == rest.placements[j]);
                    assert(pl.placements[j].source == tasks[i].source && pl.placements[j].category
                        == tasks[i].category);
                } else {
                    let j = choose|j: int|
                        0 <= j < rest.failed.len() && rest.failed[j] == tasks[i];
                    assert(pl.failed[j + 1] == rest.failed[j]);
                    assert(pl.failed.contains(tasks[i]));
                }
            }
        },
    }
}

/// Every placement of a plan descends from one of its tasks: same source,
/// same category.
pub proof fn lemma_placements_sound(tasks: Seq<TaskModel>, taken: Seq<DestModel>, j: int)
    requires
        0 <= j < plan_places_s(tasks, taken).placements.len(),
    ensures
        exists|i: int|
            0 <= i < tasks.len() && (#[trigger] tasks[i]).source == plan_places_s(
                tasks,
                taken,
            ).placements[j].source && tasks[i].category == plan_places_s(
                tasks,
                taken,
            ).placements[j].category,
    decreases tasks.len(),
{
    let t = tasks.first();
    let pl = plan_places_s(tasks, taken);
    match first_free(t.name_v(), t.category, taken) {
        Some(k) => {
            let p = PlacementModel {
                source: t.source,
                category: t.category,
                name: cand_s(t.name_v(), k),
            };
            let taken2 = taken.push(p.dest());
            let rest = plan_places_s(tasks.drop_first(), taken2);
            if j == 0 {
                assert(tasks[0] == t);
            } else {
                assert(pl.placements[j] == rest.placements[j - 1]);
                lemma_placements_sound(tasks.drop_first(), taken2, j - 1);
                let i = choose|i: int|
                    0 <= i < tasks.drop_first().len() && (#[trigger] tasks.drop_first()[i]).source
                        == rest.placements[j - 1].source && tasks.drop_first()[i].category
                        == rest.placements[j - 1].category;
                assert(tasks[i + 1] == tasks.drop_first()[i]);
            }
        },
        None => {
            let rest = plan_places_s(tasks.drop_first(), taken);
            assert(pl.placements[j] == rest.placements[j]);
            lemma_placements_sound(tasks.drop_first(), taken, j);
            let i = choose|i: int|
                0 <= i < tasks.drop_first().len() && (#[trigger] tasks.drop_first()[i]).source
                    == rest.placements[j].source && tasks.drop_first()[i].category
                    == rest.placements[j].category;
            assert(tasks[i + 1] == tasks.drop_first()[i]);
        },
    }
}

} // verus!

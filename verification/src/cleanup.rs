//! The organizer's final phase: order the surviving directories for
//! removal, deepest first, leaving every protected directory out.

use vstd::prelude::*;
use crate::config::{Config, ConfigModel};
use crate::scan::{skip_list_of, skip_names};
use crate::tree::contains_name;

verus! {

/// A directory is protected when it stands directly under the root and
/// bears an ignored infrastructure name or a category folder name.
pub open spec fn protected_s(path: Seq<Seq<char>>, cfg: ConfigModel) -> bool {
    path.len() == 1 && skip_names(cfg).contains(path[0])
}

/// The directories the cleanup may touch: everything not protected.
pub open spec fn removable_at(cfg: ConfigModel) -> spec_fn(Vec<String>) -> bool {
    |d: Vec<String>| !protected_s(d.deep_view(), cfg)
}

/// Decides whether a directory is protected from removal.
pub fn is_protected_dir(d: &Vec<String>, cfg: &Config) -> (r: bool)
    ensures
        r == protected_s(d.deep_view(), cfg@),
{
    proof {
        assert(d.deep_view().len() == d@.len());
    }
    if d.len() != 1 {
        return false;
    }
    let sk = skip_list_of(cfg);
    let r = contains_name(&sk, &d[0]);
    proof {
        assert(d.deep_view()[0] == d@[0]@);
    }
    r
}

/// The position of the deepest directory of `s`; the earliest wins among
/// directories of equal depth, which keeps the order stable.
pub open spec fn first_deepest_idx(s: Seq<Vec<String>>) -> int
    decreases s.len(),
{
    if s.len() <= 1 {
        0
    } else {
        let m = first_deepest_idx(s.drop_last());
        if s.last()@.len() > s[m]@.len() {
            s.len() - 1
        } else {
            m
        }
    }
}

pub proof fn lemma_first_deepest_in_range(s: Seq<Vec<String>>)
    requires
        s.len() > 0,
    ensures
        0 <= first_deepest_idx(s) < s.len(),
        forall|b: int| 0 <= b < s.len() ==> (#[trigger] s[b])@.len() <= s[first_deepest_idx(
            s,
        )]@.len(),
    decreases s.len(),
{
    if s.len() > 1 {
        lemma_first_deepest_in_range(s.drop_last());
        assert forall|b: int| 0 <= b < s.len() - 1 implies (#[trigger] s[b])@.len()
            <= s.drop_last()[first_deepest_idx(s.drop_last())]@.len() by {
            assert(s.drop_last()[b] == s[b]);
        }
    }
}

/// The removal order of `s`: repeatedly take the deepest remaining
/// directory, earliest first among equals.
pub open spec fn deepest_first_order(s: Seq<Vec<String>>) -> Seq<Vec<String>>
    decreases s.len(),
{
    if s.len() == 0 {
        Seq::<Vec<String>>::empty()
    } else {
        let m = first_deepest_idx(s);
        if 0 <= m < s.len() {
            seq![s[m]] + deepest_first_order(s.remove(m))
        } else {
            s
        }
    }
}

/// Orders the directories for removal: drops every protected one and
/// sorts the rest by path depth, deepest first, so each directory comes
/// up only after all of its descendants.
pub fn cleanup_order(dirs: Vec<Vec<String>>, cfg: &Config) -> (r: Vec<Vec<String>>)
    ensures
        r@ == deepest_first_order(dirs@.filter(removable_at(cfg@))),
        r@.to_multiset() == dirs@.filter(removable_at(cfg@)).to_multiset(),
        forall|i: int, j: int| 0 <= i < j < r@.len() ==> (#[trigger] r@[i])@.len()
            >= (#[trigger] r@[j])@.len(),
        forall|i: int| 0 <= i < r@.len() ==> !protected_s((#[trigger] r@[i]).deep_view(), cfg@),
{
    broadcast use vstd::seq_lib::group_to_multiset_ensures;
    broadcast use vstd::multiset::group_multiset_axioms;

    let ghost all = dirs@;
    let ghost pred = removable_at(cfg@);
    let mut rest = dirs;
    let mut kept: Vec<Vec<String>> = Vec::new();
    proof {
        assert(all.take(0).filter(pred) =~= Seq::<Vec<String>>::empty()) by {
            reveal(Seq::filter);
        }
    }
    while rest.len() > 0
        invariant
            rest@.len() <= all.len(),
            rest@ =~= all.skip(all.len() - rest@.len()),
            kept@ == all.take(all.len() - rest@.len()).filter(removable_at(cfg@)),
        decreases rest@.len(),
    {
        let ghost idx = all.len() - rest@.len();
        let d = rest.remove(0);
        proof {
            assert(d == all[idx]);
            assert(rest@ =~= all.skip(idx + 1));
            assert(all.take(idx + 1) =~= all.take(idx).push(all[idx]));
            Seq::lemma_filter_push(all.take(idx), all[idx], removable_at(cfg@));
        }
        if !is_protected_dir(&d, cfg) {
            kept.push(d);
        }
    }
    proof {
        assert(all.take(all.len() as int) =~= all);
    }
    let ghost kept_all = kept@;
    let mut rest = kept;
    let mut out: Vec<Vec<String>> = Vec::new();
    proof {
        assert forall|b: int| 0 <= b < rest@.len() implies !protected_s(
            (#[trigger] rest@[b]).deep_view(),
            cfg@,
        ) by {
            Seq::lemma_filter_pred(all, removable_at(cfg@), b);
        }
        assert(out@.to_multiset().add(rest@.to_multiset()) =~= kept_all.to_multiset());
        assert(deepest_first_order(kept_all) =~= out@ + deepest_first_order(rest@));
    }
    while rest.len() > 0
        invariant
            deepest_first_order(kept_all) =~= out@ + deepest_first_order(rest@),
            out@.to_multiset().add(rest@.to_multiset()) == kept_all.to_multiset(),
            forall|i: int, j: int| 0 <= i < j < out@.len() ==> (#[trigger] out@[i])@.len()
                >= (#[trigger] out@[j])@.len(),
            forall|a: int, b: int| 0 <= a < out@.len() && 0 <= b < rest@.len()
                ==> (#[trigger] out@[a])@.len() >= (#[trigger] rest@[b])@.len(),
            forall|i: int| 0 <= i < out@.len() ==> !protected_s(
                (#[trigger] out@[i]).deep_view(),
                cfg@,
            ),
            forall|b: int| 0 <= b < rest@.len() ==> !protected_s(
                (#[trigger] rest@[b]).deep_view(),
                cfg@,
            ),
        decreases rest@.len(),
    {
        let mut m: usize = 0;
        let mut i: usize = 1;
        while i < rest.len()
            invariant
                rest@.len() > 0,
                m < i,
                i <= rest@.len(),
                m as int == first_deepest_idx(rest@.take(i as int)),
                forall|b: int| 0 <= b < i ==> (#[trigger] rest@[b])@.len() <= rest@[
                    m as int]@.len(),
            decreases rest@.len() - i,
        {
            proof {
                assert(rest@.take(i + 1).drop_last() =~= rest@.take(i as int));
                assert(rest@.take(i + 1).last() == rest@[i as int]);
                assert(rest@.take(i + 1)[m as int] == rest@[m as int]);
            }
            if rest[i].len() > rest[m].len() {
                m = i;
            }
            i = i + 1;
        }
        let ghost old_rest = rest@;
        let ghost old_out = out@;
        proof {
            assert(rest@.take(rest@.len() as int) =~= rest@);
            assert(m as int == first_deepest_idx(old_rest));
            lemma_first_deepest_in_range(old_rest);
        }
        let d = rest.remove(m);
        out.push(d);
        proof {
            old_out.to_multiset_ensures();
            old_rest.to_multiset_ensures();
            assert(d == old_rest[m as int]);
            assert(out@ =~= old_out.push(d));
            assert(out@.to_multiset() =~= old_out.push(d).to_multiset());
            assert(old_out.push(d).to_multiset() =~= old_out.to_multiset().insert(d));
            assert(rest@ =~= old_rest.remove(m as int));
            assert(rest@.to_multiset() =~= old_rest.remove(m as int).to_multiset());
            assert(old_rest.remove(m as int).to_multiset() =~= old_rest.to_multiset().remove(
                old_rest[m as int],
            ));
            assert(old_rest.contains(d));
            assert(old_rest.to_multiset().count(d) > 0);
            assert(out@.to_multiset().add(rest@.to_multiset()) =~= kept_all.to_multiset());
            assert(deepest_first_order(old_rest) =~= seq![d] + deepest_first_order(rest@));
            assert(out@ + deepest_first_order(rest@) =~= old_out + deepest_first_order(
                old_rest,
            ));
            assert forall|a: int, b: int| 0 <= a < out@.len() && 0 <= b < rest@.len() implies (
            #[trigger] out@[a])@.len() >= (#[trigger] rest@[b])@.len() by {
                if b < m {
                    assert(rest@[b] == old_rest[b]);
                } else {
                    assert(rest@[b] == old_rest[b + 1]);
                }
            }
        }
    }
    proof {
        assert(deepest_first_order(rest@) =~= Seq::<Vec<String>>::empty());
        assert(out@ =~= deepest_first_order(kept_all));
    }
    out
}

/// A protected directory — a category folder or an ignored infrastructure
/// directory directly under the root — never appears in the removal
/// order, however empty it may be.
pub proof fn lemma_protected_never_listed(
    dirs: Seq<Vec<String>>,
    cfg: ConfigModel,
    d: Vec<String>,
)
    requires
        protected_s(d.deep_view(), cfg),
    ensures
        !dirs.filter(removable_at(cfg)).contains(d),
{
    if dirs.filter(removable_at(cfg)).contains(d) {
        let j = choose|j: int|
            0 <= j < dirs.filter(removable_at(cfg)).len() && dirs.filter(removable_at(cfg))[j]
                == d;
        Seq::lemma_filter_pred(dirs, removable_at(cfg), j);
    }
}

/// One path strictly under another: the ancestor's components are a
/// proper prefix.
pub open spec fn strict_descendant(anc: Seq<Seq<char>>, desc: Seq<Seq<char>>) -> bool {
    anc.len() < desc.len() && desc.take(anc.len() as int) == anc
}

/// Whether some file of `files` lies under the directory `d`, at any depth.
pub open spec fn has_file_under(d: Seq<Seq<char>>, files: Seq<Seq<Seq<char>>>) -> bool {
    exists|i: int| 0 <= i < files.len() && strict_descendant(d, files[i])
}

/// A removal order sorted deepest first.
pub open spec fn deepest_first(order: Seq<Seq<Seq<char>>>) -> bool {
    forall|a: int, b: int| 0 <= a < b < order.len() ==> (#[trigger] order[a]).len()
        >= (#[trigger] order[b]).len()
}

/// Whether the removal pass takes the directory at position `k` of
/// `order`, when the files of `files` survive the moves: a directory goes
/// exactly when no file lies under it and every directory of the order
/// strictly under it has already gone by the time the pass reaches it.
pub open spec fn removed_at(
    order: Seq<Seq<Seq<char>>>,
    files: Seq<Seq<Seq<char>>>,
    k: int,
) -> bool
    decreases k,
        when 0 <= k
{
    &&& !has_file_under(order[k], files)
    &&& forall|j: int|
        0 <= j < order.len() && j != k && strict_descendant(order[k], #[trigger] order[j]) ==> j
            < k && removed_at(order, files, j)
}

/// What a deepest-first pass leaves behind is never empty: a surviving
/// directory has a file somewhere under it, or a surviving subdirectory.
pub proof fn lemma_survivor_not_empty(
    order: Seq<Seq<Seq<char>>>,
    files: Seq<Seq<Seq<char>>>,
    k: int,
)
    requires
        deepest_first(order),
        0 <= k < order.len(),
        !removed_at(order, files, k),
    ensures
        has_file_under(order[k], files) || exists|j: int|
            0 <= j < order.len() && strict_descendant(order[k], #[trigger] order[j])
                && !removed_at(order, files, j),
{
    if !has_file_under(order[k], files) {
        let j = choose|j: int|
            0 <= j < order.len() && j != k && strict_descendant(order[k], #[trigger] order[j])
                && !(j < k && removed_at(order, files, j));
        assert(order[j].len() > order[k].len());
        if j > k {
            assert(order[k].len() >= order[j].len());
        }
        assert(j < k);
        assert(!removed_at(order, files, j));
    }
}

/// A directory with nothing at all under it is removed the moment the
/// pass reaches it.
pub proof fn lemma_bare_dir_removed(
    order: Seq<Seq<Seq<char>>>,
    files: Seq<Seq<Seq<char>>>,
    k: int,
)
    requires
        0 <= k < order.len(),
        !has_file_under(order[k], files),
        forall|j: int|
            0 <= j < order.len() ==> !strict_descendant(order[k], #[trigger] order[j]),
    ensures
        removed_at(order, files, k),
{
}

/// Running the pass a second time over what the first left standing
/// removes nothing: the first pass already took every directory that
/// could go, so the second reports zero removals.
pub proof fn lemma_second_pass_removes_nothing(
    order1: Seq<Seq<Seq<char>>>,
    order2: Seq<Seq<Seq<char>>>,
    files: Seq<Seq<Seq<char>>>,
    k: int,
)
    requires
        deepest_first(order1),
        deepest_first(order2),
        0 <= k < order2.len(),
        forall|i2: int|
            0 <= i2 < order2.len() ==> exists|i1: int|
                0 <= i1 < order1.len() && #[trigger] order1[i1] == #[trigger] order2[i2]
                    && !removed_at(order1, files, i1),
        forall|i1: int|
            0 <= i1 < order1.len() && !removed_at(order1, files, i1) ==> order2.contains(
                #[trigger] order1[i1],
            ),
    ensures
        !removed_at(order2, files, k),
    decreases k,
{
    let d = order2[k];
    let i1 = choose|i1: int|
        0 <= i1 < order1.len() && #[trigger] order1[i1] == d && !removed_at(order1, files, i1);
    lemma_survivor_not_empty(order1, files, i1);
    if !has_file_under(d, files) {
        let j1 = choose|j1: int|
            0 <= j1 < order1.len() && strict_descendant(d, #[trigger] order1[j1]) && !removed_at(
                order1,
                files,
                j1,
            );
        assert(order2.contains(order1[j1]));
        let j2 = choose|j2: int| 0 <= j2 < order2.len() && order2[j2] == order1[j1];
        assert(order2[j2].len() > d.len());
        if j2 > k {
            assert(order2[k].len() >= order2[j2].len());
        }
        assert(j2 < k);
        lemma_second_pass_removes_nothing(order1, order2, files, j2);
        if removed_at(order2, files, k) {
            assert(strict_descendant(order2[k], order2[j2]));
            assert(removed_at(order2, files, j2));
        }
    }
}

/// Bridges a removal order of path vectors to its ghost model: the
/// depth-sortedness carries over.
pub proof fn lemma_order_model_sorted(v: Vec<Vec<String>>)
    requires
        forall|i: int, j: int| 0 <= i < j < v@.len() ==> (#[trigger] v@[i])@.len()
            >= (#[trigger] v@[j])@.len(),
    ensures
        deepest_first(v.deep_view()),
{
    assert forall|a: int, b: int| 0 <= a < b < v.deep_view().len() implies (
    #[trigger] v.deep_view()[a]).len() >= (#[trigger] v.deep_view()[b]).len() by {
        assert(v.deep_view()[a] == v@[a].deep_view());
        assert(v.deep_view()[b] == v@[b].deep_view());
        assert(v@[a].deep_view().len() == v@[a]@.len());
        assert(v@[b].deep_view().len() == v@[b]@.len());
    }
}

/// In a removal order sorted deepest first, every directory comes after
/// all of its strict descendants: a parent is looked at only once each of
/// its children has been.
pub proof fn lemma_children_before_parents(r: Seq<Vec<String>>, i: int, j: int)
    requires
        forall|a: int, b: int| 0 <= a < b < r.len() ==> (#[trigger] r[a])@.len()
            >= (#[trigger] r[b])@.len(),
        0 <= i < r.len(),
        0 <= j < r.len(),
        strict_descendant(r[i].deep_view(), r[j].deep_view()),
    ensures
        j < i,
{
    assert(r[i].deep_view().len() == r[i]@.len());
    assert(r[j].deep_view().len() == r[j]@.len());
    if i == j {
        assert(false);
    } else if j > i {
        assert(r[i]@.len() >= r[j]@.len());
        assert(false);
    }
}

} // verus!

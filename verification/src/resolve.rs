//! The dependency resolver: which components of a request are stale,
//! which stale dependencies they pull in, and in what order everything
//! is installed.
//!
//! Staleness is always judged against the ledger the caller passed in,
//! never against intermediate results. Each component name is
//! considered at most once per top-level call: a dependency whose name
//! is already under resolution (the request itself included) is not
//! followed again, which breaks dependency cycles deterministically
//! instead of recursing without bound.

use vstd::prelude::*;
use crate::model::InstallDatas;
use crate::model::InstallDataView;
use crate::model::ModInfo;
use crate::model::ModInfoView;
use crate::model::clone_strings;

verus! {

broadcast use vstd::seq_lib::group_filter_ensures;

/// The mathematical values of a list of catalog entries.
pub open spec fn views(s: Seq<ModInfo>) -> Seq<ModInfoView> {
    s.map_values(|m: ModInfo| m@)
}

/// A component is stale when the ledger has no record under its name,
/// or records a different version string.
pub open spec fn stale(m: ModInfoView, ledger: Map<Seq<char>, InstallDataView>) -> bool {
    !ledger.contains_key(m.name) || ledger[m.name].version != m.version
}

/// The good set of a request: the stale entries, in request order.
pub open spec fn good_seq(
    req: Seq<ModInfoView>,
    ledger: Map<Seq<char>, InstallDataView>,
) -> Seq<ModInfoView> {
    req.filter(|m: ModInfoView| stale(m, ledger))
}

/// The dependency names a catalog entry declares, none if it declares
/// no list.
pub open spec fn dep_names_of(m: ModInfoView) -> Seq<Seq<char>> {
    match m.dependencies {
        Option::Some(d) => d,
        Option::None => Seq::empty(),
    }
}

/// Whether every catalog entry carrying this name is stale. (A name can
/// occur more than once in a catalog; resolution picks one of the
/// entries, so only a uniformly stale name is certain to be planned.)
pub open spec fn all_matches_stale(
    catv: Seq<ModInfoView>,
    n: Seq<char>,
    ledger: Map<Seq<char>, InstallDataView>,
) -> bool {
    forall|i: int| 0 <= i < catv.len() && (#[trigger] catv[i]).name == n ==> stale(catv[i], ledger)
}

/// The names of a list of catalog entries, in order.
pub open spec fn names_of(s: Seq<ModInfoView>) -> Seq<Seq<char>> {
    s.map_values(|m: ModInfoView| m.name)
}

/// The set of names a catalog knows.
pub open spec fn catalog_names(cat: Seq<ModInfoView>) -> Set<Seq<char>> {
    names_of(cat).to_set()
}

/// Whether one component is stale with respect to a ledger.
pub fn is_stale(info: &ModInfo, ledger: &InstallDatas) -> (b: bool)
    requires
        ledger.wf(),
    ensures
        b == stale(info@, ledger@),
{
    match ledger.get(&info.name) {
        Option::Some(d) => !(d.version == info.version),
        Option::None => true,
    }
}

/// Finds a catalog entry by name; a name the catalog does not know
/// resolves to nothing.
fn find_mod<'a>(catalog: &'a Vec<ModInfo>, name: &String) -> (r: Option<&'a ModInfo>)
    ensures
        match r {
            Option::Some(d) => d@.name == name@ && views(catalog@).contains(d@),
            Option::None => forall|i: int|
                0 <= i < catalog@.len() ==> views(catalog@)[i].name != name@,
        },
{
    let mut i: usize = 0;
    while i < catalog.len()
        invariant
            i <= catalog.len(),
            forall|j: int| 0 <= j < i ==> views(catalog@)[j].name != name@,
        decreases catalog.len() - i,
    {
        if catalog[i].name == *name {
            proof {
                assert(views(catalog@)[i as int] == catalog@[i as int]@);
            }
            return Option::Some(&catalog[i]);
        }
        i = i + 1;
    }
    Option::None
}

/// Whether a list of names holds the given one.
fn contains_name(names: &Vec<String>, name: &String) -> (b: bool)
    ensures
        b == names.deep_view().contains(name@),
{
    let mut i: usize = 0;
    while i < names.len()
        invariant
            i <= names.len(),
            forall|j: int| 0 <= j < i ==> names.deep_view()[j] != name@,
        decreases names.len() - i,
    {
        if names[i] == *name {
            assert(names.deep_view()[i as int] == name@);
            return true;
        }
        i = i + 1;
    }
    false
}

/// Whether a list of catalog entries holds one with the given name.
fn contains_mod_name(mods: &Vec<ModInfo>, name: &String) -> (b: bool)
    ensures
        b == names_of(views(mods@)).contains(name@),
{
    let mut i: usize = 0;
    while i < mods.len()
        invariant
            i <= mods.len(),
            forall|j: int| 0 <= j < i ==> names_of(views(mods@))[j] != name@,
        decreases mods.len() - i,
    {
        if mods[i].name == *name {
            assert(names_of(views(mods@))[i as int] == name@);
            return true;
        }
        i = i + 1;
    }
    false
}

/// Filtering keeps a sequence whose every element satisfies the
/// predicate unchanged.
proof fn lemma_filter_all<A>(s: Seq<A>, p: spec_fn(A) -> bool)
    requires
        forall|i: int| 0 <= i < s.len() ==> p(#[trigger] s[i]),
    ensures
        s.filter(p) == s,
    decreases s.len(),
{
    reveal(Seq::filter);
    if s.len() > 0 {
        assert(forall|i: int| 0 <= i < s.drop_last().len() ==> s.drop_last()[i] == s[i]);
        lemma_filter_all(s.drop_last(), p);
        assert(s.filter(p) =~= s);
    } else {
        assert(s.filter(p) =~= s);
    }
}

/// A request with no stale entry has an empty good set.
pub proof fn lemma_good_seq_empty(s: Seq<ModInfoView>, ledger: Map<Seq<char>, InstallDataView>)
    requires
        forall|i: int| 0 <= i < s.len() ==> !stale(#[trigger] s[i], ledger),
    ensures
        good_seq(s, ledger) == Seq::<ModInfoView>::empty(),
    decreases s.len(),
{
    reveal(Seq::filter);
    if s.len() > 0 {
        assert(forall|i: int| 0 <= i < s.drop_last().len() ==> s.drop_last()[i] == s[i]);
        lemma_good_seq_empty(s.drop_last(), ledger);
    }
}

/// What a finished plan promises: it ends with the request's good set,
/// everything before that is a stale catalog dependency whose name was
/// not yet under resolution, every planned entry is stale, skipping
/// dependencies plans exactly the good set, and an up-to-date request
/// plans nothing.
pub open spec fn plan_post(
    catv: Seq<ModInfoView>,
    reqv: Seq<ModInfoView>,
    ledger: Map<Seq<char>, InstallDataView>,
    ignore_deps: bool,
    visitedv: Seq<Seq<char>>,
    planv: Seq<ModInfoView>,
) -> bool {
    let goodv = good_seq(reqv, ledger);
    &&& planv.len() >= goodv.len()
    &&& planv.skip(planv.len() - goodv.len()) == goodv
    &&& forall|i: int|
        0 <= i < planv.len() - goodv.len() ==> catalog_names(catv).contains(
            (#[trigger] planv[i]).name,
        ) && !visitedv.contains(planv[i].name)
    &&& forall|i: int| 0 <= i < planv.len() ==> stale(#[trigger] planv[i], ledger)
    &&& (ignore_deps ==> planv == goodv)
    &&& (goodv.len() == 0 ==> planv.len() == 0)
    &&& (!ignore_deps ==> forall|g: int, d: int|
        0 <= g < goodv.len() && 0 <= d < dep_names_of(#[trigger] goodv[g]).len()
            && catalog_names(catv).contains(#[trigger] dep_names_of(goodv[g])[d])
            && all_matches_stale(catv, dep_names_of(goodv[g])[d], ledger) && !visitedv.contains(
            dep_names_of(goodv[g])[d],
        ) ==> names_of(planv).contains(dep_names_of(goodv[g])[d]))
}

/// The recursive planner. `visited` holds every name already under
/// resolution; dependencies carrying such a name are not followed
/// again.
fn plan_rec(
    catalog: &Vec<ModInfo>,
    request: &Vec<ModInfo>,
    ledger: &InstallDatas,
    ignore_deps: bool,
    visited: &Vec<String>,
) -> (plan: Vec<ModInfo>)
    requires
        ledger.wf(),
        forall|i: int|
            0 <= i < views(request@).len() ==> visited.deep_view().contains(
                (#[trigger] views(request@)[i]).name,
            ),
    ensures
        plan_post(
            views(catalog@),
            views(request@),
            ledger@,
            ignore_deps,
            visited.deep_view(),
            views(plan@),
        ),
    decreases catalog_names(views(catalog@)).difference(visited.deep_view().to_set()).len(),
{
    let ghost catv = views(catalog@);
    let ghost reqv = views(request@);
    let ghost ledgerv = ledger@;
    let ghost visitedv = visited.deep_view();

    let mut good: Vec<ModInfo> = Vec::new();
    proof {
        reveal(Seq::filter);
        assert(views(good@) =~= good_seq(reqv.take(0), ledgerv));
    }
    let mut k: usize = 0;
    while k < request.len()
        invariant
            k <= request.len(),
            ledger.wf(),
            ledgerv == ledger@,
            reqv == views(request@),
            views(good@) == good_seq(reqv.take(k as int), ledgerv),
        decreases request.len() - k,
    {
        let s = is_stale(&request[k], ledger);
        if s {
            good.push(request[k].clone());
        }
        proof {
            reveal(Seq::filter);
            assert(reqv.take(k + 1 as int).drop_last() =~= reqv.take(k as int));
            assert(reqv.take(k + 1 as int).last() == reqv[k as int]);
            assert(views(good@) =~= good_seq(reqv.take(k + 1 as int), ledgerv));
        }
        k = k + 1;
    }
    proof {
        assert(reqv.take(request@.len() as int) =~= reqv);
    }
    let ghost goodv = good_seq(reqv, ledgerv);

    if ignore_deps {
        proof {
            assert(views(good@).skip(views(good@).len() - goodv.len()) =~= goodv);
        }
        return good;
    }

    let mut deps: Vec<ModInfo> = Vec::new();
    let mut x: usize = 0;
    while x < good.len()
        invariant
            x <= good.len(),
            ledger.wf(),
            ledgerv == ledger@,
            catv == views(catalog@),
            visitedv == visited.deep_view(),
            forall|i: int|
                0 <= i < views(deps@).len() ==> stale(#[trigger] views(deps@)[i], ledgerv)
                    && catalog_names(catv).contains(views(deps@)[i].name) && !visitedv.contains(
                    views(deps@)[i].name,
                ),
            deps@.len() > 0 ==> good@.len() > 0,
            forall|x2: int, d2: int|
                0 <= x2 < x && 0 <= d2 < dep_names_of(views(good@)[x2]).len()
                    && catalog_names(catv).contains(#[trigger] dep_names_of(views(good@)[x2])[d2])
                    && all_matches_stale(catv, dep_names_of(views(good@)[x2])[d2], ledgerv)
                    && !visitedv.contains(dep_names_of(views(good@)[x2])[d2]) ==> names_of(
                    views(deps@),
                ).contains(dep_names_of(views(good@)[x2])[d2]),
        decreases good.len() - x,
    {
        let entry = &good[x];
        let ghost gx = views(good@)[x as int];
        match &entry.dependencies {
            Option::Some(dnames) => {
                let ghost dn = dnames.deep_view();
                proof {
                    assert(gx.dependencies == Option::Some(dn));
                }
                let mut y: usize = 0;
                while y < dnames.len()
                    invariant
                        y <= dnames.len(),
                        ledger.wf(),
                        ledgerv == ledger@,
                        catv == views(catalog@),
                        visitedv == visited.deep_view(),
                        good@.len() > 0,
                        x < good@.len(),
                        gx == views(good@)[x as int],
                        dn == dnames.deep_view(),
                        dep_names_of(gx) == dn,
                        forall|i: int|
                            0 <= i < views(deps@).len() ==> stale(
                                #[trigger] views(deps@)[i],
                                ledgerv,
                            ) && catalog_names(catv).contains(views(deps@)[i].name)
                                && !visitedv.contains(views(deps@)[i].name),
                        deps@.len() > 0 ==> good@.len() > 0,
                        forall|x2: int, d2: int|
                            0 <= x2 < x && 0 <= d2 < dep_names_of(views(good@)[x2]).len()
                                && catalog_names(catv).contains(
                                #[trigger] dep_names_of(views(good@)[x2])[d2],
                            ) && all_matches_stale(catv, dep_names_of(views(good@)[x2])[d2], ledgerv)
                                && !visitedv.contains(dep_names_of(views(good@)[x2])[d2])
                                ==> names_of(views(deps@)).contains(
                                dep_names_of(views(good@)[x2])[d2],
                            ),
                        forall|d2: int|
                            0 <= d2 < y && catalog_names(catv).contains(#[trigger] dn[d2])
                                && all_matches_stale(catv, dn[d2], ledgerv) && !visitedv.contains(
                                dn[d2],
                            ) ==> names_of(views(deps@)).contains(dn[d2]),
                    decreases dnames.len() - y,
                {
                    let ghost deps_at_start = deps@;
                    match find_mod(catalog, &dnames[y]) {
                        Option::Some(d) => {
                            let s = is_stale(d, ledger);
                            let in_visited = contains_name(visited, &d.name);
                            let in_deps = contains_mod_name(&deps, &d.name);
                            if s && !in_visited && !in_deps {
                                let ghost dv = d@;
                                let dc = d.clone();
                                proof {
                                    let w = choose|w: int|
                                        0 <= w < catv.len() && catv[w] == dv;
                                    assert(names_of(catv)[w] == dv.name);
                                    assert(names_of(catv).contains(dv.name));
                                    assert(catalog_names(catv).contains(dv.name));
                                }
                                let ghost deps_pre = deps@;
                                deps.push(dc);
                                proof {
                                    assert forall|i: int|
                                        0 <= i < views(deps@).len() implies stale(
                                        #[trigger] views(deps@)[i],
                                        ledgerv,
                                    ) && catalog_names(catv).contains(views(deps@)[i].name)
                                        && !visitedv.contains(views(deps@)[i].name) by {
                                        if i < deps_pre.len() {
                                            assert(deps@[i] == deps_pre[i]);
                                            assert(views(deps@)[i] == views(deps_pre)[i]);
                                        } else {
                                            assert(deps@[i] == dc);
                                            assert(views(deps@)[i] == dv);
                                        }
                                    }
                                }
                            }
                            proof {
                                let n = dn[y as int];
                                assert(d@.name == n);
                                if catalog_names(catv).contains(n) && all_matches_stale(
                                    catv,
                                    n,
                                    ledgerv,
                                ) && !visitedv.contains(n) {
                                    assert(s) by {
                                        let w = choose|w: int| 0 <= w < catv.len() && catv[w] == d@;
                                        assert(catv[w].name == n);
                                        assert(stale(catv[w], ledgerv));
                                    }
                                    assert(!in_visited);
                                    if in_deps {
                                        assert(names_of(views(deps@)).contains(n)) by {
                                            let j = choose|j: int|
                                                0 <= j < names_of(views(deps_at_start)).len()
                                                    && names_of(views(deps_at_start))[j] == n;
                                            assert(names_of(views(deps@))[j] == n);
                                        }
                                    } else {
                                        assert(names_of(views(deps@))[views(deps@).len() - 1] == n);
                                        assert(names_of(views(deps@)).contains(n));
                                    }
                                }
                            }
                        },
                        Option::None => {
                            proof {
                                let n = dn[y as int];
                                if catalog_names(catv).contains(n) {
                                    let w = choose|w: int|
                                        0 <= w < names_of(catv).len() && names_of(catv)[w] == n;
                                    assert(views(catalog@)[w].name == n);
                                    assert(false);
                                }
                            }
                        },
                    }
                    proof {
                        assert forall|x2: int, d2: int|
                            0 <= x2 < x && 0 <= d2 < dep_names_of(views(good@)[x2]).len()
                                && catalog_names(catv).contains(
                                #[trigger] dep_names_of(views(good@)[x2])[d2],
                            ) && all_matches_stale(catv, dep_names_of(views(good@)[x2])[d2], ledgerv)
                                && !visitedv.contains(dep_names_of(views(good@)[x2])[d2]) implies
                            names_of(views(deps@)).contains(
                            dep_names_of(views(good@)[x2])[d2],
                        ) by {
                            let n = dep_names_of(views(good@)[x2])[d2];
                            let j = choose|j: int|
                                0 <= j < names_of(views(deps_at_start)).len() && names_of(
                                    views(deps_at_start),
                                )[j] == n;
                            assert(names_of(views(deps@))[j] == n);
                        }
                        assert forall|d2: int|
                            0 <= d2 < y && catalog_names(catv).contains(#[trigger] dn[d2])
                                && all_matches_stale(catv, dn[d2], ledgerv) && !visitedv.contains(
                                dn[d2],
                            ) implies names_of(views(deps@)).contains(dn[d2]) by {
                            let n = dn[d2];
                            let j = choose|j: int|
                                0 <= j < names_of(views(deps_at_start)).len() && names_of(
                                    views(deps_at_start),
                                )[j] == n;
                            assert(names_of(views(deps@))[j] == n);
                        }
                    }
                    y = y + 1;
                }
            },
            Option::None => {
                proof {
                    assert(dep_names_of(gx).len() == 0);
                }
            },
        }
        x = x + 1;
    }

    if deps.len() == 0 {
        proof {
            assert(views(good@).skip(views(good@).len() - goodv.len()) =~= goodv);
            assert forall|g: int, d: int|
                0 <= g < goodv.len() && 0 <= d < dep_names_of(#[trigger] goodv[g]).len()
                    && catalog_names(catv).contains(#[trigger] dep_names_of(goodv[g])[d])
                    && all_matches_stale(catv, dep_names_of(goodv[g])[d], ledgerv)
                    && !visitedv.contains(dep_names_of(goodv[g])[d]) implies names_of(
                views(good@),
            ).contains(dep_names_of(goodv[g])[d]) by {
                assert(views(good@)[g] == goodv[g]);
                assert(names_of(views(deps@)).contains(dep_names_of(goodv[g])[d]));
                assert(false);
            }
        }
        return good;
    }

    let ghost depv = views(deps@);
    let mut visited2 = clone_strings(visited);
    proof {
        assert(visited2.deep_view() =~= visitedv + names_of(depv).take(0));
    }
    let mut z: usize = 0;
    while z < deps.len()
        invariant
            z <= deps.len(),
            depv == views(deps@),
            visited2.deep_view() == visitedv + names_of(depv).take(z as int),
        decreases deps.len() - z,
    {
        let ghost v2_pre = visited2.deep_view();
        visited2.push(deps[z].name.clone());
        proof {
            assert(visited2@.drop_last() =~= visited2@.take(visited2@.len() - 1));
            assert forall|j: int| 0 <= j < visited2.deep_view().len() implies visited2.deep_view()[j]
                == (visitedv + names_of(depv).take(z + 1 as int))[j] by {
                if j < v2_pre.len() {
                    assert(visited2.deep_view()[j] == v2_pre[j]);
                } else {
                    assert(visited2.deep_view()[j] == deps@[z as int].name@);
                    assert(names_of(depv)[z as int] == depv[z as int].name);
                }
            }
            assert(visited2.deep_view().len() == v2_pre.len() + 1);
            assert(v2_pre.len() == visitedv.len() + z);
            assert((visitedv + names_of(depv).take(z + 1 as int)).len() == visitedv.len() + z + 1);
            assert(visited2.deep_view() =~= visitedv + names_of(depv).take(z + 1 as int));
        }
        z = z + 1;
    }
    proof {
        assert(names_of(depv).take(depv.len() as int) =~= names_of(depv));
    }

    proof {
        broadcast use vstd::seq_lib::seq_to_set_is_finite;
        broadcast use vstd::set::group_set_axioms;

        let catset = catalog_names(catv);
        let big = catset.difference(visitedv.to_set());
        let small = catset.difference(visited2.deep_view().to_set());
        assert forall|n: Seq<char>|
            visitedv.to_set().contains(n) implies visited2.deep_view().to_set().contains(n) by {
            let j = choose|j: int| 0 <= j < visitedv.len() && visitedv[j] == n;
            assert(visited2.deep_view()[j] == n);
            assert(visited2.deep_view().contains(n));
        }
        assert(small.subset_of(big));
        let d0 = depv[0];
        assert(big.contains(d0.name));
        assert(visited2.deep_view()[visitedv.len() as int] == d0.name);
        assert(visited2.deep_view().contains(d0.name));
        assert(!small.contains(d0.name));
        small.lemma_subset_not_in_lt(big, d0.name);
        assert forall|i: int| 0 <= i < views(deps@).len() implies visited2.deep_view().contains(
            (#[trigger] views(deps@)[i]).name,
        ) by {
            assert(visited2.deep_view()[visitedv.len() + i] == names_of(depv)[i]);
            assert(names_of(depv)[i] == views(deps@)[i].name);
        }
    }
    proof {
        assert forall|g: int, d: int|
            0 <= g < goodv.len() && 0 <= d < dep_names_of(#[trigger] goodv[g]).len()
                && catalog_names(catv).contains(#[trigger] dep_names_of(goodv[g])[d])
                && all_matches_stale(catv, dep_names_of(goodv[g])[d], ledgerv)
                && !visitedv.contains(dep_names_of(goodv[g])[d]) implies names_of(depv).contains(
            dep_names_of(goodv[g])[d],
        ) by {
            assert(views(good@)[g] == goodv[g]);
        }
    }
    let sub = plan_rec(catalog, &deps, ledger, false, &visited2);
    let ghost subv = views(sub@);

    let mut plan = sub;
    let mut tail = good;
    plan.append(&mut tail);
    proof {
        assert(views(plan@) =~= subv + goodv);
        let planv = subv + goodv;
        let sub_goodv = good_seq(depv, ledgerv);
        lemma_filter_all(depv, |m: ModInfoView| stale(m, ledgerv));
        assert(sub_goodv == depv);
        assert(subv.skip(subv.len() - depv.len()) == depv);
        assert(planv.skip(planv.len() - goodv.len()) =~= goodv);
        assert forall|i: int| 0 <= i < planv.len() - goodv.len() implies catalog_names(
            catv,
        ).contains((#[trigger] planv[i]).name) && !visitedv.contains(planv[i].name)
            && stale(planv[i], ledgerv) by {
            assert(planv[i] == subv[i]);
            if i < subv.len() - depv.len() {
                assert(!visited2.deep_view().contains(subv[i].name));
                assert(visitedv.is_prefix_of(visited2.deep_view()));
                if visitedv.contains(subv[i].name) {
                    let w = choose|w: int| 0 <= w < visitedv.len() && visitedv[w] == subv[i].name;
                    assert(visited2.deep_view()[w] == subv[i].name);
                }
            } else {
                let j = i - (subv.len() - depv.len());
                assert(subv.skip(subv.len() - depv.len())[j] == subv[i]);
                assert(depv[j] == subv[i]);
                if visitedv.contains(subv[i].name) {
                }
            }
        }
        assert(forall|i: int| 0 <= i < planv.len() ==> stale(#[trigger] planv[i], ledgerv));
        assert forall|g: int, d: int|
            0 <= g < goodv.len() && 0 <= d < dep_names_of(#[trigger] goodv[g]).len()
                && catalog_names(catv).contains(#[trigger] dep_names_of(goodv[g])[d])
                && all_matches_stale(catv, dep_names_of(goodv[g])[d], ledgerv)
                && !visitedv.contains(dep_names_of(goodv[g])[d]) implies names_of(planv).contains(
            dep_names_of(goodv[g])[d],
        ) by {
            let n = dep_names_of(goodv[g])[d];
            assert(names_of(depv).contains(n));
            let j = choose|j: int| 0 <= j < names_of(depv).len() && names_of(depv)[j] == n;
            let i = subv.len() - depv.len() + j;
            assert(subv.skip(subv.len() - depv.len())[j] == depv[j]);
            assert(planv[i] == subv[i]);
            assert(names_of(planv)[i] == n);
        }
    }
    plan
}

/// Plans a resolver run: the components that will be installed, in
/// install order. Dependencies come before the good set; the good set
/// comes last, in request order. The plan is empty exactly when no
/// requested component is stale.
pub fn plan_installs(
    catalog: &Vec<ModInfo>,
    request: &Vec<ModInfo>,
    ledger: &InstallDatas,
    ignore_deps: bool,
) -> (plan: Vec<ModInfo>)
    requires
        ledger.wf(),
    ensures
        plan_post(
            views(catalog@),
            views(request@),
            ledger@,
            ignore_deps,
            names_of(views(request@)),
            views(plan@),
        ),
{
    let ghost reqv = views(request@);
    let mut visited: Vec<String> = Vec::new();
    proof {
        assert(visited.deep_view() =~= names_of(reqv).take(0));
    }
    let mut i: usize = 0;
    while i < request.len()
        invariant
            i <= request.len(),
            reqv == views(request@),
            visited.deep_view() == names_of(reqv).take(i as int),
        decreases request.len() - i,
    {
        let ghost v_pre = visited.deep_view();
        visited.push(request[i].name.clone());
        proof {
            assert forall|j: int| 0 <= j < visited.deep_view().len() implies visited.deep_view()[j]
                == names_of(reqv).take(i + 1 as int)[j] by {
                if j < v_pre.len() {
                    assert(visited.deep_view()[j] == v_pre[j]);
                } else {
                    assert(visited.deep_view()[j] == request@[i as int].name@);
                    assert(names_of(reqv)[i as int] == reqv[i as int].name);
                }
            }
            assert(visited.deep_view().len() == v_pre.len() + 1);
            assert(v_pre.len() == i);
            assert(names_of(reqv).take(i + 1 as int).len() == i + 1);
            assert(visited.deep_view() =~= names_of(reqv).take(i + 1 as int));
        }
        i = i + 1;
    }
    proof {
        assert(names_of(reqv).take(request@.len() as int) =~= names_of(reqv));
        assert forall|j: int| 0 <= j < views(request@).len() implies visited.deep_view().contains(
            (#[trigger] views(request@)[j]).name,
        ) by {
            assert(visited.deep_view()[j] == names_of(reqv)[j]);
            assert(names_of(reqv)[j] == reqv[j].name);
        }
    }
    plan_rec(catalog, request, ledger, ignore_deps, &visited)
}

} // verus!

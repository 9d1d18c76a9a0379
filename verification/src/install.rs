//! Installing components: one component at a time, and a whole
//! resolver run that installs a planned batch and merges the results
//! into the caller's ledger.

use vstd::prelude::*;
use vstd::string::StringExecFns;
use crate::fetch::archive_extract;
use crate::fetch::archive_file_names;
use crate::fetch::download;
use crate::fetch::open_archive;
use crate::model::InstallData;
use crate::model::InstallDatas;
use crate::model::InstallError;
use crate::model::InstallEvent;
use crate::model::ModInfo;
use crate::resolve::all_matches_stale;
use crate::resolve::catalog_names;
use crate::resolve::dep_names_of;
use crate::resolve::good_seq;
use crate::resolve::names_of;
use crate::resolve::plan_installs;
use crate::resolve::plan_post;
use crate::resolve::stale;
use crate::resolve::views;

verus! {

broadcast use vstd::seq_lib::group_filter_ensures;

/// Joins the install root and a relative subpath with a separator.
fn join_path(root: &str, sub: &str) -> (r: String)
    ensures
        r@ == root@ + seq!['/'] + sub@,
{
    let mut r = root.to_owned();
    r.append("/");
    r.append(sub);
    proof {
        reveal_strlit("/");
        assert("/"@ =~= seq!['/']);
        assert(r@ =~= root@ + seq!['/'] + sub@);
    }
    r
}

/// Installs one component, dependencies not considered: notes the
/// install in the event list, fetches the archive behind the
/// component's download locator, captures the names of its entries as
/// the manifest, extracts everything under the install root (joined
/// with the component's subpath, if it has one), and returns the
/// record to put in the ledger. Exactly one event is appended, whether
/// the install succeeds or not; on success the record carries the
/// component's version string.
pub fn install_no_deps(info: &ModInfo, path: &str, events: &mut Vec<InstallEvent>) -> (r: Result<
    InstallData,
    InstallError,
>)
    ensures
        final(events).deep_view() == old(events).deep_view().push(info.name@),
        r matches Ok(d) ==> d@.version == info@.version,
{
    let ghost ev0 = events.deep_view();
    events.push(InstallEvent { name: info.name.clone() });
    proof {
        assert(events.deep_view() =~= ev0.push(info.name@));
    }
    let bytes = match download(info.download_url.as_str()) {
        Ok(b) => b,
        Err(e) => return Err(e),
    };
    let mut archive = match open_archive(bytes) {
        Ok(a) => a,
        Err(e) => return Err(e),
    };
    let dest: String = match &info.install_location {
        Option::Some(loc) => join_path(path, loc.as_str()),
        Option::None => path.to_owned(),
    };
    let structure = archive_file_names(&archive);
    match archive_extract(&mut archive, dest.as_str()) {
        Ok(_) => {},
        Err(e) => return Err(e),
    }
    Ok(InstallData { version: info.version.clone(), structure })
}

/// Resolves and installs a requested batch of components against the
/// full catalog.
///
/// Only stale requested components (the good set) are installed; when
/// dependency-following is enabled, their stale catalog dependencies
/// are installed first, transitively, each name at most once per call.
/// The returned ledger is the caller's ledger with one record merged
/// in per installed component, the new records winning; the caller's
/// ledger value itself is never touched. The first failing install
/// aborts the run. A request whose components are all up to date
/// succeeds, installs nothing, and returns the ledger unchanged.
pub fn install_mods(
    infos: &Vec<ModInfo>,
    to_install: &Vec<ModInfo>,
    path: &str,
    events: &mut Vec<InstallEvent>,
    install_data: &InstallDatas,
    ignore_deps: bool,
) -> (r: Result<InstallDatas, InstallError>)
    requires
        install_data.wf(),
    ensures
        old(events).deep_view().is_prefix_of(final(events).deep_view()),
        ({
            let catv = views(infos@);
            let reqv = views(to_install@);
            let led = install_data@;
            let goodv = good_seq(reqv, led);
            r matches Ok(out) ==> {
                &&& out.wf()
                &&& forall|k: Seq<char>| led.contains_key(k) ==> out@.contains_key(k)
                &&& forall|k: Seq<char>|
                    out@.contains_key(k) && !led.contains_key(k) ==> catalog_names(catv).contains(
                        k,
                    ) || names_of(reqv).contains(k)
                &&& forall|k: Seq<char>|
                    names_of(reqv).contains(k) && !names_of(goodv).contains(k) ==> (
                    out@.contains_key(k) == led.contains_key(k)) && (led.contains_key(k)
                        ==> out@[k] == led[k])
                &&& forall|g: int|
                    0 <= g < goodv.len() && (forall|h: int|
                        g < h < goodv.len() ==> (#[trigger] goodv[h]).name != goodv[g].name)
                        ==> out@.contains_key((#[trigger] goodv[g]).name) && out@[goodv[g].name].version
                        == goodv[g].version
                &&& exists|mid: Seq<Seq<char>>|
                    final(events).deep_view() == old(events).deep_view() + mid + names_of(goodv)
                        && (forall|j: int|
                        0 <= j < mid.len() ==> catalog_names(catv).contains(#[trigger] mid[j])
                            && !names_of(reqv).contains(mid[j]))
                &&& (ignore_deps ==> out@.dom() == led.dom() + names_of(goodv).to_set()
                    && final(events).deep_view() == old(events).deep_view() + names_of(goodv))
                &&& (!ignore_deps ==> forall|g: int, d: int|
                    0 <= g < goodv.len() && 0 <= d < dep_names_of(#[trigger] goodv[g]).len()
                        && catalog_names(catv).contains(#[trigger] dep_names_of(goodv[g])[d])
                        && all_matches_stale(catv, dep_names_of(goodv[g])[d], led)
                        && !names_of(reqv).contains(dep_names_of(goodv[g])[d])
                        ==> out@.contains_key(dep_names_of(goodv[g])[d]))
            }
        }),
        (forall|i: int|
            0 <= i < views(to_install@).len() ==> !stale(
                #[trigger] views(to_install@)[i],
                install_data@,
            )) ==> (r matches Ok(out) && out@ == install_data@ && final(events)@ == old(events)@),
{
    let ghost catv = views(infos@);
    let ghost reqv = views(to_install@);
    let ghost led = install_data@;
    let ghost goodv = good_seq(reqv, led);
    let ghost ev0 = events.deep_view();

    let plan = plan_installs(infos, to_install, install_data, ignore_deps);
    let ghost planv = views(plan@);
    let ghost off = planv.len() - goodv.len();
    proof {
        assert(plan_post(catv, reqv, led, ignore_deps, names_of(reqv), planv));
    }

    let mut working = InstallDatas::empty();
    let mut idx: usize = 0;
    while idx < plan.len()
        invariant
            idx <= plan.len(),
            install_data.wf(),
            working.wf(),
            planv == views(plan@),
            led == install_data@,
            catv == views(infos@),
            reqv == views(to_install@),
            goodv == good_seq(reqv, led),
            off == planv.len() - goodv.len(),
            ev0 == old(events).deep_view(),
            plan_post(catv, reqv, led, ignore_deps, names_of(reqv), planv),
            forall|k: Seq<char>|
                working@.contains_key(k) <==> names_of(planv.take(idx as int)).contains(k),
            forall|i: int|
                0 <= i < idx && (forall|j: int|
                    i < j < idx ==> (#[trigger] planv[j]).name != planv[i].name)
                    ==> working@.contains_key((#[trigger] planv[i]).name)
                    && working@[planv[i].name].version == planv[i].version,
            events.deep_view() == ev0 + names_of(planv.take(idx as int)),
            planv.len() == 0 ==> events@ == old(events)@,
        decreases plan.len() - idx,
    {
        let rec = match install_no_deps(&plan[idx], path, events) {
            Ok(rc) => rc,
            Err(e) => {
                proof {
                    let pre = ev0 + names_of(planv.take(idx as int));
                    assert(events.deep_view() == pre.push(planv[idx as int].name));
                    assert forall|j: int| 0 <= j < ev0.len() implies events.deep_view()[j]
                        == ev0[j] by {
                        assert(events.deep_view()[j] == pre[j]);
                        assert(pre[j] == ev0[j]);
                    }
                    assert(ev0 =~= events.deep_view().subrange(0, ev0.len() as int));
                    assert(ev0.is_prefix_of(events.deep_view()));
                    if forall|i: int| 0 <= i < reqv.len() ==> !stale(#[trigger] reqv[i], led) {
                        if goodv.len() == 0 {
                            assert(planv.len() == 0);
                            assert(false);
                        } else {
                            assert(stale(goodv[0], led));
                            reqv.lemma_filter_contains_rev(
                                |m: crate::model::ModInfoView| stale(m, led),
                                goodv[0],
                            );
                            let w = choose|w: int| 0 <= w < reqv.len() && reqv[w] == goodv[0];
                            assert(!stale(reqv[w], led));
                            assert(false);
                        }
                    }
                }
                return Err(e);
            },
        };
        let ghost w_pre = working@;
        let ghost ev_pre = events.deep_view();
        working.insert(plan[idx].name.clone(), rec);
        proof {
            assert(planv.take(idx + 1 as int).drop_last() =~= planv.take(idx as int));
            assert(names_of(planv.take(idx + 1 as int)) =~= names_of(planv.take(idx as int)).push(
                planv[idx as int].name,
            ));
            let ghost pre_names = names_of(planv.take(idx as int));
            let ghost all_names = pre_names.push(planv[idx as int].name);
            assert(names_of(planv.take(idx + 1 as int)) == all_names);
            assert forall|k: Seq<char>| working@.contains_key(k) <==> all_names.contains(k) by {
                if working@.contains_key(k) {
                    if k == planv[idx as int].name {
                        assert(all_names[all_names.len() - 1] == k);
                    } else {
                        assert(w_pre.contains_key(k));
                        let j = choose|j: int|
                            0 <= j < pre_names.len() && pre_names[j] == k;
                        assert(all_names[j] == k);
                    }
                }
                if all_names.contains(k) {
                    let j = choose|j: int| 0 <= j < all_names.len() && all_names[j] == k;
                    if j < pre_names.len() {
                        assert(pre_names[j] == k);
                        assert(w_pre.contains_key(k));
                    } else {
                        assert(k == planv[idx as int].name);
                    }
                }
            }
            assert(events.deep_view() =~= ev0 + names_of(planv.take(idx + 1 as int)));
        }
        idx = idx + 1;
    }
    proof {
        assert(planv.take(planv.len() as int) =~= planv);
    }
    let out = install_data.merge(&working);
    proof {
        let w = working@;
        assert(out@ == led.union_prefer_right(w));
        assert(planv.skip(off) == goodv);
        // names in the plan's dependency prefix come from the catalog and
        // never from the request
        assert forall|k: Seq<char>| w.contains_key(k) implies names_of(planv).contains(k) by {}
        // surviving ledger keys
        assert(forall|k: Seq<char>| led.contains_key(k) ==> out@.contains_key(k));
        // no key from nowhere
        assert forall|k: Seq<char>|
            out@.contains_key(k) && !led.contains_key(k) implies catalog_names(catv).contains(k)
            || names_of(reqv).contains(k) by {
            assert(w.contains_key(k));
            let j = choose|j: int| 0 <= j < names_of(planv).len() && names_of(planv)[j] == k;
            if j < off {
                assert(catalog_names(catv).contains(planv[j].name));
            } else {
                assert(planv[j] == planv.skip(off)[j - off]);
                assert(goodv[j - off] == planv[j]);
                reqv.lemma_filter_contains_rev(
                    |m: crate::model::ModInfoView| stale(m, led),
                    goodv[j - off],
                );
                let i = choose|i: int| 0 <= i < reqv.len() && reqv[i] == goodv[j - off];
                assert(names_of(reqv)[i] == k);
            }
        }
        // untouched request names
        assert forall|k: Seq<char>|
            names_of(reqv).contains(k) && !names_of(goodv).contains(k) implies (
        out@.contains_key(k) == led.contains_key(k)) && (led.contains_key(k) ==> out@[k]
            == led[k]) by {
            if w.contains_key(k) {
                let j = choose|j: int| 0 <= j < names_of(planv).len() && names_of(planv)[j] == k;
                if j < off {
                    assert(!names_of(reqv).contains(planv[j].name));
                } else {
                    assert(goodv[j - off] == planv[j]);
                    assert(names_of(goodv)[j - off] == k);
                }
            }
            assert(!w.contains_key(k));
        }
        // the last stale occurrence of a name fixes the version
        assert forall|g: int|
            0 <= g < goodv.len() && (forall|h: int|
                g < h < goodv.len() ==> (#[trigger] goodv[h]).name != goodv[g].name) implies
            out@.contains_key((#[trigger] goodv[g]).name) && out@[goodv[g].name].version
            == goodv[g].version by {
            let i = off + g;
            assert(planv[i] == goodv[g]);
            assert forall|j: int| i < j < planv.len() implies (#[trigger] planv[j]).name
                != planv[i].name by {
                assert(planv[j] == goodv[j - off]);
            }
            assert(w.contains_key(planv[i].name) && w[planv[i].name].version == planv[i].version);
        }
        // events: dependency names first, then the good set in order
        let mid = names_of(planv.take(off));
        assert(names_of(planv) =~= mid + names_of(goodv)) by {
            assert forall|j: int| 0 <= j < names_of(planv).len() implies names_of(planv)[j] == (mid
                + names_of(goodv))[j] by {
                if j >= off {
                    assert(planv[j] == goodv[j - off]);
                }
            }
        }
        assert(events.deep_view() == ev0 + mid + names_of(goodv)) by {
            assert(ev0 + names_of(planv) =~= ev0 + mid + names_of(goodv));
        }
        assert(forall|j: int|
            0 <= j < mid.len() ==> catalog_names(catv).contains(#[trigger] mid[j])
                && !names_of(reqv).contains(mid[j])) by {
            assert(forall|j: int| 0 <= j < off ==> mid[j] == (#[trigger] planv[j]).name);
        }
        assert(ev0.is_prefix_of(events.deep_view())) by {
            assert(forall|j: int| 0 <= j < ev0.len() ==> events.deep_view()[j] == ev0[j]);
        }
        // with dependencies skipped, exactly the good set is added
        if ignore_deps {
            assert(planv == goodv);
            assert(off == 0);
            assert(out@.dom() =~= led.dom() + names_of(goodv).to_set());
            assert(ev0 + mid + names_of(goodv) =~= ev0 + names_of(goodv));
        }
        // every uniformly stale, unrequested dependency name is recorded
        if !ignore_deps {
            assert forall|g: int, d: int|
                0 <= g < goodv.len() && 0 <= d < dep_names_of(#[trigger] goodv[g]).len()
                    && catalog_names(catv).contains(#[trigger] dep_names_of(goodv[g])[d])
                    && all_matches_stale(catv, dep_names_of(goodv[g])[d], led)
                    && !names_of(reqv).contains(dep_names_of(goodv[g])[d]) implies out@.contains_key(
                dep_names_of(goodv[g])[d],
            ) by {
                let n = dep_names_of(goodv[g])[d];
                assert(names_of(planv).contains(n));
                assert(w.contains_key(n));
            }
        }
        // an up-to-date request returns the ledger unchanged
        if forall|i: int| 0 <= i < reqv.len() ==> !stale(#[trigger] reqv[i], led) {
            crate::resolve::lemma_good_seq_empty(reqv, led);
            assert(goodv.len() == 0);
            assert(planv.len() == 0);
            assert(w =~= Map::<Seq<char>, crate::model::InstallDataView>::empty());
            assert(out@ =~= led);
        }
    }
    Ok(out)
}

} // verus!

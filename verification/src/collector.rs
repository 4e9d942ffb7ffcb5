//! Collecting a frontier's dependencies: one entry per distinct declared
//! dependency, with the packages that declared it.

use vstd::prelude::*;

use crate::dependency::{Dependency, DependencyView};
use crate::package::{Package, PackageView};

verus! {

pub struct Collector {}

/// The collected rows: each a dependency and the packages that declared it.
pub type CollectedView = Seq<(DependencyView, Seq<PackageView>)>;

/// Whether the pair `(package index, dependency index)` comes before the
/// pair `(pi, di)` in the collection order.
pub open spec fn pair_before(m: int, l: int, pi: int, di: int) -> bool {
    m < pi || (m == pi && l < di)
}

/// Whether some entry maps the dependency `d` to a list holding `p`.
pub open spec fn entry_covers(entries: CollectedView, d: DependencyView, p: PackageView) -> bool {
    exists|k: int|
        0 <= k < entries.len() && (#[trigger] entries[k]).0 == d && entries[k].1.contains(p)
}

/// Whether every dependency declared before the pair `(pi, di)` has an
/// entry listing its declarer.
pub open spec fn covered_upto(
    pkgs: Seq<PackageView>,
    entries: CollectedView,
    pi: int,
    di: int,
) -> bool {
    forall|m: int, l: int|
        #![trigger pkgs[m].dependencies()[l]]
        pair_before(m, l, pi, di) && 0 <= m && 0 <= l && m < pkgs.len() && l
            < pkgs[m].dependencies().len() ==> entry_covers(
            entries,
            pkgs[m].dependencies()[l],
            pkgs[m],
        )
}

/// Whether one of the first `l` dependencies of `p` is `d`.
pub open spec fn dep_declared_before(p: PackageView, d: DependencyView, l: int) -> bool {
    exists|j: int| 0 <= j < l && #[trigger] p.dependencies()[j] == d
}

/// The package itself, where one of its first `l` dependencies is `d`:
/// the part of a declarer list the package under work contributes.
pub open spec fn pending(p: PackageView, d: DependencyView, l: int) -> Seq<PackageView> {
    if dep_declared_before(p, d, l) {
        seq![p]
    } else {
        Seq::empty()
    }
}

/// The packages declaring `d`, in input order, each once.
pub open spec fn declarers_of(pkgs: Seq<PackageView>, d: DependencyView) -> Seq<PackageView>
    decreases pkgs.len(),
{
    if pkgs.len() == 0 {
        Seq::empty()
    } else {
        declarers_of(pkgs.drop_last(), d) + if pkgs.last().dependencies().contains(d) {
            seq![pkgs.last()]
        } else {
            Seq::empty()
        }
    }
}

proof fn lemma_declarers_push(pkgs: Seq<PackageView>, x: PackageView, d: DependencyView)
    ensures
        declarers_of(pkgs.push(x), d) == declarers_of(pkgs, d) + if x.dependencies().contains(d) {
            seq![x]
        } else {
            Seq::<PackageView>::empty()
        },
{
    assert(pkgs.push(x).drop_last() =~= pkgs);
    assert(pkgs.push(x).last() == x);
}

proof fn lemma_declarers_empty(pkgs: Seq<PackageView>, d: DependencyView)
    requires
        forall|m: int| 0 <= m < pkgs.len() ==> !(#[trigger] pkgs[m]).dependencies().contains(d),
    ensures
        declarers_of(pkgs, d) == Seq::<PackageView>::empty(),
    decreases pkgs.len(),
{
    if pkgs.len() > 0 {
        lemma_declarers_empty(pkgs.drop_last(), d);
        assert(declarers_of(pkgs, d) =~= Seq::<PackageView>::empty());
    } else {
        assert(declarers_of(pkgs, d) =~= Seq::<PackageView>::empty());
    }
}

/// The collected entries are well-formed against the input packages: keys
/// are distinct, every list is non-empty, and every listed package comes
/// from the input and declares the entry's key.
pub open spec fn collected_wf(pkgs: Seq<PackageView>, entries: CollectedView) -> bool {
    &&& forall|i: int, j: int|
        0 <= i < j < entries.len() ==> (#[trigger] entries[i]).0 != (#[trigger] entries[j]).0
    &&& forall|k: int| 0 <= k < entries.len() ==> (#[trigger] entries[k]).1.len() > 0
    &&& forall|k: int, t: int|
        0 <= k < entries.len() && 0 <= t < (#[trigger] entries[k]).1.len() ==> pkgs.contains(
            #[trigger] entries[k].1[t],
        ) && entries[k].1[t].dependencies().contains(entries[k].0)
}

impl Collector {
    pub fn new() -> (r: Collector) {
        Collector {}
    }

    /// Groups every dependency declared by the given packages: each entry
    /// holds one distinct dependency and exactly the packages that declared
    /// it, in input order, each once; every declared dependency is covered.
    pub fn collect(&self, packages: &Vec<Package>) -> (r: Vec<(Dependency, Vec<Package>)>)
        ensures
            collected_wf(packages.deep_view(), r.deep_view()),
            covered_upto(
                packages.deep_view(),
                r.deep_view(),
                packages.deep_view().len() as int,
                0,
            ),
            forall|k: int|
                0 <= k < r.deep_view().len() ==> (#[trigger] r.deep_view()[k]).1 == declarers_of(
                    packages.deep_view(),
                    r.deep_view()[k].0,
                ),
    {
        let mut out: Vec<(Dependency, Vec<Package>)> = Vec::new();
        let ghost pkgs = packages.deep_view();
        let mut pi: usize = 0;
        while pi < packages.len()
            invariant
                pi <= packages.len(),
                pkgs == packages.deep_view(),
                pkgs.len() == packages@.len(),
                collected_wf(pkgs, out.deep_view()),
                covered_upto(pkgs, out.deep_view(), pi as int, 0),
                forall|k: int|
                    0 <= k < out.deep_view().len() ==> (#[trigger] out.deep_view()[k]).1
                        == declarers_of(pkgs.subrange(0, pi as int), out.deep_view()[k].0),
            decreases packages.len() - pi,
        {
            let deps = packages[pi].dependencies();
            let package = packages[pi].clone();
            proof {
                assert(package@ == pkgs[pi as int]);
                assert(deps.deep_view() == pkgs[pi as int].dependencies());
            }
            let mut di: usize = 0;
            proof {
                assert forall|k: int|
                    0 <= k < out.deep_view().len() implies (#[trigger] out.deep_view()[k]).1
                    == declarers_of(pkgs.subrange(0, pi as int), out.deep_view()[k].0) + pending(
                    pkgs[pi as int],
                    out.deep_view()[k].0,
                    0,
                ) by {
                    assert(declarers_of(pkgs.subrange(0, pi as int), out.deep_view()[k].0)
                        + Seq::<PackageView>::empty() =~= declarers_of(
                        pkgs.subrange(0, pi as int),
                        out.deep_view()[k].0,
                    ));
                }
            }
            while di < deps.len()
                invariant
                    pi < packages.len(),
                    di <= deps.len(),
                    pkgs == packages.deep_view(),
                    pkgs.len() == packages@.len(),
                    package@ == pkgs[pi as int],
                    deps.deep_view() == pkgs[pi as int].dependencies(),
                    deps.deep_view().len() == deps@.len(),
                    collected_wf(pkgs, out.deep_view()),
                    covered_upto(pkgs, out.deep_view(), pi as int, di as int),
                    forall|k: int|
                        0 <= k < out.deep_view().len() ==> (#[trigger] out.deep_view()[k]).1
                            == declarers_of(pkgs.subrange(0, pi as int), out.deep_view()[k].0)
                            + pending(pkgs[pi as int], out.deep_view()[k].0, di as int),
                decreases deps.len() - di,
            {
                let ghost old_out = out.deep_view();
                let ghost dv = deps.deep_view()[di as int];
                // an entry already serves a dependency the package repeats
                let mut dup = false;
                let mut l: usize = 0;
                while l < di
                    invariant
                        l <= di,
                        di < deps@.len(),
                        deps.deep_view() == pkgs[pi as int].dependencies(),
                        deps.deep_view().len() == deps@.len(),
                        dv == deps.deep_view()[di as int],
                        dup == dep_declared_before(pkgs[pi as int], dv, l as int),
                    decreases di - l,
                {
                    let hit = deps[l] == deps[di];
                    proof {
                        assert(deps.deep_view()[l as int] == deps@[l as int]@);
                        assert(deps.deep_view()[di as int] == deps@[di as int]@);
                        if hit {
                            assert(pkgs[pi as int].dependencies()[l as int] == dv);
                            assert(dep_declared_before(pkgs[pi as int], dv, l + 1));
                        } else {
                            if !dup && dep_declared_before(pkgs[pi as int], dv, l + 1) {
                                let j = choose|j: int|
                                    0 <= j < l + 1 && #[trigger] pkgs[pi as int].dependencies()[j]
                                        == dv;
                                assert(j == l);
                            }
                        }
                    }
                    if hit {
                        dup = true;
                    }
                    l = l + 1;
                }
                if dup {
                    proof {
                        // the earlier occurrence already put this package in
                        // the dependency's entry
                        let j = choose|j: int|
                            0 <= j < di && #[trigger] pkgs[pi as int].dependencies()[j] == dv;
                        assert(pair_before(pi as int, j, pi as int, di as int));
                        assert(entry_covers(out.deep_view(), dv, pkgs[pi as int])) by {
                            assert(entry_covers(
                                out.deep_view(),
                                pkgs[pi as int].dependencies()[j],
                                pkgs[pi as int],
                            ));
                        }
                        assert(covered_upto(pkgs, out.deep_view(), pi as int, di + 1)) by {
                            assert forall|m: int, l2: int|
                                #![trigger pkgs[m].dependencies()[l2]]
                                pair_before(m, l2, pi as int, di + 1) && 0 <= m && 0 <= l2 && m
                                    < pkgs.len() && l2
                                    < pkgs[m].dependencies().len() implies entry_covers(
                                out.deep_view(),
                                pkgs[m].dependencies()[l2],
                                pkgs[m],
                            ) by {
                                if !pair_before(m, l2, pi as int, di as int) {
                                    assert(m == pi && l2 == di);
                                }
                            }
                        }
                        // the repeat leaves every pending list unchanged
                        assert forall|k: int|
                            0 <= k < out.deep_view().len() implies (#[trigger] out.deep_view()[k]).1
                            == declarers_of(pkgs.subrange(0, pi as int), out.deep_view()[k].0)
                            + pending(pkgs[pi as int], out.deep_view()[k].0, di + 1) by {
                            let key = out.deep_view()[k].0;
                            if key == dv {
                                assert(dep_declared_before(pkgs[pi as int], key, di as int));
                                assert(dep_declared_before(pkgs[pi as int], key, di + 1));
                            } else {
                                if dep_declared_before(pkgs[pi as int], key, di + 1) {
                                    let j2 = choose|j2: int|
                                        0 <= j2 < di + 1 && #[trigger] pkgs[pi as int].dependencies()[j2]
                                            == key;
                                    assert(j2 != di);
                                    assert(dep_declared_before(pkgs[pi as int], key, di as int));
                                }
                                if dep_declared_before(pkgs[pi as int], key, di as int) {
                                    let j2 = choose|j2: int|
                                        0 <= j2 < di && #[trigger] pkgs[pi as int].dependencies()[j2]
                                            == key;
                                    assert(dep_declared_before(pkgs[pi as int], key, di + 1));
                                }
                            }
                        }
                    }
                    di = di + 1;
                    continue;
                }
                proof {
                    assert(!dep_declared_before(pkgs[pi as int], dv, di as int));
                }
                // look the dependency up among the keys collected so far
                let mut found: Option<usize> = None;
                let mut k: usize = 0;
                while k < out.len()
                    invariant
                        k <= out.len(),
                        di < deps.len(),
                        deps.deep_view().len() == deps@.len(),
                        out.deep_view().len() == out@.len(),
                        dv == deps.deep_view()[di as int],
                        match found {
                            Some(f) => f < k && out.deep_view()[f as int].0 == dv,
                            None => forall|k2: int|
                                0 <= k2 < k ==> (#[trigger] out.deep_view()[k2]).0 != dv,
                        },
                    decreases out.len() - k,
                {
                    if found.is_none() && out[k].0 == deps[di] {
                        proof {
                            assert(out.deep_view()[k as int].0 == out@[k as int].0@);
                            assert(deps.deep_view()[di as int] == deps@[di as int]@);
                        }
                        found = Some(k);
                    }
                    k = k + 1;
                }
                match found {
                    Some(f) => {
                        let (dk, mut ps) = out.remove(f);
                        ps.push(package.clone());
                        out.insert(f, (dk, ps));
                        proof {
                            assert(out.deep_view() =~~= old_out.update(
                                f as int,
                                (old_out[f as int].0, old_out[f as int].1.push(pkgs[pi as int])),
                            ));
                        }
                    },
                    None => {
                        let mut ps: Vec<Package> = Vec::new();
                        ps.push(package.clone());
                        out.push((deps[di].clone(), ps));
                        proof {
                            assert(deps@[di as int]@ == deps.deep_view()[di as int]);
                            assert(out.deep_view() =~~= old_out.push(
                                (deps.deep_view()[di as int], seq![pkgs[pi as int]]),
                            ));
                        }
                    },
                }
                proof {
                    let now = out.deep_view();
                    // the processed pair has its entry now
                    assert(entry_covers(now, deps.deep_view()[di as int], pkgs[pi as int])) by {
                        match found {
                            Some(f) => {
                                assert(now[f as int].0 == deps.deep_view()[di as int]);
                                let n = now[f as int].1.len();
                                assert(now[f as int].1[n - 1] == pkgs[pi as int]);
                            },
                            None => {
                                let last = now.len() - 1;
                                assert(now[last].0 == deps.deep_view()[di as int]);
                                assert(now[last].1[0] == pkgs[pi as int]);
                            },
                        }
                    }
                    // each older entry survives the step, so coverage carries over
                    assert forall|dd: DependencyView, p: PackageView|
                        entry_covers(old_out, dd, p) implies entry_covers(now, dd, p) by {
                        let k0 = choose|k0: int|
                            0 <= k0 < old_out.len() && (#[trigger] old_out[k0]).0 == dd
                                && old_out[k0].1.contains(p);
                        let t0 = choose|t0: int|
                            0 <= t0 < old_out[k0].1.len() && old_out[k0].1[t0] == p;
                        assert(now[k0].1[t0] == p);
                        assert(now[k0].0 == dd);
                    }
                    assert(covered_upto(pkgs, now, pi as int, di + 1)) by {
                        assert forall|m: int, l2: int|
                            #![trigger pkgs[m].dependencies()[l2]]
                            pair_before(m, l2, pi as int, di + 1) && 0 <= m && 0 <= l2 && m
                                < pkgs.len() && l2
                                < pkgs[m].dependencies().len() implies entry_covers(
                            now,
                            pkgs[m].dependencies()[l2],
                            pkgs[m],
                        ) by {
                            if pair_before(m, l2, pi as int, di as int) {
                                assert(entry_covers(old_out, pkgs[m].dependencies()[l2], pkgs[m]));
                            } else {
                                assert(m == pi && l2 == di);
                            }
                        }
                    }
                    // the exact lists: the served entry gains this package,
                    // every other entry's pending part is unchanged
                    assert forall|k2: int|
                        0 <= k2 < now.len() implies (#[trigger] now[k2]).1 == declarers_of(
                        pkgs.subrange(0, pi as int),
                        now[k2].0,
                    ) + pending(pkgs[pi as int], now[k2].0, di + 1) by {
                        let key = now[k2].0;
                        assert(dep_declared_before(pkgs[pi as int], dv, di + 1)) by {
                            assert(pkgs[pi as int].dependencies()[di as int] == dv);
                        }
                        let served: int = match found {
                            Some(f) => f as int,
                            None => old_out.len() as int,
                        };
                        if k2 == served {
                            assert(key == dv);
                            match found {
                                Some(f) => {
                                    assert(old_out[f as int].1 == declarers_of(
                                        pkgs.subrange(0, pi as int),
                                        dv,
                                    ) + pending(pkgs[pi as int], dv, di as int));
                                    assert(pending(pkgs[pi as int], dv, di as int)
                                        =~= Seq::<PackageView>::empty());
                                    assert(now[k2].1 =~= declarers_of(
                                        pkgs.subrange(0, pi as int),
                                        dv,
                                    ).push(pkgs[pi as int]));
                                    assert(now[k2].1 =~= declarers_of(
                                        pkgs.subrange(0, pi as int),
                                        dv,
                                    ) + pending(pkgs[pi as int], dv, di + 1));
                                },
                                None => {
                                    // no entry: nothing before this package declares it
                                    assert forall|m: int|
                                        0 <= m < pkgs.subrange(0, pi as int).len() implies !(
                                        #[trigger] pkgs.subrange(0, pi as int)[m]).dependencies().contains(
                                            dv,
                                        ) by {
                                        if pkgs.subrange(0, pi as int)[m].dependencies().contains(
                                            dv,
                                        ) {
                                            let l3 = choose|l3: int|
                                                0 <= l3 < pkgs[m].dependencies().len() && #[trigger] pkgs[m].dependencies()[l3]
                                                    == dv;
                                            assert(pair_before(m, l3, pi as int, di as int));
                                            assert(entry_covers(old_out, dv, pkgs[m]));
                                            let ke = choose|ke: int|
                                                0 <= ke < old_out.len() && (#[trigger] old_out[ke]).0
                                                    == dv && old_out[ke].1.contains(pkgs[m]);
                                            assert(old_out[ke].0 != dv);
                                        }
                                    }
                                    lemma_declarers_empty(pkgs.subrange(0, pi as int), dv);
                                    assert(now[k2].1 =~= declarers_of(
                                        pkgs.subrange(0, pi as int),
                                        dv,
                                    ) + pending(pkgs[pi as int], dv, di + 1));
                                },
                            }
                        } else {
                            assert(now[k2].1 == old_out[k2].1);
                            assert(now[k2].0 == old_out[k2].0);
                            assert(key != dv) by {
                                match found {
                                    Some(f) => {
                                        assert(old_out[f as int].0 == dv);
                                        if key == dv {
                                            assert(old_out[k2].0 == old_out[f as int].0);
                                        }
                                    },
                                    None => {
                                        assert(old_out[k2].0 != dv);
                                    },
                                }
                            }
                            assert(pending(pkgs[pi as int], key, di + 1) =~= pending(
                                pkgs[pi as int],
                                key,
                                di as int,
                            )) by {
                                if dep_declared_before(pkgs[pi as int], key, di + 1) {
                                    let j2 = choose|j2: int|
                                        0 <= j2 < di + 1 && #[trigger] pkgs[pi as int].dependencies()[j2]
                                            == key;
                                    assert(j2 != di);
                                    assert(dep_declared_before(pkgs[pi as int], key, di as int));
                                }
                                if dep_declared_before(pkgs[pi as int], key, di as int) {
                                    let j2 = choose|j2: int|
                                        0 <= j2 < di && #[trigger] pkgs[pi as int].dependencies()[j2]
                                            == key;
                                    assert(dep_declared_before(pkgs[pi as int], key, di + 1));
                                }
                            }
                        }
                    }
                }
                di = di + 1;
            }
            proof {
                assert(covered_upto(pkgs, out.deep_view(), pi + 1, 0)) by {
                    assert forall|m: int, l2: int|
                        #![trigger pkgs[m].dependencies()[l2]]
                        pair_before(m, l2, pi + 1, 0) && 0 <= m && 0 <= l2 && m < pkgs.len() && l2
                            < pkgs[m].dependencies().len() implies entry_covers(
                        out.deep_view(),
                        pkgs[m].dependencies()[l2],
                        pkgs[m],
                    ) by {
                        assert(pair_before(m, l2, pi as int, di as int));
                    }
                }
                // the package is fully processed: its pending part becomes
                // its place in the declarer lists
                assert forall|k2: int|
                    0 <= k2 < out.deep_view().len() implies (#[trigger] out.deep_view()[k2]).1
                    == declarers_of(pkgs.subrange(0, pi + 1), out.deep_view()[k2].0) by {
                    let key = out.deep_view()[k2].0;
                    assert(pkgs.subrange(0, pi + 1) =~= pkgs.subrange(0, pi as int).push(
                        pkgs[pi as int],
                    ));
                    lemma_declarers_push(pkgs.subrange(0, pi as int), pkgs[pi as int], key);
                    assert(pkgs[pi as int].dependencies().contains(key) == dep_declared_before(
                        pkgs[pi as int],
                        key,
                        di as int,
                    )) by {
                        assert(di == deps@.len());
                        if pkgs[pi as int].dependencies().contains(key) {
                            let j2 = choose|j2: int|
                                0 <= j2 < pkgs[pi as int].dependencies().len()
                                    && pkgs[pi as int].dependencies()[j2] == key;
                            assert(#[trigger] pkgs[pi as int].dependencies()[j2] == key);
                            assert(dep_declared_before(pkgs[pi as int], key, di as int));
                        }
                        if dep_declared_before(pkgs[pi as int], key, di as int) {
                            let j2 = choose|j2: int|
                                0 <= j2 < di && #[trigger] pkgs[pi as int].dependencies()[j2]
                                    == key;
                            assert(pkgs[pi as int].dependencies().contains(key));
                        }
                    }
                    if pkgs[pi as int].dependencies().contains(key) {
                        assert(out.deep_view()[k2].1 =~= declarers_of(
                            pkgs.subrange(0, pi + 1),
                            key,
                        ));
                    } else {
                        assert(pending(pkgs[pi as int], key, di as int)
                            =~= Seq::<PackageView>::empty());
                        assert(out.deep_view()[k2].1 =~= declarers_of(
                            pkgs.subrange(0, pi + 1),
                            key,
                        ));
                    }
                }
            }
            pi = pi + 1;
        }
        proof {
            assert(pkgs.subrange(0, packages@.len() as int) =~= pkgs);
        }
        out
    }
}

} // verus!

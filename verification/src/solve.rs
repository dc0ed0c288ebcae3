//! The satisfiability check: whether what a package requires, and what its
//! providers require in turn, can be had from the catalog without a conflict.
//!
//! The check is greedy. For each requirement it takes the best offer and
//! never goes back on that choice, so it may answer "no" where another choice
//! of providers would have done.

use vstd::prelude::*;
use crate::capability::{CapabilityRef, CapabilityView, meets, provided_version, satisfies};
use crate::catalog::{Catalog, CatalogView, PackageView};
use crate::index::{
    CapabilityIndex, ProviderView, lemma_offer_listed, lemma_offer_origin, offer_from, providers,
};
use crate::segment::Relation;
use crate::version::{Version, VersionView, version_relation};

verus! {

/// Why a check gave no answer.
#[derive(Clone, Copy, Debug, PartialEq, Eq, Structural)]
pub enum SolveError {
    /// The catalog holds no package of the name asked for.
    PackageNotFound,
}

/// A position in the catalog as a mathematical integer.
pub open spec fn position(r: Option<usize>) -> Option<int> {
    match r {
        Some(i) => Some(i as int),
        None => None,
    }
}

/// Whether an offer at version `x` is preferred to one at version `y`: it
/// is if `x` is the greater version, and an offer with a version is
/// preferred to one without.
pub open spec fn outranks(x: Option<VersionView>, y: Option<VersionView>) -> bool {
    match (x, y) {
        (Some(a), Some(b)) => version_relation(a, b) == Relation::Greater,
        (Some(_), None) => true,
        (None, _) => false,
    }
}

/// The best among the first `n` offers, by its place in `offers`: of the
/// offers that satisfy `req`, one is kept until a later one outranks it. So
/// where several are equally good the first stands.
pub open spec fn best_offer(offers: Seq<ProviderView>, req: CapabilityView, n: int) -> Option<int>
    decreases n,
{
    if n <= 0 {
        None
    } else {
        let earlier = best_offer(offers, req, n - 1);
        let offer = offers[n - 1];
        if !satisfies(req, offer.version) {
            earlier
        } else {
            match earlier {
                None => Some(n - 1),
                Some(b) => if outranks(offer.version, offers[b].version) {
                    Some(n - 1)
                } else {
                    earlier
                },
            }
        }
    }
}

/// The package chosen to meet requirement `req`, by its position in the
/// catalog: the one that makes the best offer of the capability. `None`
/// where no offer satisfies the requirement.
pub open spec fn best_provider(catalog: CatalogView, req: CapabilityView) -> Option<int> {
    let offers = providers(catalog, req.name);
    match best_offer(offers, req, offers.len() as int) {
        None => None,
        Some(k) => Some(offers[k].package),
    }
}

/// The newest among the first `n` packages that have the name `name`, by its
/// position; of several that are equally new, the first.
pub open spec fn newest_named(packages: Seq<PackageView>, name: Seq<char>, n: int) -> Option<int>
    decreases n,
{
    if n <= 0 {
        None
    } else {
        let earlier = newest_named(packages, name, n - 1);
        if packages[n - 1].name != name {
            earlier
        } else {
            match earlier {
                None => Some(n - 1),
                Some(b) => if version_relation(packages[n - 1].version, packages[b].version)
                    == Relation::Greater {
                    Some(n - 1)
                } else {
                    earlier
                },
            }
        }
    }
}

/// The package that a check of `name` starts from: the newest package of
/// that name.
pub open spec fn root_of(catalog: CatalogView, name: Seq<char>) -> Option<int> {
    newest_named(catalog.packages, name, catalog.packages.len() as int)
}

/// The package at `a` has a requirement for which the package at `b` is
/// chosen.
pub open spec fn needs(catalog: CatalogView, a: int, b: int) -> bool {
    &&& 0 <= a < catalog.packages.len()
    &&& exists|i: int|
        0 <= i < catalog.packages[a].requires.len() && best_provider(
            catalog,
            #[trigger] catalog.packages[a].requires[i],
        ) == Some(b)
}

/// The package at `p` is reached from `root` by `steps` choices of a
/// provider.
pub open spec fn reached_in(catalog: CatalogView, root: int, p: int, steps: nat) -> bool
    decreases steps,
{
    if steps == 0 {
        p == root
    } else {
        exists|q: int|
            reached_in(catalog, root, q, (steps - 1) as nat) && #[trigger] needs(catalog, q, p)
    }
}

/// The package at `p` belongs to the closure of `root`: it is `root` or is
/// chosen for a requirement of a package of the closure.
pub open spec fn reachable(catalog: CatalogView, root: int, p: int) -> bool {
    exists|steps: nat| #[trigger] reached_in(catalog, root, p, steps)
}

/// The package at `p` has a requirement that no offer satisfies.
pub open spec fn unmet(catalog: CatalogView, p: int) -> bool {
    exists|i: int|
        0 <= i < catalog.packages[p].requires.len() && best_provider(
            catalog,
            #[trigger] catalog.packages[p].requires[i],
        ) is None
}

/// Package `p` rules out package `q`: they are not one and the same
/// package, and `q` provides something that `p` conflicts with or obsoletes.
pub open spec fn rules_out(p: PackageView, q: PackageView) -> bool {
    &&& !p.same_identity(q)
    &&& exists|c: int, e: int|
        0 <= c < p.exclusions().len() && 0 <= e < q.effective_provides().len() && meets(
            #[trigger] q.effective_provides()[e],
            #[trigger] p.exclusions()[c],
        )
}

/// No two of the packages marked in `marks` rule each other out.
pub open spec fn peaceful(catalog: CatalogView, marks: Seq<bool>) -> bool {
    forall|p: int, q: int|
        0 <= p < catalog.packages.len() && 0 <= q < catalog.packages.len() && #[trigger] marks[p]
            && #[trigger] marks[q] ==> !rules_out(catalog.packages[p], catalog.packages[q])
}

/// The requirements of the package at `root` can be satisfied: every
/// requirement of every package of its closure finds a provider, and no
/// package of the closure rules out another.
pub open spec fn satisfiable(catalog: CatalogView, root: int) -> bool {
    &&& forall|p: int| #[trigger] reachable(catalog, root, p) ==> !unmet(catalog, p)
    &&& forall|p: int, q: int|
        #[trigger] reachable(catalog, root, p) && #[trigger] reachable(catalog, root, q)
            ==> !rules_out(catalog.packages[p], catalog.packages[q])
}

/// The answer to a check of the package named `name`.
pub open spec fn outcome(catalog: CatalogView, name: Seq<char>) -> Result<bool, SolveError> {
    match root_of(catalog, name) {
        None => Err(SolveError::PackageNotFound),
        Some(root) => Ok(satisfiable(catalog, root)),
    }
}

/// The best offer, where there is one, is one of the offers and satisfies the
/// requirement; there is none only where no offer satisfies it.
pub proof fn lemma_best_offer(offers: Seq<ProviderView>, req: CapabilityView, n: int)
    requires
        0 <= n <= offers.len(),
    ensures
        match best_offer(offers, req, n) {
            None => forall|k: int| 0 <= k < n ==> !satisfies(req, (#[trigger] offers[k]).version),
            Some(b) => 0 <= b < n && satisfies(req, offers[b].version),
        },
    decreases n,
{
    if n > 0 {
        lemma_best_offer(offers, req, n - 1);
    }
}

/// The newest package of a name, where there is one, has that name; there
/// is none only where no package has it.
pub proof fn lemma_newest_named(packages: Seq<PackageView>, name: Seq<char>, n: int)
    requires
        0 <= n <= packages.len(),
    ensures
        match newest_named(packages, name, n) {
            None => forall|k: int| 0 <= k < n ==> (#[trigger] packages[k]).name != name,
            Some(b) => 0 <= b < n && packages[b].name == name,
        },
    decreases n,
{
    if n > 0 {
        lemma_newest_named(packages, name, n - 1);
    }
}

/// A package chosen for a requirement of a package of the closure belongs
/// to the closure.
proof fn lemma_reach_step(catalog: CatalogView, root: int, p: int, q: int)
    requires
        reachable(catalog, root, p),
        needs(catalog, p, q),
    ensures
        reachable(catalog, root, q),
{
    let steps = choose|steps: nat| #[trigger] reached_in(catalog, root, p, steps);
    assert(reached_in(catalog, root, q, steps + 1));
}

/// Every requirement of the package at `p` has a provider, and `marks` holds
/// that provider.
pub open spec fn settled(catalog: CatalogView, marks: Seq<bool>, p: int) -> bool {
    forall|i: int|
        0 <= i < catalog.packages[p].requires.len() ==> settled_at(
            catalog,
            marks,
            #[trigger] catalog.packages[p].requires[i],
        )
}

pub open spec fn settled_at(catalog: CatalogView, marks: Seq<bool>, req: CapabilityView) -> bool {
    best_provider(catalog, req) matches Some(q) && 0 <= q < marks.len() && marks[q]
}

/// Marks that hold the root and, with each package, the providers chosen for
/// it, hold the whole closure.
proof fn lemma_closed_marks_cover(
    catalog: CatalogView,
    marks: Seq<bool>,
    root: int,
    p: int,
    steps: nat,
)
    requires
        marks.len() == catalog.packages.len(),
        0 <= root < marks.len(),
        marks[root],
        forall|q: int| 0 <= q < marks.len() && marks[q] ==> settled(catalog, marks, q),
        reached_in(catalog, root, p, steps),
    ensures
        0 <= p < marks.len() && marks[p],
    decreases steps,
{
    if steps > 0 {
        let q = choose|q: int|
            reached_in(catalog, root, q, (steps - 1) as nat) && #[trigger] needs(catalog, q, p);
        lemma_closed_marks_cover(catalog, marks, root, q, (steps - 1) as nat);
        assert(settled(catalog, marks, q));
        let i = choose|i: int|
            0 <= i < catalog.packages[q].requires.len() && best_provider(
                catalog,
                #[trigger] catalog.packages[q].requires[i],
            ) == Some(p);
        assert(settled_at(catalog, marks, catalog.packages[q].requires[i]));
    }
}

/// How many of the marks are not set.
pub open spec fn unmarked(marks: Seq<bool>) -> nat
    decreases marks.len(),
{
    if marks.len() == 0 {
        0
    } else {
        unmarked(marks.drop_last()) + if marks.last() {
            0nat
        } else {
            1nat
        }
    }
}

proof fn lemma_mark(marks: Seq<bool>, q: int)
    requires
        0 <= q < marks.len(),
        !marks[q],
    ensures
        unmarked(marks.update(q, true)) + 1 == unmarked(marks),
    decreases marks.len(),
{
    if q == marks.len() - 1 {
        assert(marks.update(q, true).drop_last() =~= marks.drop_last());
    } else {
        lemma_mark(marks.drop_last(), q);
        assert(marks.update(q, true).drop_last() =~= marks.drop_last().update(q, true));
    }
}

fn prefers(x: &Option<Version>, y: &Option<Version>) -> (r: bool)
    ensures
        r == outranks(x.deep_view(), y.deep_view()),
{
    match x {
        None => false,
        Some(a) => match y {
            None => true,
            Some(b) => matches!(a.compare(b), Relation::Greater),
        },
    }
}

/// Finds the package that a check of `name` starts from: the newest package
/// of that name, and of several equally new ones the first in the catalog.
pub fn find_root(catalog: &Catalog, name: &str) -> (r: Option<usize>)
    ensures
        position(r) == root_of(catalog@, name@),
        r matches Some(i) ==> i < catalog.packages.len(),
{
    let wanted = name.to_owned();
    let mut best: Option<usize> = None;
    let mut n: usize = 0;
    while n < catalog.packages.len()
        invariant
            n <= catalog.packages.len(),
            wanted@ == name@,
            position(best) == newest_named(catalog@.packages, name@, n as int),
            best matches Some(b) ==> b < n,
        decreases catalog.packages.len() - n,
    {
        let package = &catalog.packages[n];
        assert(catalog@.packages[n as int] == package@);
        if package.name == wanted {
            match best {
                None => {
                    best = Some(n);
                },
                Some(b) => {
                    assert(catalog@.packages[b as int] == catalog.packages[b as int]@);
                    if matches!(
                        package.version.compare(&catalog.packages[b].version),
                        Relation::Greater
                    ) {
                        best = Some(n);
                    }
                },
            }
        }
        n += 1;
    }
    best
}

/// Chooses the provider of requirement `req`: among the offers of the
/// capability that satisfy the requirement, the one at the greatest version,
/// and of several equally good ones the first in the index.
pub fn select_provider(catalog: &Catalog, index: &CapabilityIndex, req: &CapabilityRef) -> (r:
    Option<usize>)
    requires
        index.describes(catalog@),
    ensures
        position(r) == best_provider(catalog@, req@),
        r matches Some(q) ==> q < catalog.packages.len(),
{
    let offers = index.lookup(req.name.as_str());
    let ghost all = providers(catalog@, req@.name);
    assert(index.bucket(req@.name) == all);
    let mut best: Option<usize> = None;
    let mut k: usize = 0;
    while k < offers.len()
        invariant
            k <= offers.len(),
            offers.deep_view() == all,
            position(best) == best_offer(all, req@, k as int),
            best matches Some(b) ==> b < k,
        decreases offers.len() - k,
    {
        let offer = &offers[k];
        assert(offer@ == all[k as int]);
        if req.accepts(&offer.version) {
            match best {
                None => {
                    best = Some(k);
                },
                Some(b) => {
                    assert(offers[b as int]@ == all[b as int]);
                    if prefers(&offer.version, &offers[b].version) {
                        best = Some(k);
                    }
                },
            }
        }
        k += 1;
    }
    match best {
        None => None,
        Some(b) => {
            proof {
                assert(offers[b as int]@ == all[b as int]);
                lemma_offer_origin(catalog@, req@.name, b as int);
            }
            Some(offers[b].package)
        },
    }
}

/// Computes the closure of the package at `root`: the packages chosen, step
/// by step, to provide what it and its providers require. The result marks
/// each package of the catalog that belongs to the closure. It is `None`
/// where a requirement of a package of the closure has no provider.
pub fn closure(catalog: &Catalog, index: &CapabilityIndex, root: usize) -> (r: Option<Vec<bool>>)
    requires
        index.describes(catalog@),
        root < catalog.packages.len(),
    ensures
        match r {
            None => exists|p: int|
                #[trigger] reachable(catalog@, root as int, p) && unmet(catalog@, p),
            Some(marks) => {
                &&& marks@.len() == catalog.packages.len()
                &&& forall|p: int|
                    #[trigger] reachable(catalog@, root as int, p) <==> 0 <= p < marks@.len()
                        && marks@[p]
                &&& forall|p: int| #[trigger] reachable(catalog@, root as int, p) ==> !unmet(
                    catalog@,
                    p,
                )
            },
        },
{
    let n = catalog.packages.len();
    let mut marks: Vec<bool> = Vec::new();
    let mut m: usize = 0;
    while m < n
        invariant
            m <= n,
            marks@.len() == m,
            forall|p: int| 0 <= p < m ==> !marks@[p],
        decreases n - m,
    {
        marks.push(false);
        m += 1;
    }
    marks[root] = true;
    let mut frontier: Vec<usize> = Vec::new();
    frontier.push(root);
    proof {
        assert(reached_in(catalog@, root as int, root as int, 0));
        assert(frontier@[0] == root);
    }
    while frontier.len() > 0
        invariant
            n == catalog.packages.len(),
            marks@.len() == n,
            index.describes(catalog@),
            root < n,
            marks@[root as int],
            forall|p: int| 0 <= p < n && marks@[p] ==> reachable(catalog@, root as int, p),
            forall|k: int|
                0 <= k < frontier@.len() ==> (#[trigger] frontier@[k]) < n && marks@[frontier@[k] as int],
            forall|p: int|
                0 <= p < n && #[trigger] marks@[p] ==> settled(catalog@, marks@, p)
                    || frontier@.contains(p as usize),
        decreases 2 * unmarked(marks@) + frontier@.len(),
    {
        let ghost before = 2 * unmarked(marks@) + frontier@.len();
        let ghost frontier0 = frontier@;
        let p = frontier.pop().unwrap();
        assert(frontier0[frontier0.len() - 1] == p);
        let package = &catalog.packages[p];
        assert(catalog@.packages[p as int] == package@);
        proof {
            assert forall|q: int| 0 <= q < n && #[trigger] marks@[q] implies settled(
                catalog@,
                marks@,
                q,
            ) || frontier@.contains(q as usize) || q == p by {
                if frontier0.contains(q as usize) {
                    let k = choose|k: int| 0 <= k < frontier0.len() && frontier0[k] == q as usize;
                    if k < frontier@.len() {
                        assert(frontier@[k] == q as usize);
                    }
                }
            }
        }
        let mut i: usize = 0;
        while i < package.requires.len()
            invariant
                n == catalog.packages.len(),
                marks@.len() == n,
                index.describes(catalog@),
                root < n,
                p < n,
                marks@[root as int],
                marks@[p as int],
                catalog@.packages[p as int] == package@,
                i <= package.requires.len(),
                forall|q: int| 0 <= q < n && marks@[q] ==> reachable(catalog@, root as int, q),
                forall|k: int|
                0 <= k < frontier@.len() ==> (#[trigger] frontier@[k]) < n && marks@[frontier@[k] as int],
                forall|q: int|
                    0 <= q < n && #[trigger] marks@[q] ==> settled(catalog@, marks@, q)
                        || frontier@.contains(q as usize) || q == p,
                forall|j: int|
                    0 <= j < i ==> settled_at(catalog@, marks@, #[trigger] package@.requires[j]),
                2 * unmarked(marks@) + frontier@.len() < before,
            decreases package.requires.len() - i,
        {
            let req = &package.requires[i];
            assert(package@.requires[i as int] == req@);
            match select_provider(catalog, index, req) {
                None => {
                    proof {
                        assert(best_provider(catalog@, catalog@.packages[p as int].requires[i as int])
                            is None);
                        assert(unmet(catalog@, p as int));
                        assert(reachable(catalog@, root as int, p as int));
                    }
                    return None;
                },
                Some(q) => {
                    proof {
                        assert(best_provider(catalog@, catalog@.packages[p as int].requires[i as int])
                            == Some(q as int));
                        assert(needs(catalog@, p as int, q as int));
                        lemma_reach_step(catalog@, root as int, p as int, q as int);
                    }
                    if !marks[q] {
                        let ghost marks0 = marks@;
                        let ghost frontier1 = frontier@;
                        marks[q] = true;
                        frontier.push(q);
                        proof {
                            lemma_mark(marks0, q as int);
                            assert(marks@ == marks0.update(q as int, true));
                            assert(frontier@[frontier1.len() as int] == q);
                            assert forall|t: int| 0 <= t < n && #[trigger] marks@[t] implies settled(
                                catalog@,
                                marks@,
                                t,
                            ) || frontier@.contains(t as usize) || t == p by {
                                if t == q {
                                } else {
                                    assert(marks0[t]);
                                    if settled(catalog@, marks0, t) {
                                        assert forall|j: int|
                                            0 <= j < catalog@.packages[t].requires.len() implies settled_at(
                                            catalog@,
                                            marks@,
                                            #[trigger] catalog@.packages[t].requires[j],
                                        ) by {
                                            assert(settled_at(
                                                catalog@,
                                                marks0,
                                                catalog@.packages[t].requires[j],
                                            ));
                                        }
                                    } else if frontier1.contains(t as usize) {
                                        let k = choose|k: int|
                                            0 <= k < frontier1.len() && frontier1[k] == t as usize;
                                        assert(frontier@[k] == t as usize);
                                    }
                                }
                            }
                            assert forall|j: int| 0 <= j < i implies settled_at(
                                catalog@,
                                marks@,
                                #[trigger] package@.requires[j],
                            ) by {
                                assert(settled_at(catalog@, marks0, package@.requires[j]));
                            }
                        }
                    }
                },
            }
            i += 1;
        }
        proof {
            assert(settled(catalog@, marks@, p as int));
        }
    }
    proof {
        assert forall|p: int| 0 <= p < n && marks@[p] implies settled(catalog@, marks@, p) by {
            assert(!frontier@.contains(p as usize));
        }
        assert forall|p: int| #[trigger] reachable(catalog@, root as int, p) implies 0 <= p < n
            && marks@[p] && !unmet(catalog@, p) by {
            let steps = choose|steps: nat| #[trigger] reached_in(catalog@, root as int, p, steps);
            lemma_closed_marks_cover(catalog@, marks@, root as int, p, steps);
            assert(settled(catalog@, marks@, p));
            if unmet(catalog@, p) {
                let i = choose|i: int|
                    0 <= i < catalog@.packages[p].requires.len() && best_provider(
                        catalog@,
                        #[trigger] catalog@.packages[p].requires[i],
                    ) is None;
                assert(settled_at(catalog@, marks@, catalog@.packages[p].requires[i]));
            }
        }
    }
    Some(marks)
}


/// Entry `entry` of the conflicts or obsoletes of the package at `p` is met
/// by something that a marked package provides, a package that is not one
/// and the same as the package at `p`.
pub open spec fn hit(catalog: CatalogView, marks: Seq<bool>, p: int, entry: CapabilityView) -> bool {
    exists|q: int, e: int|
        0 <= q < catalog.packages.len() && marks[q] && !catalog.packages[p].same_identity(
            catalog.packages[q],
        ) && 0 <= e < catalog.packages[q].effective_provides().len() && meets(
            #[trigger] catalog.packages[q].effective_provides()[e],
            entry,
        )
}

/// The offer `o` is made by a marked package, not one and the same as the
/// package at `p`, at a version that satisfies `entry`.
spec fn strikes(
    catalog: CatalogView,
    marks: Seq<bool>,
    p: int,
    entry: CapabilityView,
    o: ProviderView,
) -> bool {
    &&& 0 <= o.package < catalog.packages.len()
    &&& marks[o.package]
    &&& !catalog.packages[p].same_identity(catalog.packages[o.package])
    &&& satisfies(entry, o.version)
}

fn hits(
    catalog: &Catalog,
    index: &CapabilityIndex,
    marks: &Vec<bool>,
    p: usize,
    entry: &CapabilityRef,
) -> (r: bool)
    requires
        index.describes(catalog@),
        marks@.len() == catalog.packages.len(),
        p < catalog.packages.len(),
    ensures
        r == hit(catalog@, marks@, p as int, entry@),
{
    let offers = index.lookup(entry.name.as_str());
    let ghost all = providers(catalog@, entry@.name);
    assert(index.bucket(entry@.name) == all);
    let mut k: usize = 0;
    while k < offers.len()
        invariant
            k <= offers.len(),
            offers.deep_view() == all,
            all == providers(catalog@, entry@.name),
            marks@.len() == catalog.packages.len(),
            p < catalog.packages.len(),
            forall|m: int| 0 <= m < k ==> !strikes(catalog@, marks@, p as int, entry@, #[trigger] all[m]),
        decreases offers.len() - k,
    {
        let offer = &offers[k];
        assert(offer@ == all[k as int]);
        proof {
            lemma_offer_origin(catalog@, entry@.name, k as int);
        }
        let q = offer.package;
        assert(catalog@.packages[q as int] == catalog.packages[q as int]@);
        assert(catalog@.packages[p as int] == catalog.packages[p as int]@);
        if marks[q] && !catalog.packages[p].same_identity(&catalog.packages[q]) && entry.accepts(
            &offer.version,
        ) {
            proof {
                let e = choose|e: int| offer_from(catalog@, entry@.name, all[k as int], e);
                assert(meets(catalog@.packages[q as int].effective_provides()[e], entry@));
            }
            return true;
        }
        k += 1;
    }
    proof {
        if hit(catalog@, marks@, p as int, entry@) {
            let (q, e) = choose|q: int, e: int|
                0 <= q < catalog@.packages.len() && marks@[q] && !catalog@.packages[p as int].same_identity(
                    catalog@.packages[q],
                ) && 0 <= e < catalog@.packages[q].effective_provides().len() && meets(
                    #[trigger] catalog@.packages[q].effective_provides()[e],
                    entry@,
                );
            lemma_offer_listed(catalog@, q, e);
            let found = ProviderView {
                package: q,
                version: provided_version(catalog@.packages[q].effective_provides()[e]),
            };
            let m = choose|m: int| 0 <= m < all.len() && #[trigger] all[m] == found;
            assert(strikes(catalog@, marks@, p as int, entry@, all[m]));
        }
    }
    false
}

/// Whether some entry of `list` is hit.
fn any_hits(
    catalog: &Catalog,
    index: &CapabilityIndex,
    marks: &Vec<bool>,
    p: usize,
    list: &Vec<CapabilityRef>,
) -> (r: bool)
    requires
        index.describes(catalog@),
        marks@.len() == catalog.packages.len(),
        p < catalog.packages.len(),
    ensures
        r == exists|c: int|
            0 <= c < list@.len() && hit(catalog@, marks@, p as int, #[trigger] list.deep_view()[c]),
{
    let mut c: usize = 0;
    while c < list.len()
        invariant
            c <= list.len(),
            index.describes(catalog@),
            marks@.len() == catalog.packages.len(),
            p < catalog.packages.len(),
            forall|d: int|
                0 <= d < c ==> !hit(catalog@, marks@, p as int, #[trigger] list.deep_view()[d]),
        decreases list.len() - c,
    {
        assert(list.deep_view()[c as int] == list[c as int]@);
        if hits(catalog, index, marks, p, &list[c]) {
            return true;
        }
        c += 1;
    }
    false
}

/// Whether the marked packages are free of conflicts: no marked package
/// provides what another one conflicts with or obsoletes.
pub fn consistent(catalog: &Catalog, index: &CapabilityIndex, marks: &Vec<bool>) -> (r: bool)
    requires
        index.describes(catalog@),
        marks@.len() == catalog.packages.len(),
    ensures
        r == peaceful(catalog@, marks@),
{
    let n = catalog.packages.len();
    let mut p: usize = 0;
    while p < n
        invariant
            p <= n,
            n == catalog.packages.len(),
            index.describes(catalog@),
            marks@.len() == n,
            forall|a: int, b: int|
                0 <= a < p && 0 <= b < n && #[trigger] marks@[a] && #[trigger] marks@[b]
                    ==> !rules_out(catalog@.packages[a], catalog@.packages[b]),
        decreases n - p,
    {
        if marks[p] {
            let package = &catalog.packages[p];
            let ghost view = catalog@.packages[p as int];
            assert(view == package@);
            let clash = any_hits(catalog, index, marks, p, &package.conflicts) || any_hits(
                catalog,
                index,
                marks,
                p,
                &package.obsoletes,
            );
            if clash {
                proof {
                    let entry = if exists|c: int|
                        0 <= c < view.conflicts.len() && hit(
                            catalog@,
                            marks@,
                            p as int,
                            #[trigger] view.conflicts[c],
                        ) {
                        let c = choose|c: int|
                            0 <= c < view.conflicts.len() && hit(
                                catalog@,
                                marks@,
                                p as int,
                                #[trigger] view.conflicts[c],
                            );
                        assert(view.exclusions()[c] == view.conflicts[c]);
                        c
                    } else {
                        let c = choose|c: int|
                            0 <= c < view.obsoletes.len() && hit(
                                catalog@,
                                marks@,
                                p as int,
                                #[trigger] view.obsoletes[c],
                            );
                        assert(view.exclusions()[view.conflicts.len() + c] == view.obsoletes[c]);
                        view.conflicts.len() + c
                    };
                    let (q, e) = choose|q: int, e: int|
                        0 <= q < catalog@.packages.len() && marks@[q] && !view.same_identity(
                            catalog@.packages[q],
                        ) && 0 <= e < catalog@.packages[q].effective_provides().len() && meets(
                            #[trigger] catalog@.packages[q].effective_provides()[e],
                            view.exclusions()[entry],
                        );
                    assert(rules_out(view, catalog@.packages[q]));
                    assert(marks@[p as int] && marks@[q]);
                }
                return false;
            }
            proof {
                assert forall|b: int| 0 <= b < n && #[trigger] marks@[b] implies !rules_out(
                    view,
                    catalog@.packages[b],
                ) by {
                    if rules_out(view, catalog@.packages[b]) {
                        let (c, e) = choose|c: int, e: int|
                            0 <= c < view.exclusions().len() && 0 <= e
                                < catalog@.packages[b].effective_provides().len() && meets(
                                #[trigger] catalog@.packages[b].effective_provides()[e],
                                #[trigger] view.exclusions()[c],
                            );
                        if c < view.conflicts.len() {
                            assert(view.exclusions()[c] == view.conflicts[c]);
                            assert(hit(catalog@, marks@, p as int, view.conflicts[c]));
                        } else {
                            let d = c - view.conflicts.len();
                            assert(view.exclusions()[c] == view.obsoletes[d]);
                            assert(hit(catalog@, marks@, p as int, view.obsoletes[d]));
                        }
                    }
                }
            }
        }
        p += 1;
    }
    true
}

/// Checks whether the requirements of the newest package named
/// `package_name` can be satisfied from the catalog. `index` is the index of
/// the catalog.
///
/// The answer is `Err(PackageNotFound)` where the catalog holds no package
/// of that name. Else it is `Ok(true)` where every requirement of the
/// closure of that package finds a provider and no package of the closure
/// rules out another, and `Ok(false)` where not. It depends on the catalog
/// and the name alone.
pub fn check(catalog: &Catalog, index: &CapabilityIndex, package_name: &str) -> (r: Result<
    bool,
    SolveError,
>)
    requires
        index.describes(catalog@),
    ensures
        r == outcome(catalog@, package_name@),
{
    match find_root(catalog, package_name) {
        None => Err(SolveError::PackageNotFound),
        Some(root) => match closure(catalog, index, root) {
            None => Ok(false),
            Some(marks) => {
                let r = consistent(catalog, index, &marks);
                proof {
                    if r {
                        assert forall|p: int, q: int|
                            #[trigger] reachable(catalog@, root as int, p) && #[trigger] reachable(
                                catalog@,
                                root as int,
                                q,
                            ) implies !rules_out(catalog@.packages[p], catalog@.packages[q]) by {
                            assert(marks@[p] && marks@[q]);
                        }
                    } else {
                        let (p, q) = choose|p: int, q: int|
                            0 <= p < catalog@.packages.len() && 0 <= q < catalog@.packages.len()
                                && #[trigger] marks@[p] && #[trigger] marks@[q] && rules_out(
                                catalog@.packages[p],
                                catalog@.packages[q],
                            );
                        assert(reachable(catalog@, root as int, p));
                        assert(reachable(catalog@, root as int, q));
                    }
                }
                Ok(r)
            },
        },
    }
}

/// Checks whether the requirements of the newest package named
/// `package_name` can be satisfied from the catalog, as [`check`] does, with
/// an index built for this one question.
pub fn check_package_satisfiability_in_repo(catalog: &Catalog, package_name: &str) -> (r: Result<
    bool,
    SolveError,
>)
    ensures
        r == outcome(catalog@, package_name@),
{
    let index = CapabilityIndex::build(catalog);
    check(catalog, &index, package_name)
}

} // verus!

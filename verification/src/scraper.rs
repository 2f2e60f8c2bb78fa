//! The scrape engine: resolving the watched inventory from the
//! configuration and the discovery command output, and computing the
//! gauge writes of one scrape pass from the query command output.

use vstd::prelude::*;
use crate::config::{Config, Dataset, Pool, Snapshot};
use crate::pattern::{CompiledPattern, regex_compiles};
use crate::stats::{
    aggregate_snapshots, aggregate_spec, capacity_spec, label_kv_view, parse_pool_line,
    pool_stats_spec, read_dataset_stats, PoolStats, ScrapeError,
};
use crate::strmap::StrMap;

verus! {

broadcast use vstd::map::group_map_axioms, vstd::set::group_set_axioms;

// ---------- views of the configuration ----------

/// Each pattern definition as `(name, match string)`.
pub open spec fn snap_views(ss: Seq<Snapshot>) -> Seq<(Seq<char>, Seq<char>)> {
    ss.map_values(|s: Snapshot| (s.name@, s.match_string@))
}

/// Each dataset entry as `(name, watched pattern names, recurse)`.
pub open spec fn entry_views(ds: Seq<Dataset>) -> Seq<(Seq<char>, Seq<Seq<char>>, bool)> {
    ds.map_values(|d: Dataset| (d.name@, d.snapshots.deep_view(), d.recurse))
}

pub open spec fn pool_views(ps: Seq<Pool>) -> Seq<Seq<char>> {
    ps.map_values(|p: Pool| p.name@)
}

// ---------- the resolution algorithm, as spec functions ----------

pub open spec fn patterns_ok(snaps: Seq<(Seq<char>, Seq<char>)>) -> bool {
    forall|i: int| 0 <= i < snaps.len() ==> regex_compiles(#[trigger] snaps[i].1)
}

/// Pattern definitions folded into a name-to-match-string map; a later
/// definition of the same name overwrites an earlier one.
pub open spec fn compiled_map(
    snaps: Seq<(Seq<char>, Seq<char>)>,
    acc: Map<Seq<char>, Seq<char>>,
) -> Map<Seq<char>, Seq<char>>
    decreases snaps.len(),
{
    if snaps.len() == 0 {
        acc
    } else {
        compiled_map(snaps.drop_first(), acc.insert(snaps[0].0, snaps[0].1))
    }
}

/// The first name in `names` that is not a defined pattern.
pub open spec fn first_missing(names: Seq<Seq<char>>, dom: Set<Seq<char>>) -> Option<Seq<char>>
    decreases names.len(),
{
    if names.len() == 0 {
        None
    } else if !dom.contains(names[0]) {
        Some(names[0])
    } else {
        first_missing(names.drop_first(), dom)
    }
}

pub open spec fn all_present(names: Seq<Seq<char>>, dom: Set<Seq<char>>) -> bool {
    forall|j: int| 0 <= j < names.len() ==> dom.contains(#[trigger] names[j])
}

/// Discovered dataset names seeded with an empty watched list.
pub open spec fn seed_datasets(
    lines: Seq<Seq<char>>,
    acc: Map<Seq<char>, Seq<Seq<char>>>,
) -> Map<Seq<char>, Seq<Seq<char>>>
    decreases lines.len(),
{
    if lines.len() == 0 {
        acc
    } else {
        seed_datasets(lines.drop_first(), acc.insert(lines[0], Seq::empty()))
    }
}

/// Set or replace the watched list of every name in `lines`.
pub open spec fn assign_all(
    lines: Seq<Seq<char>>,
    pats: Seq<Seq<char>>,
    acc: Map<Seq<char>, Seq<Seq<char>>>,
) -> Map<Seq<char>, Seq<Seq<char>>>
    decreases lines.len(),
{
    if lines.len() == 0 {
        acc
    } else {
        assign_all(lines.drop_first(), pats, acc.insert(lines[0], pats))
    }
}

/// How many entries consume a recursive-listing answer.
pub open spec fn count_recurse(entries: Seq<(Seq<char>, Seq<Seq<char>>, bool)>) -> int
    decreases entries.len(),
{
    if entries.len() == 0 {
        0
    } else {
        (if entries[0].2 {
            1int
        } else {
            0int
        }) + count_recurse(entries.drop_first())
    }
}

/// Fold the explicit dataset entries over the seeded map.  Every
/// watched name must be a defined pattern, else the first missing name
/// is the error.  A recursive entry first assigns its list to every
/// discovered child, then to its own name, so the entry's own name is
/// never left out.
pub open spec fn resolve_datasets(
    entries: Seq<(Seq<char>, Seq<Seq<char>>, bool)>,
    answers: Seq<Seq<Seq<char>>>,
    dom: Set<Seq<char>>,
    acc: Map<Seq<char>, Seq<Seq<char>>>,
) -> Result<Map<Seq<char>, Seq<Seq<char>>>, Seq<char>>
    decreases entries.len(),
{
    if entries.len() == 0 {
        Ok(acc)
    } else {
        match first_missing(entries[0].1, dom) {
            Some(n) => Err(n),
            None => if entries[0].2 {
                resolve_datasets(
                    entries.drop_first(),
                    answers.drop_first(),
                    dom,
                    assign_all(answers[0], entries[0].1, acc).insert(entries[0].0, entries[0].1),
                )
            } else {
                resolve_datasets(
                    entries.drop_first(),
                    answers,
                    dom,
                    acc.insert(entries[0].0, entries[0].1),
                )
            },
        }
    }
}

// ---------- views of maps with opaque or owned values ----------

/// A compiled-pattern map seen as name to pattern text.
pub open spec fn sources_view(m: Map<Seq<char>, CompiledPattern>) -> Map<Seq<char>, Seq<char>> {
    Map::new(|k: Seq<char>| m.dom().contains(k), |k: Seq<char>| m[k].spec_source())
}

/// A watched-list map seen as name to list of pattern names.
pub open spec fn lists_view(m: Map<Seq<char>, Vec<String>>) -> Map<Seq<char>, Seq<Seq<char>>> {
    Map::new(|k: Seq<char>| m.dom().contains(k), |k: Seq<char>| m[k].deep_view())
}

proof fn lemma_sources_view_insert(m: Map<Seq<char>, CompiledPattern>, k: Seq<char>, p: CompiledPattern)
    ensures
        sources_view(m.insert(k, p)) == sources_view(m).insert(k, p.spec_source()),
{
    assert(sources_view(m.insert(k, p)) =~= sources_view(m).insert(k, p.spec_source()));
}

proof fn lemma_lists_view_insert(m: Map<Seq<char>, Vec<String>>, k: Seq<char>, v: Vec<String>)
    ensures
        lists_view(m.insert(k, v)) == lists_view(m).insert(k, v.deep_view()),
{
    assert(lists_view(m.insert(k, v)) =~= lists_view(m).insert(k, v.deep_view()));
}

// ---------- helper lemmas ----------

proof fn lemma_first_missing_none(names: Seq<Seq<char>>, dom: Set<Seq<char>>)
    requires
        first_missing(names, dom) is None,
    ensures
        all_present(names, dom),
    decreases names.len(),
{
    if names.len() > 0 {
        lemma_first_missing_none(names.drop_first(), dom);
        assert forall|j: int| 0 <= j < names.len() implies dom.contains(#[trigger] names[j]) by {
            if j > 0 {
                assert(names.drop_first()[j - 1] == names[j]);
            }
        }
    }
}

proof fn lemma_all_present_first_missing(names: Seq<Seq<char>>, dom: Set<Seq<char>>)
    requires
        all_present(names, dom),
    ensures
        first_missing(names, dom) is None,
    decreases names.len(),
{
    if names.len() > 0 {
        assert(all_present(names.drop_first(), dom));
        lemma_all_present_first_missing(names.drop_first(), dom);
    }
}

proof fn lemma_assign_all_present(
    lines: Seq<Seq<char>>,
    pats: Seq<Seq<char>>,
    acc: Map<Seq<char>, Seq<Seq<char>>>,
    dom: Set<Seq<char>>,
)
    requires
        all_present(pats, dom),
        forall|k: Seq<char>| acc.dom().contains(k) ==> all_present(#[trigger] acc[k], dom),
    ensures
        forall|k: Seq<char>|
            assign_all(lines, pats, acc).dom().contains(k) ==> all_present(
                #[trigger] assign_all(lines, pats, acc)[k],
                dom,
            ),
    decreases lines.len(),
{
    if lines.len() > 0 {
        let acc2 = acc.insert(lines[0], pats);
        assert(forall|k: Seq<char>| acc2.dom().contains(k) ==> all_present(#[trigger] acc2[k], dom));
        lemma_assign_all_present(lines.drop_first(), pats, acc2, dom);
        assert(assign_all(lines, pats, acc) == assign_all(lines.drop_first(), pats, acc2));
        assert forall|k: Seq<char>|
            assign_all(lines, pats, acc).dom().contains(k) implies all_present(
            #[trigger] assign_all(lines, pats, acc)[k],
            dom,
        ) by {
            assert(all_present(assign_all(lines.drop_first(), pats, acc2)[k], dom));
        }
    }
}

proof fn lemma_seed_all_present(
    lines: Seq<Seq<char>>,
    acc: Map<Seq<char>, Seq<Seq<char>>>,
    dom: Set<Seq<char>>,
)
    requires
        forall|k: Seq<char>| acc.dom().contains(k) ==> all_present(#[trigger] acc[k], dom),
    ensures
        forall|k: Seq<char>|
            seed_datasets(lines, acc).dom().contains(k) ==> all_present(
                #[trigger] seed_datasets(lines, acc)[k],
                dom,
            ),
    decreases lines.len(),
{
    if lines.len() > 0 {
        let acc2 = acc.insert(lines[0], Seq::empty());
        assert(all_present(Seq::empty(), dom));
        assert(forall|k: Seq<char>| acc2.dom().contains(k) ==> all_present(#[trigger] acc2[k], dom));
        lemma_seed_all_present(lines.drop_first(), acc2, dom);
        assert(seed_datasets(lines, acc) == seed_datasets(lines.drop_first(), acc2));
        assert forall|k: Seq<char>|
            seed_datasets(lines, acc).dom().contains(k) implies all_present(
            #[trigger] seed_datasets(lines, acc)[k],
            dom,
        ) by {
            assert(all_present(seed_datasets(lines.drop_first(), acc2)[k], dom));
        }
    }
}

proof fn lemma_resolve_all_present(
    entries: Seq<(Seq<char>, Seq<Seq<char>>, bool)>,
    answers: Seq<Seq<Seq<char>>>,
    dom: Set<Seq<char>>,
    acc: Map<Seq<char>, Seq<Seq<char>>>,
    key: Seq<char>,
)
    requires
        forall|k: Seq<char>| acc.dom().contains(k) ==> all_present(#[trigger] acc[k], dom),
        resolve_datasets(entries, answers, dom, acc) is Ok,
    ensures
        resolve_datasets(entries, answers, dom, acc) matches Ok(m) ==> (m.dom().contains(key)
            ==> all_present(m[key], dom)),
    decreases entries.len(),
{
    if entries.len() > 0 {
        match first_missing(entries[0].1, dom) {
            Some(_) => {},
            None => {
                lemma_first_missing_none(entries[0].1, dom);
                if entries[0].2 {
                    let mid = assign_all(answers[0], entries[0].1, acc);
                    lemma_assign_all_present(answers[0], entries[0].1, acc, dom);
                    let acc2 = mid.insert(entries[0].0, entries[0].1);
                    assert(forall|k: Seq<char>|
                        acc2.dom().contains(k) ==> all_present(#[trigger] acc2[k], dom));
                    lemma_resolve_all_present(
                        entries.drop_first(),
                        answers.drop_first(),
                        dom,
                        acc2,
                        key,
                    );
                    assert(resolve_datasets(entries, answers, dom, acc) == resolve_datasets(
                        entries.drop_first(),
                        answers.drop_first(),
                        dom,
                        acc2,
                    ));
                } else {
                    let acc2 = acc.insert(entries[0].0, entries[0].1);
                    assert(forall|k: Seq<char>|
                        acc2.dom().contains(k) ==> all_present(#[trigger] acc2[k], dom));
                    lemma_resolve_all_present(entries.drop_first(), answers, dom, acc2, key);
                    assert(resolve_datasets(entries, answers, dom, acc) == resolve_datasets(
                        entries.drop_first(),
                        answers,
                        dom,
                        acc2,
                    ));
                }
            },
        }
    }
}

/// Assigning a watched list to discovered names binds each of them and
/// leaves every other binding alone.
proof fn lemma_assign_all_at(
    lines: Seq<Seq<char>>,
    pats: Seq<Seq<char>>,
    acc: Map<Seq<char>, Seq<Seq<char>>>,
    c: Seq<char>,
)
    ensures
        lines.contains(c) ==> assign_all(lines, pats, acc).dom().contains(c) && assign_all(
            lines,
            pats,
            acc,
        )[c] == pats,
        !lines.contains(c) ==> assign_all(lines, pats, acc).dom().contains(c)
            == acc.dom().contains(c) && (acc.dom().contains(c) ==> assign_all(lines, pats, acc)[c]
            == acc[c]),
    decreases lines.len(),
{
    if lines.len() == 0 {
        assert(assign_all(lines, pats, acc) == acc);
        assert(!lines.contains(c));
    } else {
        let df = lines.drop_first();
        let acc2 = acc.insert(lines[0], pats);
        lemma_assign_all_at(df, pats, acc2, c);
        assert(assign_all(lines, pats, acc) == assign_all(df, pats, acc2));
        if lines.contains(c) {
            let j = choose|j: int| 0 <= j < lines.len() && lines[j] == c;
            if j > 0 {
                assert(df[j - 1] == c);
                assert(df.contains(c));
            }
            if df.contains(c) {
                assert(assign_all(df, pats, acc2)[c] == pats);
            } else {
                assert(c == lines[0]);
                assert(acc2.dom().contains(c));
                assert(assign_all(df, pats, acc2)[c] == acc2[c]);
                assert(acc2[c] == pats);
            }
        } else {
            assert(!df.contains(c)) by {
                if df.contains(c) {
                    let j = choose|j: int| 0 <= j < df.len() && df[j] == c;
                    assert(lines[j + 1] == c);
                }
            }
            assert(c != lines[0]) by {
                assert(lines[0] == lines[0int]);
                if c == lines[0] {
                    assert(lines.contains(c));
                }
            }
            assert(assign_all(df, pats, acc2).dom().contains(c) == acc2.dom().contains(c));
            assert(acc2.dom().contains(c) == acc.dom().contains(c));
            if acc.dom().contains(c) {
                assert(assign_all(df, pats, acc2)[c] == acc2[c]);
                assert(acc2[c] == acc[c]);
            }
        }
    }
}

// ---------- the scraper ----------

/// The resolved inventory: which datasets are watched against which
/// patterns, which pools are watched, and the compiled patterns.
pub struct Scraper {
    datasets: StrMap<Vec<String>>,
    pools: StrMap<Pool>,
    snapshots: StrMap<CompiledPattern>,
}

impl Scraper {
    pub closed spec fn wf(&self) -> bool {
        self.datasets.wf() && self.pools.wf() && self.snapshots.wf()
    }

    /// Dataset name to the names of its watched patterns.
    pub closed spec fn datasets_view(&self) -> Map<Seq<char>, Seq<Seq<char>>> {
        lists_view(self.datasets@)
    }

    /// Pattern name to pattern text.
    pub closed spec fn patterns_view(&self) -> Map<Seq<char>, Seq<char>> {
        sources_view(self.snapshots@)
    }

    /// The watched pool names.
    pub closed spec fn pools_view(&self) -> Set<Seq<char>> {
        self.pools@.dom()
    }

    /// The datasets in iteration order, each with its watched names.
    pub closed spec fn datasets_seq(&self) -> Seq<(Seq<char>, Seq<Seq<char>>)> {
        self.datasets.kv().map_values(|p: (Seq<char>, Vec<String>)| (p.0, p.1.deep_view()))
    }

    /// The pools in iteration order.
    pub closed spec fn pools_seq(&self) -> Seq<Seq<char>> {
        self.pools.kv().map_values(|p: (Seq<char>, Pool)| p.0)
    }

    /// The listed datasets are exactly the bindings of `datasets_view`.
    pub proof fn lemma_datasets_seq_view(&self, i: int)
        requires
            self.wf(),
            0 <= i < self.datasets_seq().len(),
        ensures
            self.datasets_view().dom().contains(self.datasets_seq()[i].0),
            self.datasets_view()[self.datasets_seq()[i].0] == self.datasets_seq()[i].1,
    {
        self.datasets.lemma_kv_in_view(i);
    }

    /// Resolve the inventory.  `pool_lines` and `dataset_lines` are the
    /// discovery command outputs (present exactly when the matching
    /// flag is set); `recurse_lines` holds one answer per recursive
    /// entry, in entry order.
    #[verifier::loop_isolation(false)]
    pub fn from_config(
        config: Config,
        pool_lines: Option<Vec<String>>,
        dataset_lines: Option<Vec<String>>,
        recurse_lines: Vec<Vec<String>>,
    ) -> (r: Result<Scraper, ScrapeError>)
        requires
            config.all_pools <==> pool_lines is Some,
            config.all_datasets <==> dataset_lines is Some,
            recurse_lines.deep_view().len() == count_recurse(entry_views(config.datasets@)),
        ensures
            ({
                let sv = snap_views(config.snapshots@);
                let pmap = compiled_map(sv, Map::empty());
                let pbase: Seq<Seq<char>> = if config.all_pools {
                    pool_lines->0.deep_view()
                } else {
                    Seq::empty()
                };
                let dbase: Seq<Seq<char>> = if config.all_datasets {
                    dataset_lines->0.deep_view()
                } else {
                    Seq::empty()
                };
                let resolved = resolve_datasets(
                    entry_views(config.datasets@),
                    recurse_lines.deep_view(),
                    pmap.dom(),
                    seed_datasets(dbase, Map::empty()),
                );
                match r {
                    Ok(s) => {
                        &&& s.wf()
                        &&& patterns_ok(sv)
                        &&& s.patterns_view() == pmap
                        &&& forall|k: Seq<char>|
                            #[trigger] s.pools_view().contains(k) <==> (pbase.contains(k)
                                || pool_views(config.pools@).contains(k))
                        &&& resolved == Ok::<_, Seq<char>>(s.datasets_view())
                        &&& forall|k: Seq<char>|
                            s.datasets_view().dom().contains(k) ==> all_present(
                                #[trigger] s.datasets_view()[k],
                                s.patterns_view().dom(),
                            )
                    },
                    Err(e) => {
                        ||| (e == ScrapeError::BadPattern && !patterns_ok(sv))
                        ||| {
                            &&& patterns_ok(sv)
                            &&& e matches ScrapeError::UnknownPattern(n)
                            &&& resolved matches Err(m)
                            &&& n@ == m
                        }
                    },
                }
            }),
    {
        let ghost sv = snap_views(config.snapshots@);
        let ghost pmap = compiled_map(sv, Map::<Seq<char>, Seq<char>>::empty());

        // Compile every configured pattern.
        let mut snapshots: StrMap<CompiledPattern> = StrMap::new();
        let ns = config.snapshots.len();
        let mut i: usize = 0;
        proof {
            assert(sources_view(snapshots@) =~= Map::<Seq<char>, Seq<char>>::empty());
            assert(sv.skip(0) =~= sv);
        }
        while i < ns
            invariant
                0 <= i <= ns,
                sv.len() == ns,
                snapshots.wf(),
                forall|j: int| 0 <= j < i ==> regex_compiles(#[trigger] sv[j].1),
                pmap == compiled_map(sv.skip(i as int), sources_view(snapshots@)),
            decreases ns - i,
        {
            let compiled = match CompiledPattern::compile(config.snapshots[i].match_string.as_str()) {
                Ok(p) => p,
                Err(_) => {
                    proof {
                        assert(sv[i as int].1 == config.snapshots@[i as int].match_string@);
                        assert(!regex_compiles(sv[i as int].1));
                        assert(!patterns_ok(sv));
                    }
                    return Err(ScrapeError::BadPattern);
                },
            };
            let ghost m0 = snapshots@;
            let name = config.snapshots[i].name.clone();
            snapshots.insert(name, compiled);
            proof {
                lemma_sources_view_insert(m0, config.snapshots@[i as int].name@, compiled);
                assert(sv.skip(i as int)[0] == sv[i as int]);
                assert(sv.skip(i as int).drop_first() =~= sv.skip(i as int + 1));
            }
            i += 1;
        }
        let ghost dom = pmap.dom();
        proof {
            assert(sv.skip(ns as int) =~= Seq::<(Seq<char>, Seq<char>)>::empty());
            assert(sources_view(snapshots@) == pmap);
            assert(patterns_ok(sv));
            assert(sources_view(snapshots@).dom() =~= snapshots@.dom());
        }

        // Seed and override the pool map.
        let ghost pbase: Seq<Seq<char>> = if config.all_pools {
            pool_lines->0.deep_view()
        } else {
            Seq::empty()
        };
        let mut pools: StrMap<Pool> = StrMap::new();
        match &pool_lines {
            Some(lines) => {
                let nl = lines.len();
                let mut k: usize = 0;
                while k < nl
                    invariant
                        0 <= k <= nl,
                        nl == lines@.len(),
                        pbase.len() == nl,
                        pools.wf(),
                        forall|key: Seq<char>|
                            #[trigger] pools@.dom().contains(key) <==> exists|j: int|
                                0 <= j < k && pbase[j] == key,
                    decreases nl - k,
                {
                    let line = lines[k].clone();
                    pools.insert(line.clone(), Pool { name: line });
                    proof {
                        assert(pbase[k as int] == lines@[k as int]@);
                    }
                    k += 1;
                }
            },
            None => {},
        }
        let np = config.pools.len();
        let mut k: usize = 0;
        while k < np
            invariant
                0 <= k <= np,
                np == config.pools@.len(),
                pools.wf(),
                forall|key: Seq<char>|
                    #[trigger] pools@.dom().contains(key) <==> (pbase.contains(key) || exists|j: int|
                        0 <= j < k && pool_views(config.pools@)[j] == key),
            decreases np - k,
        {
            let name = config.pools[k].name.clone();
            pools.insert(name.clone(), Pool { name });
            proof {
                assert(pool_views(config.pools@)[k as int] == config.pools@[k as int].name@);
            }
            k += 1;
        }

        // Seed the dataset map from discovery.
        let ghost dbase: Seq<Seq<char>> = if config.all_datasets {
            dataset_lines->0.deep_view()
        } else {
            Seq::empty()
        };
        let ghost seeded = seed_datasets(dbase, Map::<Seq<char>, Seq<Seq<char>>>::empty());
        let mut datasets: StrMap<Vec<String>> = StrMap::new();
        proof {
            assert(lists_view(datasets@) =~= Map::<Seq<char>, Seq<Seq<char>>>::empty());
        }
        match &dataset_lines {
            Some(lines) => {
                let nl = lines.len();
                let mut k: usize = 0;
                proof {
                    assert(dbase.skip(0) =~= dbase);
                }
                while k < nl
                    invariant
                        0 <= k <= nl,
                        nl == lines@.len(),
                        dbase.len() == nl,
                        datasets.wf(),
                        seeded == seed_datasets(dbase.skip(k as int), lists_view(datasets@)),
                    decreases nl - k,
                {
                    let ghost m0 = datasets@;
                    let empty_list: Vec<String> = Vec::new();
                    datasets.insert(lines[k].clone(), empty_list);
                    proof {
                        lemma_lists_view_insert(m0, dbase[k as int], empty_list);
                        assert(empty_list.deep_view() =~= Seq::<Seq<char>>::empty());
                        assert(dbase.skip(k as int)[0] == dbase[k as int]);
                        assert(dbase.skip(k as int).drop_first() =~= dbase.skip(k as int + 1));
                    }
                    k += 1;
                }
                proof {
                    assert(dbase.skip(nl as int) =~= Seq::<Seq<char>>::empty());
                    assert(seeded == lists_view(datasets@));
                }
            },
            None => {},
        }

        // Fold in the explicit dataset entries.
        let ghost entries = entry_views(config.datasets@);
        let ghost ranswers = recurse_lines.deep_view();
        let ghost resolved = resolve_datasets(entries, ranswers, dom, seeded);
        let nr = recurse_lines.len();
        proof {
            assert(ranswers.len() == nr);
        }
        let nd = config.datasets.len();
        let mut di: usize = 0;
        let mut ridx: usize = 0;
        proof {
            assert(entries.skip(0) =~= entries);
            assert(ranswers.skip(0) =~= ranswers);
        }
        while di < nd
            invariant
                0 <= di <= nd,
                entries.len() == nd,
                0 <= ridx <= ranswers.len(),
                datasets.wf(),
                count_recurse(entries.skip(di as int)) == ranswers.len() - ridx,
                resolved == resolve_datasets(
                    entries.skip(di as int),
                    ranswers.skip(ridx as int),
                    dom,
                    lists_view(datasets@),
                ),
            decreases nd - di,
        {
            let ghost entry = entries[di as int];
            proof {
                assert(entries.skip(di as int)[0] == entry);
                assert(entries.skip(di as int).drop_first() =~= entries.skip(di as int + 1));
                assert(entry.0 == config.datasets@[di as int].name@);
                assert(entry.1 == config.datasets@[di as int].snapshots.deep_view());
                assert(entry.2 == config.datasets@[di as int].recurse);
            }
            // Validate every referenced pattern name.
            let nn = config.datasets[di].snapshots.len();
            let mut j: usize = 0;
            let ghost names = entry.1;
            proof {
                assert(names.skip(0) =~= names);
            }
            while j < nn
                invariant
                    0 <= j <= nn,
                    names.len() == nn,
                    first_missing(names, dom) == first_missing(names.skip(j as int), dom),
                decreases nn - j,
            {
                let nm = &config.datasets[di].snapshots[j];
                if !snapshots.contains_key(nm.as_str()) {
                    proof {
                        assert(sources_view(snapshots@).dom() =~= snapshots@.dom());
                        assert(names.skip(j as int)[0] == names[j as int]);
                        assert(names[j as int] == nm@);
                        assert(first_missing(names, dom) == Some(nm@));
                        assert(resolved == Err::<Map<Seq<char>, Seq<Seq<char>>>, _>(nm@));
                    }
                    return Err(ScrapeError::UnknownPattern(nm.clone()));
                }
                proof {
                    assert(sources_view(snapshots@).dom() =~= snapshots@.dom());
                    assert(dom.contains(names.skip(j as int)[0]));
                    assert(names.skip(j as int).drop_first() =~= names.skip(j as int + 1));
                }
                j += 1;
            }
            proof {
                assert(names.skip(nn as int) =~= Seq::<Seq<char>>::empty());
                assert(first_missing(names, dom) is None);
            }
            // Recursive expansion, then the entry's own name.
            if config.datasets[di].recurse {
                proof {
                    assert(count_recurse(entries.skip(di as int)) == 1 + count_recurse(
                        entries.skip(di as int + 1),
                    ));
                    lemma_count_recurse_nonneg(entries.skip(di as int + 1));
                    assert(ridx < nr);
                }
                let lines = &recurse_lines[ridx];
                let ghost lview = ranswers[ridx as int];
                let ghost astart = lists_view(datasets@);
                let nl = lines.len();
                let mut k: usize = 0;
                proof {
                    assert(lview == lines.deep_view());
                    assert(lview.skip(0) =~= lview);
                    assert(ranswers.skip(ridx as int)[0] == lview);
                    assert(ranswers.skip(ridx as int).drop_first() =~= ranswers.skip(
                        ridx as int + 1,
                    ));
                }
                while k < nl
                    invariant
                        0 <= k <= nl,
                        nl == lines@.len(),
                        lview.len() == nl,
                        datasets.wf(),
                        assign_all(lview, names, astart) == assign_all(
                            lview.skip(k as int),
                            names,
                            lists_view(datasets@),
                        ),
                    decreases nl - k,
                {
                    let ghost m0 = datasets@;
                    let watched = clone_string_vec(&config.datasets[di].snapshots);
                    datasets.insert(lines[k].clone(), watched);
                    proof {
                        lemma_lists_view_insert(m0, lview[k as int], watched);
                        assert(watched.deep_view() == names);
                        assert(lview.skip(k as int)[0] == lview[k as int]);
                        assert(lview.skip(k as int).drop_first() =~= lview.skip(k as int + 1));
                    }
                    k += 1;
                }
                proof {
                    assert(lview.skip(nl as int) =~= Seq::<Seq<char>>::empty());
                    assert(assign_all(lview, names, astart) == lists_view(datasets@));
                }
                ridx += 1;
            } else {
                proof {
                    assert(count_recurse(entries.skip(di as int)) == count_recurse(
                        entries.skip(di as int + 1),
                    ));
                }
            }
            let ghost m0 = datasets@;
            let watched = clone_string_vec(&config.datasets[di].snapshots);
            let own_name = config.datasets[di].name.clone();
            datasets.insert(own_name, watched);
            proof {
                lemma_lists_view_insert(m0, entry.0, watched);
                assert(watched.deep_view() == names);
                assert(entry.0 == config.datasets@[di as int].name@);
            }
            di += 1;
        }
        proof {
            assert(entries.skip(nd as int) =~= Seq::<(Seq<char>, Seq<Seq<char>>, bool)>::empty());
            assert(resolved == Ok::<_, Seq<char>>(lists_view(datasets@)));
        }

        let scraper = Scraper { datasets, pools, snapshots };
        proof {
            lemma_seed_all_present(dbase, Map::<Seq<char>, Seq<Seq<char>>>::empty(), dom);
            assert(resolved == Ok::<_, Seq<char>>(scraper.datasets_view()));
            assert forall|k: Seq<char>|
                scraper.datasets_view().dom().contains(k) implies all_present(
                #[trigger] scraper.datasets_view()[k],
                scraper.patterns_view().dom(),
            ) by {
                lemma_resolve_all_present(entries, ranswers, dom, seeded, k);
            }
        }
        Ok(scraper)
    }

    pub fn dataset_count(&self) -> (r: usize)
        ensures
            r == self.datasets_seq().len(),
    {
        self.datasets.len()
    }

    pub fn dataset_name(&self, i: usize) -> (r: &String)
        requires
            i < self.datasets_seq().len(),
        ensures
            r@ == self.datasets_seq()[i as int].0,
    {
        self.datasets.key_at(i)
    }

    pub fn dataset_watched_count(&self, i: usize) -> (r: usize)
        requires
            i < self.datasets_seq().len(),
        ensures
            r == self.datasets_seq()[i as int].1.len(),
    {
        self.datasets.val_at(i).len()
    }

    pub fn pool_count(&self) -> (r: usize)
        ensures
            r == self.pools_seq().len(),
    {
        self.pools.len()
    }

    pub fn pool_name(&self, i: usize) -> (r: &String)
        requires
            i < self.pools_seq().len(),
        ensures
            r@ == self.pools_seq()[i as int],
    {
        self.pools.key_at(i)
    }

    /// One dataset's part of a pass: capacity writes, then the writes
    /// of each watched pattern, appended to `writes`.
    #[verifier::loop_isolation(false)]
    #[verifier::rlimit(60)]
    fn dataset_pass(
        &self,
        name: &String,
        patlist: &Vec<String>,
        ans: &DatasetAnswers,
        writes: &mut Vec<GaugeWrite>,
    ) -> (r: Result<(), ScrapeError>)
        requires
            self.wf(),
            ans.snapshots@.len() == patlist@.len(),
        ensures
            ({
                let step = match capacity_spec(ans.capacity.deep_view(), (0i64, 0i64)) {
                    Err(e) => Err(e),
                    Ok(ua) => pattern_fold(
                        name@,
                        self.patterns_view(),
                        patlist.deep_view(),
                        ans.snapshots.deep_view(),
                        writes_view(old(writes)@) + capacity_writes(name@, ua.0, ua.1),
                    ),
                };
                match r {
                    Ok(_) => step == Ok::<_, ScrapeError>(writes_view(final(writes)@)),
                    Err(e) => step == Err::<Seq<WriteView>, _>(e),
                }
            }),
    {
        let ghost pats = self.patterns_view();
        let ghost names = patlist.deep_view();
        let ghost snapans = ans.snapshots.deep_view();
        let ua = match read_dataset_stats(&ans.capacity) {
            Ok(p) => p,
            Err(e) => {
                return Err(e);
            },
        };
        let ghost base0 = writes_view(writes@);
        let mut labels1: Vec<String> = Vec::new();
        labels1.push(name.clone());
        writes.push(GaugeWrite { metric: Metric::DatasetUsed, labels: labels1, value: ua.0 });
        let mut labels2: Vec<String> = Vec::new();
        labels2.push(name.clone());
        writes.push(GaugeWrite { metric: Metric::DatasetAvailable, labels: labels2, value: ua.1 });
        proof {
            assert(writes_view(writes@) =~~= base0 + capacity_writes(name@, ua.0, ua.1));
        }
        let nn = patlist.len();
        let ghost base1 = writes_view(writes@);
        proof {
            assert(names.len() == nn);
            assert(snapans.len() == nn);
            assert(names.skip(0) =~= names);
            assert(snapans.skip(0) =~= snapans);
        }
        let mut j: usize = 0;
        while j < nn
            invariant
                0 <= j <= nn,
                pattern_fold(name@, pats, names, snapans, base1) == pattern_fold(
                    name@,
                    pats,
                    names.skip(j as int),
                    snapans.skip(j as int),
                    writes_view(writes@),
                ),
            decreases nn - j,
        {
            proof {
                assert(names.skip(j as int)[0] == names[j as int]);
                assert(names.skip(j as int).drop_first() =~= names.skip(j as int + 1));
                assert(snapans.skip(j as int)[0] == snapans[j as int]);
                assert(snapans.skip(j as int).drop_first() =~= snapans.skip(j as int + 1));
            }
            let pname = &patlist[j];
            proof {
                assert(pname@ == names[j as int]);
                assert(sources_view(self.snapshots@).dom() =~= self.snapshots@.dom());
            }
            let pat = match self.snapshots.get(pname.as_str()) {
                Some(p) => p,
                None => {
                    proof {
                        assert(!pats.dom().contains(names[j as int]));
                    }
                    return Err(ScrapeError::MissingSnapshotConfig);
                },
            };
            proof {
                assert(pats.dom().contains(names[j as int]));
                assert(pats[names[j as int]] == pat.spec_source());
            }
            let snap_lines = &ans.snapshots[j];
            proof {
                assert(snap_lines.deep_view() == snapans[j as int]);
            }
            let latest = match aggregate_snapshots(snap_lines, pat) {
                Ok(kv) => kv,
                Err(e) => {
                    return Err(e);
                },
            };
            let ghost base2 = writes_view(writes@);
            let ghost aggkv = label_kv_view(latest@);
            let nl = latest.len();
            proof {
                assert(aggkv.len() == nl);
                assert(aggkv.take(0) =~= Seq::<(Seq<char>, i64)>::empty());
                assert(writes_view(writes@) =~~= base2 + snapshot_writes(name@, aggkv.take(0)));
            }
            let mut k: usize = 0;
            while k < nl
                invariant
                    0 <= k <= nl,
                    writes_view(writes@) == base2 + snapshot_writes(name@, aggkv.take(k as int)),
                decreases nl - k,
            {
                let mut ls: Vec<String> = Vec::new();
                ls.push(name.clone());
                ls.push(latest[k].0.clone());
                let w = GaugeWrite {
                    metric: Metric::DatasetLatestSnapshot,
                    labels: ls,
                    value: latest[k].1,
                };
                proof {
                    assert(w.labels.deep_view() =~~= seq![name@, aggkv[k as int].0]);
                    assert(w@ == WriteView {
                        metric: Metric::DatasetLatestSnapshot,
                        labels: seq![name@, aggkv[k as int].0],
                        value: aggkv[k as int].1,
                    });
                }
                let ghost prev = writes_view(writes@);
                writes.push(w);
                proof {
                    assert(writes_view(writes@) =~~= prev.push(w@));
                    assert(snapshot_writes(name@, aggkv.take(k as int + 1)) =~~= snapshot_writes(
                        name@,
                        aggkv.take(k as int),
                    ).push(w@));
                    assert(base2 + snapshot_writes(name@, aggkv.take(k as int)).push(w@) =~~= (base2
                        + snapshot_writes(name@, aggkv.take(k as int))).push(w@));
                    assert(writes_view(writes@) =~~= base2 + snapshot_writes(
                        name@,
                        aggkv.take(k as int + 1),
                    ));
                }
                k += 1;
            }
            proof {
                assert(aggkv.take(nl as int) =~= aggkv);
                assert(aggregate_spec(snapans[j as int], pats[names[j as int]], Seq::empty())
                    == Ok::<_, ScrapeError>(aggkv));
            }
            j += 1;
        }
        proof {
            assert(names.skip(nn as int) =~= Seq::<Seq<char>>::empty());
        }
        Ok(())
    }

    /// One pool's part of a pass: four writes per listing row.
    #[verifier::loop_isolation(false)]
    #[verifier::rlimit(60)]
    fn pool_pass(pname: &String, plines: &Vec<String>, writes: &mut Vec<GaugeWrite>) -> (r: Result<
        (),
        ScrapeError,
    >)
        ensures
            ({
                let step = pool_lines_fold(pname@, plines.deep_view(), writes_view(old(writes)@));
                match r {
                    Ok(_) => step == Ok::<_, ScrapeError>(writes_view(final(writes)@)),
                    Err(e) => step == Err::<Seq<WriteView>, _>(e),
                }
            }),
    {
        let ghost lview = plines.deep_view();
        let ghost basep = writes_view(writes@);
        proof {
            assert(lview.skip(0) =~= lview);
        }
        let nl = plines.len();
        let mut k: usize = 0;
        while k < nl
            invariant
                0 <= k <= nl,
                pool_lines_fold(pname@, lview, basep) == pool_lines_fold(
                    pname@,
                    lview.skip(k as int),
                    writes_view(writes@),
                ),
            decreases nl - k,
        {
            proof {
                assert(lview.skip(k as int)[0] == lview[k as int]);
                assert(lview.skip(k as int).drop_first() =~= lview.skip(k as int + 1));
                assert(plines@[k as int]@ == lview[k as int]);
            }
            let st = match parse_pool_line(plines[k].as_str()) {
                Ok(s) => s,
                Err(e) => {
                    return Err(e);
                },
            };
            let ghost baseq = writes_view(writes@);
            let mut l1: Vec<String> = Vec::new();
            l1.push(pname.clone());
            writes.push(GaugeWrite { metric: Metric::PoolSize, labels: l1, value: st.size });
            let mut l2: Vec<String> = Vec::new();
            l2.push(pname.clone());
            writes.push(GaugeWrite { metric: Metric::PoolAllocated, labels: l2, value: st.alloc });
            let mut l3: Vec<String> = Vec::new();
            l3.push(pname.clone());
            writes.push(GaugeWrite { metric: Metric::PoolFree, labels: l3, value: st.free });
            let mut l4: Vec<String> = Vec::new();
            l4.push(pname.clone());
            writes.push(GaugeWrite { metric: Metric::PoolHealth, labels: l4, value: st.health });
            proof {
                assert(writes_view(writes@) =~~= baseq + pool_line_writes(pname@, st));
            }
            k += 1;
        }
        proof {
            assert(lview.skip(nl as int) =~= Seq::<Seq<char>>::empty());
        }
        Ok(())
    }

    /// Compute the gauge writes of one scrape pass from the command
    /// answers: per dataset its capacity rows and one snapshot listing
    /// per watched pattern, and per pool its listing rows.
    #[verifier::loop_isolation(false)]
    #[verifier::rlimit(60)]
    pub fn update(&self, dataset_answers: &Vec<DatasetAnswers>, pool_answers: &Vec<Vec<String>>)
        -> (r: Result<Vec<GaugeWrite>, ScrapeError>)
        requires
            self.wf(),
            dataset_answers@.len() == self.datasets_seq().len(),
            forall|i: int|
                0 <= i < dataset_answers@.len() ==> #[trigger] dataset_answers@[i].snapshots@.len()
                    == self.datasets_seq()[i].1.len(),
            pool_answers@.len() == self.pools_seq().len(),
        ensures
            ({
                let spec = update_spec(
                    self.datasets_seq(),
                    self.patterns_view(),
                    self.pools_seq(),
                    answers_views(dataset_answers@),
                    pool_answers.deep_view(),
                );
                match r {
                    Ok(ws) => spec == Ok::<_, ScrapeError>(writes_view(ws@)),
                    Err(e) => spec == Err::<Seq<WriteView>, _>(e),
                }
            }),
    {
        let ghost dseq = self.datasets_seq();
        let ghost pats = self.patterns_view();
        let ghost dans = answers_views(dataset_answers@);
        let ghost pseq = self.pools_seq();
        let ghost pans = pool_answers.deep_view();

        let mut writes: Vec<GaugeWrite> = Vec::new();
        let nds = self.datasets.len();
        proof {
            assert(dseq.len() == nds);
            assert(dans.len() == nds);
            assert(dseq.skip(0) =~= dseq);
            assert(dans.skip(0) =~= dans);
            assert(writes_view(writes@) =~= Seq::<WriteView>::empty());
        }
        let mut i: usize = 0;
        while i < nds
            invariant
                0 <= i <= nds,
                dataset_fold(dseq, pats, dans, Seq::empty()) == dataset_fold(
                    dseq.skip(i as int),
                    pats,
                    dans.skip(i as int),
                    writes_view(writes@),
                ),
            decreases nds - i,
        {
            proof {
                assert(dseq.skip(i as int)[0] == dseq[i as int]);
                assert(dseq.skip(i as int).drop_first() =~= dseq.skip(i as int + 1));
                assert(dans.skip(i as int)[0] == dans[i as int]);
                assert(dans.skip(i as int).drop_first() =~= dans.skip(i as int + 1));
            }
            let name = self.datasets.key_at(i);
            let patlist = self.datasets.val_at(i);
            let ans = &dataset_answers[i];
            proof {
                assert(dans[i as int] == (ans.capacity.deep_view(), ans.snapshots.deep_view()));
                assert(dseq[i as int].0 == name@);
                assert(dseq[i as int].1 == patlist.deep_view());
                assert(ans.snapshots@.len() == patlist@.len());
            }
            match self.dataset_pass(name, patlist, ans, &mut writes) {
                Ok(_) => {},
                Err(e) => {
                    proof {
                        assert(dataset_fold(dseq, pats, dans, Seq::empty())
                            == Err::<Seq<WriteView>, _>(e));
                    }
                    return Err(e);
                },
            }
            i += 1;
        }
        proof {
            assert(dseq.skip(nds as int) =~= Seq::<(Seq<char>, Seq<Seq<char>>)>::empty());
            assert(dataset_fold(dseq, pats, dans, Seq::empty()) == Ok::<_, ScrapeError>(
                writes_view(writes@),
            ));
        }

        let ghost wsmid = writes_view(writes@);
        let nps = self.pools.len();
        proof {
            assert(pseq.len() == nps);
            assert(pans.len() == nps);
            assert(pseq.skip(0) =~= pseq);
            assert(pans.skip(0) =~= pans);
        }
        let mut pi: usize = 0;
        while pi < nps
            invariant
                0 <= pi <= nps,
                pool_fold(pseq, pans, wsmid) == pool_fold(
                    pseq.skip(pi as int),
                    pans.skip(pi as int),
                    writes_view(writes@),
                ),
            decreases nps - pi,
        {
            proof {
                assert(pseq.skip(pi as int)[0] == pseq[pi as int]);
                assert(pseq.skip(pi as int).drop_first() =~= pseq.skip(pi as int + 1));
                assert(pans.skip(pi as int)[0] == pans[pi as int]);
                assert(pans.skip(pi as int).drop_first() =~= pans.skip(pi as int + 1));
            }
            let pname = self.pools.key_at(pi);
            let plines = &pool_answers[pi];
            proof {
                assert(plines.deep_view() == pans[pi as int]);
                assert(pseq[pi as int] == pname@);
            }
            match Self::pool_pass(pname, plines, &mut writes) {
                Ok(_) => {},
                Err(e) => {
                    proof {
                        assert(pool_fold(pseq, pans, wsmid) == Err::<Seq<WriteView>, _>(e));
                    }
                    return Err(e);
                },
            }
            pi += 1;
        }
        proof {
            assert(pseq.skip(nps as int) =~= Seq::<Seq<char>>::empty());
            assert(pool_fold(pseq, pans, wsmid) == Ok::<_, ScrapeError>(writes_view(writes@)));
        }
        Ok(writes)
    }
}

/// The program and arguments of one external query.
pub struct CommandSpec {
    pub program: String,
    pub args: Vec<String>,
}

/// List every pool name.
pub fn list_pools_command() -> (r: CommandSpec)
    ensures
        r.program@ == "zpool"@,
        r.args.deep_view() == seq!["list"@, "-H"@, "-o"@, "name"@],
{
    let mut args: Vec<String> = Vec::new();
    args.push("list".to_owned());
    args.push("-H".to_owned());
    args.push("-o".to_owned());
    args.push("name".to_owned());
    proof {
        assert(args.deep_view() =~= seq!["list"@, "-H"@, "-o"@, "name"@]);
    }
    CommandSpec { program: "zpool".to_owned(), args }
}

/// List every filesystem-type dataset name.
pub fn list_datasets_command() -> (r: CommandSpec)
    ensures
        r.program@ == "zfs"@,
        r.args.deep_view() == seq!["list"@, "-H"@, "-o"@, "name"@, "-t"@, "filesystem"@],
{
    let mut args: Vec<String> = Vec::new();
    args.push("list".to_owned());
    args.push("-H".to_owned());
    args.push("-o".to_owned());
    args.push("name".to_owned());
    args.push("-t".to_owned());
    args.push("filesystem".to_owned());
    proof {
        assert(args.deep_view() =~= seq!["list"@, "-H"@, "-o"@, "name"@, "-t"@, "filesystem"@]);
    }
    CommandSpec { program: "zfs".to_owned(), args }
}

/// List every filesystem-type dataset rooted at `root`.
pub fn list_datasets_recursive_command(root: &str) -> (r: CommandSpec)
    ensures
        r.program@ == "zfs"@,
        r.args.deep_view() == seq![
            "list"@,
            "-H"@,
            "-o"@,
            "name"@,
            "-t"@,
            "filesystem"@,
            "-r"@,
            root@,
        ],
{
    let mut args: Vec<String> = Vec::new();
    args.push("list".to_owned());
    args.push("-H".to_owned());
    args.push("-o".to_owned());
    args.push("name".to_owned());
    args.push("-t".to_owned());
    args.push("filesystem".to_owned());
    args.push("-r".to_owned());
    args.push(root.to_owned());
    proof {
        assert(args.deep_view() =~= seq![
            "list"@,
            "-H"@,
            "-o"@,
            "name"@,
            "-t"@,
            "filesystem"@,
            "-r"@,
            root@,
        ]);
    }
    CommandSpec { program: "zfs".to_owned(), args }
}

/// List `name,creation` for every snapshot of `dataset`.
pub fn snapshot_list_command(dataset: &str) -> (r: CommandSpec)
    ensures
        r.program@ == "zfs"@,
        r.args.deep_view() == seq![
            "list"@,
            "-H"@,
            "-o"@,
            "name,creation"@,
            "-p"@,
            "-t"@,
            "snapshot"@,
            dataset@,
        ],
{
    let mut args: Vec<String> = Vec::new();
    args.push("list".to_owned());
    args.push("-H".to_owned());
    args.push("-o".to_owned());
    args.push("name,creation".to_owned());
    args.push("-p".to_owned());
    args.push("-t".to_owned());
    args.push("snapshot".to_owned());
    args.push(dataset.to_owned());
    proof {
        assert(args.deep_view() =~= seq![
            "list"@,
            "-H"@,
            "-o"@,
            "name,creation"@,
            "-p"@,
            "-t"@,
            "snapshot"@,
            dataset@,
        ]);
    }
    CommandSpec { program: "zfs".to_owned(), args }
}

/// Get the `used` and `available` properties of `dataset`.
pub fn capacity_command(dataset: &str) -> (r: CommandSpec)
    ensures
        r.program@ == "zfs"@,
        r.args.deep_view() == seq!["get"@, "-H"@, "used,available"@, "-p"@, dataset@],
{
    let mut args: Vec<String> = Vec::new();
    args.push("get".to_owned());
    args.push("-H".to_owned());
    args.push("used,available".to_owned());
    args.push("-p".to_owned());
    args.push(dataset.to_owned());
    proof {
        assert(args.deep_view() =~= seq!["get"@, "-H"@, "used,available"@, "-p"@, dataset@]);
    }
    CommandSpec { program: "zfs".to_owned(), args }
}

/// List `size,alloc,free,health` for one pool.
pub fn pool_stats_command(pool: &str) -> (r: CommandSpec)
    ensures
        r.program@ == "zpool"@,
        r.args.deep_view() == seq!["list"@, "-p"@, "-H"@, "-o"@, "size,alloc,free,health"@, pool@],
{
    let mut args: Vec<String> = Vec::new();
    args.push("list".to_owned());
    args.push("-p".to_owned());
    args.push("-H".to_owned());
    args.push("-o".to_owned());
    args.push("size,alloc,free,health".to_owned());
    args.push(pool.to_owned());
    proof {
        assert(args.deep_view() =~= seq![
            "list"@,
            "-p"@,
            "-H"@,
            "-o"@,
            "size,alloc,free,health"@,
            pool@,
        ]);
    }
    CommandSpec { program: "zpool".to_owned(), args }
}

proof fn lemma_count_recurse_nonneg(entries: Seq<(Seq<char>, Seq<Seq<char>>, bool)>)
    ensures
        count_recurse(entries) >= 0,
    decreases entries.len(),
{
    if entries.len() > 0 {
        lemma_count_recurse_nonneg(entries.drop_first());
    }
}

/// An element-wise copy of a string vector.
fn clone_string_vec(v: &Vec<String>) -> (r: Vec<String>)
    ensures
        r.deep_view() == v.deep_view(),
{
    let mut r: Vec<String> = Vec::new();
    let n = v.len();
    let mut i: usize = 0;
    loop
        invariant
            0 <= i <= n,
            n == v@.len(),
            r@.len() == i,
            forall|j: int| 0 <= j < i ==> r@[j]@ == v@[j]@,
        decreases n - i,
    {
        if i == n {
            proof {
                assert(r.deep_view() =~= v.deep_view());
            }
            return r;
        }
        r.push(v[i].clone());
        i += 1;
    }
}

// ---------- gauge writes ----------

/// Which gauge a write goes to.
#[derive(Debug, Clone, Copy, PartialEq, Eq)]
pub enum Metric {
    DatasetLatestSnapshot,
    DatasetUsed,
    DatasetAvailable,
    PoolSize,
    PoolAllocated,
    PoolFree,
    PoolHealth,
}

/// One gauge write: metric, ordered label values, value.
#[derive(Debug, Clone, PartialEq, Eq)]
pub struct GaugeWrite {
    pub metric: Metric,
    pub labels: Vec<String>,
    pub value: i64,
}

#[verifier::ext_equal]
pub ghost struct WriteView {
    pub metric: Metric,
    pub labels: Seq<Seq<char>>,
    pub value: i64,
}

impl View for GaugeWrite {
    type V = WriteView;

    open spec fn view(&self) -> WriteView {
        WriteView { metric: self.metric, labels: self.labels.deep_view(), value: self.value }
    }
}

pub open spec fn writes_view(s: Seq<GaugeWrite>) -> Seq<WriteView> {
    s.map_values(|w: GaugeWrite| w@)
}

/// The command answers one scrape pass needs for one dataset: the
/// capacity property rows, and one snapshot listing per watched
/// pattern, in watched order.
pub struct DatasetAnswers {
    pub capacity: Vec<String>,
    pub snapshots: Vec<Vec<String>>,
}

pub open spec fn answers_views(s: Seq<DatasetAnswers>) -> Seq<
    (Seq<Seq<char>>, Seq<Seq<Seq<char>>>),
> {
    s.map_values(|a: DatasetAnswers| (a.capacity.deep_view(), a.snapshots.deep_view()))
}

/// The snapshot-freshness writes of one aggregation result.
pub open spec fn snapshot_writes(dataset: Seq<char>, kv: Seq<(Seq<char>, i64)>) -> Seq<WriteView> {
    kv.map_values(
        |p: (Seq<char>, i64)| WriteView {
            metric: Metric::DatasetLatestSnapshot,
            labels: seq![dataset, p.0],
            value: p.1,
        },
    )
}

pub open spec fn capacity_writes(dataset: Seq<char>, used: i64, available: i64) -> Seq<WriteView> {
    seq![
        WriteView { metric: Metric::DatasetUsed, labels: seq![dataset], value: used },
        WriteView { metric: Metric::DatasetAvailable, labels: seq![dataset], value: available },
    ]
}

/// Fold one dataset's watched patterns over the accumulated writes.
pub open spec fn pattern_fold(
    dataset: Seq<char>,
    patterns: Map<Seq<char>, Seq<char>>,
    names: Seq<Seq<char>>,
    answers: Seq<Seq<Seq<char>>>,
    acc: Seq<WriteView>,
) -> Result<Seq<WriteView>, ScrapeError>
    decreases names.len(),
{
    if names.len() == 0 {
        Ok(acc)
    } else if !patterns.dom().contains(names[0]) {
        Err(ScrapeError::MissingSnapshotConfig)
    } else {
        match aggregate_spec(answers[0], patterns[names[0]], Seq::empty()) {
            Err(e) => Err(e),
            Ok(kv) => pattern_fold(
                dataset,
                patterns,
                names.drop_first(),
                answers.drop_first(),
                acc + snapshot_writes(dataset, kv),
            ),
        }
    }
}

/// Fold every dataset: its capacity writes, then its pattern writes.
pub open spec fn dataset_fold(
    datasets: Seq<(Seq<char>, Seq<Seq<char>>)>,
    patterns: Map<Seq<char>, Seq<char>>,
    answers: Seq<(Seq<Seq<char>>, Seq<Seq<Seq<char>>>)>,
    acc: Seq<WriteView>,
) -> Result<Seq<WriteView>, ScrapeError>
    decreases datasets.len(),
{
    if datasets.len() == 0 {
        Ok(acc)
    } else {
        match capacity_spec(answers[0].0, (0i64, 0i64)) {
            Err(e) => Err(e),
            Ok(ua) => match pattern_fold(
                datasets[0].0,
                patterns,
                datasets[0].1,
                answers[0].1,
                acc + capacity_writes(datasets[0].0, ua.0, ua.1),
            ) {
                Err(e) => Err(e),
                Ok(acc2) => dataset_fold(datasets.drop_first(), patterns, answers.drop_first(), acc2),
            },
        }
    }
}

/// The four writes of one pool listing row.
pub open spec fn pool_line_writes(pool: Seq<char>, st: PoolStats) -> Seq<WriteView> {
    seq![
        WriteView { metric: Metric::PoolSize, labels: seq![pool], value: st.size },
        WriteView { metric: Metric::PoolAllocated, labels: seq![pool], value: st.alloc },
        WriteView { metric: Metric::PoolFree, labels: seq![pool], value: st.free },
        WriteView { metric: Metric::PoolHealth, labels: seq![pool], value: st.health },
    ]
}

pub open spec fn pool_lines_fold(
    pool: Seq<char>,
    lines: Seq<Seq<char>>,
    acc: Seq<WriteView>,
) -> Result<Seq<WriteView>, ScrapeError>
    decreases lines.len(),
{
    if lines.len() == 0 {
        Ok(acc)
    } else {
        match pool_stats_spec(lines[0]) {
            Err(e) => Err(e),
            Ok(st) => pool_lines_fold(pool, lines.drop_first(), acc + pool_line_writes(pool, st)),
        }
    }
}

pub open spec fn pool_fold(
    pools: Seq<Seq<char>>,
    answers: Seq<Seq<Seq<char>>>,
    acc: Seq<WriteView>,
) -> Result<Seq<WriteView>, ScrapeError>
    decreases pools.len(),
{
    if pools.len() == 0 {
        Ok(acc)
    } else {
        match pool_lines_fold(pools[0], answers[0], acc) {
            Err(e) => Err(e),
            Ok(acc2) => pool_fold(pools.drop_first(), answers.drop_first(), acc2),
        }
    }
}

/// The whole pass: every dataset's writes, then every pool's writes;
/// the first failure aborts the pass with that error.
pub open spec fn update_spec(
    datasets: Seq<(Seq<char>, Seq<Seq<char>>)>,
    patterns: Map<Seq<char>, Seq<char>>,
    pools: Seq<Seq<char>>,
    ds_answers: Seq<(Seq<Seq<char>>, Seq<Seq<Seq<char>>>)>,
    pool_answers: Seq<Seq<Seq<char>>>,
) -> Result<Seq<WriteView>, ScrapeError> {
    match dataset_fold(datasets, patterns, ds_answers, Seq::empty()) {
        Err(e) => Err(e),
        Ok(ws) => pool_fold(pools, pool_answers, ws),
    }
}

/// Recursive expansion never loses the root: the root and every
/// discovered child all end bound to the entry's watched list, the
/// root even when the listing returns it too.
pub proof fn lemma_recursive_expansion(
    root: Seq<char>,
    pats: Seq<Seq<char>>,
    children: Seq<Seq<char>>,
    dom: Set<Seq<char>>,
    acc: Map<Seq<char>, Seq<Seq<char>>>,
)
    requires
        all_present(pats, dom),
    ensures
        ({
            let m = assign_all(children, pats, acc).insert(root, pats);
            &&& resolve_datasets(seq![(root, pats, true)], seq![children], dom, acc)
                == Ok::<_, Seq<char>>(m)
            &&& m.dom().contains(root)
            &&& m[root] == pats
            &&& forall|c: Seq<char>| children.contains(c) ==> #[trigger] m.dom().contains(c)
            &&& forall|c: Seq<char>| children.contains(c) ==> #[trigger] m[c] == pats
        }),
{
    let entries = seq![(root, pats, true)];
    let answers = seq![children];
    lemma_all_present_first_missing(pats, dom);
    assert(entries[0] == (root, pats, true));
    assert(entries[0].0 == root && entries[0].1 == pats && entries[0].2 == true);
    assert(answers[0] == children);
    assert(entries.drop_first() =~= Seq::<(Seq<char>, Seq<Seq<char>>, bool)>::empty());
    assert(answers.drop_first() =~= Seq::<Seq<Seq<char>>>::empty());
    let mid = assign_all(children, pats, acc);
    let m = mid.insert(root, pats);
    let rest = resolve_datasets(entries.drop_first(), answers.drop_first(), dom, m);
    assert(entries.drop_first().len() == 0);
    assert(rest == Ok::<_, Seq<char>>(m));
    assert(resolve_datasets(entries, answers, dom, acc) == rest);
    assert forall|c: Seq<char>| children.contains(c) implies #[trigger] m.dom().contains(c) by {
        lemma_assign_all_at(children, pats, acc, c);
        if c != root {
            assert(mid.dom().contains(c));
        }
    }
    assert forall|c: Seq<char>| children.contains(c) implies #[trigger] m[c] == pats by {
        lemma_assign_all_at(children, pats, acc, c);
        if c != root {
            assert(mid.dom().contains(c) && mid[c] == pats);
        }
    }
}

} // verus!

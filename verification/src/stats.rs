//! Readers for the tabular command output: pool statistics, dataset
//! capacity, and the per-dataset snapshot aggregation.

use vstd::prelude::*;
use crate::pattern::{CompiledPattern, regex_group, regex_matches};
use crate::strmap::{as_map, lemma_as_map_index, lemma_as_map_push, lemma_as_map_update, unique_keys};
use crate::text::{
    i64_string_value, parse_i64, split_on, split_spec, str_eq, valid_i64_string,
};

verus! {

broadcast use vstd::map::group_map_axioms, vstd::set::group_set_axioms;

/// Why a startup step or a scrape pass failed.
#[derive(Debug, Clone, PartialEq, Eq)]
pub enum ScrapeError {
    /// A snapshot pattern did not compile.
    BadPattern,
    /// A dataset entry names a snapshot pattern that is not defined.
    UnknownPattern(String),
    /// A watched pattern name had no compiled pattern at scrape time.
    MissingSnapshotConfig,
    /// A command output row had fewer fields than required.
    ParseLine,
    /// A numeric field did not parse as an integer.
    ParseInt,
    /// A snapshot name had no part after `@`.
    NoSnapshotName,
    /// A matching pattern captured no `id` group.
    NoIdCapture,
    /// A matching pattern captured no `label` group.
    NoLabelCapture,
}

// ---------- pool statistics ----------

/// The health column mapped to its gauge code; every unknown text maps
/// to the sentinel -1.
pub open spec fn health_code_spec(s: Seq<char>) -> int {
    if s == "ONLINE"@ {
        0
    } else if s == "DEGRADED"@ {
        1
    } else if s == "FAULTED"@ {
        2
    } else if s == "OFFLINE"@ {
        3
    } else if s == "UNAVAIL"@ {
        4
    } else if s == "REMOVED"@ {
        5
    } else if s == "SUSPENDED"@ {
        6
    } else {
        -1
    }
}

pub fn health_code(s: &str) -> (r: i64)
    ensures
        r == health_code_spec(s@),
{
    if str_eq(s, "ONLINE") {
        0
    } else if str_eq(s, "DEGRADED") {
        1
    } else if str_eq(s, "FAULTED") {
        2
    } else if str_eq(s, "OFFLINE") {
        3
    } else if str_eq(s, "UNAVAIL") {
        4
    } else if str_eq(s, "REMOVED") {
        5
    } else if str_eq(s, "SUSPENDED") {
        6
    } else {
        -1
    }
}

/// One pool listing row: size, allocated, free, health.
#[derive(Debug, Clone, Copy, PartialEq, Eq)]
pub struct PoolStats {
    pub size: i64,
    pub alloc: i64,
    pub free: i64,
    pub health: i64,
}

/// What one `size,alloc,free,health` row parses to: the three byte
/// counts must be integers and present, the health text is mapped
/// through `health_code_spec`.
pub open spec fn pool_stats_spec(line: Seq<char>) -> Result<PoolStats, ScrapeError> {
    let fields = split_spec(line, '\t');
    if !valid_i64_string(fields[0]) {
        Err(ScrapeError::ParseInt)
    } else if fields.len() < 2 {
        Err(ScrapeError::ParseLine)
    } else if !valid_i64_string(fields[1]) {
        Err(ScrapeError::ParseInt)
    } else if fields.len() < 3 {
        Err(ScrapeError::ParseLine)
    } else if !valid_i64_string(fields[2]) {
        Err(ScrapeError::ParseInt)
    } else if fields.len() < 4 {
        Err(ScrapeError::ParseLine)
    } else {
        Ok(
            PoolStats {
                size: i64_string_value(fields[0]) as i64,
                alloc: i64_string_value(fields[1]) as i64,
                free: i64_string_value(fields[2]) as i64,
                health: health_code_spec(fields[3]) as i64,
            },
        )
    }
}

pub fn parse_pool_line(line: &str) -> (r: Result<PoolStats, ScrapeError>)
    ensures
        r == pool_stats_spec(line@),
{
    let fields = split_on(line, '\t');
    let ghost sf = split_spec(line@, '\t');
    assert(fields@[0]@ == sf[0]);
    let size = match parse_i64(fields[0].as_str()) {
        Some(v) => v,
        None => {
            return Err(ScrapeError::ParseInt);
        },
    };
    if fields.len() < 2 {
        return Err(ScrapeError::ParseLine);
    }
    assert(fields@[1]@ == sf[1]);
    let alloc = match parse_i64(fields[1].as_str()) {
        Some(v) => v,
        None => {
            return Err(ScrapeError::ParseInt);
        },
    };
    if fields.len() < 3 {
        return Err(ScrapeError::ParseLine);
    }
    assert(fields@[2]@ == sf[2]);
    let free = match parse_i64(fields[2].as_str()) {
        Some(v) => v,
        None => {
            return Err(ScrapeError::ParseInt);
        },
    };
    if fields.len() < 4 {
        return Err(ScrapeError::ParseLine);
    }
    assert(fields@[3]@ == sf[3]);
    let health = health_code(fields[3].as_str());
    Ok(PoolStats { size, alloc, free, health })
}

// ---------- dataset capacity ----------

/// One `get used,available` row folded into the running pair: the
/// property name is field 1, its value field 2; unknown properties are
/// ignored.
pub open spec fn capacity_row_spec(acc: (i64, i64), line: Seq<char>) -> Result<
    (i64, i64),
    ScrapeError,
> {
    let fields = split_spec(line, '\t');
    if fields.len() < 3 {
        Err(ScrapeError::ParseLine)
    } else if !valid_i64_string(fields[2]) {
        Err(ScrapeError::ParseInt)
    } else {
        let v = i64_string_value(fields[2]) as i64;
        if fields[1] == "used"@ {
            Ok((v, acc.1))
        } else if fields[1] == "available"@ {
            Ok((acc.0, v))
        } else {
            Ok(acc)
        }
    }
}

/// The `(used, available)` pair after all rows, starting from zero.
pub open spec fn capacity_spec(lines: Seq<Seq<char>>, acc: (i64, i64)) -> Result<
    (i64, i64),
    ScrapeError,
>
    decreases lines.len(),
{
    if lines.len() == 0 {
        Ok(acc)
    } else {
        match capacity_row_spec(acc, lines[0]) {
            Err(e) => Err(e),
            Ok(acc2) => capacity_spec(lines.drop_first(), acc2),
        }
    }
}

/// Read the `used` and `available` byte counts of one dataset from the
/// property rows.
pub fn read_dataset_stats(lines: &Vec<String>) -> (r: Result<(i64, i64), ScrapeError>)
    ensures
        r == capacity_spec(lines.deep_view(), (0i64, 0i64)),
{
    let mut used: i64 = 0;
    let mut available: i64 = 0;
    let n = lines.len();
    let mut i: usize = 0;
    proof {
        assert(lines.deep_view().skip(0) =~= lines.deep_view());
    }
    loop
        invariant
            0 <= i <= n,
            n == lines@.len(),
            lines.deep_view().len() == n,
            capacity_spec(lines.deep_view(), (0i64, 0i64)) == capacity_spec(
                lines.deep_view().skip(i as int),
                (used, available),
            ),
        decreases n - i,
    {
        if i == n {
            return Ok((used, available));
        }
        let ghost rest = lines.deep_view().skip(i as int);
        proof {
            assert(rest[0] == lines.deep_view()[i as int]);
            assert(rest.drop_first() =~= lines.deep_view().skip(i as int + 1));
        }
        let fields = split_on(lines[i].as_str(), '\t');
        let ghost sf = split_spec(lines.deep_view()[i as int], '\t');
        if fields.len() < 3 {
            return Err(ScrapeError::ParseLine);
        }
        assert(fields@[1]@ == sf[1]);
        assert(fields@[2]@ == sf[2]);
        let v = match parse_i64(fields[2].as_str()) {
            Some(v) => v,
            None => {
                return Err(ScrapeError::ParseInt);
            },
        };
        if str_eq(fields[1].as_str(), "used") {
            used = v;
        } else if str_eq(fields[1].as_str(), "available") {
            available = v;
        }
        i += 1;
    }
}

// ---------- snapshot aggregation ----------

/// What one snapshot listing row contributes: `Ok(None)` for a row the
/// pattern does not match, `Ok(Some((label, creation)))` for a match,
/// and an error for a malformed row or a missing capture group.
pub open spec fn snap_row_spec(line: Seq<char>, pattern: Seq<char>) -> Result<
    Option<(Seq<char>, i64)>,
    ScrapeError,
> {
    let fields = split_spec(line, '\t');
    if fields.len() < 2 {
        Err(ScrapeError::ParseLine)
    } else if !valid_i64_string(fields[1]) {
        Err(ScrapeError::ParseInt)
    } else {
        let date = i64_string_value(fields[1]) as i64;
        let parts = split_spec(fields[0], '@');
        if parts.len() < 2 {
            Err(ScrapeError::NoSnapshotName)
        } else if !regex_matches(pattern, parts[1]) {
            Ok(None)
        } else if regex_group(pattern, parts[1], "id"@) is None {
            Err(ScrapeError::NoIdCapture)
        } else if regex_group(pattern, parts[1], "label"@) is None {
            Err(ScrapeError::NoLabelCapture)
        } else {
            Ok(Some((regex_group(pattern, parts[1], "label"@)->0, date)))
        }
    }
}

/// Fold one matched `(label, date)` into the running bindings: keep
/// the larger creation time for an existing label, append a new one.
pub open spec fn bump_label(
    kv: Seq<(Seq<char>, i64)>,
    label: Seq<char>,
    date: i64,
) -> Seq<(Seq<char>, i64)> {
    if exists|i: int| 0 <= i < kv.len() && kv[i].0 == label {
        let i = choose|i: int| 0 <= i < kv.len() && kv[i].0 == label;
        if date > kv[i].1 {
            kv.update(i, (label, date))
        } else {
            kv
        }
    } else {
        kv.push((label, date))
    }
}

/// The latest-creation-per-label bindings over the rows, in first-seen
/// label order.
pub open spec fn aggregate_spec(
    lines: Seq<Seq<char>>,
    pattern: Seq<char>,
    acc: Seq<(Seq<char>, i64)>,
) -> Result<Seq<(Seq<char>, i64)>, ScrapeError>
    decreases lines.len(),
{
    if lines.len() == 0 {
        Ok(acc)
    } else {
        match snap_row_spec(lines[0], pattern) {
            Err(e) => Err(e),
            Ok(None) => aggregate_spec(lines.drop_first(), pattern, acc),
            Ok(Some((label, date))) => aggregate_spec(
                lines.drop_first(),
                pattern,
                bump_label(acc, label, date),
            ),
        }
    }
}

/// The bindings a label vector denotes.
pub open spec fn label_kv_view(s: Seq<(String, i64)>) -> Seq<(Seq<char>, i64)> {
    s.map_values(|p: (String, i64)| (p.0@, p.1))
}

/// Reduce one dataset's snapshot listing to the latest creation time
/// per label for one pattern.
pub fn aggregate_snapshots(lines: &Vec<String>, pattern: &CompiledPattern) -> (r: Result<
    Vec<(String, i64)>,
    ScrapeError,
>)
    ensures
        match r {
            Ok(kv) => unique_keys(label_kv_view(kv@)) && aggregate_spec(
                lines.deep_view(),
                pattern.spec_source(),
                Seq::empty(),
            ) == Ok::<_, ScrapeError>(label_kv_view(kv@)),
            Err(e) => aggregate_spec(lines.deep_view(), pattern.spec_source(), Seq::empty())
                == Err::<Seq<(Seq<char>, i64)>, _>(e),
        },
{
    let mut latest: Vec<(String, i64)> = Vec::new();
    let n = lines.len();
    let mut idx: usize = 0;
    proof {
        assert(label_kv_view(latest@) =~= Seq::<(Seq<char>, i64)>::empty());
        assert(lines.deep_view().skip(0) =~= lines.deep_view());
    }
    loop
        invariant
            0 <= idx <= n,
            n == lines@.len(),
            lines.deep_view().len() == n,
            unique_keys(label_kv_view(latest@)),
            aggregate_spec(lines.deep_view(), pattern.spec_source(), Seq::empty())
                == aggregate_spec(
                lines.deep_view().skip(idx as int),
                pattern.spec_source(),
                label_kv_view(latest@),
            ),
        decreases n - idx,
    {
        if idx == n {
            return Ok(latest);
        }
        let ghost rest = lines.deep_view().skip(idx as int);
        proof {
            assert(rest[0] == lines.deep_view()[idx as int]);
            assert(rest.drop_first() =~= lines.deep_view().skip(idx as int + 1));
        }
        let fields = split_on(lines[idx].as_str(), '\t');
        let ghost sf = split_spec(lines.deep_view()[idx as int], '\t');
        if fields.len() < 2 {
            return Err(ScrapeError::ParseLine);
        }
        assert(fields@[0]@ == sf[0]);
        assert(fields@[1]@ == sf[1]);
        let date = match parse_i64(fields[1].as_str()) {
            Some(d) => d,
            None => {
                return Err(ScrapeError::ParseInt);
            },
        };
        let parts = split_on(fields[0].as_str(), '@');
        let ghost sp = split_spec(sf[0], '@');
        if parts.len() < 2 {
            return Err(ScrapeError::NoSnapshotName);
        }
        assert(parts@[1]@ == sp[1]);
        let m = pattern.apply(parts[1].as_str());
        if m.matched {
            if m.id.is_none() {
                return Err(ScrapeError::NoIdCapture);
            }
            match m.label {
                None => {
                    return Err(ScrapeError::NoLabelCapture);
                },
                Some(label) => {
                    let ghost oldkv = label_kv_view(latest@);
                    let ghost lv = label@;
                    let found = find_label(&latest, label.as_str());
                    match found {
                        Some(j) => {
                            proof {
                                let c = choose|i: int|
                                    0 <= i < oldkv.len() && oldkv[i].0 == lv;
                                if c < j as int {
                                    assert(oldkv[c].0 != oldkv[j as int].0);
                                }
                                if (j as int) < c {
                                    assert(oldkv[j as int].0 != oldkv[c].0);
                                }
                                assert(c == j as int);
                            }
                            if date > latest[j].1 {
                                latest.remove(j);
                                latest.insert(j, (label, date));
                                proof {
                                    assert(label_kv_view(latest@) =~= oldkv.update(
                                        j as int,
                                        (lv, date),
                                    ));
                                    assert(forall|x: int|
                                        0 <= x < oldkv.len() ==> label_kv_view(latest@)[x].0
                                            == oldkv[x].0);
                                    assert(unique_keys(label_kv_view(latest@)));
                                    assert(label_kv_view(latest@) == bump_label(oldkv, lv, date));
                                }
                            } else {
                                proof {
                                    assert(label_kv_view(latest@) == bump_label(oldkv, lv, date));
                                }
                            }
                        },
                        None => {
                            latest.push((label, date));
                            proof {
                                assert(label_kv_view(latest@) =~= oldkv.push((lv, date)));
                                lemma_as_map_push(oldkv, lv, date);
                                assert(label_kv_view(latest@) == bump_label(oldkv, lv, date));
                            }
                        },
                    }
                },
            }
        }
        idx += 1;
    }
}

/// Index of `label` among the accumulated bindings.
fn find_label(latest: &Vec<(String, i64)>, label: &str) -> (r: Option<usize>)
    ensures
        match r {
            Some(i) => i < latest@.len() && label_kv_view(latest@)[i as int].0 == label@,
            None => forall|i: int|
                0 <= i < latest@.len() ==> label_kv_view(latest@)[i].0 != label@,
        },
{
    let n = latest.len();
    let mut i: usize = 0;
    loop
        invariant
            0 <= i <= n,
            n == latest@.len(),
            forall|j: int| 0 <= j < i ==> label_kv_view(latest@)[j].0 != label@,
        decreases n - i,
    {
        if i == n {
            return None;
        }
        if str_eq(latest[i].0.as_str(), label) {
            return Some(i);
        }
        i += 1;
    }
}

} // verus!

verus! {

// ---------- order independence of the aggregation ----------

/// Row `line` contributes the binding `(label, date)`.
pub open spec fn row_yields(
    line: Seq<char>,
    pattern: Seq<char>,
    label: Seq<char>,
    date: i64,
) -> bool {
    snap_row_spec(line, pattern) == Ok::<Option<(Seq<char>, i64)>, ScrapeError>(
        Some((label, date)),
    )
}

/// The value a fold step leaves at the bumped label.
pub open spec fn bump_value(kv: Seq<(Seq<char>, i64)>, label: Seq<char>, date: i64) -> i64 {
    if as_map(kv).dom().contains(label) && as_map(kv)[label] >= date {
        as_map(kv)[label]
    } else {
        date
    }
}

proof fn lemma_bump_map(kv: Seq<(Seq<char>, i64)>, label: Seq<char>, date: i64)
    requires
        unique_keys(kv),
    ensures
        unique_keys(bump_label(kv, label, date)),
        as_map(bump_label(kv, label, date)) == as_map(kv).insert(
            label,
            bump_value(kv, label, date),
        ),
{
    if exists|i: int| 0 <= i < kv.len() && kv[i].0 == label {
        let i = choose|i: int| 0 <= i < kv.len() && kv[i].0 == label;
        lemma_as_map_index(kv, i);
        if date > kv[i].1 {
            lemma_as_map_update(kv, i, label, date);
            assert(bump_value(kv, label, date) == date);
        } else {
            assert(bump_label(kv, label, date) == kv);
            assert(bump_value(kv, label, date) == kv[i].1);
            assert(as_map(kv) =~= as_map(kv).insert(label, kv[i].1));
        }
    } else {
        assert(!as_map(kv).dom().contains(label));
        lemma_as_map_push(kv, label, date);
        assert(bump_value(kv, label, date) == date);
    }
}

/// Aggregation succeeds exactly when every row parses.
proof fn lemma_aggregate_ok_all(
    lines: Seq<Seq<char>>,
    pattern: Seq<char>,
    acc: Seq<(Seq<char>, i64)>,
)
    ensures
        aggregate_spec(lines, pattern, acc) is Ok <==> forall|x: int|
            0 <= x < lines.len() ==> snap_row_spec(#[trigger] lines[x], pattern) is Ok,
    decreases lines.len(),
{
    if lines.len() > 0 {
        let df = lines.drop_first();
        assert(forall|x: int| 0 <= x < df.len() ==> df[x] == lines[x + 1]);
        match snap_row_spec(lines[0], pattern) {
            Err(_) => {
                assert(!(aggregate_spec(lines, pattern, acc) is Ok));
            },
            Ok(None) => {
                lemma_aggregate_ok_all(df, pattern, acc);
                assert(aggregate_spec(lines, pattern, acc) == aggregate_spec(df, pattern, acc));
                assert forall|x: int|
                    (forall|y: int| 0 <= y < df.len() ==> snap_row_spec(#[trigger] df[y], pattern)
                        is Ok) && 0 <= x < lines.len() implies snap_row_spec(
                    #[trigger] lines[x],
                    pattern,
                ) is Ok by {
                    if x > 0 {
                        assert(df[x - 1] == lines[x]);
                        assert(snap_row_spec(df[x - 1], pattern) is Ok);
                    }
                }
            },
            Ok(Some((l0, d0))) => {
                let acc2 = bump_label(acc, l0, d0);
                lemma_aggregate_ok_all(df, pattern, acc2);
                assert(aggregate_spec(lines, pattern, acc) == aggregate_spec(df, pattern, acc2));
                assert forall|x: int|
                    (forall|y: int| 0 <= y < df.len() ==> snap_row_spec(#[trigger] df[y], pattern)
                        is Ok) && 0 <= x < lines.len() implies snap_row_spec(
                    #[trigger] lines[x],
                    pattern,
                ) is Ok by {
                    if x > 0 {
                        assert(df[x - 1] == lines[x]);
                        assert(snap_row_spec(df[x - 1], pattern) is Ok);
                    }
                }
            },
        }
    }
}

/// What the aggregation binds at one label: bound exactly when the
/// accumulator binds it or some row yields it, achieved by the
/// accumulator or a row, and at least every contribution.
proof fn lemma_aggregate_character(
    lines: Seq<Seq<char>>,
    pattern: Seq<char>,
    acc: Seq<(Seq<char>, i64)>,
    label: Seq<char>,
)
    requires
        unique_keys(acc),
        aggregate_spec(lines, pattern, acc) is Ok,
    ensures
        aggregate_spec(lines, pattern, acc) matches Ok(kv) ==> {
            &&& unique_keys(kv)
            &&& (as_map(kv).dom().contains(label) <==> (as_map(acc).dom().contains(label)
                || exists|x: int, d: i64|
                    0 <= x < lines.len() && #[trigger] row_yields(lines[x], pattern, label, d)))
            &&& (as_map(kv).dom().contains(label) ==> ((as_map(acc).dom().contains(label)
                && as_map(acc)[label] == as_map(kv)[label]) || exists|x: int, d: i64|
                0 <= x < lines.len() && #[trigger] row_yields(lines[x], pattern, label, d) && d
                    == as_map(kv)[label]))
            &&& (as_map(kv).dom().contains(label) && as_map(acc).dom().contains(label)
                ==> as_map(acc)[label] <= as_map(kv)[label])
            &&& (forall|x: int, d: i64|
                0 <= x < lines.len() && #[trigger] row_yields(lines[x], pattern, label, d)
                    && as_map(kv).dom().contains(label) ==> d <= as_map(kv)[label])
        },
    decreases lines.len(),
{
    if lines.len() == 0 {
        assert(aggregate_spec(lines, pattern, acc) == Ok::<_, ScrapeError>(acc));
    } else {
        let df = lines.drop_first();
        assert(forall|x: int| 0 <= x < df.len() ==> df[x] == lines[x + 1]);
        match snap_row_spec(lines[0], pattern) {
            Err(_) => {},
            Ok(None) => {
                lemma_aggregate_character(df, pattern, acc, label);
                assert(aggregate_spec(lines, pattern, acc) == aggregate_spec(df, pattern, acc));
                assert(forall|d: i64| !row_yields(lines[0], pattern, label, d));
                assert forall|x: int, d: i64|
                    0 <= x < lines.len() && #[trigger] row_yields(lines[x], pattern, label, d)
                    implies 0 <= x - 1 < df.len() && row_yields(df[x - 1], pattern, label, d) by {
                    assert(x != 0);
                    assert(df[x - 1] == lines[x]);
                }
                assert forall|x: int, d: i64|
                    0 <= x < df.len() && #[trigger] row_yields(df[x], pattern, label, d) implies
                    row_yields(lines[x + 1], pattern, label, d) by {
                    assert(df[x] == lines[x + 1]);
                }
                if exists|x: int, d: i64|
                    0 <= x < lines.len() && #[trigger] row_yields(lines[x], pattern, label, d) {
                    let (x, d) = choose|x: int, d: i64|
                        0 <= x < lines.len() && #[trigger] row_yields(lines[x], pattern, label, d);
                    assert(row_yields(df[x - 1], pattern, label, d));
                }
                if exists|x: int, d: i64|
                    0 <= x < df.len() && #[trigger] row_yields(df[x], pattern, label, d) {
                    let (x, d) = choose|x: int, d: i64|
                        0 <= x < df.len() && #[trigger] row_yields(df[x], pattern, label, d);
                    assert(row_yields(lines[x + 1], pattern, label, d));
                }
            },
            Ok(Some((l0, d0))) => {
                let acc2 = bump_label(acc, l0, d0);
                lemma_bump_map(acc, l0, d0);
                lemma_aggregate_character(df, pattern, acc2, label);
                assert(aggregate_spec(lines, pattern, acc) == aggregate_spec(df, pattern, acc2));
                assert(row_yields(lines[0], pattern, l0, d0));
                assert(forall|d: i64|
                    row_yields(lines[0], pattern, label, d) <==> (label == l0 && d == d0));
                assert forall|x: int, d: i64|
                    0 < x < lines.len() && #[trigger] row_yields(lines[x], pattern, label, d)
                    implies 0 <= x - 1 < df.len() && row_yields(df[x - 1], pattern, label, d) by {
                    assert(df[x - 1] == lines[x]);
                }
                assert forall|x: int, d: i64|
                    0 <= x < df.len() && #[trigger] row_yields(df[x], pattern, label, d) implies
                    row_yields(lines[x + 1], pattern, label, d) by {
                    assert(df[x] == lines[x + 1]);
                }
                let v2 = bump_value(acc, l0, d0);
                if label == l0 {
                    assert(as_map(acc2).dom().contains(label));
                    assert(as_map(acc2)[label] == v2);
                    assert(d0 <= v2);
                    assert(as_map(acc).dom().contains(label) ==> as_map(acc)[label] <= v2);
                    assert(row_yields(lines[0], pattern, label, d0));
                } else {
                    assert(as_map(acc2).dom().contains(label) == as_map(acc).dom().contains(label));
                    assert(as_map(acc).dom().contains(label) ==> as_map(acc2)[label]
                        == as_map(acc)[label]);
                }
                match aggregate_spec(df, pattern, acc2) {
                    Err(_) => {},
                    Ok(kv) => {
                        if as_map(kv).dom().contains(label) {
                            // achievement
                            if as_map(acc2).dom().contains(label) && as_map(acc2)[label]
                                == as_map(kv)[label] {
                                if label == l0 {
                                    if as_map(acc).dom().contains(label) && as_map(acc)[label]
                                        >= d0 {
                                        assert(as_map(acc)[label] == as_map(kv)[label]);
                                    } else {
                                        assert(v2 == d0);
                                        assert(row_yields(lines[0], pattern, label, d0) && d0
                                            == as_map(kv)[label]);
                                    }
                                }
                            } else {
                                let (x, d) = choose|x: int, d: i64|
                                    0 <= x < df.len() && #[trigger] row_yields(
                                        df[x],
                                        pattern,
                                        label,
                                        d,
                                    ) && d == as_map(kv)[label];
                                assert(row_yields(lines[x + 1], pattern, label, d));
                            }
                        }
                    },
                }
            },
        }
    }
}

/// One label's binding carries over between listings with the same
/// rows.
proof fn lemma_character_transfer(
    lines1: Seq<Seq<char>>,
    lines2: Seq<Seq<char>>,
    pattern: Seq<char>,
    label: Seq<char>,
)
    requires
        forall|r: Seq<char>| lines1.contains(r) <==> lines2.contains(r),
        aggregate_spec(lines1, pattern, Seq::empty()) is Ok,
        aggregate_spec(lines2, pattern, Seq::empty()) is Ok,
    ensures
        ({
            let kv1 = aggregate_spec(lines1, pattern, Seq::<(Seq<char>, i64)>::empty())->Ok_0;
            let kv2 = aggregate_spec(lines2, pattern, Seq::<(Seq<char>, i64)>::empty())->Ok_0;
            &&& as_map(kv1).dom().contains(label) == as_map(kv2).dom().contains(label)
            &&& as_map(kv1).dom().contains(label) ==> as_map(kv1)[label] == as_map(kv2)[label]
        }),
{
    let e = Seq::<(Seq<char>, i64)>::empty();
    let kv1 = aggregate_spec(lines1, pattern, e)->Ok_0;
    let kv2 = aggregate_spec(lines2, pattern, e)->Ok_0;
    assert(unique_keys(e));
    lemma_aggregate_character(lines1, pattern, e, label);
    lemma_aggregate_character(lines2, pattern, e, label);
    assert(!as_map(e).dom().contains(label));
    assert forall|x: int, d: i64|
        0 <= x < lines1.len() && #[trigger] row_yields(lines1[x], pattern, label, d) implies
        exists|y: int, d2: i64|
            0 <= y < lines2.len() && #[trigger] row_yields(lines2[y], pattern, label, d2) && d2
                == d by {
        assert(lines1.contains(lines1[x]));
        assert(lines2.contains(lines1[x]));
        let y = choose|y: int| 0 <= y < lines2.len() && lines2[y] == lines1[x];
        assert(row_yields(lines2[y], pattern, label, d));
    }
    assert forall|x: int, d: i64|
        0 <= x < lines2.len() && #[trigger] row_yields(lines2[x], pattern, label, d) implies
        exists|y: int, d2: i64|
            0 <= y < lines1.len() && #[trigger] row_yields(lines1[y], pattern, label, d2) && d2
                == d by {
        assert(lines2.contains(lines2[x]));
        assert(lines1.contains(lines2[x]));
        let y = choose|y: int| 0 <= y < lines1.len() && lines1[y] == lines2[x];
        assert(row_yields(lines1[y], pattern, label, d));
    }
    if as_map(kv1).dom().contains(label) {
        assert(as_map(kv2).dom().contains(label));
        assert(as_map(kv1)[label] <= as_map(kv2)[label]);
        assert(as_map(kv2)[label] <= as_map(kv1)[label]);
    }
    if as_map(kv2).dom().contains(label) {
        assert(as_map(kv1).dom().contains(label));
    }
}

/// Reordering or duplicating snapshot rows does not change the
/// aggregation: two listings with the same rows, one of which
/// aggregates successfully, aggregate to the same label bindings.
pub proof fn lemma_aggregate_order_independent(
    lines1: Seq<Seq<char>>,
    lines2: Seq<Seq<char>>,
    pattern: Seq<char>,
)
    requires
        forall|r: Seq<char>| lines1.contains(r) <==> lines2.contains(r),
        aggregate_spec(lines1, pattern, Seq::empty()) is Ok,
    ensures
        aggregate_spec(lines2, pattern, Seq::empty()) is Ok,
        aggregate_spec(lines1, pattern, Seq::empty()) matches Ok(kv1) ==> {
            &&& aggregate_spec(lines2, pattern, Seq::empty()) matches Ok(kv2)
            &&& as_map(kv1) == as_map(kv2)
        },
{
    let e = Seq::<(Seq<char>, i64)>::empty();
    lemma_aggregate_ok_all(lines1, pattern, e);
    lemma_aggregate_ok_all(lines2, pattern, e);
    assert forall|x: int| 0 <= x < lines2.len() implies snap_row_spec(
        #[trigger] lines2[x],
        pattern,
    ) is Ok by {
        assert(lines2.contains(lines2[x]));
        assert(lines1.contains(lines2[x]));
        let y = choose|y: int| 0 <= y < lines1.len() && lines1[y] == lines2[x];
        assert(snap_row_spec(lines1[y], pattern) is Ok);
    }
    let kv1 = aggregate_spec(lines1, pattern, e)->Ok_0;
    let kv2 = aggregate_spec(lines2, pattern, e)->Ok_0;
    assert forall|label: Seq<char>| #![auto]
        as_map(kv1).dom().contains(label) == as_map(kv2).dom().contains(label) by {
        lemma_character_transfer(lines1, lines2, pattern, label);
    }
    assert(as_map(kv1).dom() =~= as_map(kv2).dom());
    assert forall|label: Seq<char>| #![auto]
        as_map(kv1).dom().contains(label) implies as_map(kv1)[label] == as_map(kv2)[label] by {
        lemma_character_transfer(lines1, lines2, pattern, label);
    }
    assert(as_map(kv1) =~= as_map(kv2));
}

} // verus!

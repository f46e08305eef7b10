//! Change detection: compares the previous baseline snapshot to a freshly
//! scanned one, producing disjoint created/changed/deleted batches, then
//! correlates created/deleted pairs sharing a modified timestamp into
//! renames, greedily and first-match, in snapshot order.
use vstd::prelude::*;

use crate::notify::{qualifies, qualifies_spec, NotifyFilters};
use crate::search_dir::{contains_name, unique_names, File, RenamedFileEntry};

verus! {

/// Index of the first file in `s` whose path is `n`, or -1 when none is.
pub open spec fn index_of_name(s: Seq<File>, n: Seq<char>) -> int
    decreases s.len(),
{
    if s.len() == 0 {
        -1
    } else if s[0].name@ == n {
        0
    } else {
        let r = index_of_name(s.drop_first(), n);
        if r == -1 {
            -1
        } else {
            r + 1
        }
    }
}

/// The first file in `s` whose path is `n`; meaningful only when `s`
/// contains that path.
pub open spec fn find_by_name(s: Seq<File>, n: Seq<char>) -> File {
    s[index_of_name(s, n)]
}

pub proof fn lemma_index_of_name(s: Seq<File>, n: Seq<char>)
    ensures
        index_of_name(s, n) == -1 <==> !contains_name(s, n),
        contains_name(s, n) ==> {
            let k = index_of_name(s, n);
            &&& 0 <= k < s.len()
            &&& s[k].name@ == n
            &&& forall|m: int| 0 <= m < k ==> #[trigger] s[m].name@ != n
        },
    decreases s.len(),
{
    if s.len() == 0 {
        assert(!contains_name(s, n));
    } else if s[0].name@ == n {
        assert(contains_name(s, n));
    } else {
        let rest = s.drop_first();
        lemma_index_of_name(rest, n);
        assert(contains_name(s, n) == contains_name(rest, n)) by {
            if contains_name(s, n) {
                let m = choose|m: int| 0 <= m < s.len() && #[trigger] s[m].name@ == n;
                assert(rest[m - 1].name@ == n);
            }
            if contains_name(rest, n) {
                let m = choose|m: int| 0 <= m < rest.len() && #[trigger] rest[m].name@ == n;
                assert(s[m + 1].name@ == n);
            }
        }
        if contains_name(rest, n) {
            let k = index_of_name(rest, n);
            assert(forall|m: int| 1 <= m < k + 1 ==> #[trigger] s[m].name@ == rest[m - 1].name@);
        }
    }
}

/// The first index with path `n` is the unique position with that path that
/// no earlier position shares.
pub proof fn lemma_index_of_name_at(s: Seq<File>, n: Seq<char>, k: int)
    requires
        0 <= k < s.len(),
        s[k].name@ == n,
        forall|m: int| 0 <= m < k ==> #[trigger] s[m].name@ != n,
    ensures
        index_of_name(s, n) == k,
        find_by_name(s, n) == s[k],
{
    assert(contains_name(s, n));
    lemma_index_of_name(s, n);
    let j = index_of_name(s, n);
    if j < k {
        assert(s[j].name@ != n);
    }
    if j > k {
        assert(s[k].name@ != n);
    }
}

/// In a duplicate-free sequence, lookup by a member's own path finds it.
pub proof fn lemma_find_self(s: Seq<File>, k: int)
    requires
        unique_names(s),
        0 <= k < s.len(),
    ensures
        index_of_name(s, s[k].name@) == k,
        find_by_name(s, s[k].name@) == s[k],
{
    lemma_index_of_name_at(s, s[k].name@, k);
}

/// The files of `s`, in order, whose paths do not occur in `other`.
pub open spec fn missing_from(other: Seq<File>, s: Seq<File>) -> Seq<File>
    decreases s.len(),
{
    if s.len() == 0 {
        Seq::empty()
    } else {
        (if !contains_name(other, s[0].name@) {
            seq![s[0]]
        } else {
            Seq::empty()
        }) + missing_from(other, s.drop_first())
    }
}

/// The files of `latest`, in order, that are also in `baseline` and whose
/// change from the baseline record qualifies under the watched dimensions.
pub open spec fn changed_spec(base: Seq<File>, lat: Seq<File>, mask: NotifyFilters) -> Seq<File>
    decreases lat.len(),
{
    if lat.len() == 0 {
        Seq::empty()
    } else {
        (if contains_name(base, lat[0].name@) && qualifies_spec(
            find_by_name(base, lat[0].name@),
            lat[0],
            mask,
        ) {
            seq![lat[0]]
        } else {
            Seq::empty()
        }) + changed_spec(base, lat.drop_first(), mask)
    }
}

/// Which paths the missing-file selection holds: those of `s` and not of
/// `other`; and every record it holds is drawn from `s`.
pub proof fn lemma_missing_names(other: Seq<File>, s: Seq<File>)
    ensures
        forall|n: Seq<char>|
            contains_name(missing_from(other, s), n) <==> (contains_name(s, n) && !contains_name(
                other,
                n,
            )),
        forall|k: int|
            0 <= k < missing_from(other, s).len() ==> s.contains(
                #[trigger] missing_from(other, s)[k],
            ),
    decreases s.len(),
{
    if s.len() == 0 {
        assert(forall|n: Seq<char>| !contains_name(missing_from(other, s), n)) by {
            assert(missing_from(other, s).len() == 0);
        }
    } else {
        let rest = s.drop_first();
        lemma_missing_names(other, rest);
        let d = missing_from(other, s);
        let drest = missing_from(other, rest);
        assert forall|n: Seq<char>|
            contains_name(d, n) <==> (contains_name(s, n) && !contains_name(other, n)) by {
            if contains_name(d, n) {
                let m = choose|m: int| 0 <= m < d.len() && #[trigger] d[m].name@ == n;
                if !contains_name(other, s[0].name@) {
                    if m == 0 {
                        assert(s[0].name@ == n);
                    } else {
                        assert(drest[m - 1].name@ == n);
                        let q = choose|q: int|
                            0 <= q < rest.len() && #[trigger] rest[q].name@ == n;
                        assert(s[q + 1].name@ == n);
                    }
                } else {
                    assert(drest[m].name@ == n);
                    let q = choose|q: int| 0 <= q < rest.len() && #[trigger] rest[q].name@ == n;
                    assert(s[q + 1].name@ == n);
                }
            }
            if contains_name(s, n) && !contains_name(other, n) {
                let m = choose|m: int| 0 <= m < s.len() && #[trigger] s[m].name@ == n;
                if m == 0 {
                    assert(!contains_name(other, s[0].name@));
                    assert(d[0].name@ == n);
                } else {
                    assert(rest[m - 1].name@ == n);
                    assert(contains_name(drest, n));
                    let q = choose|q: int| 0 <= q < drest.len() && #[trigger] drest[q].name@ == n;
                    if !contains_name(other, s[0].name@) {
                        assert(d[q + 1].name@ == n);
                    } else {
                        assert(d[q].name@ == n);
                    }
                }
            }
        }
        assert forall|k: int| 0 <= k < d.len() implies s.contains(d[k]) by {
            assert(forall|q: int| 0 <= q < rest.len() ==> rest[q] == #[trigger] s[q + 1]);
            if !contains_name(other, s[0].name@) {
                if k == 0 {
                    assert(s[0] == d[0]);
                    assert(s.contains(s[0]));
                } else {
                    assert(d[k] == drest[k - 1]);
                    assert(rest.contains(d[k]));
                    let q = choose|q: int| 0 <= q < rest.len() && rest[q] == d[k];
                    assert(s[q + 1] == d[k]);
                }
            } else {
                assert(d[k] == drest[k]);
                assert(rest.contains(d[k]));
                let q = choose|q: int| 0 <= q < rest.len() && rest[q] == d[k];
                assert(s[q + 1] == d[k]);
            }
        }
    }
}

/// Which paths the changed selection holds: only paths present in both
/// snapshots; and every record it holds is drawn from `latest`.
pub proof fn lemma_changed_names(base: Seq<File>, lat: Seq<File>, mask: NotifyFilters)
    ensures
        forall|n: Seq<char>|
            contains_name(changed_spec(base, lat, mask), n) ==> (contains_name(lat, n)
                && contains_name(base, n)),
        forall|k: int|
            0 <= k < changed_spec(base, lat, mask).len() ==> lat.contains(
                #[trigger] changed_spec(base, lat, mask)[k],
            ),
    decreases lat.len(),
{
    if lat.len() == 0 {
        assert(forall|n: Seq<char>| !contains_name(changed_spec(base, lat, mask), n)) by {
            assert(changed_spec(base, lat, mask).len() == 0);
        }
    } else {
        let rest = lat.drop_first();
        lemma_changed_names(base, rest, mask);
        let d = changed_spec(base, lat, mask);
        let drest = changed_spec(base, rest, mask);
        let kept = contains_name(base, lat[0].name@) && qualifies_spec(
            find_by_name(base, lat[0].name@),
            lat[0],
            mask,
        );
        assert forall|n: Seq<char>|
            contains_name(d, n) implies (contains_name(lat, n) && contains_name(base, n)) by {
            let m = choose|m: int| 0 <= m < d.len() && #[trigger] d[m].name@ == n;
            if kept && m == 0 {
                assert(lat[0].name@ == n);
            } else {
                let m2: int = if kept {
                    m - 1
                } else {
                    m
                };
                assert(drest[m2].name@ == n);
                let q = choose|q: int| 0 <= q < rest.len() && #[trigger] rest[q].name@ == n;
                assert(lat[q + 1].name@ == n);
            }
        }
        assert forall|k: int| 0 <= k < d.len() implies lat.contains(d[k]) by {
            assert(forall|q: int| 0 <= q < rest.len() ==> rest[q] == #[trigger] lat[q + 1]);
            if kept && k == 0 {
                assert(lat.contains(lat[0]));
            } else {
                let k2: int = if kept {
                    k - 1
                } else {
                    k
                };
                assert(d[k] == drest[k2]);
                assert(rest.contains(d[k]));
                let q = choose|q: int| 0 <= q < rest.len() && rest[q] == d[k];
                assert(lat[q + 1] == d[k]);
            }
        }
    }
}

/// First index in `files` holding the path `name`.
fn find_index_by_name(files: &Vec<File>, name: &String) -> (r: Option<usize>)
    ensures
        match r {
            Option::Some(k) => contains_name(files@, name@) && k as int == index_of_name(
                files@,
                name@,
            ),
            Option::None => !contains_name(files@, name@),
        },
{
    let mut i: usize = 0;
    while i < files.len()
        invariant
            0 <= i <= files.len(),
            forall|m: int| 0 <= m < i ==> #[trigger] files@[m].name@ != name@,
        decreases files.len() - i,
    {
        if files[i].name.eq(name) {
            proof {
                lemma_index_of_name_at(files@, name@, i as int);
            }
            return Option::Some(i);
        }
        i += 1;
    }
    proof {
        if contains_name(files@, name@) {
            let m = choose|m: int| 0 <= m < files@.len() && #[trigger] files@[m].name@ == name@;
            assert(files@[m].name@ != name@);
        }
    }
    Option::None
}

/// The files of `latest` whose paths are new against `baseline`
/// (`created = latest - baseline`); with the arguments swapped, the files of
/// `baseline` that vanished (`deleted = baseline - latest`).
pub fn select_missing(other: &Vec<File>, s: &Vec<File>) -> (r: Vec<File>)
    ensures
        r@ == missing_from(other@, s@),
{
    let mut acc: Vec<File> = Vec::new();
    let mut i: usize = 0;
    proof {
        assert(s@.skip(0) =~= s@);
        assert(acc@ + missing_from(other@, s@.skip(0)) =~= missing_from(other@, s@));
    }
    while i < s.len()
        invariant
            0 <= i <= s.len(),
            acc@ + missing_from(other@, s@.skip(i as int)) == missing_from(other@, s@),
        decreases s.len() - i,
    {
        let ghost pre = acc@;
        proof {
            assert(s@.skip(i as int).drop_first() =~= s@.skip(i as int + 1));
            assert(s@.skip(i as int)[0] == s@[i as int]);
        }
        if !crate::search_dir::contains_name_exec(other, &s[i].name) {
            acc.push(s[i].duplicate());
            proof {
                assert(acc@ =~= pre + seq![s@[i as int]]);
                assert(acc@ + missing_from(other@, s@.skip(i as int + 1)) =~= missing_from(
                    other@,
                    s@,
                ));
            }
        } else {
            proof {
                assert(acc@ + missing_from(other@, s@.skip(i as int + 1)) =~= missing_from(
                    other@,
                    s@,
                ));
            }
        }
        i += 1;
    }
    proof {
        assert(s@.skip(s@.len() as int) =~= Seq::<File>::empty());
        assert(acc@ =~= missing_from(other@, s@));
    }
    acc
}

/// The files present in both snapshots whose change qualifies under the
/// watched dimensions (`changed`), with records drawn from `latest`.
pub fn select_changed(baseline: &Vec<File>, latest: &Vec<File>, mask: NotifyFilters) -> (r: Vec<
    File,
>)
    ensures
        r@ == changed_spec(baseline@, latest@, mask),
{
    let mut acc: Vec<File> = Vec::new();
    let mut i: usize = 0;
    proof {
        assert(latest@.skip(0) =~= latest@);
        assert(acc@ + changed_spec(baseline@, latest@.skip(0), mask) =~= changed_spec(
            baseline@,
            latest@,
            mask,
        ));
    }
    while i < latest.len()
        invariant
            0 <= i <= latest.len(),
            acc@ + changed_spec(baseline@, latest@.skip(i as int), mask) == changed_spec(
                baseline@,
                latest@,
                mask,
            ),
        decreases latest.len() - i,
    {
        let ghost pre = acc@;
        proof {
            assert(latest@.skip(i as int).drop_first() =~= latest@.skip(i as int + 1));
            assert(latest@.skip(i as int)[0] == latest@[i as int]);
        }
        let kept = match find_index_by_name(baseline, &latest[i].name) {
            Option::Some(k) => {
                proof {
                    lemma_index_of_name(baseline@, latest@[i as int].name@);
                }
                qualifies(&baseline[k], &latest[i], mask)
            },
            Option::None => false,
        };
        if kept {
            acc.push(latest[i].duplicate());
            proof {
                assert(acc@ =~= pre + seq![latest@[i as int]]);
                assert(acc@ + changed_spec(baseline@, latest@.skip(i as int + 1), mask)
                    =~= changed_spec(baseline@, latest@, mask));
            }
        } else {
            proof {
                assert(acc@ + changed_spec(baseline@, latest@.skip(i as int + 1), mask)
                    =~= changed_spec(baseline@, latest@, mask));
            }
        }
        i += 1;
    }
    proof {
        assert(latest@.skip(latest@.len() as int) =~= Seq::<File>::empty());
        assert(acc@ =~= changed_spec(baseline@, latest@, mask));
    }
    acc
}

/// Whether slot `i` of the consumed-flags sequence is still available.
pub open spec fn avail(used: Seq<bool>, i: int) -> bool {
    !(0 <= i < used.len() && used[i])
}

/// Index of the first deleted candidate at or after `i` that is still
/// available and has modified timestamp `m`, or -1 when none is.
pub open spec fn first_match_from(ds: Seq<File>, used: Seq<bool>, m: Option<u64>, i: int) -> int
    decreases ds.len() - i,
{
    if i < 0 || i >= ds.len() {
        -1
    } else if avail(used, i) && ds[i].last_modified == m {
        i
    } else {
        first_match_from(ds, used, m, i + 1)
    }
}

pub open spec fn all_unused(len: nat) -> Seq<bool> {
    Seq::new(len, |i: int| false)
}

/// Greedy first-match rename correlation: each created candidate, in order,
/// is paired with the first not-yet-consumed deleted candidate whose modified
/// timestamp equals its own; a consumed candidate is unavailable to later
/// created candidates.
pub open spec fn greedy_renames(
    cs: Seq<File>,
    ds: Seq<File>,
    used: Seq<bool>,
) -> Seq<RenamedFileEntry>
    decreases cs.len(),
{
    if cs.len() == 0 {
        Seq::empty()
    } else {
        let j = first_match_from(ds, used, cs[0].last_modified, 0);
        if j >= 0 {
            seq![RenamedFileEntry(cs[0].name, ds[j].name)] + greedy_renames(
                cs.drop_first(),
                ds,
                used.update(j, true),
            )
        } else {
            greedy_renames(cs.drop_first(), ds, used)
        }
    }
}

/// The renames of one cycle: greedy correlation of the created candidates
/// (`latest - baseline`, in latest order) against the deleted candidates
/// (`baseline - latest`, in baseline order), none consumed yet.
pub open spec fn renames_of(base: Seq<File>, lat: Seq<File>) -> Seq<RenamedFileEntry> {
    greedy_renames(
        missing_from(base, lat),
        missing_from(lat, base),
        all_unused(missing_from(lat, base).len()),
    )
}

pub open spec fn rename_has_new(rs: Seq<RenamedFileEntry>, n: Seq<char>) -> bool {
    exists|k: int| 0 <= k < rs.len() && #[trigger] rs[k].0@ == n
}

pub open spec fn rename_has_old(rs: Seq<RenamedFileEntry>, n: Seq<char>) -> bool {
    exists|k: int| 0 <= k < rs.len() && #[trigger] rs[k].1@ == n
}

/// The files of `s`, in order, whose paths are not the new name of any pair.
pub open spec fn without_new_names(rs: Seq<RenamedFileEntry>, s: Seq<File>) -> Seq<File>
    decreases s.len(),
{
    if s.len() == 0 {
        Seq::empty()
    } else {
        (if !rename_has_new(rs, s[0].name@) {
            seq![s[0]]
        } else {
            Seq::empty()
        }) + without_new_names(rs, s.drop_first())
    }
}

/// The files of `s`, in order, whose paths are not the old name of any pair.
pub open spec fn without_old_names(rs: Seq<RenamedFileEntry>, s: Seq<File>) -> Seq<File>
    decreases s.len(),
{
    if s.len() == 0 {
        Seq::empty()
    } else {
        (if !rename_has_old(rs, s[0].name@) {
            seq![s[0]]
        } else {
            Seq::empty()
        }) + without_old_names(rs, s.drop_first())
    }
}

proof fn lemma_first_match_found(ds: Seq<File>, used: Seq<bool>, m: Option<u64>, i: int, k: int)
    requires
        0 <= i <= k <= ds.len(),
        forall|q: int|
            i <= q < k ==> !(avail(used, q) && #[trigger] ds[q].last_modified == m),
        k < ds.len() ==> avail(used, k) && ds[k].last_modified == m,
    ensures
        first_match_from(ds, used, m, i) == if k < ds.len() {
            k
        } else {
            -1
        },
    decreases k - i,
{
    if i < k {
        lemma_first_match_found(ds, used, m, i + 1, k);
    }
}

/// Every pair's new name is a created candidate's path and its old name a
/// deleted candidate's path.
pub proof fn lemma_greedy_names(cs: Seq<File>, ds: Seq<File>, used: Seq<bool>)
    ensures
        forall|n: Seq<char>| rename_has_new(greedy_renames(cs, ds, used), n) ==> contains_name(cs, n),
        forall|n: Seq<char>| rename_has_old(greedy_renames(cs, ds, used), n) ==> contains_name(ds, n),
    decreases cs.len(),
{
    if cs.len() == 0 {
    } else {
        let rest = cs.drop_first();
        let j = first_match_from(ds, used, cs[0].last_modified, 0);
        let g = greedy_renames(cs, ds, used);
        assert(forall|q: int| 0 <= q < rest.len() ==> rest[q] == #[trigger] cs[q + 1]);
        if j >= 0 {
            lemma_first_match_bounds(ds, used, cs[0].last_modified, 0);
            lemma_greedy_names(rest, ds, used.update(j, true));
            let grest = greedy_renames(rest, ds, used.update(j, true));
            assert forall|n: Seq<char>| rename_has_new(g, n) implies contains_name(cs, n) by {
                let k = choose|k: int| 0 <= k < g.len() && #[trigger] g[k].0@ == n;
                if k == 0 {
                    assert(cs[0].name@ == n);
                } else {
                    assert(grest[k - 1].0@ == n);
                    assert(contains_name(rest, n));
                    let q = choose|q: int| 0 <= q < rest.len() && #[trigger] rest[q].name@ == n;
                    assert(cs[q + 1].name@ == n);
                }
            }
            assert forall|n: Seq<char>| rename_has_old(g, n) implies contains_name(ds, n) by {
                let k = choose|k: int| 0 <= k < g.len() && #[trigger] g[k].1@ == n;
                if k == 0 {
                    assert(ds[j].name@ == n);
                } else {
                    assert(grest[k - 1].1@ == n);
                }
            }
        } else {
            lemma_greedy_names(rest, ds, used);
            let grest = greedy_renames(rest, ds, used);
            assert forall|n: Seq<char>| rename_has_new(g, n) implies contains_name(cs, n) by {
                let k = choose|k: int| 0 <= k < g.len() && #[trigger] g[k].0@ == n;
                assert(grest[k].0@ == n);
                assert(contains_name(rest, n));
                let q = choose|q: int| 0 <= q < rest.len() && #[trigger] rest[q].name@ == n;
                assert(cs[q + 1].name@ == n);
            }
            assert forall|n: Seq<char>| rename_has_old(g, n) implies contains_name(ds, n) by {
                let k = choose|k: int| 0 <= k < g.len() && #[trigger] g[k].1@ == n;
                assert(grest[k].1@ == n);
            }
        }
    }
}

proof fn lemma_first_match_bounds(ds: Seq<File>, used: Seq<bool>, m: Option<u64>, i: int)
    ensures
        first_match_from(ds, used, m, i) == -1 || (i <= first_match_from(ds, used, m, i)
            < ds.len() && ds[first_match_from(ds, used, m, i)].last_modified == m && avail(
            used,
            first_match_from(ds, used, m, i),
        )),
    decreases ds.len() - i,
{
    if 0 <= i < ds.len() {
        if !(avail(used, i) && ds[i].last_modified == m) {
            lemma_first_match_bounds(ds, used, m, i + 1);
        }
    }
}

/// Which paths survive the new-name pruning, and that records come from `s`.
pub proof fn lemma_without_new_names(rs: Seq<RenamedFileEntry>, s: Seq<File>)
    ensures
        forall|n: Seq<char>|
            contains_name(without_new_names(rs, s), n) <==> (contains_name(s, n)
                && !rename_has_new(rs, n)),
        forall|k: int|
            0 <= k < without_new_names(rs, s).len() ==> s.contains(
                #[trigger] without_new_names(rs, s)[k],
            ),
    decreases s.len(),
{
    if s.len() == 0 {
        assert(forall|n: Seq<char>| !contains_name(without_new_names(rs, s), n)) by {
            assert(without_new_names(rs, s).len() == 0);
        }
    } else {
        let rest = s.drop_first();
        lemma_without_new_names(rs, rest);
        let d = without_new_names(rs, s);
        let drest = without_new_names(rs, rest);
        let kept = !rename_has_new(rs, s[0].name@);
        assert(forall|q: int| 0 <= q < rest.len() ==> rest[q] == #[trigger] s[q + 1]);
        assert forall|n: Seq<char>|
            contains_name(d, n) <==> (contains_name(s, n) && !rename_has_new(rs, n)) by {
            if contains_name(d, n) {
                let m = choose|m: int| 0 <= m < d.len() && #[trigger] d[m].name@ == n;
                if kept && m == 0 {
                    assert(s[0].name@ == n);
                } else {
                    let m2: int = if kept { m - 1 } else { m };
                    assert(drest[m2].name@ == n);
                    let q = choose|q: int| 0 <= q < rest.len() && #[trigger] rest[q].name@ == n;
                    assert(s[q + 1].name@ == n);
                }
            }
            if contains_name(s, n) && !rename_has_new(rs, n) {
                let m = choose|m: int| 0 <= m < s.len() && #[trigger] s[m].name@ == n;
                if m == 0 {
                    assert(d[0].name@ == n);
                } else {
                    assert(rest[m - 1].name@ == n);
                    assert(contains_name(drest, n));
                    let q = choose|q: int| 0 <= q < drest.len() && #[trigger] drest[q].name@ == n;
                    if kept {
                        assert(d[q + 1].name@ == n);
                    } else {
                        assert(d[q].name@ == n);
                    }
                }
            }
        }
        assert forall|k: int| 0 <= k < d.len() implies s.contains(d[k]) by {
            if kept && k == 0 {
                assert(s.contains(s[0]));
            } else {
                let k2: int = if kept { k - 1 } else { k };
                assert(d[k] == drest[k2]);
                assert(rest.contains(d[k]));
                let q = choose|q: int| 0 <= q < rest.len() && rest[q] == d[k];
                assert(s[q + 1] == d[k]);
            }
        }
    }
}

/// Which paths survive the old-name pruning, and that records come from `s`.
pub proof fn lemma_without_old_names(rs: Seq<RenamedFileEntry>, s: Seq<File>)
    ensures
        forall|n: Seq<char>|
            contains_name(without_old_names(rs, s), n) <==> (contains_name(s, n)
                && !rename_has_old(rs, n)),
        forall|k: int|
            0 <= k < without_old_names(rs, s).len() ==> s.contains(
                #[trigger] without_old_names(rs, s)[k],
            ),
    decreases s.len(),
{
    if s.len() == 0 {
        assert(forall|n: Seq<char>| !contains_name(without_old_names(rs, s), n)) by {
            assert(without_old_names(rs, s).len() == 0);
        }
    } else {
        let rest = s.drop_first();
        lemma_without_old_names(rs, rest);
        let d = without_old_names(rs, s);
        let drest = without_old_names(rs, rest);
        let kept = !rename_has_old(rs, s[0].name@);
        assert(forall|q: int| 0 <= q < rest.len() ==> rest[q] == #[trigger] s[q + 1]);
        assert forall|n: Seq<char>|
            contains_name(d, n) <==> (contains_name(s, n) && !rename_has_old(rs, n)) by {
            if contains_name(d, n) {
                let m = choose|m: int| 0 <= m < d.len() && #[trigger] d[m].name@ == n;
                if kept && m == 0 {
                    assert(s[0].name@ == n);
                } else {
                    let m2: int = if kept { m - 1 } else { m };
                    assert(drest[m2].name@ == n);
                    let q = choose|q: int| 0 <= q < rest.len() && #[trigger] rest[q].name@ == n;
                    assert(s[q + 1].name@ == n);
                }
            }
            if contains_name(s, n) && !rename_has_old(rs, n) {
                let m = choose|m: int| 0 <= m < s.len() && #[trigger] s[m].name@ == n;
                if m == 0 {
                    assert(d[0].name@ == n);
                } else {
                    assert(rest[m - 1].name@ == n);
                    assert(contains_name(drest, n));
                    let q = choose|q: int| 0 <= q < drest.len() && #[trigger] drest[q].name@ == n;
                    if kept {
                        assert(d[q + 1].name@ == n);
                    } else {
                        assert(d[q].name@ == n);
                    }
                }
            }
        }
        assert forall|k: int| 0 <= k < d.len() implies s.contains(d[k]) by {
            if kept && k == 0 {
                assert(s.contains(s[0]));
            } else {
                let k2: int = if kept { k - 1 } else { k };
                assert(d[k] == drest[k2]);
                assert(rest.contains(d[k]));
                let q = choose|q: int| 0 <= q < rest.len() && rest[q] == d[k];
                assert(s[q + 1] == d[k]);
            }
        }
    }
}

/// Pairs created and deleted candidates sharing a modified timestamp,
/// greedily and first-match in candidate order.
pub fn correlate_renames(created: &Vec<File>, deleted: &Vec<File>) -> (r: Vec<RenamedFileEntry>)
    ensures
        r@ == greedy_renames(created@, deleted@, all_unused(deleted@.len())),
{
    let mut used: Vec<bool> = vec![false; deleted.len()];
    let mut pairs: Vec<RenamedFileEntry> = Vec::new();
    let mut i: usize = 0;
    proof {
        assert(used@ =~= all_unused(deleted@.len()));
        assert(created@.skip(0) =~= created@);
        assert(pairs@ + greedy_renames(created@.skip(0), deleted@, used@) =~= greedy_renames(
            created@,
            deleted@,
            all_unused(deleted@.len()),
        ));
    }
    while i < created.len()
        invariant
            0 <= i <= created.len(),
            used@.len() == deleted@.len(),
            pairs@ + greedy_renames(created@.skip(i as int), deleted@, used@) == greedy_renames(
                created@,
                deleted@,
                all_unused(deleted@.len()),
            ),
        decreases created.len() - i,
    {
        let ghost pre_pairs = pairs@;
        let ghost pre_used = used@;
        proof {
            assert(created@.skip(i as int).drop_first() =~= created@.skip(i as int + 1));
            assert(created@.skip(i as int)[0] == created@[i as int]);
        }
        let mut j: usize = 0;
        let mut found = false;
        while j < deleted.len() && !found
            invariant
                0 <= j <= deleted.len(),
                used@ == pre_used,
                used@.len() == deleted@.len(),
                i < created.len(),
                !found ==> forall|q: int|
                    0 <= q < j ==> !(avail(used@, q) && #[trigger] deleted@[q].last_modified
                        == created@[i as int].last_modified),
                found ==> j < deleted@.len() && avail(used@, j as int)
                    && deleted@[j as int].last_modified == created@[i as int].last_modified
                    && forall|q: int|
                    0 <= q < j ==> !(avail(used@, q) && #[trigger] deleted@[q].last_modified
                        == created@[i as int].last_modified),
            decreases deleted.len() - j + (if found { 0int } else { 1int }),
    {
            if !used[j] && crate::notify::opt_eq(deleted[j].last_modified, created[i].last_modified)
            {
                found = true;
            } else {
                j += 1;
            }
        }
        if found {
            proof {
                lemma_first_match_found(
                    deleted@,
                    used@,
                    created@[i as int].last_modified,
                    0,
                    j as int,
                );
            }
            pairs.push(RenamedFileEntry(created[i].name.clone(), deleted[j].name.clone()));
            used[j] = true;
            proof {
                assert(used@ =~= pre_used.update(j as int, true));
                assert(pairs@ =~= pre_pairs + seq![
                    RenamedFileEntry(created@[i as int].name, deleted@[j as int].name),
                ]);
                assert(pairs@ + greedy_renames(created@.skip(i as int + 1), deleted@, used@)
                    =~= greedy_renames(created@, deleted@, all_unused(deleted@.len())));
            }
        } else {
            proof {
                lemma_first_match_found(
                    deleted@,
                    used@,
                    created@[i as int].last_modified,
                    0,
                    deleted@.len() as int,
                );
                assert(pairs@ + greedy_renames(created@.skip(i as int + 1), deleted@, used@)
                    =~= greedy_renames(created@, deleted@, all_unused(deleted@.len())));
            }
        }
        i += 1;
    }
    proof {
        assert(created@.skip(created@.len() as int) =~= Seq::<File>::empty());
        assert(pairs@ =~= greedy_renames(created@, deleted@, all_unused(deleted@.len())));
    }
    pairs
}

fn rename_has_new_exec(rs: &Vec<RenamedFileEntry>, n: &String) -> (r: bool)
    ensures
        r == rename_has_new(rs@, n@),
{
    let mut k: usize = 0;
    while k < rs.len()
        invariant
            0 <= k <= rs.len(),
            forall|m: int| 0 <= m < k ==> #[trigger] rs@[m].0@ != n@,
        decreases rs.len() - k,
    {
        if rs[k].0.eq(n) {
            assert(rs@[k as int].0@ == n@);
            return true;
        }
        k += 1;
    }
    proof {
        if rename_has_new(rs@, n@) {
            let m = choose|m: int| 0 <= m < rs@.len() && #[trigger] rs@[m].0@ == n@;
            assert(rs@[m].0@ != n@);
        }
    }
    false
}

fn rename_has_old_exec(rs: &Vec<RenamedFileEntry>, n: &String) -> (r: bool)
    ensures
        r == rename_has_old(rs@, n@),
{
    let mut k: usize = 0;
    while k < rs.len()
        invariant
            0 <= k <= rs.len(),
            forall|m: int| 0 <= m < k ==> #[trigger] rs@[m].1@ != n@,
        decreases rs.len() - k,
    {
        if rs[k].1.eq(n) {
            assert(rs@[k as int].1@ == n@);
            return true;
        }
        k += 1;
    }
    proof {
        if rename_has_old(rs@, n@) {
            let m = choose|m: int| 0 <= m < rs@.len() && #[trigger] rs@[m].1@ == n@;
            assert(rs@[m].1@ != n@);
        }
    }
    false
}

fn prune_new_names(rs: &Vec<RenamedFileEntry>, s: &Vec<File>) -> (r: Vec<File>)
    ensures
        r@ == without_new_names(rs@, s@),
{
    let mut acc: Vec<File> = Vec::new();
    let mut i: usize = 0;
    proof {
        assert(s@.skip(0) =~= s@);
        assert(acc@ + without_new_names(rs@, s@.skip(0)) =~= without_new_names(rs@, s@));
    }
    while i < s.len()
        invariant
            0 <= i <= s.len(),
            acc@ + without_new_names(rs@, s@.skip(i as int)) == without_new_names(rs@, s@),
        decreases s.len() - i,
    {
        let ghost pre = acc@;
        proof {
            assert(s@.skip(i as int).drop_first() =~= s@.skip(i as int + 1));
            assert(s@.skip(i as int)[0] == s@[i as int]);
        }
        if !rename_has_new_exec(rs, &s[i].name) {
            acc.push(s[i].duplicate());
            proof {
                assert(acc@ =~= pre + seq![s@[i as int]]);
                assert(acc@ + without_new_names(rs@, s@.skip(i as int + 1)) =~= without_new_names(
                    rs@,
                    s@,
                ));
            }
        } else {
            proof {
                assert(acc@ + without_new_names(rs@, s@.skip(i as int + 1)) =~= without_new_names(
                    rs@,
                    s@,
                ));
            }
        }
        i += 1;
    }
    proof {
        assert(s@.skip(s@.len() as int) =~= Seq::<File>::empty());
        assert(acc@ =~= without_new_names(rs@, s@));
    }
    acc
}

fn prune_old_names(rs: &Vec<RenamedFileEntry>, s: &Vec<File>) -> (r: Vec<File>)
    ensures
        r@ == without_old_names(rs@, s@),
{
    let mut acc: Vec<File> = Vec::new();
    let mut i: usize = 0;
    proof {
        assert(s@.skip(0) =~= s@);
        assert(acc@ + without_old_names(rs@, s@.skip(0)) =~= without_old_names(rs@, s@));
    }
    while i < s.len()
        invariant
            0 <= i <= s.len(),
            acc@ + without_old_names(rs@, s@.skip(i as int)) == without_old_names(rs@, s@),
        decreases s.len() - i,
    {
        let ghost pre = acc@;
        proof {
            assert(s@.skip(i as int).drop_first() =~= s@.skip(i as int + 1));
            assert(s@.skip(i as int)[0] == s@[i as int]);
        }
        if !rename_has_old_exec(rs, &s[i].name) {
            acc.push(s[i].duplicate());
            proof {
                assert(acc@ =~= pre + seq![s@[i as int]]);
                assert(acc@ + without_old_names(rs@, s@.skip(i as int + 1)) =~= without_old_names(
                    rs@,
                    s@,
                ));
            }
        } else {
            proof {
                assert(acc@ + without_old_names(rs@, s@.skip(i as int + 1)) =~= without_old_names(
                    rs@,
                    s@,
                ));
            }
        }
        i += 1;
    }
    proof {
        assert(s@.skip(s@.len() as int) =~= Seq::<File>::empty());
        assert(acc@ =~= without_old_names(rs@, s@));
    }
    acc
}

/// The four classifications of one detection cycle.
pub open spec fn created_of(base: Seq<File>, lat: Seq<File>) -> Seq<File> {
    without_new_names(renames_of(base, lat), missing_from(base, lat))
}

pub open spec fn deleted_of(base: Seq<File>, lat: Seq<File>) -> Seq<File> {
    without_old_names(renames_of(base, lat), missing_from(lat, base))
}

pub open spec fn changed_of(base: Seq<File>, lat: Seq<File>, mask: NotifyFilters) -> Seq<File> {
    changed_spec(base, lat, mask)
}

/// One detection cycle's result: disjoint created/changed/deleted batches
/// and the correlated renames, both pair members already removed from the
/// created and deleted batches.
#[derive(Debug)]
pub struct DiffOutcome {
    pub created: Vec<File>,
    pub changed: Vec<File>,
    pub deleted: Vec<File>,
    pub renamed: Vec<RenamedFileEntry>,
}

/// Compares the baseline snapshot to the latest one: `created` holds the
/// files of `latest` under new paths less those consumed by renames;
/// `deleted` the files of `baseline` under vanished paths less those consumed
/// by renames; `changed` the files present in both whose change qualifies
/// under `mask`; and `renamed` the greedy first-match pairing of created and
/// deleted candidates sharing a modified timestamp. The three file batches
/// hold pairwise disjoint path sets in every cycle; with duplicate-free
/// snapshots every batch is itself duplicate free, and no two renames share
/// a new or an old name.
pub fn diff(baseline: &Vec<File>, latest: &Vec<File>, mask: NotifyFilters) -> (r: DiffOutcome)
    ensures
        r.created@ == created_of(baseline@, latest@),
        r.changed@ == changed_of(baseline@, latest@, mask),
        r.deleted@ == deleted_of(baseline@, latest@),
        r.renamed@ == renames_of(baseline@, latest@),
        forall|n: Seq<char>|
            !(#[trigger] contains_name(r.created@, n) && contains_name(r.changed@, n)),
        forall|n: Seq<char>|
            !(#[trigger] contains_name(r.created@, n) && contains_name(r.deleted@, n)),
        forall|n: Seq<char>|
            !(#[trigger] contains_name(r.changed@, n) && contains_name(r.deleted@, n)),
        unique_names(latest@) ==> unique_names(r.created@) && unique_names(r.changed@)
            && unique_new_names(r.renamed@),
        unique_names(baseline@) ==> unique_names(r.deleted@) && unique_old_names(r.renamed@),
{
    let raw_created = select_missing(baseline, latest);
    let raw_deleted = select_missing(latest, baseline);
    let changed = select_changed(baseline, latest, mask);
    let renamed = correlate_renames(&raw_created, &raw_deleted);
    let created = prune_new_names(&renamed, &raw_created);
    let deleted = prune_old_names(&renamed, &raw_deleted);
    proof {
        lemma_missing_names(baseline@, latest@);
        lemma_missing_names(latest@, baseline@);
        lemma_changed_names(baseline@, latest@, mask);
        lemma_without_new_names(renamed@, raw_created@);
        lemma_without_old_names(renamed@, raw_deleted@);
        assert forall|n: Seq<char>|
            contains_name(created@, n) implies !contains_name(changed@, n) by {
            assert(contains_name(raw_created@, n));
            assert(!contains_name(baseline@, n));
        }
        assert forall|n: Seq<char>|
            contains_name(created@, n) implies !contains_name(deleted@, n) by {
            assert(contains_name(raw_created@, n));
            assert(!contains_name(baseline@, n));
            if contains_name(deleted@, n) {
                assert(contains_name(raw_deleted@, n));
            }
        }
        assert forall|n: Seq<char>|
            contains_name(changed@, n) implies !contains_name(deleted@, n) by {
            assert(contains_name(latest@, n));
            if contains_name(deleted@, n) {
                assert(contains_name(raw_deleted@, n));
            }
        }
        if unique_names(latest@) {
            lemma_missing_unique(baseline@, latest@);
            lemma_without_new_unique(renamed@, raw_created@);
            lemma_changed_unique(baseline@, latest@, mask);
            lemma_greedy_news_distinct(raw_created@, raw_deleted@, all_unused(raw_deleted@.len()));
        }
        if unique_names(baseline@) {
            lemma_missing_unique(latest@, baseline@);
            lemma_without_old_unique(renamed@, raw_deleted@);
            lemma_greedy_olds_distinct(raw_created@, raw_deleted@, all_unused(raw_deleted@.len()));
        }
    }
    DiffOutcome { created, changed, deleted, renamed }
}

/// The surviving baseline entries, in baseline order: each file whose path
/// is still present in `latest`, its record refreshed to the latest record
/// exactly when the change qualifies under the watched dimensions.
pub open spec fn refreshed_spec(base: Seq<File>, lat: Seq<File>, mask: NotifyFilters) -> Seq<File>
    decreases base.len(),
{
    if base.len() == 0 {
        Seq::empty()
    } else {
        (if contains_name(lat, base[0].name@) {
            if qualifies_spec(base[0], find_by_name(lat, base[0].name@), mask) {
                seq![find_by_name(lat, base[0].name@)]
            } else {
                seq![base[0]]
            }
        } else {
            Seq::empty()
        }) + refreshed_spec(base.drop_first(), lat, mask)
    }
}

/// The baseline after a cycle: the surviving entries, changed records
/// refreshed in place, followed by the newly appeared files. Equivalently,
/// `(baseline - deleted - renamed.old) + created + renamed.new`, since the
/// deleted batch and the renames' old names together are exactly the
/// vanished paths, and the created batch and the renames' new names together
/// are exactly the new paths.
pub open spec fn next_baseline_spec(base: Seq<File>, lat: Seq<File>, mask: NotifyFilters) -> Seq<
    File,
> {
    refreshed_spec(base, lat, mask) + missing_from(base, lat)
}

/// Which paths survive refreshing: those present in both snapshots; and a
/// duplicate-free baseline refreshes to a duplicate-free sequence.
pub proof fn lemma_refreshed_props(base: Seq<File>, lat: Seq<File>, mask: NotifyFilters)
    ensures
        forall|n: Seq<char>|
            contains_name(refreshed_spec(base, lat, mask), n) <==> (contains_name(base, n)
                && contains_name(lat, n)),
        unique_names(base) ==> unique_names(refreshed_spec(base, lat, mask)),
    decreases base.len(),
{
    if base.len() == 0 {
        assert(forall|n: Seq<char>| !contains_name(refreshed_spec(base, lat, mask), n)) by {
            assert(refreshed_spec(base, lat, mask).len() == 0);
        }
    } else {
        let rest = base.drop_first();
        lemma_refreshed_props(rest, lat, mask);
        let d = refreshed_spec(base, lat, mask);
        let drest = refreshed_spec(rest, lat, mask);
        let kept = contains_name(lat, base[0].name@);
        let head_len: int = if kept { 1 } else { 0 };
        assert(forall|q: int| 0 <= q < rest.len() ==> rest[q] == #[trigger] base[q + 1]);
        if kept {
            lemma_index_of_name(lat, base[0].name@);
            assert(d[0].name@ == base[0].name@);
        }
        assert forall|n: Seq<char>|
            contains_name(d, n) <==> (contains_name(base, n) && contains_name(lat, n)) by {
            if contains_name(d, n) {
                let m = choose|m: int| 0 <= m < d.len() && #[trigger] d[m].name@ == n;
                if kept && m == 0 {
                    assert(base[0].name@ == n);
                } else {
                    assert(drest[m - head_len].name@ == n);
                    assert(contains_name(drest, n));
                    assert(contains_name(rest, n));
                    let q = choose|q: int| 0 <= q < rest.len() && #[trigger] rest[q].name@ == n;
                    assert(base[q + 1].name@ == n);
                }
            }
            if contains_name(base, n) && contains_name(lat, n) {
                let m = choose|m: int| 0 <= m < base.len() && #[trigger] base[m].name@ == n;
                if m == 0 {
                    assert(d[0].name@ == n);
                } else {
                    assert(rest[m - 1].name@ == n);
                    assert(contains_name(drest, n));
                    let q = choose|q: int| 0 <= q < drest.len() && #[trigger] drest[q].name@ == n;
                    assert(d[q + head_len].name@ == n);
                }
            }
        }
        if unique_names(base) {
            assert(unique_names(rest)) by {
                assert(forall|q: int| 0 <= q < rest.len() ==> rest[q] == #[trigger] base[q + 1]);
            }
            assert forall|i: int, j: int| #![trigger d[i], d[j]] 0 <= i < j < d.len() implies d[i].name@
                != d[j].name@ by {
                if kept && i == 0 {
                    assert(d[j] == drest[j - 1]);
                    assert(contains_name(drest, drest[j - 1].name@)) by {
                        assert(drest[j - 1].name@ == drest[j - 1].name@);
                    }
                    assert(contains_name(rest, drest[j - 1].name@));
                    let q = choose|q: int|
                        0 <= q < rest.len() && #[trigger] rest[q].name@ == drest[j - 1].name@;
                    assert(base[q + 1].name@ == drest[j - 1].name@);
                    assert(base[0].name@ != base[q + 1].name@);
                } else {
                    assert(d[i] == drest[i - head_len] && d[j] == drest[j - head_len]);
                }
            }
        }
    }
}

/// A selection of files missing from `other` keeps a duplicate-free sequence
/// duplicate free.
pub proof fn lemma_missing_unique(other: Seq<File>, s: Seq<File>)
    requires
        unique_names(s),
    ensures
        unique_names(missing_from(other, s)),
    decreases s.len(),
{
    if s.len() > 0 {
        let rest = s.drop_first();
        assert(forall|q: int| 0 <= q < rest.len() ==> rest[q] == #[trigger] s[q + 1]);
        assert(unique_names(rest));
        lemma_missing_unique(other, rest);
        lemma_missing_names(other, rest);
        let d = missing_from(other, s);
        let drest = missing_from(other, rest);
        if !contains_name(other, s[0].name@) {
            assert forall|i: int, j: int| #![trigger d[i], d[j]] 0 <= i < j < d.len() implies d[i].name@
                != d[j].name@ by {
                if i == 0 {
                    assert(d[j] == drest[j - 1]);
                    assert(contains_name(drest, drest[j - 1].name@)) by {
                        assert(drest[j - 1].name@ == drest[j - 1].name@);
                    }
                    assert(contains_name(rest, drest[j - 1].name@));
                    let q = choose|q: int|
                        0 <= q < rest.len() && #[trigger] rest[q].name@ == drest[j - 1].name@;
                    assert(s[q + 1].name@ == drest[j - 1].name@);
                    assert(s[0].name@ != s[q + 1].name@);
                } else {
                    assert(d[i] == drest[i - 1] && d[j] == drest[j - 1]);
                }
            }
        }
    }
}

/// Concatenating duplicate-free sequences with disjoint path sets stays
/// duplicate free.
pub proof fn lemma_unique_concat(a: Seq<File>, b: Seq<File>)
    requires
        unique_names(a),
        unique_names(b),
        forall|n: Seq<char>| !(#[trigger] contains_name(a, n) && contains_name(b, n)),
    ensures
        unique_names(a + b),
{
    let c = a + b;
    assert forall|i: int, j: int| #![trigger c[i], c[j]] 0 <= i < j < c.len() implies c[i].name@
        != c[j].name@ by {
        if i < a.len() && j >= a.len() {
            assert(c[i] == a[i] && c[j] == b[j - a.len()]);
            if a[i].name@ == b[j - a.len()].name@ {
                assert(contains_name(a, a[i].name@)) by {
                    assert(a[i].name@ == a[i].name@);
                }
                assert(contains_name(b, a[i].name@)) by {
                    assert(b[j - a.len()].name@ == a[i].name@);
                }
            }
        } else if j < a.len() {
            assert(c[i] == a[i] && c[j] == a[j]);
        } else {
            assert(c[i] == b[i - a.len()] && c[j] == b[j - a.len()]);
        }
    }
}

/// Computes the next baseline: surviving entries in baseline order with
/// changed records refreshed in place, then the newly appeared files in
/// latest order. The result tracks exactly the latest snapshot's paths, and
/// is duplicate free whenever both snapshots are.
pub fn next_baseline(baseline: &Vec<File>, latest: &Vec<File>, mask: NotifyFilters) -> (r: Vec<
    File,
>)
    ensures
        r@ == next_baseline_spec(baseline@, latest@, mask),
        forall|n: Seq<char>|
            #[trigger] contains_name(r@, n) <==> contains_name(latest@, n),
        unique_names(baseline@) && unique_names(latest@) ==> unique_names(r@),
{
    let mut acc: Vec<File> = Vec::new();
    let mut i: usize = 0;
    proof {
        assert(baseline@.skip(0) =~= baseline@);
        assert(acc@ + refreshed_spec(baseline@.skip(0), latest@, mask) =~= refreshed_spec(
            baseline@,
            latest@,
            mask,
        ));
    }
    while i < baseline.len()
        invariant
            0 <= i <= baseline.len(),
            acc@ + refreshed_spec(baseline@.skip(i as int), latest@, mask) == refreshed_spec(
                baseline@,
                latest@,
                mask,
            ),
        decreases baseline.len() - i,
    {
        let ghost pre = acc@;
        proof {
            assert(baseline@.skip(i as int).drop_first() =~= baseline@.skip(i as int + 1));
            assert(baseline@.skip(i as int)[0] == baseline@[i as int]);
        }
        match find_index_by_name(latest, &baseline[i].name) {
            Option::Some(k) => {
                proof {
                    lemma_index_of_name(latest@, baseline@[i as int].name@);
                }
                if qualifies(&baseline[i], &latest[k], mask) {
                    acc.push(latest[k].duplicate());
                    proof {
                        assert(acc@ =~= pre + seq![
                            find_by_name(latest@, baseline@[i as int].name@),
                        ]);
                    }
                } else {
                    acc.push(baseline[i].duplicate());
                    proof {
                        assert(acc@ =~= pre + seq![baseline@[i as int]]);
                    }
                }
            },
            Option::None => {},
        }
        proof {
            assert(acc@ + refreshed_spec(baseline@.skip(i as int + 1), latest@, mask)
                =~= refreshed_spec(baseline@, latest@, mask));
        }
        i += 1;
    }
    proof {
        assert(baseline@.skip(baseline@.len() as int) =~= Seq::<File>::empty());
        assert(acc@ =~= refreshed_spec(baseline@, latest@, mask));
    }
    let mut fresh = select_missing(baseline, latest);
    let ghost refreshed = acc@;
    acc.append(&mut fresh);
    proof {
        assert(acc@ == next_baseline_spec(baseline@, latest@, mask));
        lemma_refreshed_props(baseline@, latest@, mask);
        lemma_missing_names(baseline@, latest@);
        assert forall|n: Seq<char>|
            #[trigger] contains_name(acc@, n) <==> contains_name(latest@, n) by {
            assert(contains_name(acc@, n) == (contains_name(refreshed, n) || contains_name(
                missing_from(baseline@, latest@),
                n,
            ))) by {
                let fr = missing_from(baseline@, latest@);
                if contains_name(refreshed, n) {
                    let m = choose|m: int|
                        0 <= m < refreshed.len() && #[trigger] refreshed[m].name@ == n;
                    assert(acc@[m].name@ == n);
                }
                if contains_name(fr, n) {
                    let m = choose|m: int| 0 <= m < fr.len() && #[trigger] fr[m].name@ == n;
                    assert(acc@[refreshed.len() + m].name@ == n);
                }
                if contains_name(acc@, n) {
                    let m = choose|m: int| 0 <= m < acc@.len() && #[trigger] acc@[m].name@ == n;
                    if m < refreshed.len() {
                        assert(refreshed[m].name@ == n);
                    } else {
                        assert(fr[m - refreshed.len()].name@ == n);
                    }
                }
            }
        }
        if unique_names(baseline@) && unique_names(latest@) {
            lemma_missing_unique(baseline@, latest@);
            let fr = missing_from(baseline@, latest@);
            assert forall|n: Seq<char>|
                !(#[trigger] contains_name(refreshed, n) && contains_name(fr, n)) by {
                if contains_name(refreshed, n) && contains_name(fr, n) {
                    assert(contains_name(baseline@, n));
                    assert(!contains_name(baseline@, n));
                }
            }
            lemma_unique_concat(refreshed, fr);
        }
    }
    acc
}

/// When every path of `s` is present in `other`, nothing of `s` is missing.
proof fn lemma_missing_none(other: Seq<File>, s: Seq<File>)
    requires
        forall|i: int| 0 <= i < s.len() ==> contains_name(other, #[trigger] s[i].name@),
    ensures
        missing_from(other, s) == Seq::<File>::empty(),
    decreases s.len(),
{
    if s.len() > 0 {
        let rest = s.drop_first();
        assert(forall|q: int| 0 <= q < rest.len() ==> rest[q] == #[trigger] s[q + 1]);
        lemma_missing_none(other, rest);
        assert(contains_name(other, s[0].name@));
        assert(missing_from(other, s) =~= Seq::<File>::empty());
    }
}

/// When every file of `s` is found unchanged under its own path in `base`,
/// nothing qualifies as changed.
proof fn lemma_changed_none(base: Seq<File>, s: Seq<File>, mask: NotifyFilters)
    requires
        forall|i: int|
            0 <= i < s.len() ==> contains_name(base, #[trigger] s[i].name@) && find_by_name(
                base,
                s[i].name@,
            ) == s[i],
    ensures
        changed_spec(base, s, mask) == Seq::<File>::empty(),
    decreases s.len(),
{
    if s.len() > 0 {
        let rest = s.drop_first();
        assert(forall|q: int| 0 <= q < rest.len() ==> rest[q] == #[trigger] s[q + 1]);
        lemma_changed_none(base, rest, mask);
        assert(find_by_name(base, s[0].name@) == s[0]);
        assert(!qualifies_spec(find_by_name(base, s[0].name@), s[0], mask));
        assert(changed_spec(base, s, mask) =~= Seq::<File>::empty());
    }
}

/// When every file of `s` is found unchanged under its own path in `lat`,
/// refreshing keeps `s` as it is.
proof fn lemma_refreshed_identity(s: Seq<File>, lat: Seq<File>, mask: NotifyFilters)
    requires
        forall|i: int|
            0 <= i < s.len() ==> contains_name(lat, #[trigger] s[i].name@) && find_by_name(
                lat,
                s[i].name@,
            ) == s[i],
    ensures
        refreshed_spec(s, lat, mask) == s,
    decreases s.len(),
{
    if s.len() == 0 {
        assert(refreshed_spec(s, lat, mask) =~= s);
    } else {
        let rest = s.drop_first();
        assert(forall|q: int| 0 <= q < rest.len() ==> rest[q] == #[trigger] s[q + 1]);
        lemma_refreshed_identity(rest, lat, mask);
        assert(find_by_name(lat, s[0].name@) == s[0]);
        assert(!qualifies_spec(s[0], find_by_name(lat, s[0].name@), mask));
        assert(refreshed_spec(s, lat, mask) =~= seq![s[0]] + rest);
        assert(seq![s[0]] + rest =~= s);
    }
}

/// No-op stability of one cycle: when the latest snapshot equals the
/// baseline, nothing is classified as created, changed, deleted or renamed,
/// and the baseline is unchanged.
pub proof fn lemma_noop_cycle(base: Seq<File>, mask: NotifyFilters)
    requires
        unique_names(base),
    ensures
        created_of(base, base) == Seq::<File>::empty(),
        changed_of(base, base, mask) == Seq::<File>::empty(),
        deleted_of(base, base) == Seq::<File>::empty(),
        renames_of(base, base) == Seq::<RenamedFileEntry>::empty(),
        next_baseline_spec(base, base, mask) == base,
{
    assert forall|i: int| 0 <= i < base.len() implies contains_name(base, #[trigger] base[i].name@)
        && find_by_name(base, base[i].name@) == base[i] by {
        assert(base[i].name@ == base[i].name@);
        lemma_find_self(base, i);
    }
    lemma_missing_none(base, base);
    lemma_changed_none(base, base, mask);
    lemma_refreshed_identity(base, base, mask);
    assert(renames_of(base, base) =~= Seq::<RenamedFileEntry>::empty());
    assert(created_of(base, base) =~= Seq::<File>::empty());
    assert(deleted_of(base, base) =~= Seq::<File>::empty());
    assert(next_baseline_spec(base, base, mask) =~= base);
}

/// Every batch a cycle publishes draws its paths from the two snapshots:
/// created and changed files from the latest, deleted files from the
/// baseline, renames' new names from the latest and old names from the
/// baseline. A path absent from both snapshots appears in no batch.
pub proof fn lemma_batches_from_snapshots(base: Seq<File>, lat: Seq<File>, mask: NotifyFilters)
    ensures
        forall|n: Seq<char>| #[trigger] contains_name(created_of(base, lat), n) ==> contains_name(lat, n),
        forall|n: Seq<char>|
            #[trigger] contains_name(changed_of(base, lat, mask), n) ==> contains_name(lat, n),
        forall|n: Seq<char>| #[trigger] contains_name(deleted_of(base, lat), n) ==> contains_name(base, n),
        forall|n: Seq<char>| #[trigger] rename_has_new(renames_of(base, lat), n) ==> contains_name(lat, n),
        forall|n: Seq<char>| #[trigger] rename_has_old(renames_of(base, lat), n) ==> contains_name(base, n),
{
    let rc = missing_from(base, lat);
    let rd = missing_from(lat, base);
    let rs = renames_of(base, lat);
    lemma_missing_names(base, lat);
    lemma_missing_names(lat, base);
    lemma_changed_names(base, lat, mask);
    lemma_without_new_names(rs, rc);
    lemma_without_old_names(rs, rd);
    lemma_greedy_names(rc, rd, all_unused(rd.len()));
}

/// The baseline-update identity: after a cycle the baseline holds exactly the
/// old paths less the deleted batch and the renames' old names, plus the
/// created batch and the renames' new names — which together are exactly the
/// latest snapshot's paths.
pub proof fn lemma_baseline_update_identity(base: Seq<File>, lat: Seq<File>, mask: NotifyFilters)
    ensures
        forall|n: Seq<char>|
            #[trigger] contains_name(next_baseline_spec(base, lat, mask), n) <==> ((contains_name(
                base,
                n,
            ) && !contains_name(deleted_of(base, lat), n) && !rename_has_old(
                renames_of(base, lat),
                n,
            )) || contains_name(created_of(base, lat), n) || rename_has_new(
                renames_of(base, lat),
                n,
            )),
        forall|n: Seq<char>|
            #[trigger] contains_name(next_baseline_spec(base, lat, mask), n) <==> contains_name(
                lat,
                n,
            ),
{
    let rc = missing_from(base, lat);
    let rd = missing_from(lat, base);
    let rs = renames_of(base, lat);
    let next = next_baseline_spec(base, lat, mask);
    let refreshed = refreshed_spec(base, lat, mask);
    lemma_missing_names(base, lat);
    lemma_missing_names(lat, base);
    lemma_without_new_names(rs, rc);
    lemma_without_old_names(rs, rd);
    lemma_greedy_names(rc, rd, all_unused(rd.len()));
    lemma_refreshed_props(base, lat, mask);
    assert forall|n: Seq<char>|
        #[trigger] contains_name(next, n) <==> (contains_name(refreshed, n) || contains_name(
            rc,
            n,
        )) by {
        if contains_name(refreshed, n) {
            let m = choose|m: int| 0 <= m < refreshed.len() && #[trigger] refreshed[m].name@ == n;
            assert(next[m].name@ == n);
        }
        if contains_name(rc, n) {
            let m = choose|m: int| 0 <= m < rc.len() && #[trigger] rc[m].name@ == n;
            assert(next[refreshed.len() + m].name@ == n);
        }
        if contains_name(next, n) {
            let m = choose|m: int| 0 <= m < next.len() && #[trigger] next[m].name@ == n;
            if m < refreshed.len() {
                assert(refreshed[m].name@ == n);
            } else {
                assert(rc[m - refreshed.len()].name@ == n);
            }
        }
    }
}

/// A pair is justified against the candidate lists when its new name is some
/// created candidate's path, its old name some deleted candidate's path, and
/// the two candidates share a modified timestamp.
pub open spec fn pair_justified(cs: Seq<File>, ds: Seq<File>, p: RenamedFileEntry) -> bool {
    exists|i: int, j: int|
        #![trigger cs[i], ds[j]]
        0 <= i < cs.len() && 0 <= j < ds.len() && p.0 == cs[i].name && p.1 == ds[j].name
            && cs[i].last_modified == ds[j].last_modified
}

/// Every rename the greedy correlation emits pairs a created candidate with
/// a deleted candidate whose modified timestamps are equal.
pub proof fn lemma_greedy_pairs_share_timestamp(cs: Seq<File>, ds: Seq<File>, used: Seq<bool>)
    ensures
        forall|k: int|
            0 <= k < greedy_renames(cs, ds, used).len() ==> pair_justified(
                cs,
                ds,
                #[trigger] greedy_renames(cs, ds, used)[k],
            ),
    decreases cs.len(),
{
    if cs.len() > 0 {
        let rest = cs.drop_first();
        let j = first_match_from(ds, used, cs[0].last_modified, 0);
        let g = greedy_renames(cs, ds, used);
        assert(forall|q: int| 0 <= q < rest.len() ==> rest[q] == #[trigger] cs[q + 1]);
        if j >= 0 {
            lemma_first_match_bounds(ds, used, cs[0].last_modified, 0);
            lemma_greedy_pairs_share_timestamp(rest, ds, used.update(j, true));
            let grest = greedy_renames(rest, ds, used.update(j, true));
            assert forall|k: int| 0 <= k < g.len() implies pair_justified(cs, ds, g[k]) by {
                if k == 0 {
                    assert(g[0] == RenamedFileEntry(cs[0].name, ds[j].name));
                    assert(cs[0].last_modified == ds[j].last_modified);
                } else {
                    assert(g[k] == grest[k - 1]);
                    assert(pair_justified(rest, ds, grest[k - 1]));
                    let (i2, j2) = choose|i2: int, j2: int|
                        #![trigger rest[i2], ds[j2]]
                        0 <= i2 < rest.len() && 0 <= j2 < ds.len() && grest[k - 1].0 == rest[i2].name
                            && grest[k - 1].1 == ds[j2].name && rest[i2].last_modified
                            == ds[j2].last_modified;
                    assert(cs[i2 + 1] == rest[i2]);
                }
            }
        } else {
            lemma_greedy_pairs_share_timestamp(rest, ds, used);
            let grest = greedy_renames(rest, ds, used);
            assert forall|k: int| 0 <= k < g.len() implies pair_justified(cs, ds, g[k]) by {
                assert(g[k] == grest[k]);
                assert(pair_justified(rest, ds, grest[k]));
                let (i2, j2) = choose|i2: int, j2: int|
                    #![trigger rest[i2], ds[j2]]
                    0 <= i2 < rest.len() && 0 <= j2 < ds.len() && grest[k].0 == rest[i2].name
                        && grest[k].1 == ds[j2].name && rest[i2].last_modified
                        == ds[j2].last_modified;
                assert(cs[i2 + 1] == rest[i2]);
            }
        }
    }
}

/// No two pairs share a new name.
pub open spec fn unique_new_names(rs: Seq<RenamedFileEntry>) -> bool {
    forall|i: int, j: int| #![trigger rs[i], rs[j]] 0 <= i < j < rs.len() ==> rs[i].0@ != rs[j].0@
}

/// No two pairs share an old name.
pub open spec fn unique_old_names(rs: Seq<RenamedFileEntry>) -> bool {
    forall|i: int, j: int| #![trigger rs[i], rs[j]] 0 <= i < j < rs.len() ==> rs[i].1@ != rs[j].1@
}

/// A selection of qualifying changed files keeps a duplicate-free latest
/// snapshot duplicate free.
proof fn lemma_changed_unique(base: Seq<File>, lat: Seq<File>, mask: NotifyFilters)
    requires
        unique_names(lat),
    ensures
        unique_names(changed_spec(base, lat, mask)),
    decreases lat.len(),
{
    if lat.len() > 0 {
        let rest = lat.drop_first();
        assert(forall|q: int| 0 <= q < rest.len() ==> rest[q] == #[trigger] lat[q + 1]);
        assert(unique_names(rest));
        lemma_changed_unique(base, rest, mask);
        lemma_changed_names(base, rest, mask);
        let d = changed_spec(base, lat, mask);
        let drest = changed_spec(base, rest, mask);
        let kept = contains_name(base, lat[0].name@) && qualifies_spec(
            find_by_name(base, lat[0].name@),
            lat[0],
            mask,
        );
        if kept {
            assert forall|i: int, j: int| #![trigger d[i], d[j]] 0 <= i < j < d.len() implies d[i].name@
                != d[j].name@ by {
                if i == 0 {
                    assert(d[j] == drest[j - 1]);
                    assert(contains_name(drest, drest[j - 1].name@)) by {
                        assert(drest[j - 1].name@ == drest[j - 1].name@);
                    }
                    assert(contains_name(rest, drest[j - 1].name@));
                    let q = choose|q: int|
                        0 <= q < rest.len() && #[trigger] rest[q].name@ == drest[j - 1].name@;
                    assert(lat[q + 1].name@ == drest[j - 1].name@);
                    assert(lat[0].name@ != lat[q + 1].name@);
                } else {
                    assert(d[i] == drest[i - 1] && d[j] == drest[j - 1]);
                }
            }
        }
    }
}

/// New-name pruning keeps a duplicate-free sequence duplicate free.
proof fn lemma_without_new_unique(rs: Seq<RenamedFileEntry>, s: Seq<File>)
    requires
        unique_names(s),
    ensures
        unique_names(without_new_names(rs, s)),
    decreases s.len(),
{
    if s.len() > 0 {
        let rest = s.drop_first();
        assert(forall|q: int| 0 <= q < rest.len() ==> rest[q] == #[trigger] s[q + 1]);
        assert(unique_names(rest));
        lemma_without_new_unique(rs, rest);
        lemma_without_new_names(rs, rest);
        let d = without_new_names(rs, s);
        let drest = without_new_names(rs, rest);
        if !rename_has_new(rs, s[0].name@) {
            assert forall|i: int, j: int| #![trigger d[i], d[j]] 0 <= i < j < d.len() implies d[i].name@
                != d[j].name@ by {
                if i == 0 {
                    assert(d[j] == drest[j - 1]);
                    assert(contains_name(drest, drest[j - 1].name@)) by {
                        assert(drest[j - 1].name@ == drest[j - 1].name@);
                    }
                    assert(contains_name(rest, drest[j - 1].name@));
                    let q = choose|q: int|
                        0 <= q < rest.len() && #[trigger] rest[q].name@ == drest[j - 1].name@;
                    assert(s[q + 1].name@ == drest[j - 1].name@);
                    assert(s[0].name@ != s[q + 1].name@);
                } else {
                    assert(d[i] == drest[i - 1] && d[j] == drest[j - 1]);
                }
            }
        }
    }
}

/// Old-name pruning keeps a duplicate-free sequence duplicate free.
proof fn lemma_without_old_unique(rs: Seq<RenamedFileEntry>, s: Seq<File>)
    requires
        unique_names(s),
    ensures
        unique_names(without_old_names(rs, s)),
    decreases s.len(),
{
    if s.len() > 0 {
        let rest = s.drop_first();
        assert(forall|q: int| 0 <= q < rest.len() ==> rest[q] == #[trigger] s[q + 1]);
        assert(unique_names(rest));
        lemma_without_old_unique(rs, rest);
        lemma_without_old_names(rs, rest);
        let d = without_old_names(rs, s);
        let drest = without_old_names(rs, rest);
        if !rename_has_old(rs, s[0].name@) {
            assert forall|i: int, j: int| #![trigger d[i], d[j]] 0 <= i < j < d.len() implies d[i].name@
                != d[j].name@ by {
                if i == 0 {
                    assert(d[j] == drest[j - 1]);
                    assert(contains_name(drest, drest[j - 1].name@)) by {
                        assert(drest[j - 1].name@ == drest[j - 1].name@);
                    }
                    assert(contains_name(rest, drest[j - 1].name@));
                    let q = choose|q: int|
                        0 <= q < rest.len() && #[trigger] rest[q].name@ == drest[j - 1].name@;
                    assert(s[q + 1].name@ == drest[j - 1].name@);
                    assert(s[0].name@ != s[q + 1].name@);
                } else {
                    assert(d[i] == drest[i - 1] && d[j] == drest[j - 1]);
                }
            }
        }
    }
}

/// Greedy pairing consumes each created candidate once: with duplicate-free
/// created candidates, no two pairs share a new name.
proof fn lemma_greedy_news_distinct(cs: Seq<File>, ds: Seq<File>, used: Seq<bool>)
    requires
        unique_names(cs),
    ensures
        unique_new_names(greedy_renames(cs, ds, used)),
    decreases cs.len(),
{
    if cs.len() > 0 {
        let rest = cs.drop_first();
        assert(forall|q: int| 0 <= q < rest.len() ==> rest[q] == #[trigger] cs[q + 1]);
        assert(unique_names(rest));
        let j = first_match_from(ds, used, cs[0].last_modified, 0);
        let g = greedy_renames(cs, ds, used);
        if j >= 0 {
            lemma_greedy_news_distinct(rest, ds, used.update(j, true));
            lemma_greedy_names(rest, ds, used.update(j, true));
            let grest = greedy_renames(rest, ds, used.update(j, true));
            assert forall|i: int, k: int| #![trigger g[i], g[k]] 0 <= i < k < g.len() implies g[i].0@
                != g[k].0@ by {
                if i == 0 {
                    assert(g[k] == grest[k - 1]);
                    assert(rename_has_new(grest, grest[k - 1].0@)) by {
                        assert(grest[k - 1].0@ == grest[k - 1].0@);
                    }
                    assert(contains_name(rest, grest[k - 1].0@));
                    let q = choose|q: int|
                        0 <= q < rest.len() && #[trigger] rest[q].name@ == grest[k - 1].0@;
                    assert(cs[q + 1].name@ == grest[k - 1].0@);
                    assert(cs[0].name@ != cs[q + 1].name@);
                } else {
                    assert(g[i] == grest[i - 1] && g[k] == grest[k - 1]);
                }
            }
        } else {
            lemma_greedy_news_distinct(rest, ds, used);
        }
    }
}

/// Every old name the greedy pairing emits belongs to a deleted candidate
/// that was still available when the pairing started.
proof fn lemma_greedy_olds_avail(cs: Seq<File>, ds: Seq<File>, used: Seq<bool>)
    requires
        used.len() == ds.len(),
    ensures
        forall|n: Seq<char>|
            #[trigger] rename_has_old(greedy_renames(cs, ds, used), n) ==> exists|j: int|
                0 <= j < ds.len() && avail(used, j) && #[trigger] ds[j].name@ == n,
    decreases cs.len(),
{
    if cs.len() > 0 {
        let rest = cs.drop_first();
        let j = first_match_from(ds, used, cs[0].last_modified, 0);
        let g = greedy_renames(cs, ds, used);
        if j >= 0 {
            lemma_first_match_bounds(ds, used, cs[0].last_modified, 0);
            lemma_greedy_olds_avail(rest, ds, used.update(j, true));
            let grest = greedy_renames(rest, ds, used.update(j, true));
            assert forall|n: Seq<char>| #[trigger] rename_has_old(g, n) implies exists|j2: int|
                0 <= j2 < ds.len() && avail(used, j2) && #[trigger] ds[j2].name@ == n by {
                let k = choose|k: int| 0 <= k < g.len() && #[trigger] g[k].1@ == n;
                if k == 0 {
                    assert(ds[j].name@ == n && avail(used, j));
                } else {
                    assert(grest[k - 1].1@ == n);
                    assert(rename_has_old(grest, n));
                    let j2 = choose|j2: int|
                        0 <= j2 < ds.len() && avail(used.update(j, true), j2)
                            && #[trigger] ds[j2].name@ == n;
                    assert(avail(used, j2));
                }
            }
        } else {
            lemma_greedy_olds_avail(rest, ds, used);
            let grest = greedy_renames(rest, ds, used);
            assert forall|n: Seq<char>| #[trigger] rename_has_old(g, n) implies exists|j2: int|
                0 <= j2 < ds.len() && avail(used, j2) && #[trigger] ds[j2].name@ == n by {
                let k = choose|k: int| 0 <= k < g.len() && #[trigger] g[k].1@ == n;
                assert(grest[k].1@ == n);
                assert(rename_has_old(grest, n));
            }
        }
    }
}

/// Greedy pairing consumes each deleted candidate at most once: with
/// duplicate-free deleted candidates, no two pairs share an old name.
proof fn lemma_greedy_olds_distinct(cs: Seq<File>, ds: Seq<File>, used: Seq<bool>)
    requires
        unique_names(ds),
        used.len() == ds.len(),
    ensures
        unique_old_names(greedy_renames(cs, ds, used)),
    decreases cs.len(),
{
    if cs.len() > 0 {
        let rest = cs.drop_first();
        let j = first_match_from(ds, used, cs[0].last_modified, 0);
        let g = greedy_renames(cs, ds, used);
        if j >= 0 {
            lemma_first_match_bounds(ds, used, cs[0].last_modified, 0);
            lemma_greedy_olds_distinct(rest, ds, used.update(j, true));
            lemma_greedy_olds_avail(rest, ds, used.update(j, true));
            let grest = greedy_renames(rest, ds, used.update(j, true));
            assert forall|i: int, k: int| #![trigger g[i], g[k]] 0 <= i < k < g.len() implies g[i].1@
                != g[k].1@ by {
                if i == 0 {
                    assert(g[k] == grest[k - 1]);
                    assert(rename_has_old(grest, grest[k - 1].1@)) by {
                        assert(grest[k - 1].1@ == grest[k - 1].1@);
                    }
                    let j2 = choose|j2: int|
                        0 <= j2 < ds.len() && avail(used.update(j, true), j2)
                            && #[trigger] ds[j2].name@ == grest[k - 1].1@;
                    assert(!avail(used.update(j, true), j));
                    assert(j2 != j);
                    assert(ds[j].name@ != ds[j2].name@);
                } else {
                    assert(g[i] == grest[i - 1] && g[k] == grest[k - 1]);
                }
            }
        } else {
            lemma_greedy_olds_distinct(rest, ds, used);
        }
    }
}

} // verus!

//! The scanner's data model: tracked files, rename records, the in-memory
//! directory tree handed in by the caller, and the depth-bounded filtered
//! scan that produces a snapshot of tracked files.
//!
//! A `File`'s identity is its full path (`name`); timestamps are optional
//! because a platform may omit any of them. The scan walks a `FsNode` tree
//! depth first, never reports directories, applies the path filter to each
//! file's final-component name, and keeps the first record seen for a path.
use vstd::prelude::*;

use crate::filter::{matches_spec, FilterView, PathFilter};

verus! {

/// A tracked file: identity is the full path in `name`; the timestamps are
/// whatever the platform offered at visit time.
#[derive(Debug, Clone)]
pub struct File {
    pub name: String,
    pub last_modified: Option<u64>,
    pub last_accessed: Option<u64>,
    pub created: Option<u64>,
}

impl File {
    pub fn new(
        name: &str,
        last_modified: Option<u64>,
        last_accessed: Option<u64>,
        created: Option<u64>,
    ) -> (r: File)
        ensures
            r.name@ == name@,
            r.last_modified == last_modified,
            r.last_accessed == last_accessed,
            r.created == created,
    {
        File { name: String::from_str(name), last_modified, last_accessed, created }
    }

    /// A copy that is equal to `self`, field for field.
    pub fn duplicate(&self) -> (r: File)
        ensures
            r == *self,
    {
        File {
            name: self.name.clone(),
            last_modified: self.last_modified,
            last_accessed: self.last_accessed,
            created: self.created,
        }
    }

    pub fn name(&self) -> (r: &str)
        ensures
            r@ == self.name@,
    {
        self.name.as_str()
    }

    pub fn last_modified(&self) -> (r: Option<u64>)
        ensures
            r == self.last_modified,
    {
        self.last_modified
    }

    pub fn last_accessed(&self) -> (r: Option<u64>)
        ensures
            r == self.last_accessed,
    {
        self.last_accessed
    }

    pub fn created(&self) -> (r: Option<u64>)
        ensures
            r == self.created,
    {
        self.created
    }
}

/// A rename detected within one cycle: the new name paired with the old one.
#[derive(Debug, Clone)]
pub struct RenamedFileEntry(pub String, pub String);

impl RenamedFileEntry {
    pub fn new(name: &str, old_name: &str) -> (r: Self)
        ensures
            r.0@ == name@,
            r.1@ == old_name@,
    {
        RenamedFileEntry(String::from_str(name), String::from_str(old_name))
    }

    /// The file's name after the rename.
    pub fn name(&self) -> (r: &str)
        ensures
            r@ == self.0@,
    {
        self.0.as_str()
    }

    /// The file's name before the rename.
    pub fn old_name(&self) -> (r: &str)
        ensures
            r@ == self.1@,
    {
        self.1.as_str()
    }
}

/// One entry of the in-memory directory tree the scan walks. A file entry
/// carries the `File` record (whose `name` is the full path) beside the
/// entry's own final-component name, which is what the path filter sees; a
/// directory entry carries its children.
pub enum FsNode {
    FileEntry { file: File, name: String },
    DirEntry { children: Vec<FsNode> },
}

/// What a single node contributes to a scan with `depth_left` directory
/// levels of budget remaining.
pub open spec fn scan_one(node: FsNode, depth_left: nat, f: FilterView) -> Seq<File> {
    match node {
        FsNode::FileEntry { file, name } => if matches_spec(f, name@) {
            seq![file]
        } else {
            Seq::empty()
        },
        FsNode::DirEntry { children } => {
            if depth_left == 0 {
                Seq::empty()
            } else {
                scan_spec(children@, (depth_left - 1) as nat, f)
            }
        },
    }
}

/// Depth-first traversal: every file whose entry name the filter accepts,
/// in visit order, descending only while the depth budget lasts.
/// Directories are never reported.
pub open spec fn scan_spec(nodes: Seq<FsNode>, depth_left: nat, f: FilterView) -> Seq<File>
    decreases depth_left, nodes.len(),
{
    if nodes.len() == 0 {
        Seq::empty()
    } else {
        (match nodes[0] {
            FsNode::FileEntry { file, name } => if matches_spec(f, name@) {
                seq![file]
            } else {
                Seq::empty()
            },
            FsNode::DirEntry { children } => {
                if depth_left == 0 {
                    Seq::empty()
                } else {
                    scan_spec(children@, (depth_left - 1) as nat, f)
                }
            },
        }) + scan_spec(nodes.drop_first(), depth_left, f)
    }
}

/// Whether some file in `s` has the path `n`.
pub open spec fn contains_name(s: Seq<File>, n: Seq<char>) -> bool {
    exists|i: int| 0 <= i < s.len() && #[trigger] s[i].name@ == n
}

/// First-occurrence deduplication by path: keeps each file whose path was
/// neither seen before it in `s` nor present in `seen`.
pub open spec fn dedup_by_name(s: Seq<File>, seen: Seq<File>) -> Seq<File>
    decreases s.len(),
{
    if s.len() == 0 {
        Seq::empty()
    } else if contains_name(seen, s[0].name@) {
        dedup_by_name(s.drop_first(), seen)
    } else {
        seq![s[0]] + dedup_by_name(s.drop_first(), seen.push(s[0]))
    }
}

/// All paths in `s` are distinct.
pub open spec fn unique_names(s: Seq<File>) -> bool {
    forall|i: int, j: int| #![trigger s[i], s[j]] 0 <= i < j < s.len() ==> s[i].name@ != s[j].name@
}

/// The scan's depth budget: the configured maximum directory depth, or
/// effectively unbounded when unset.
pub open spec fn depth_budget(depth: Option<u8>) -> nat {
    match depth {
        Option::Some(d) => d as nat,
        Option::None => u64::MAX as nat,
    }
}

pub fn contains_name_exec(files: &Vec<File>, name: &String) -> (r: bool)
    ensures
        r == contains_name(files@, name@),
{
    let mut i: usize = 0;
    while i < files.len()
        invariant
            0 <= i <= files.len(),
            forall|m: int| 0 <= m < i ==> #[trigger] files@[m].name@ != name@,
        decreases files.len() - i,
    {
        if files[i].name.eq(name) {
            assert(files@[i as int].name@ == name@);
            return true;
        }
        i += 1;
    }
    proof {
        if contains_name(files@, name@) {
            let m = choose|m: int| 0 <= m < files@.len() && #[trigger] files@[m].name@ == name@;
            assert(files@[m].name@ != name@);
        }
    }
    false
}

/// Scans a directory tree: a depth-first, depth-bounded walk that reports
/// each filter-matching file once, keyed by path, in visit order.
pub fn scan(nodes: &Vec<FsNode>, depth: Option<u8>, filter: &PathFilter) -> (r: Vec<File>)
    ensures
        r@ == dedup_by_name(
            scan_spec(nodes@, depth_budget(depth), filter@),
            Seq::<File>::empty(),
        ),
        unique_names(r@),
{
    let budget: u64 = match depth {
        Option::Some(d) => d as u64,
        Option::None => u64::MAX,
    };
    let mut acc: Vec<File> = Vec::new();
    scan_nodes(nodes, budget, filter, &mut acc);
    proof {
        assert(acc@ =~= dedup_by_name(
            scan_spec(nodes@, depth_budget(depth), filter@),
            Seq::<File>::empty(),
        ));
        lemma_dedup_unique(
            scan_spec(nodes@, depth_budget(depth), filter@),
            Seq::<File>::empty(),
        );
    }
    acc
}

proof fn lemma_dedup_empty(seen: Seq<File>)
    ensures
        dedup_by_name(Seq::<File>::empty(), seen) == Seq::<File>::empty(),
{
}

proof fn lemma_dedup_one(f: File, seen: Seq<File>)
    ensures
        dedup_by_name(seq![f], seen) == if contains_name(seen, f.name@) {
            Seq::<File>::empty()
        } else {
            seq![f]
        },
{
    assert(seq![f].drop_first() =~= Seq::<File>::empty());
    lemma_dedup_empty(seen);
    lemma_dedup_empty(seen.push(f));
    if !contains_name(seen, f.name@) {
        assert(dedup_by_name(seq![f], seen) =~= seq![f]);
    }
}

fn scan_nodes(nodes: &Vec<FsNode>, depth_left: u64, filter: &PathFilter, acc: &mut Vec<File>)
    ensures
        final(acc)@ == old(acc)@ + dedup_by_name(
            scan_spec(nodes@, depth_left as nat, filter@),
            old(acc)@,
        ),
    decreases depth_left, nodes.len(), 1int,
{
    let ghost orig = acc@;
    let mut i: usize = 0;
    proof {
        assert(nodes@.take(0) =~= Seq::<FsNode>::empty());
        assert(acc@ =~= orig + dedup_by_name(
            scan_spec(nodes@.take(0), depth_left as nat, filter@),
            orig,
        ));
    }
    while i < nodes.len()
        invariant
            0 <= i <= nodes.len(),
            acc@ == orig + dedup_by_name(
                scan_spec(nodes@.take(i as int), depth_left as nat, filter@),
                orig,
            ),
        decreases nodes.len() - i,
    {
        let ghost before = acc@;
        let ghost done = scan_spec(nodes@.take(i as int), depth_left as nat, filter@);
        match &nodes[i] {
            FsNode::FileEntry { file, name } => {
                if filter.matches_file(name.as_str()) {
                    if !contains_name_exec(acc, &file.name) {
                        acc.push(file.duplicate());
                    }
                }
                proof {
                    let one = scan_one(nodes@[i as int], depth_left as nat, filter@);
                    if matches_spec(filter@, name@) {
                        assert(one =~= seq![*file]);
                        lemma_dedup_one(*file, before);
                    } else {
                        assert(one =~= Seq::<File>::empty());
                        lemma_dedup_empty(before);
                    }
                    assert(acc@ =~= before + dedup_by_name(one, before));
                }
            },
            FsNode::DirEntry { children } => {
                if depth_left > 0 {
                    scan_children(children, depth_left - 1, filter, acc);
                }
                proof {
                    let one = scan_one(nodes@[i as int], depth_left as nat, filter@);
                    if depth_left == 0 {
                        assert(one =~= Seq::<File>::empty());
                        lemma_dedup_empty(before);
                    }
                    assert(acc@ =~= before + dedup_by_name(one, before));
                }
            },
        }
        i += 1;
        proof {
            lemma_scan_take_step(nodes@, depth_left as nat, filter@, i as int);
            lemma_dedup_concat(
                done,
                scan_one(nodes@[i - 1], depth_left as nat, filter@),
                orig,
            );
            assert(orig + dedup_by_name(done, orig) == before);
            assert(acc@ =~= orig + dedup_by_name(
                scan_spec(nodes@.take(i as int), depth_left as nat, filter@),
                orig,
            ));
        }
    }
    proof {
        assert(nodes@.take(nodes@.len() as int) =~= nodes@);
    }
}

fn scan_children(nodes: &Vec<FsNode>, depth_left: u64, filter: &PathFilter, acc: &mut Vec<File>)
    ensures
        final(acc)@ == old(acc)@ + dedup_by_name(
            scan_spec(nodes@, depth_left as nat, filter@),
            old(acc)@,
        ),
    decreases depth_left, nodes.len(), 2int,
{
    scan_nodes(nodes, depth_left, filter, acc)
}

/// Unfolds one step of `scan_spec` over a prefix of the node list.
proof fn lemma_scan_take_step(nodes: Seq<FsNode>, depth_left: nat, f: FilterView, i: int)
    requires
        0 < i <= nodes.len(),
    ensures
        scan_spec(nodes.take(i), depth_left, f) == scan_spec(nodes.take(i - 1), depth_left, f)
            + scan_one(nodes[i - 1], depth_left, f),
    decreases i,
{
    if i == 1 {
        assert(nodes.take(1).drop_first() =~= Seq::<FsNode>::empty());
        assert(nodes.take(0) =~= Seq::<FsNode>::empty());
        assert(scan_spec(nodes.take(i), depth_left, f) =~= scan_spec(nodes.take(i - 1), depth_left, f)
            + scan_one(nodes[i - 1], depth_left, f));
    } else {
        lemma_scan_take_step(nodes.drop_first(), depth_left, f, i - 1);
        assert(nodes.take(i).drop_first() =~= nodes.drop_first().take(i - 1));
        assert(nodes.take(i - 1).drop_first() =~= nodes.drop_first().take(i - 2));
        assert(scan_spec(nodes.take(i), depth_left, f) =~= scan_spec(nodes.take(i - 1), depth_left, f)
            + scan_one(nodes[i - 1], depth_left, f));
    }
}

/// Deduplicating a concatenation: the second part is deduplicated against
/// everything already kept from the first.
proof fn lemma_dedup_concat(a: Seq<File>, b: Seq<File>, seen: Seq<File>)
    ensures
        dedup_by_name(a + b, seen) == dedup_by_name(a, seen) + dedup_by_name(
            b,
            seen + dedup_by_name(a, seen),
        ),
    decreases a.len(),
{
    if a.len() == 0 {
        assert(a + b =~= b);
        assert(seen + dedup_by_name(a, seen) =~= seen);
        assert(dedup_by_name(a + b, seen) =~= dedup_by_name(a, seen) + dedup_by_name(
            b,
            seen + dedup_by_name(a, seen),
        ));
    } else {
        assert((a + b).drop_first() =~= a.drop_first() + b);
        assert((a + b)[0] == a[0]);
        if contains_name(seen, a[0].name@) {
            lemma_dedup_concat(a.drop_first(), b, seen);
            assert(dedup_by_name(a + b, seen) =~= dedup_by_name(a, seen) + dedup_by_name(
                b,
                seen + dedup_by_name(a, seen),
            ));
        } else {
            lemma_dedup_concat(a.drop_first(), b, seen.push(a[0]));
            assert(seen.push(a[0]) + dedup_by_name(a.drop_first(), seen.push(a[0])) =~= seen
                + dedup_by_name(a, seen));
            assert(dedup_by_name(a + b, seen) =~= dedup_by_name(a, seen) + dedup_by_name(
                b,
                seen + dedup_by_name(a, seen),
            ));
        }
    }
}

/// What the deduplicated sequence holds: exactly the names of `s` that were
/// not already in `seen`, each once, and only records drawn from `s`.
pub proof fn lemma_dedup_names(s: Seq<File>, seen: Seq<File>)
    ensures
        forall|n: Seq<char>|
            contains_name(dedup_by_name(s, seen), n) <==> (contains_name(s, n) && !contains_name(
                seen,
                n,
            )),
        forall|k: int|
            0 <= k < dedup_by_name(s, seen).len() ==> s.contains(
                #[trigger] dedup_by_name(s, seen)[k],
            ),
    decreases s.len(),
{
    if s.len() == 0 {
        assert forall|n: Seq<char>| !contains_name(dedup_by_name(s, seen), n) by {
            assert(dedup_by_name(s, seen).len() == 0);
        }
    } else {
        let rest = s.drop_first();
        assert forall|n: Seq<char>| contains_name(rest, n) implies contains_name(s, n) by {
            if contains_name(rest, n) {
                let m = choose|m: int| 0 <= m < rest.len() && #[trigger] rest[m].name@ == n;
                assert(s[m + 1].name@ == n);
            }
        }
        assert forall|k: int| 0 <= k < rest.len() implies s.contains(#[trigger] rest[k]) by {
            assert(forall|k: int| 0 <= k < rest.len() ==> rest[k] == #[trigger] s[k + 1]);
        }
        if contains_name(seen, s[0].name@) {
            lemma_dedup_names(rest, seen);
            assert forall|n: Seq<char>|
                contains_name(dedup_by_name(s, seen), n) <==> (contains_name(s, n)
                    && !contains_name(seen, n)) by {
                if contains_name(s, n) && !contains_name(seen, n) {
                    let m = choose|m: int| 0 <= m < s.len() && #[trigger] s[m].name@ == n;
                    assert(m != 0);
                    assert(rest[m - 1].name@ == n);
                }
            }
            assert forall|k: int|
                0 <= k < dedup_by_name(s, seen).len() implies s.contains(
                    #[trigger] dedup_by_name(s, seen)[k],
                ) by {
                assert(dedup_by_name(s, seen) == dedup_by_name(rest, seen));
            }
        } else {
            lemma_dedup_names(rest, seen.push(s[0]));
            let d = dedup_by_name(s, seen);
            let drest = dedup_by_name(rest, seen.push(s[0]));
            assert(d == seq![s[0]] + drest);
            assert forall|n: Seq<char>|
                contains_name(d, n) <==> (contains_name(s, n) && !contains_name(seen, n)) by {
                assert(contains_name(seen.push(s[0]), n) == (contains_name(seen, n) || s[0].name@
                    == n)) by {
                    if contains_name(seen, n) {
                        let m = choose|m: int|
                            0 <= m < seen.len() && #[trigger] seen[m].name@ == n;
                        assert(seen.push(s[0])[m].name@ == n);
                    }
                    if s[0].name@ == n {
                        assert(seen.push(s[0])[seen.len() as int].name@ == n);
                    }
                    if contains_name(seen.push(s[0]), n) {
                        let m = choose|m: int|
                            0 <= m < seen.push(s[0]).len() && #[trigger] seen.push(s[0])[m].name@
                                == n;
                        if m < seen.len() {
                            assert(seen[m].name@ == n);
                        }
                    }
                }
                if contains_name(d, n) {
                    let m = choose|m: int| 0 <= m < d.len() && #[trigger] d[m].name@ == n;
                    if m == 0 {
                        assert(s[0].name@ == n);
                    } else {
                        assert(drest[m - 1].name@ == n);
                    }
                }
                if contains_name(s, n) && !contains_name(seen, n) {
                    let m = choose|m: int| 0 <= m < s.len() && #[trigger] s[m].name@ == n;
                    if m == 0 {
                        assert(d[0].name@ == n);
                    } else {
                        assert(rest[m - 1].name@ == n);
                        if s[0].name@ != n {
                            assert(contains_name(drest, n));
                            let q = choose|q: int|
                                0 <= q < drest.len() && #[trigger] drest[q].name@ == n;
                            assert(d[q + 1].name@ == n);
                        } else {
                            assert(d[0].name@ == n);
                        }
                    }
                }
            }
            assert forall|k: int| 0 <= k < d.len() implies s.contains(#[trigger] d[k]) by {
                if contains_name(s, s[0].name@) {
                }
                assert(s.contains(s[0])) by {
                    assert(s[0] == s[0]);
                }
                assert(forall|k: int| 1 <= k < d.len() ==> d[k] == #[trigger] drest[k - 1]);
                assert forall|k: int| 1 <= k < d.len() implies s.contains(d[k]) by {
                    assert(rest.contains(d[k]));
                    let m = choose|m: int| 0 <= m < rest.len() && rest[m] == d[k];
                    assert(s[m + 1] == d[k]);
                }
            }
        }
    }
}

/// Deduplication yields pairwise-distinct paths, provided the already-seen
/// records were themselves distinct.
proof fn lemma_dedup_unique(s: Seq<File>, seen: Seq<File>)
    ensures
        unique_names(dedup_by_name(s, seen)),
        forall|n: Seq<char>|
            contains_name(dedup_by_name(s, seen), n) ==> !contains_name(seen, n),
    decreases s.len(),
{
    lemma_dedup_names(s, seen);
    if s.len() > 0 {
        let rest = s.drop_first();
        if contains_name(seen, s[0].name@) {
            lemma_dedup_unique(rest, seen);
        } else {
            lemma_dedup_unique(rest, seen.push(s[0]));
            let d = dedup_by_name(s, seen);
            let drest = dedup_by_name(rest, seen.push(s[0]));
            assert(d == seq![s[0]] + drest);
            lemma_dedup_names(rest, seen.push(s[0]));
            assert forall|i: int, j: int| #![trigger d[i], d[j]] 0 <= i < j < d.len() implies d[i].name@
                != d[j].name@ by {
                if i == 0 {
                    assert(d[j] == drest[j - 1]);
                    assert(contains_name(drest, drest[j - 1].name@)) by {
                        assert(drest[j - 1].name@ == drest[j - 1].name@);
                    }
                    assert(!contains_name(seen.push(s[0]), drest[j - 1].name@));
                    assert(seen.push(s[0])[seen.len() as int] == s[0]);
                    assert(s[0].name@ != drest[j - 1].name@);
                } else {
                    assert(d[i] == drest[i - 1] && d[j] == drest[j - 1]);
                }
            }
        }
    }
}

/// Whether the tree holds, within `depth_left` directory levels, a file
/// entry with record `file` whose entry name is `ename`.
pub open spec fn entry_within(nodes: Seq<FsNode>, depth_left: nat, file: File, ename: Seq<char>) -> bool
    decreases depth_left, nodes.len(),
{
    if nodes.len() == 0 {
        false
    } else {
        (match nodes[0] {
            FsNode::FileEntry { file: f, name: n } => f == file && n@ == ename,
            FsNode::DirEntry { children } => depth_left > 0 && entry_within(
                children@,
                (depth_left - 1) as nat,
                file,
                ename,
            ),
        }) || entry_within(nodes.drop_first(), depth_left, file, ename)
    }
}

proof fn lemma_scan_provenance(nodes: Seq<FsNode>, depth_left: nat, f: FilterView, k: int)
    requires
        0 <= k < scan_spec(nodes, depth_left, f).len(),
    ensures
        exists|ename: Seq<char>|
            entry_within(nodes, depth_left, scan_spec(nodes, depth_left, f)[k], ename)
                && #[trigger] matches_spec(f, ename),
    decreases depth_left, nodes.len(),
{
    let s = scan_spec(nodes, depth_left, f);
    let head = scan_one(nodes[0], depth_left, f);
    let tail = scan_spec(nodes.drop_first(), depth_left, f);
    assert(s == head + tail);
    if k < head.len() {
        match nodes[0] {
            FsNode::FileEntry { file, name } => {
                assert(matches_spec(f, name@));
                assert(s[k] == file);
                assert(entry_within(nodes, depth_left, file, name@));
            },
            FsNode::DirEntry { children } => {
                lemma_scan_provenance(children@, (depth_left - 1) as nat, f, k);
                let ename = choose|ename: Seq<char>|
                    entry_within(
                        children@,
                        (depth_left - 1) as nat,
                        scan_spec(children@, (depth_left - 1) as nat, f)[k],
                        ename,
                    ) && #[trigger] matches_spec(f, ename);
                assert(s[k] == head[k]);
                assert(entry_within(nodes, depth_left, s[k], ename));
            },
        }
    } else {
        lemma_scan_provenance(nodes.drop_first(), depth_left, f, k - head.len());
        let ename = choose|ename: Seq<char>|
            entry_within(nodes.drop_first(), depth_left, tail[k - head.len()], ename)
                && #[trigger] matches_spec(f, ename);
        assert(s[k] == tail[k - head.len()]);
        assert(entry_within(nodes, depth_left, s[k], ename));
    }
}

proof fn lemma_scan_complete(
    nodes: Seq<FsNode>,
    depth_left: nat,
    f: FilterView,
    file: File,
    ename: Seq<char>,
)
    requires
        entry_within(nodes, depth_left, file, ename),
        matches_spec(f, ename),
    ensures
        contains_name(scan_spec(nodes, depth_left, f), file.name@),
    decreases depth_left, nodes.len(),
{
    let s = scan_spec(nodes, depth_left, f);
    let head = scan_one(nodes[0], depth_left, f);
    let tail = scan_spec(nodes.drop_first(), depth_left, f);
    assert(s == head + tail);
    let direct = match nodes[0] {
        FsNode::FileEntry { file: g, name: n } => g == file && n@ == ename,
        FsNode::DirEntry { children } => depth_left > 0 && entry_within(
            children@,
            (depth_left - 1) as nat,
            file,
            ename,
        ),
    };
    if direct {
        match nodes[0] {
            FsNode::FileEntry { file: g, name: n } => {
                assert(s[0] == file);
            },
            FsNode::DirEntry { children } => {
                lemma_scan_complete(children@, (depth_left - 1) as nat, f, file, ename);
                let m = choose|m: int|
                    0 <= m < head.len() && #[trigger] head[m].name@ == file.name@;
                assert(s[m].name@ == file.name@);
            },
        }
    } else {
        lemma_scan_complete(nodes.drop_first(), depth_left, f, file, ename);
        let m = choose|m: int| 0 <= m < tail.len() && #[trigger] tail[m].name@ == file.name@;
        assert(s[head.len() + m].name@ == file.name@);
    }
}

/// Every file a scan reports arises from a file entry lying within the depth
/// budget whose entry name the filter accepts: a file with an unmatched name,
/// or one deeper than the budget, never appears in a scan.
pub proof fn lemma_scan_reported_file(nodes: Seq<FsNode>, depth: Option<u8>, f: FilterView, k: int)
    requires
        0 <= k < dedup_by_name(scan_spec(nodes, depth_budget(depth), f), Seq::<File>::empty()).len(),
    ensures
        exists|ename: Seq<char>|
            entry_within(
                nodes,
                depth_budget(depth),
                dedup_by_name(scan_spec(nodes, depth_budget(depth), f), Seq::<File>::empty())[k],
                ename,
            ) && #[trigger] matches_spec(f, ename),
{
    let s = scan_spec(nodes, depth_budget(depth), f);
    let d = dedup_by_name(s, Seq::<File>::empty());
    lemma_dedup_names(s, Seq::<File>::empty());
    assert(s.contains(d[k]));
    let m = choose|m: int| 0 <= m < s.len() && s[m] == d[k];
    lemma_scan_provenance(nodes, depth_budget(depth), f, m);
}

/// A filter-matching file entry within the depth budget is always reported,
/// under its path.
pub proof fn lemma_scan_reports_matching_entry(
    nodes: Seq<FsNode>,
    depth: Option<u8>,
    f: FilterView,
    file: File,
    ename: Seq<char>,
)
    requires
        entry_within(nodes, depth_budget(depth), file, ename),
        matches_spec(f, ename),
    ensures
        contains_name(
            dedup_by_name(scan_spec(nodes, depth_budget(depth), f), Seq::<File>::empty()),
            file.name@,
        ),
{
    let s = scan_spec(nodes, depth_budget(depth), f);
    lemma_scan_complete(nodes, depth_budget(depth), f, file, ename);
    lemma_dedup_names(s, Seq::<File>::empty());
    assert(!contains_name(Seq::<File>::empty(), file.name@));
}

/// A snapshot: the tracked files captured at one instant, beside the watched
/// directory's own last-modified timestamp, the cheap pre-check that lets a
/// poll cycle skip rescanning when nothing changed at the directory level.
#[derive(Debug)]
pub struct Snapshot {
    pub files: Vec<File>,
    pub dir_modified: Option<u64>,
}

impl Snapshot {
    pub fn new(files: Vec<File>, dir_modified: Option<u64>) -> (r: Snapshot)
        ensures
            r.files == files,
            r.dir_modified == dir_modified,
    {
        Snapshot { files, dir_modified }
    }
}

} // verus!

use vstd::prelude::*;
use crate::text::{split_at_sep, split_pieces, split_ranges, text_is};

verus! {

/// What kind of cave a node is, which decides how often a path may enter it.
#[derive(Debug, Clone, Copy, PartialEq, Eq, Structural)]
pub enum CaveKind {
    /// Named in upper case: may be entered any number of times.
    Big,
    /// Named otherwise: entered once, or twice by spending the revisit quota.
    Small,
    /// Where every path begins; never entered again.
    Start,
    /// Where every path ends.
    End,
}

/// How many of the marks are still clear.
pub open spec fn clear_marks(v: Seq<bool>) -> nat
    decreases v.len(),
{
    if v.len() == 0 {
        0
    } else {
        clear_marks(v.drop_last()) + if v.last() {
            0nat
        } else {
            1nat
        }
    }
}

/// Setting a clear mark leaves one fewer clear.
pub proof fn lemma_clear_marks_set(v: Seq<bool>, i: int)
    requires
        0 <= i < v.len(),
        !v[i],
    ensures
        clear_marks(v.update(i, true)) + 1 == clear_marks(v),
    decreases v.len(),
{
    let w = v.update(i, true);
    if i == v.len() - 1 {
        assert(w.drop_last() == v.drop_last());
    } else {
        assert(w.drop_last() == v.drop_last().update(i, true));
        lemma_clear_marks_set(v.drop_last(), i);
    }
}

/// The kind of cave that a name gives: `start` and `end` are themselves, a
/// name without lower-case ASCII letters is big, any other is small.
pub open spec fn kind_of(name: Seq<char>) -> CaveKind {
    if name == seq!['s', 't', 'a', 'r', 't'] {
        CaveKind::Start
    } else if name == seq!['e', 'n', 'd'] {
        CaveKind::End
    } else if forall|i: int| 0 <= i < name.len() ==> !('a' <= #[trigger] name[i] <= 'z') {
        CaveKind::Big
    } else {
        CaveKind::Small
    }
}

pub open spec fn kind_rank(k: CaveKind) -> nat {
    if k is Big {
        1
    } else {
        0
    }
}

pub open spec fn sum_rank(k: CaveKind) -> nat {
    if k is Big {
        0
    } else {
        2
    }
}

/// The number of paths to the end from entering `node`, where `v` marks the
/// small caves (and the start) already on the path and `q` further visits to a
/// small cave are allowed. A step from a big cave straight into another big
/// cave counts for nothing: such graphs have endless paths.
pub open spec fn paths_from(
    kinds: Seq<CaveKind>,
    adj: Seq<Seq<usize>>,
    node: int,
    v: Seq<bool>,
    q: nat,
) -> nat
    decreases clear_marks(v), q, if 0 <= node < kinds.len() {
        kind_rank(kinds[node])
    } else {
        0
    }, 0nat,
{
    if !(0 <= node < kinds.len()) || v.len() != kinds.len() {
        0
    } else {
        match kinds[node] {
            CaveKind::End => 1,
            CaveKind::Start => if v[node] {
                0
            } else {
                proof {
                    lemma_clear_marks_set(v, node);
                }
                paths_via(kinds, adj, node, v.update(node, true), q, 0)
            },
            CaveKind::Small => if v[node] {
                if q == 0 {
                    0
                } else {
                    paths_via(kinds, adj, node, v, (q - 1) as nat, 0)
                }
            } else {
                proof {
                    lemma_clear_marks_set(v, node);
                }
                paths_via(kinds, adj, node, v.update(node, true), q, 0)
            },
            CaveKind::Big => paths_via(kinds, adj, node, v, q, 0),
        }
    }
}

/// Whether a path may step from `node` to `next`: both exist, and they are not
/// two big caves.
pub open spec fn step_ok(kinds: Seq<CaveKind>, node: int, next: int) -> bool {
    &&& 0 <= node < kinds.len()
    &&& 0 <= next < kinds.len()
    &&& !(kinds[node] is Big && kinds[next] is Big)
}

/// The paths to the end through the neighbours of `node` from the `j`-th on.
pub open spec fn paths_via(
    kinds: Seq<CaveKind>,
    adj: Seq<Seq<usize>>,
    node: int,
    v: Seq<bool>,
    q: nat,
    j: nat,
) -> nat
    decreases clear_marks(v), q, if 0 <= node < kinds.len() {
        sum_rank(kinds[node])
    } else {
        0
    }, if 0 <= node < adj.len() && j <= adj[node].len() {
        (adj[node].len() - j + 1) as nat
    } else {
        0
    },
{
    if !(0 <= node < adj.len()) || j >= adj[node].len() || !(0 <= node < kinds.len()) {
        0
    } else {
        let next = adj[node][j as int] as int;
        (if step_ok(kinds, node, next) {
            paths_from(kinds, adj, next, v, q)
        } else {
            0
        }) + paths_via(kinds, adj, node, v, q, j + 1)
    }
}

/// A second chance at a small cave never loses a path: the count with one more
/// revisit allowed is at least the count without it.
pub proof fn lemma_quota_monotone(
    kinds: Seq<CaveKind>,
    adj: Seq<Seq<usize>>,
    node: int,
    v: Seq<bool>,
    q: nat,
)
    ensures
        paths_from(kinds, adj, node, v, q) <= paths_from(kinds, adj, node, v, q + 1),
    decreases clear_marks(v), q, if 0 <= node < kinds.len() {
        kind_rank(kinds[node])
    } else {
        0
    }, 0nat,
{
    if 0 <= node < kinds.len() && v.len() == kinds.len() {
        match kinds[node] {
            CaveKind::End => {},
            CaveKind::Start => if !v[node] {
                lemma_clear_marks_set(v, node);
                lemma_quota_monotone_via(kinds, adj, node, v.update(node, true), q, 0);
            },
            CaveKind::Small => if v[node] {
                if q > 0 {
                    lemma_quota_monotone_via(kinds, adj, node, v, (q - 1) as nat, 0);
                }
            } else {
                lemma_clear_marks_set(v, node);
                lemma_quota_monotone_via(kinds, adj, node, v.update(node, true), q, 0);
            },
            CaveKind::Big => {
                lemma_quota_monotone_via(kinds, adj, node, v, q, 0);
            },
        }
    }
}

/// The same, for the paths through the neighbours of `node` from the `j`-th on.
pub proof fn lemma_quota_monotone_via(
    kinds: Seq<CaveKind>,
    adj: Seq<Seq<usize>>,
    node: int,
    v: Seq<bool>,
    q: nat,
    j: nat,
)
    ensures
        paths_via(kinds, adj, node, v, q, j) <= paths_via(kinds, adj, node, v, q + 1, j),
    decreases clear_marks(v), q, if 0 <= node < kinds.len() {
        sum_rank(kinds[node])
    } else {
        0
    }, if 0 <= node < adj.len() && j <= adj[node].len() {
        (adj[node].len() - j + 1) as nat
    } else {
        0
    },
{
    if 0 <= node < adj.len() && j < adj[node].len() && 0 <= node < kinds.len() {
        let next = adj[node][j as int] as int;
        if step_ok(kinds, node, next) {
            lemma_quota_monotone(kinds, adj, next, v, q);
        }
        lemma_quota_monotone_via(kinds, adj, node, v, q, j + 1);
    }
}

/// A system of one passage, from the start straight to the end, has exactly
/// one path, whatever the revisit quota.
pub proof fn lemma_single_passage(q: nat)
    ensures
        paths_from(
            seq![CaveKind::Start, CaveKind::End],
            seq![seq![1usize], seq![0usize]],
            0,
            seq![false, false],
            q,
        ) == 1,
{
    let kinds = seq![CaveKind::Start, CaveKind::End];
    let adj = seq![seq![1usize], seq![0usize]];
    let v = seq![false, false].update(0, true);
    assert(adj[0][0] == 1usize);
    assert(paths_from(kinds, adj, 1, v, q) == 1);
    assert(paths_via(kinds, adj, 0, v, q, 1) == 0);
    assert(paths_via(kinds, adj, 0, v, q, 0) == 1);
}

/// `v` as a `u64`, where it fits.
pub open spec fn fit_u64(v: nat) -> Option<u64> {
    if v <= u64::MAX {
        Some(v as u64)
    } else {
        None
    }
}

/// The caves and the passages between them.
#[derive(Debug)]
pub struct CaveSystem {
    names: Vec<String>,
    kinds: Vec<CaveKind>,
    adj: Vec<Vec<usize>>,
}

impl CaveSystem {
    /// The names of the caves, one per node.
    pub closed spec fn names(&self) -> Seq<Seq<char>> {
        self.names@.map_values(|s: String| s@)
    }

    /// The kind of each cave.
    pub closed spec fn kinds(&self) -> Seq<CaveKind> {
        self.kinds@
    }

    /// For each cave, the caves that its passages lead to, in the order the
    /// passages were listed.
    pub closed spec fn adj(&self) -> Seq<Seq<usize>> {
        self.adj@.map_values(|r: Vec<usize>| r@)
    }

    /// One name, kind and list of passages per cave; every passage leads to a
    /// cave; each kind is the one its name gives; no name twice.
    pub open spec fn wf(&self) -> bool {
        &&& self.names().len() == self.kinds().len()
        &&& self.adj().len() == self.kinds().len()
        &&& forall|k: int, j: int|
            0 <= k < self.adj().len() && 0 <= j < self.adj()[k].len() ==> #[trigger] self.adj()[k][j]
                < self.kinds().len()
        &&& forall|k: int| 0 <= k < self.kinds().len() ==> #[trigger] self.kinds()[k] == kind_of(self.names()[k])
        &&& forall|k: int, l: int|
            0 <= k < l < self.names().len() ==> #[trigger] self.names()[k] != #[trigger] self.names()[l]
    }

    /// No passage joins two big caves, which would let a path go round forever.
    pub open spec fn no_big_pairs(&self) -> bool {
        forall|k: int, j: int|
            0 <= k < self.adj().len() && 0 <= j < self.adj()[k].len() ==> !(self.kinds()[k] is Big && self.kinds()[#[trigger] self.adj()[k][j] as int] is Big)
    }

    /// The start cave, where there is one.
    pub open spec fn start(&self) -> int {
        choose|k: int| 0 <= k < self.kinds().len() && self.kinds()[k] is Start
    }

    pub open spec fn has_start(&self) -> bool {
        exists|k: int| 0 <= k < self.kinds().len() && self.kinds()[k] is Start
    }

    /// Whether the system has a start cave and no passage between two big
    /// caves: what counting its paths needs.
    pub fn paths_ready(&self) -> (r: bool)
        requires
            self.wf(),
        ensures
            r == (self.no_big_pairs() && self.has_start()),
    {
        let mut start = false;
        let mut k: usize = 0;
        while k < self.kinds.len()
            invariant
                k <= self.kinds@.len(),
                self.wf(),
                start == exists|j: int| 0 <= j < k && self.kinds()[j] is Start,
                forall|a: int, j: int|
                    0 <= a < k && 0 <= j < self.adj()[a].len() ==> !(self.kinds()[a] is Big && self.kinds()[#[trigger] self.adj()[a][j] as int] is Big),
            decreases self.kinds@.len() - k,
        {
            if self.kinds[k] == CaveKind::Start {
                start = true;
            }
            let row = &self.adj[k];
            assert(row@ == self.adj()[k as int]);
            let mut j: usize = 0;
            while j < row.len()
                invariant
                    j <= row@.len(),
                    k < self.kinds@.len(),
                    self.wf(),
                    row@ == self.adj()[k as int],
                    forall|i: int| 0 <= i < j ==> !(self.kinds()[k as int] is Big && self.kinds()[#[trigger] row@[i] as int] is Big),
                decreases row@.len() - j,
            {
                let other = row[j];
                assert(other < self.kinds@.len());
                if self.kinds[k] == CaveKind::Big && self.kinds[other] == CaveKind::Big {
                    return false;
                }
                j = j + 1;
            }
            k = k + 1;
        }
        start
    }

    /// Counts the paths from the start cave to the end cave that enter each
    /// small cave at most once, except that `quota` of them may be entered a
    /// second time; `None` where the count exceeds `u64::MAX`.
    pub fn paths(&self, quota: u32) -> (r: Option<u64>)
        requires
            self.wf(),
            self.no_big_pairs(),
            self.has_start(),
        ensures
            r == fit_u64(
                paths_from(
                    self.kinds(),
                    self.adj(),
                    self.start(),
                    Seq::new(self.kinds().len(), |i: int| false),
                    quota as nat,
                ),
            ),
    {
        let n = self.kinds.len();
        let mut s: usize = 0;
        while s < n
            invariant
                n == self.kinds@.len(),
                s <= n,
                forall|k: int| 0 <= k < s ==> !(#[trigger] self.kinds@[k] is Start),
            ensures
                s < n ==> self.kinds@[s as int] is Start,
                s <= n,
                forall|k: int| 0 <= k < s ==> !(#[trigger] self.kinds@[k] is Start),
            decreases n - s,
        {
            if self.kinds[s] == CaveKind::Start {
                break;
            }
            s = s + 1;
        }
        proof {
            let k = choose|k: int| 0 <= k < self.kinds().len() && self.kinds()[k] is Start;
            assert(s < n);
            let c = self.start();
            if c != s {
                assert(kind_of(self.names()[c]) is Start);
                assert(kind_of(self.names()[s as int]) is Start);
                if c < s {
                    assert(self.names()[c] != self.names()[s as int]);
                } else {
                    assert(self.names()[s as int] != self.names()[c]);
                }
            }
        }
        let mut visited: Vec<bool> = Vec::new();
        let mut i: usize = 0;
        while i < n
            invariant
                i <= n,
                visited@ == Seq::new(i as nat, |j: int| false),
            decreases n - i,
        {
            visited.push(false);
            i = i + 1;
        }
        self.paths_(s, visited, quota).0
    }

    /// The paths to the end from entering `node`, with `marks` marking the
    /// small caves (and the start) on the path so far; the marks come back as
    /// they were handed in.
    pub fn paths_(&self, node: usize, marks: Vec<bool>, quota: u32) -> (r: (Option<u64>, Vec<bool>))
        requires
            self.wf(),
            self.no_big_pairs(),
            node < self.kinds().len(),
            marks@.len() == self.kinds().len(),
        ensures
            r.1@ == marks@,
            r.0 == fit_u64(paths_from(self.kinds(), self.adj(), node as int, marks@, quota as nat)),
        decreases clear_marks(marks@), quota, kind_rank(self.kinds()[node as int]),
    {
        let mut visited = marks;
        let ghost kinds = self.kinds();
        let ghost adj = self.adj();
        let ghost v0 = visited@;
        let kind = self.kinds[node];
        if kind == CaveKind::End {
            return (Some(1), visited);
        }
        let is_start = kind == CaveKind::Start;
        let is_small = kind == CaveKind::Small;
        let seen = visited[node];
        let mut new_quota = quota;
        if seen {
            if is_start {
                return (Some(0), visited);
            } else if is_small {
                if quota == 0 {
                    return (Some(0), visited);
                }
                new_quota = quota - 1;
            }
        }
        if (is_start || is_small) && !seen {
            proof {
                lemma_clear_marks_set(v0, node as int);
            }
            visited.set(node, true);
        }
        let ghost v1 = visited@;
        assert(paths_from(kinds, adj, node as int, v0, quota as nat) == paths_via(
            kinds,
            adj,
            node as int,
            v1,
            new_quota as nat,
            0,
        ));
        let row = &self.adj[node];
        let mut total: u64 = 0;
        let mut j: usize = 0;
        while j < row.len()
            invariant
                self.wf(),
                self.no_big_pairs(),
                kinds == self.kinds(),
                adj == self.adj(),
                node < kinds.len(),
                row@ == adj[node as int],
                j <= row@.len(),
                visited@ == v1,
                v0 == marks@,
                paths_from(kinds, adj, node as int, v0, quota as nat) == paths_via(
                    kinds,
                    adj,
                    node as int,
                    v1,
                    new_quota as nat,
                    0,
                ),
                v1.len() == kinds.len(),
                v0.len() == kinds.len(),
                !(kinds[node as int] is End),
                is_start == (kinds[node as int] is Start),
                is_small == (kinds[node as int] is Small),
                (is_start || is_small) ==> v1 == v0.update(node as int, true) && !v0[node as int] && new_quota
                    == quota || (is_small
                    && v0[node as int] && v1 == v0 && new_quota < quota),
                !(is_start || is_small) ==> v1 == v0 && new_quota == quota,
                total + paths_via(kinds, adj, node as int, v1, new_quota as nat, j as nat) == paths_via(
                    kinds,
                    adj,
                    node as int,
                    v1,
                    new_quota as nat,
                    0,
                ),
                (is_start || is_small) && !v0[node as int] ==> clear_marks(v1) < clear_marks(v0),
                kinds[node as int] is Big ==> kind_rank(kinds[node as int]) == 1,
            decreases row@.len() - j,
        {
            let next = row[j];
            assert(adj[node as int][j as int] == next);
            assert(step_ok(kinds, node as int, next as int));
            proof {
                if kinds[node as int] is Big {
                    assert(kind_rank(kinds[next as int]) == 0);
                }
                assert(clear_marks(visited@) < clear_marks(v0) || (clear_marks(visited@) == clear_marks(v0) && (
                new_quota < quota || (new_quota == quota && kind_rank(kinds[next as int]) < kind_rank(
                    kinds[node as int],
                )))));
            }
            assert(paths_via(kinds, adj, node as int, v1, new_quota as nat, j as nat) == paths_from(
                kinds,
                adj,
                next as int,
                v1,
                new_quota as nat,
            ) + paths_via(kinds, adj, node as int, v1, new_quota as nat, j as nat + 1));
            let (c, back) = self.paths_(next, visited, new_quota);
            visited = back;
            let sum = match c {
                Some(c) => total.checked_add(c),
                None => None,
            };
            match sum {
                Some(t) => total = t,
                None => {
                    if (is_start || is_small) && new_quota == quota {
                        visited.set(node, false);
                        assert(visited@ =~= v0);
                    }
                    return (None, visited);
                },
            }
            j = j + 1;
        }
        if (is_start || is_small) && new_quota == quota {
            visited.set(node, false);
            assert(visited@ =~= v0);
        }
        (Some(total), visited)
    }
}

/// The two cave names of a passage line `a-b`, where it is one.
pub open spec fn passage(line: Seq<char>) -> Seq<Seq<char>> {
    split_pieces(line, seq!['-'])
}

/// Every line names exactly two caves.
pub open spec fn passages_ok(ls: Seq<Seq<char>>) -> bool {
    forall|i: int| 0 <= i < ls.len() ==> (#[trigger] passage(ls[i])).len() == 2
}

/// What the passage `line` adds to the neighbours of `name`: the far end of
/// it for each end that is `name`.
pub open spec fn passage_ends(line: Seq<char>, name: Seq<char>) -> Seq<Seq<char>> {
    let p = passage(line);
    (if p[0] == name {
        seq![p[1]]
    } else {
        seq![]
    }) + (if p[1] == name {
        seq![p[0]]
    } else {
        seq![]
    })
}

/// The caves that the passages `ls` lead to from `name`, in the order listed.
pub open spec fn neighbor_names(ls: Seq<Seq<char>>, name: Seq<char>) -> Seq<Seq<char>>
    decreases ls.len(),
{
    if ls.len() == 0 {
        seq![]
    } else {
        neighbor_names(ls.drop_last(), name) + passage_ends(ls.last(), name)
    }
}

/// Some passage of `ls` has `name` at one end.
pub open spec fn mentioned(ls: Seq<Seq<char>>, name: Seq<char>) -> bool {
    exists|i: int, e: int| 0 <= i < ls.len() && 0 <= e < 2 && #[trigger] passage(ls[i])[e] == name
}

/// The names of the caves that the indices `row` stand for.
pub open spec fn named(row: Seq<usize>, names: Seq<Seq<char>>) -> Seq<Seq<char>> {
    row.map_values(|j: usize| names[j as int])
}

/// A name at no end of any passage has no neighbours.
proof fn lemma_unmentioned(ls: Seq<Seq<char>>, name: Seq<char>)
    requires
        passages_ok(ls),
        !mentioned(ls, name),
    ensures
        neighbor_names(ls, name) == Seq::<Seq<char>>::empty(),
    decreases ls.len(),
{
    if ls.len() > 0 {
        let pre = ls.drop_last();
        assert(passages_ok(pre)) by {
            assert forall|i: int| 0 <= i < pre.len() implies (#[trigger] passage(pre[i])).len() == 2 by {
                assert(pre[i] == ls[i]);
            }
        }
        assert(!mentioned(pre, name)) by {
            if mentioned(pre, name) {
                let (i, e) = choose|i: int, e: int| 0 <= i < pre.len() && 0 <= e < 2 && #[trigger] passage(pre[i])[e] == name;
                assert(pre[i] == ls[i]);
            }
        }
        lemma_unmentioned(pre, name);
        let p = passage(ls.last());
        assert(p[0] != name) by {
            if p[0] == name {
                assert(passage(ls[ls.len() - 1])[0] == name);
            }
        }
        assert(p[1] != name) by {
            if p[1] == name {
                assert(passage(ls[ls.len() - 1])[1] == name);
            }
        }
        assert(passage_ends(ls.last(), name) =~= seq![]);
    }
}

/// The kind of cave that `s` names.
fn kind_from_name(s: &str) -> (r: CaveKind)
    ensures
        r == kind_of(s@),
{
    proof {
        reveal_strlit("start");
        reveal_strlit("end");
        assert("start"@ =~= seq!['s', 't', 'a', 'r', 't']);
        assert("end"@ =~= seq!['e', 'n', 'd']);
    }
    let n = s.unicode_len();
    if text_is(s, 0, n, "start") {
        assert(s@.subrange(0, n as int) == s@);
        return CaveKind::Start;
    }
    if text_is(s, 0, n, "end") {
        assert(s@.subrange(0, n as int) == s@);
        return CaveKind::End;
    }
    assert(s@.subrange(0, n as int) == s@);
    let mut i: usize = 0;
    while i < n
        invariant
            i <= n,
            n == s@.len(),
            s@ != seq!['s', 't', 'a', 'r', 't'],
            s@ != seq!['e', 'n', 'd'],
            forall|k: int| 0 <= k < i ==> !('a' <= #[trigger] s@[k] <= 'z'),
        decreases n - i,
    {
        let c = s.get_char(i);
        if 'a' <= c && c <= 'z' {
            return CaveKind::Small;
        }
        i = i + 1;
    }
    CaveKind::Big
}

impl CaveSystem {
    /// The index of the cave named `name`, added (with no passages) where it is
    /// not there yet.
    fn intern(&mut self, name: String) -> (k: usize)
        requires
            old(self).wf(),
        ensures
            final(self).wf(),
            k < final(self).names().len(),
            final(self).names()[k as int] == name@,
            old(self).names().contains(name@) ==> *final(self) == *old(self),
            !old(self).names().contains(name@) ==> {
                &&& final(self).names() == old(self).names().push(name@)
                &&& final(self).kinds() == old(self).kinds().push(kind_of(name@))
                &&& final(self).adj() == old(self).adj().push(seq![])
            },
    {
        let mut k: usize = 0;
        while k < self.names.len()
            invariant
                k <= self.names@.len(),
                self.wf(),
                *self == *old(self),
                forall|j: int| 0 <= j < k ==> self.names()[j] != name@,
            decreases self.names@.len() - k,
        {
            if self.names[k] == name {
                assert(self.names()[k as int] == self.names@[k as int]@);
                return k;
            }
            assert(self.names()[k as int] == self.names@[k as int]@);
            k = k + 1;
        }
        assert(!old(self).names().contains(name@)) by {
            if old(self).names().contains(name@) {
                let j = choose|j: int| 0 <= j < old(self).names().len() && old(self).names()[j] == name@;
            }
        }
        let kind = kind_from_name(name.as_str());
        let ghost old_names = self.names@;
        let ghost old_adj = self.adj@;
        self.names.push(name);
        self.kinds.push(kind);
        self.adj.push(Vec::new());
        assert(self.names() =~= old(self).names().push(name@));
        assert(self.adj() =~= old(self).adj().push(seq![]));
        assert(self.names()[k as int] == name@);
        k
    }

    /// Adds `j` to the end of the passages of cave `k`.
    fn add_neighbor(&mut self, k: usize, j: usize)
        requires
            k < old(self).adj().len(),
        ensures
            final(self).names() == old(self).names(),
            final(self).kinds() == old(self).kinds(),
            final(self).adj() == old(self).adj().update(k as int, old(self).adj()[k as int].push(j)),
    {
        self.adj[k].push(j);
        assert(self.adj() =~= old(self).adj().update(k as int, old(self).adj()[k as int].push(j)));
    }

    /// Builds the cave system from lines `a-b`, one passage between caves `a`
    /// and `b` each, which may be walked both ways. Fails where a line does not
    /// name exactly two caves.
    #[verifier::rlimit(80)]
    pub fn parse_system(lines: &Vec<String>) -> (r: Result<CaveSystem, &'static str>)
        ensures
            match r {
                Ok(g) => {
                    let ls = lines@.map_values(|l: String| l@);
                    &&& g.wf()
                    &&& passages_ok(ls)
                    &&& forall|k: int|
                        0 <= k < g.names().len() ==> mentioned(ls, #[trigger] g.names()[k]) && named(
                            g.adj()[k],
                            g.names(),
                        ) == neighbor_names(ls, g.names()[k])
                    &&& forall|i: int, e: int|
                        0 <= i < ls.len() && 0 <= e < 2 ==> g.names().contains(#[trigger] passage(ls[i])[e])
                },
                Err(e) => e == "Not a pair" && !passages_ok(lines@.map_values(|l: String| l@)),
            },
    {
        let ghost ls = lines@.map_values(|l: String| l@);
        proof {
            reveal_strlit("-");
            assert("-"@ =~= seq!['-']);
        }
        let mut g = CaveSystem { names: Vec::new(), kinds: Vec::new(), adj: Vec::new() };
        assert(g.names() =~= seq![]);
        assert(g.adj() =~= seq![]);
        let mut y: usize = 0;
        while y < lines.len()
            invariant
                y <= lines@.len(),
                ls == lines@.map_values(|l: String| l@),
                ls.len() == lines@.len(),
                g.wf(),
                passages_ok(ls.subrange(0, y as int)),
                forall|k: int|
                    0 <= k < g.names().len() ==> mentioned(ls.subrange(0, y as int), #[trigger] g.names()[k])
                        && named(g.adj()[k], g.names()) == neighbor_names(ls.subrange(0, y as int), g.names()[k]),
                forall|i: int, e: int|
                    0 <= i < y && 0 <= e < 2 ==> g.names().contains(#[trigger] passage(ls[i])[e]),
            decreases lines@.len() - y,
        {
            let line = lines[y].as_str();
            assert(ls[y as int] == line@);
            proof {
                reveal_strlit("-");
                assert("-"@ =~= seq!['-']);
            }
            let parts = split_at_sep(line, "-");
            let ghost rr = split_ranges(line@, seq!['-'], 0, 0);
            if parts.len() != 2 {
                assert(passage(ls[y as int]).len() != 2);
                return Err("Not a pair");
            }
            let ghost pre = ls.subrange(0, y as int);
            let ghost cur = ls.subrange(0, y + 1);
            assert(cur.drop_last() == pre);
            assert(cur.last() == line@);
            let ghost a = passage(line@)[0];
            let ghost b = passage(line@)[1];
            assert(a == line@.subrange(rr[0].0, rr[0].1));
            assert(b == line@.subrange(rr[1].0, rr[1].1));
            let sa = line.substring_char(parts[0].0, parts[0].1).to_owned();
            let sb = line.substring_char(parts[1].0, parts[1].1).to_owned();
            assert(passages_ok(cur)) by {
                assert forall|i: int| 0 <= i < cur.len() implies (#[trigger] passage(cur[i])).len() == 2 by {
                    if i < y {
                        assert(cur[i] == pre[i]);
                    }
                }
            }
            let ghost g0 = g;
            let ia = g.intern(sa);
            proof {
                if !g0.names().contains(a) {
                    assert(!mentioned(pre, a)) by {
                        if mentioned(pre, a) {
                            let (i, e) = choose|i: int, e: int| 0 <= i < pre.len() && 0 <= e < 2 && #[trigger] passage(pre[i])[e] == a;
                            assert(pre[i] == ls[i]);
                        }
                    }
                    lemma_unmentioned(pre, a);
                }
            }
            let ghost g1 = g;
            let ib = g.intern(sb);
            proof {
                if !g1.names().contains(b) {
                    assert(!mentioned(pre, b)) by {
                        if mentioned(pre, b) {
                            let (i, e) = choose|i: int, e: int| 0 <= i < pre.len() && 0 <= e < 2 && #[trigger] passage(pre[i])[e] == b;
                            assert(pre[i] == ls[i]);
                            assert(g0.names().contains(b));
                            let j = choose|j: int| 0 <= j < g0.names().len() && g0.names()[j] == b;
                            assert(g1.names()[j] == b);
                        }
                    }
                    lemma_unmentioned(pre, b);
                }
            }
            let ghost g2 = g;
            let ghost n0 = g0.names().len();
            proof {
                assert(forall|k: int| 0 <= k < n0 ==> g2.names()[k] == g0.names()[k] && g2.adj()[k] == g0.adj()[k]);
                assert(forall|k: int|
                    n0 <= k < g2.names().len() ==> (g2.names()[k] == a || g2.names()[k] == b) && g2.adj()[k]
                        == Seq::<usize>::empty());
                assert(g2.names()[ia as int] == a);
                assert(g2.names()[ib as int] == b);
            }
            g.add_neighbor(ia, ib);
            g.add_neighbor(ib, ia);
            proof {
                assert(g.names() == g2.names());
                assert(g.wf()) by {
                    assert forall|k: int, j: int|
                        0 <= k < g.adj().len() && 0 <= j < g.adj()[k].len() implies #[trigger] g.adj()[k][j]
                        < g.kinds().len() by {
                        if k != ia && k != ib {
                            assert(g.adj()[k] == g2.adj()[k]);
                        } else if j < g2.adj()[k].len() {
                            assert(g.adj()[k][j] == g2.adj()[k][j]);
                        }
                    }
                }
                assert forall|k: int| 0 <= k < g.names().len() implies mentioned(cur, #[trigger] g.names()[k])
                    && named(g.adj()[k], g.names()) == neighbor_names(cur, g.names()[k]) by {
                    let nm = g.names()[k];
                    assert(neighbor_names(cur, nm) == neighbor_names(pre, nm) + passage_ends(line@, nm));
                    if nm == a {
                        assert(passage(cur[y as int])[0] == nm);
                    } else if nm == b {
                        assert(passage(cur[y as int])[1] == nm);
                    }
                    let base = g2.adj()[k];
                    assert(named(base, g.names()) == neighbor_names(pre, nm)) by {
                        if k < n0 {
                            assert(g0.names()[k] == nm);
                            assert(mentioned(pre, nm));
                            assert(named(g0.adj()[k], g0.names()) == neighbor_names(pre, nm));
                            assert(named(base, g.names()) =~= named(g0.adj()[k], g0.names())) by {
                                assert forall|j: int| 0 <= j < base.len() implies g.names()[base[j] as int]
                                    == g0.names()[base[j] as int] by {
                                    assert(g0.adj()[k][j] < g0.kinds().len());
                                }
                            }
                        } else {
                            if nm == a {
                                assert(!g0.names().contains(a));
                            } else {
                                assert(!g1.names().contains(b));
                            }
                            assert(named(base, g.names()) =~= Seq::<Seq<char>>::empty());
                        }
                    }
                    if k == ia && k == ib {
                        assert(g.adj()[k] == base.push(ib).push(ia));
                        assert(named(g.adj()[k], g.names()) =~= named(base, g.names()).push(b).push(a));
                        assert(passage_ends(line@, nm) =~= seq![b, a]);
                    } else if k == ia {
                        assert(g.adj()[k] == base.push(ib));
                        assert(named(g.adj()[k], g.names()) =~= named(base, g.names()).push(b));
                        assert(nm != b);
                        assert(passage_ends(line@, nm) =~= seq![b]);
                    } else if k == ib {
                        assert(g.adj()[k] == base.push(ia));
                        assert(named(g.adj()[k], g.names()) =~= named(base, g.names()).push(a));
                        assert(nm != a);
                        assert(passage_ends(line@, nm) =~= seq![a]);
                    } else {
                        assert(g.adj()[k] == base);
                        assert(nm != a);
                        assert(nm != b);
                        assert(passage_ends(line@, nm) =~= seq![]);
                    }
                    if k < n0 {
                        assert(mentioned(pre, g0.names()[k]));
                        let (i, e) = choose|i: int, e: int| 0 <= i < pre.len() && 0 <= e < 2 && #[trigger] passage(pre[i])[e] == nm;
                        assert(cur[i] == pre[i]);
                    }
                }
                assert forall|i: int, e: int| 0 <= i < y + 1 && 0 <= e < 2 implies g.names().contains(
                    #[trigger] passage(ls[i])[e],
                ) by {
                    if i < y {
                        let w = passage(ls[i])[e];
                        assert(g0.names().contains(w));
                        let j = choose|j: int| 0 <= j < g0.names().len() && g0.names()[j] == w;
                        assert(g.names()[j] == w);
                    } else if e == 0 {
                        assert(g.names()[ia as int] == a);
                    } else {
                        assert(g.names()[ib as int] == b);
                    }
                }
            }
            y = y + 1;
        }
        assert(ls.subrange(0, y as int) == ls);
        Ok(g)
    }
}

} // verus!

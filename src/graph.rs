use vstd::prelude::*;

use crate::error::Error;
use crate::hash::CommitHash;

verus! {

/// A commit as the graph records it.
pub struct CommitNode {
    pub hash: CommitHash,
    /// The parents, in the order the commit records them.
    pub parents: Vec<CommitHash>,
    pub message: String,
}

/// The mathematical value of a commit node.
pub struct CommitView {
    pub hash: CommitHash,
    pub parents: Seq<CommitHash>,
    pub message: Seq<char>,
}

/// The commits of a repository in creation order: every parent of a commit
/// was created before it.
pub struct CommitGraph {
    nodes: Vec<CommitNode>,
}

pub open spec fn node_view(n: CommitNode) -> CommitView {
    CommitView { hash: n.hash, parents: n.parents@, message: n.message@ }
}

/// Whether the graph holds a commit with hash `h`.
pub open spec fn holds(g: Seq<CommitView>, h: CommitHash) -> bool {
    exists|i: int| #![trigger g[i].hash] 0 <= i < g.len() && g[i].hash == h
}

/// The position of commit `h` in creation order, or -1 when it is absent.
pub open spec fn index_of(g: Seq<CommitView>, h: CommitHash) -> int {
    if holds(g, h) {
        choose|i: int| #![trigger g[i].hash] 0 <= i < g.len() && g[i].hash == h
    } else {
        -1
    }
}

pub open spec fn parents_of(g: Seq<CommitView>, h: CommitHash) -> Seq<CommitHash> {
    g[index_of(g, h)].parents
}

pub open spec fn message_of(g: Seq<CommitView>, h: CommitHash) -> Seq<char> {
    g[index_of(g, h)].message
}

/// Hashes are unique, and each parent of a commit precedes it.
pub open spec fn well_formed(g: Seq<CommitView>) -> bool {
    &&& forall|i: int, j: int|
        #![trigger g[i].hash, g[j].hash]
        0 <= i < j < g.len() ==> g[i].hash != g[j].hash
    &&& forall|i: int, k: int|
        0 <= i < g.len() && 0 <= k < g[i].parents.len() ==> #[trigger] parent_precedes(g, i, k)
}

/// The `k`-th parent of the `i`-th commit is an earlier commit.
pub open spec fn parent_precedes(g: Seq<CommitView>, i: int, k: int) -> bool {
    exists|j: int| #![trigger g[j].hash] 0 <= j < i && g[j].hash == g[i].parents[k]
}

/// Following single parents from `h` for at most `fuel` steps, nearest first;
/// `None` where a commit on the way has several parents.
pub open spec fn ancestor_walk(g: Seq<CommitView>, h: CommitHash, fuel: nat) -> Option<
    Seq<CommitHash>,
>
    decreases fuel,
{
    let ps = parents_of(g, h);
    if fuel == 0 || ps.len() == 0 {
        Some(Seq::empty())
    } else if ps.len() > 1 {
        None
    } else {
        match ancestor_walk(g, ps[0], (fuel - 1) as nat) {
            Some(s) => Some(seq![ps[0]] + s),
            None => None,
        }
    }
}

/// The children of `h` among the first `n` commits, in creation order.
pub open spec fn children_upto(g: Seq<CommitView>, h: CommitHash, n: int) -> Seq<CommitHash>
    decreases n,
{
    if n <= 0 {
        Seq::empty()
    } else {
        let prev = children_upto(g, h, n - 1);
        if g[n - 1].parents.contains(h) {
            prev.push(g[n - 1].hash)
        } else {
            prev
        }
    }
}

/// The commits that list `h` among their parents, in creation order.
pub open spec fn children_of(g: Seq<CommitView>, h: CommitHash) -> Seq<CommitHash> {
    children_upto(g, h, g.len() as int)
}

/// Following single children from `h` for at most `fuel` steps, nearest
/// first; `None` where a commit on the way has several children.
pub open spec fn descendant_walk(g: Seq<CommitView>, h: CommitHash, fuel: nat) -> Option<
    Seq<CommitHash>,
>
    decreases fuel,
{
    let cs = children_of(g, h);
    if fuel == 0 || cs.len() == 0 {
        Some(Seq::empty())
    } else if cs.len() > 1 {
        None
    } else {
        match descendant_walk(g, cs[0], (fuel - 1) as nat) {
            Some(s) => Some(seq![cs[0]] + s),
            None => None,
        }
    }
}

/// The walk budget that an absent maximum stands for: no chain is longer
/// than the graph.
pub open spec fn fuel_of(g: Seq<CommitView>, max: Option<usize>) -> nat {
    match max {
        Some(m) => m as nat,
        None => g.len(),
    }
}

/// Whether the first-parent chain from `h` down to a root has no merge commit.
pub open spec fn linear_from(g: Seq<CommitView>, h: CommitHash) -> bool {
    ancestor_walk(g, h, g.len()) is Some
}

/// `h` followed by all of its ancestors, nearest first.
pub open spec fn lineage(g: Seq<CommitView>, h: CommitHash) -> Seq<CommitHash> {
    seq![h] + ancestor_walk(g, h, g.len())->Some_0
}

/// The number of first-parent steps from `h` down to a root.
pub open spec fn depth(g: Seq<CommitView>, h: CommitHash) -> nat
    decreases index_of(g, h),
{
    let ps = parents_of(g, h);
    if ps.len() > 0 && 0 <= index_of(g, ps[0]) < index_of(g, h) {
        1 + depth(g, ps[0])
    } else {
        0
    }
}

/// `m` is on both lineages and is the latest commit that is.
pub open spec fn is_merge_base(
    g: Seq<CommitView>,
    a: CommitHash,
    b: CommitHash,
    m: CommitHash,
) -> bool {
    &&& lineage(g, a).contains(m)
    &&& lineage(g, b).contains(m)
    &&& forall|x: CommitHash|
        lineage(g, a).contains(x) && lineage(g, b).contains(x) ==> index_of(g, x) <= index_of(
            g,
            m,
        )
}

pub open spec fn share_a_commit(g: Seq<CommitView>, a: CommitHash, b: CommitHash) -> bool {
    exists|x: CommitHash| lineage(g, a).contains(x) && lineage(g, b).contains(x)
}

pub proof fn lemma_index_of(g: Seq<CommitView>, i: int)
    requires
        well_formed(g),
        0 <= i < g.len(),
    ensures
        holds(g, g[i].hash),
        index_of(g, g[i].hash) == i,
{
    let h = g[i].hash;
    assert(holds(g, h));
    let j = index_of(g, h);
    assert(g[j].hash == h);
    if j < i {
        assert(g[j].hash != g[i].hash);
    } else if i < j {
        assert(g[i].hash != g[j].hash);
    }
}

pub proof fn lemma_parent_before(g: Seq<CommitView>, h: CommitHash, k: int)
    requires
        well_formed(g),
        holds(g, h),
        0 <= k < parents_of(g, h).len(),
    ensures
        holds(g, parents_of(g, h)[k]),
        0 <= index_of(g, parents_of(g, h)[k]) < index_of(g, h),
{
    let i = index_of(g, h);
    let p = g[i].parents[k];
    assert(parent_precedes(g, i, k));
    let j = choose|j: int| #![trigger g[j].hash] 0 <= j < i && g[j].hash == p;
    lemma_index_of(g, j);
}

impl View for CommitGraph {
    type V = Seq<CommitView>;

    closed spec fn view(&self) -> Seq<CommitView> {
        self.nodes@.map_values(|n: CommitNode| node_view(n))
    }
}

impl CommitGraph {
    pub open spec fn wf(&self) -> bool {
        well_formed(self@)
    }

    /// An empty graph.
    pub fn new() -> (r: CommitGraph)
        ensures
            r@ == Seq::<CommitView>::empty(),
            r.wf(),
    {
        CommitGraph { nodes: Vec::new() }
    }

    /// The position of commit `h`, if the graph holds it.
    pub fn find(&self, h: &CommitHash) -> (r: Option<usize>)
        requires
            self.wf(),
        ensures
            match r {
                Some(i) => holds(self@, *h) && i == index_of(self@, *h),
                None => !holds(self@, *h),
            },
    {
        let mut i: usize = 0;
        while i < self.nodes.len()
            invariant
                self.wf(),
                i <= self.nodes.len(),
                forall|j: int| 0 <= j < i ==> self@[j].hash != *h,
            decreases self.nodes.len() - i,
        {
            if self.nodes[i].hash == *h {
                proof {
                    lemma_index_of(self@, i as int);
                }
                return Some(i);
            }
            i = i + 1;
        }
        None
    }

    /// Whether the graph holds commit `h`.
    pub fn contains(&self, h: &CommitHash) -> (r: bool)
        requires
            self.wf(),
        ensures
            r == holds(self@, *h),
    {
        self.find(h).is_some()
    }

    /// Records a new commit whose parents are all in the graph.
    pub fn add_commit(&mut self, hash: CommitHash, parents: Vec<CommitHash>, message: String) -> (r:
        Result<(), Error>)
        requires
            old(self).wf(),
        ensures
            final(self).wf(),
            match r {
                Ok(()) => {
                    &&& !holds(old(self)@, hash)
                    &&& forall|k: int|
                        0 <= k < parents@.len() ==> holds(old(self)@, #[trigger] parents@[k])
                    &&& final(self)@ == old(self)@.push(
                        CommitView { hash, parents: parents@, message: message@ },
                    )
                },
                Err(Error::AlreadyExists(_)) => holds(old(self)@, hash) && final(self)@ == old(
                    self,
                )@,
                Err(Error::NotFound(_)) => {
                    &&& !holds(old(self)@, hash)
                    &&& exists|k: int|
                        0 <= k < parents@.len() && !holds(old(self)@, #[trigger] parents@[k])
                    &&& final(self)@ == old(self)@
                },
                _ => false,
            },
    {
        if self.contains(&hash) {
            return Err(Error::AlreadyExists("the commit already exists".to_owned()));
        }
        let mut k: usize = 0;
        while k < parents.len()
            invariant
                self.wf(),
                self@ == old(self)@,
                !holds(self@, hash),
                k <= parents.len(),
                forall|j: int| 0 <= j < k ==> holds(self@, #[trigger] parents@[j]),
            decreases parents.len() - k,
        {
            if !self.contains(&parents[k]) {
                assert(!holds(self@, parents@[k as int]));
                return Err(Error::NotFound("a parent commit does not exist".to_owned()));
            }
            k = k + 1;
        }
        let ghost g0 = self@;
        let node = CommitNode { hash, parents, message };
        self.nodes.push(node);
        proof {
            let g = self@;
            assert(g == g0.push(node_view(node)));
            assert forall|i: int, j: int|
                #![trigger g[i].hash, g[j].hash]
                0 <= i < j < g.len() implies g[i].hash != g[j].hash by {
                if j == g.len() - 1 {
                    assert(g0[i].hash == g[i].hash);
                }
            }
            assert forall|i: int, k: int|
                0 <= i < g.len() && 0 <= k < g[i].parents.len() implies #[trigger] parent_precedes(g, i, k) by {
                if i < g0.len() {
                    assert(g0[i].parents[k] == g[i].parents[k]);
                    assert(parent_precedes(g0, i, k));
                    let j = choose|j: int| #![trigger g0[j].hash] 0 <= j < i && g0[j].hash == g0[i].parents[k];
                    assert(g[j].hash == g0[j].hash);
                } else {
                    let p = node.parents@[k];
                    assert(holds(g0, p));
                    let j = choose|j: int| #![trigger g0[j].hash] 0 <= j < g0.len() && g0[j].hash == p;
                    assert(g[j].hash == g0[j].hash);
                }
            }
            assert(well_formed(g));
        }
        Ok(())
    }

    /// Follows single parents from the `i`-th commit for at most `fuel` steps.
    fn walk_up(&self, i: usize, fuel: usize) -> (r: Option<Vec<CommitHash>>)
        requires
            self.wf(),
            i < self@.len(),
        ensures
            match r {
                Some(v) => ancestor_walk(self@, self@[i as int].hash, fuel as nat) == Some(v@),
                None => ancestor_walk(self@, self@[i as int].hash, fuel as nat) is None,
            },
    {
        let ghost g = self@;
        let mut out: Vec<CommitHash> = Vec::new();
        let mut cur: usize = i;
        let mut left: usize = fuel;
        while left > 0
            invariant
                self.wf(),
                g == self@,
                cur < g.len(),
                ancestor_walk(g, g[i as int].hash, fuel as nat) == match ancestor_walk(
                    g,
                    g[cur as int].hash,
                    left as nat,
                ) {
                    Some(s) => Some(out@ + s),
                    None => None,
                },
            decreases left,
        {
            proof {
                lemma_index_of(g, cur as int);
            }
            let n = self.nodes[cur].parents.len();
            if n == 0 {
                assert(out@ + Seq::<CommitHash>::empty() =~= out@);
                return Some(out);
            }
            if n > 1 {
                return None;
            }
            let p = self.nodes[cur].parents[0];
            proof {
                lemma_parent_before(g, g[cur as int].hash, 0);
            }
            let next = match self.find(&p) {
                Some(j) => j,
                None => {
                    return None;
                },
            };
            proof {
                let t = ancestor_walk(g, p, (left - 1) as nat);
                if t is Some {
                    assert(out@ + (seq![p] + t->Some_0) =~= out@.push(p) + t->Some_0);
                }
            }
            out.push(p);
            cur = next;
            left = left - 1;
        }
        assert(out@ + Seq::<CommitHash>::empty() =~= out@);
        Some(out)
    }

    /// The ancestors of `commit`, the direct parent first, at most `max` of
    /// them (all of them when `max` is `None`).
    ///
    /// Fails with `NotFound` for an unknown commit, and with
    /// `InvalidRepository` for a root or where a commit visited on the way
    /// is a merge commit.
    pub fn list_ancestors(&self, commit: &CommitHash, max: Option<usize>) -> (r: Result<
        Vec<CommitHash>,
        Error,
    >)
        requires
            self.wf(),
        ensures
            match r {
                Ok(v) => {
                    &&& holds(self@, *commit)
                    &&& parents_of(self@, *commit).len() > 0
                    &&& ancestor_walk(self@, *commit, fuel_of(self@, max)) == Some(v@)
                },
                Err(Error::NotFound(_)) => !holds(self@, *commit),
                Err(Error::InvalidRepository(_)) => {
                    &&& holds(self@, *commit)
                    &&& (parents_of(self@, *commit).len() == 0 || ancestor_walk(
                        self@,
                        *commit,
                        fuel_of(self@, max),
                    ) is None)
                },
                _ => false,
            },
    {
        let i = match self.find(commit) {
            Some(i) => i,
            None => {
                return Err(Error::NotFound("the commit does not exist".to_owned()));
            },
        };
        proof {
            lemma_index_of(self@, i as int);
        }
        if self.nodes[i].parents.len() == 0 {
            return Err(Error::InvalidRepository("the commit has no parent".to_owned()));
        }
        let fuel = match max {
            Some(m) => m,
            None => self.nodes.len(),
        };
        match self.walk_up(i, fuel) {
            Some(v) => Ok(v),
            None => Err(Error::InvalidRepository("there is a merge commit on the path".to_owned())),
        }
    }

    /// Whether `node` lists `h` among its parents.
    fn lists_parent(node: &CommitNode, h: &CommitHash) -> (r: bool)
        ensures
            r == node.parents@.contains(*h),
    {
        let mut k: usize = 0;
        while k < node.parents.len()
            invariant
                k <= node.parents.len(),
                forall|j: int| 0 <= j < k ==> node.parents@[j] != *h,
            decreases node.parents.len() - k,
        {
            if node.parents[k] == *h {
                return true;
            }
            k = k + 1;
        }
        false
    }

    /// The commits that list `h` among their parents, in creation order.
    fn children(&self, h: &CommitHash) -> (r: Vec<CommitHash>)
        ensures
            r@ == children_of(self@, *h),
    {
        let mut out: Vec<CommitHash> = Vec::new();
        let mut i: usize = 0;
        while i < self.nodes.len()
            invariant
                i <= self.nodes.len(),
                out@ == children_upto(self@, *h, i as int),
            decreases self.nodes.len() - i,
        {
            if Self::lists_parent(&self.nodes[i], h) {
                out.push(self.nodes[i].hash);
            }
            i = i + 1;
        }
        out
    }

    /// The direct children of `commit`, in creation order.
    ///
    /// Fails with `NotFound` for an unknown commit.
    pub fn list_children(&self, commit: &CommitHash) -> (r: Result<Vec<CommitHash>, Error>)
        requires
            self.wf(),
        ensures
            match r {
                Ok(v) => holds(self@, *commit) && v@ == children_of(self@, *commit),
                Err(Error::NotFound(_)) => !holds(self@, *commit),
                _ => false,
            },
    {
        if !self.contains(commit) {
            return Err(Error::NotFound("the commit does not exist".to_owned()));
        }
        Ok(self.children(commit))
    }

    /// The descendants of `commit`, the direct child first, at most `max` of
    /// them (all of them when `max` is `None`).
    ///
    /// Fails with `NotFound` for an unknown commit, and with
    /// `InvalidRepository` where a commit visited on the way has several
    /// children.
    pub fn list_descendants(&self, commit: &CommitHash, max: Option<usize>) -> (r: Result<
        Vec<CommitHash>,
        Error,
    >)
        requires
            self.wf(),
        ensures
            match r {
                Ok(v) => holds(self@, *commit) && descendant_walk(
                    self@,
                    *commit,
                    fuel_of(self@, max),
                ) == Some(v@),
                Err(Error::NotFound(_)) => !holds(self@, *commit),
                Err(Error::InvalidRepository(_)) => holds(self@, *commit) && descendant_walk(
                    self@,
                    *commit,
                    fuel_of(self@, max),
                ) is None,
                _ => false,
            },
    {
        if !self.contains(commit) {
            return Err(Error::NotFound("the commit does not exist".to_owned()));
        }
        let ghost g = self@;
        let fuel = match max {
            Some(m) => m,
            None => self.nodes.len(),
        };
        let mut out: Vec<CommitHash> = Vec::new();
        assert(fuel as nat == fuel_of(g, max));
        let mut cur: CommitHash = *commit;
        let mut left: usize = fuel;
        while left > 0
            invariant
                g == self@,
                holds(g, *commit),
                fuel as nat == fuel_of(g, max),
                descendant_walk(g, *commit, fuel as nat) == match descendant_walk(
                    g,
                    cur,
                    left as nat,
                ) {
                    Some(s) => Some(out@ + s),
                    None => None,
                },
            decreases left,
        {
            let cs = self.children(&cur);
            if cs.len() == 0 {
                assert(descendant_walk(g, cur, left as nat) == Some(Seq::<CommitHash>::empty()));
                assert(out@ + Seq::<CommitHash>::empty() =~= out@);
                return Ok(out);
            }
            if cs.len() > 1 {
                assert(descendant_walk(g, cur, left as nat) is None);
                return Err(
                    Error::InvalidRepository("the history diverges after the commit".to_owned()),
                );
            }
            let c = cs[0];
            proof {
                let t = descendant_walk(g, c, (left - 1) as nat);
                if t is Some {
                    assert(out@ + (seq![c] + t->Some_0) =~= out@.push(c) + t->Some_0);
                }
            }
            out.push(c);
            cur = c;
            left = left - 1;
        }
        assert(out@ + Seq::<CommitHash>::empty() =~= out@);
        Ok(out)
    }

    /// The message of commit `h`.
    ///
    /// Fails with `NotFound` for an unknown commit.
    pub fn message(&self, h: &CommitHash) -> (r: Result<String, Error>)
        requires
            self.wf(),
        ensures
            match r {
                Ok(m) => holds(self@, *h) && m@ == message_of(self@, *h),
                Err(Error::NotFound(_)) => !holds(self@, *h),
                _ => false,
            },
    {
        match self.find(h) {
            Some(i) => Ok(self.nodes[i].message.clone()),
            None => Err(Error::NotFound("the commit does not exist".to_owned())),
        }
    }

    /// The one parent of `h`, against which its changes are shown.
    ///
    /// Fails with `NotFound` for an unknown commit, and with
    /// `InvalidRepository` for a root or a merge commit.
    pub fn single_parent(&self, h: &CommitHash) -> (r: Result<CommitHash, Error>)
        requires
            self.wf(),
        ensures
            match r {
                Ok(p) => holds(self@, *h) && parents_of(self@, *h) == seq![p],
                Err(Error::NotFound(_)) => !holds(self@, *h),
                Err(Error::InvalidRepository(_)) => holds(self@, *h) && parents_of(self@, *h).len()
                    != 1,
                _ => false,
            },
    {
        match self.find(h) {
            Some(i) => {
                if self.nodes[i].parents.len() != 1 {
                    return Err(
                        Error::InvalidRepository("the commit is a root or a merge commit".to_owned()),
                    );
                }
                let p = self.nodes[i].parents[0];
                assert(self@[i as int].parents =~= seq![p]);
                Ok(p)
            },
            None => Err(Error::NotFound("the commit does not exist".to_owned())),
        }
    }

    /// The root that following single parents from `h` ends at.
    ///
    /// Fails with `NotFound` for an unknown commit, and with
    /// `InvalidRepository` where a merge commit is on the way.
    pub fn root_of(&self, h: &CommitHash) -> (r: Result<CommitHash, Error>)
        requires
            self.wf(),
        ensures
            match r {
                Ok(c) => {
                    &&& holds(self@, *h)
                    &&& linear_from(self@, *h)
                    &&& c == lineage(self@, *h).last()
                },
                Err(Error::NotFound(_)) => !holds(self@, *h),
                Err(Error::InvalidRepository(_)) => holds(self@, *h) && !linear_from(self@, *h),
                _ => false,
            },
    {
        let i = match self.find(h) {
            Some(i) => i,
            None => {
                return Err(Error::NotFound("the commit does not exist".to_owned()));
            },
        };
        proof {
            lemma_index_of(self@, i as int);
        }
        match self.lineage_of(i) {
            Some(l) => Ok(l[l.len() - 1]),
            None => Err(Error::InvalidRepository("there is a merge commit on the path".to_owned())),
        }
    }

    /// `h` followed by all of its ancestors, nearest first; `None` where a
    /// merge commit is on the way.
    fn lineage_of(&self, i: usize) -> (r: Option<Vec<CommitHash>>)
        requires
            self.wf(),
            i < self@.len(),
        ensures
            match r {
                Some(v) => linear_from(self@, self@[i as int].hash) && v@ == lineage(
                    self@,
                    self@[i as int].hash,
                ),
                None => !linear_from(self@, self@[i as int].hash),
            },
    {
        let walk = self.walk_up(i, self.nodes.len());
        match walk {
            Some(w) => {
                let mut v: Vec<CommitHash> = Vec::new();
                v.push(self.nodes[i].hash);
                let mut k: usize = 0;
                while k < w.len()
                    invariant
                        k <= w.len(),
                        v@ == seq![self@[i as int].hash] + w@.subrange(0, k as int),
                    decreases w.len() - k,
                {
                    v.push(w[k]);
                    k = k + 1;
                    assert(v@ =~= seq![self@[i as int].hash] + w@.subrange(0, k as int));
                }
                assert(w@.subrange(0, w@.len() as int) =~= w@);
                Some(v)
            },
            None => None,
        }
    }

    /// The nearest common ancestor of `a` and `b`: the latest commit that
    /// is `a` or an ancestor of it and also `b` or an ancestor of it.
    ///
    /// Fails with `NotFound` when either commit is unknown or the two share
    /// no commit, and with `InvalidRepository` where a merge commit is on
    /// either first-parent path.
    pub fn find_merge_base(&self, a: &CommitHash, b: &CommitHash) -> (r: Result<
        CommitHash,
        Error,
    >)
        requires
            self.wf(),
        ensures
            match r {
                Ok(m) => {
                    &&& holds(self@, *a) && holds(self@, *b)
                    &&& linear_from(self@, *a) && linear_from(self@, *b)
                    &&& is_merge_base(self@, *a, *b, m)
                },
                Err(Error::NotFound(_)) => {
                    ||| !holds(self@, *a)
                    ||| !holds(self@, *b)
                    ||| {
                        &&& linear_from(self@, *a) && linear_from(self@, *b)
                        &&& !share_a_commit(self@, *a, *b)
                    }
                },
                Err(Error::InvalidRepository(_)) => {
                    &&& holds(self@, *a) && holds(self@, *b)
                    &&& !(linear_from(self@, *a) && linear_from(self@, *b))
                },
                _ => false,
            },
    {
        let ia = match self.find(a) {
            Some(i) => i,
            None => {
                return Err(Error::NotFound("the first commit does not exist".to_owned()));
            },
        };
        let ib = match self.find(b) {
            Some(i) => i,
            None => {
                return Err(Error::NotFound("the second commit does not exist".to_owned()));
            },
        };
        proof {
            lemma_index_of(self@, ia as int);
            lemma_index_of(self@, ib as int);
        }
        let la = match self.lineage_of(ia) {
            Some(l) => l,
            None => {
                return Err(Error::InvalidRepository("there is a merge commit on the path".to_owned()));
            },
        };
        let lb = match self.lineage_of(ib) {
            Some(l) => l,
            None => {
                return Err(Error::InvalidRepository("there is a merge commit on the path".to_owned()));
            },
        };
        proof {
            lemma_lineage_descends(self@, *a);
        }
        let mut i: usize = 0;
        while i < la.len()
            invariant
                self.wf(),
                holds(self@, *a) && holds(self@, *b),
                linear_from(self@, *a) && linear_from(self@, *b),
                la@ == lineage(self@, *a),
                lb@ == lineage(self@, *b),
                i <= la.len(),
                forall|p: int| 0 <= p < i ==> !lb@.contains(#[trigger] la@[p]),
                forall|p: int, q: int|
                    0 <= p < q < la@.len() ==> index_of(self@, #[trigger] la@[q]) < index_of(
                        self@,
                        #[trigger] la@[p],
                    ),
            decreases la.len() - i,
        {
            let mut j: usize = 0;
            while j < lb.len()
                invariant
                    self.wf(),
                    holds(self@, *a) && holds(self@, *b),
                    linear_from(self@, *a) && linear_from(self@, *b),
                    la@ == lineage(self@, *a),
                    lb@ == lineage(self@, *b),
                    forall|p: int| 0 <= p < i ==> !lb@.contains(#[trigger] la@[p]),
                    forall|p: int, q: int|
                        0 <= p < q < la@.len() ==> index_of(self@, #[trigger] la@[q]) < index_of(
                            self@,
                            #[trigger] la@[p],
                        ),
                    i < la.len(),
                    j <= lb.len(),
                    forall|q: int| 0 <= q < j ==> lb@[q] != la@[i as int],
                decreases lb.len() - j,
            {
                if la[i] == lb[j] {
                    proof {
                        let m = la@[i as int];
                        assert(lb@.contains(m));
                        assert forall|x: CommitHash|
                            la@.contains(x) && lb@.contains(x) implies index_of(self@, x)
                            <= index_of(self@, m) by {
                            let q = choose|q: int| 0 <= q < la@.len() && la@[q] == x;
                            if q < i {
                                assert(!lb@.contains(la@[q]));
                            } else if q > i {
                                assert(index_of(self@, la@[q]) < index_of(self@, la@[i as int]));
                            }
                        }
                    }
                    return Ok(la[i]);
                }
                j = j + 1;
            }
            assert(!lb@.contains(la@[i as int]));
            i = i + 1;
        }
        proof {
            assert forall|x: CommitHash| !(la@.contains(x) && lb@.contains(x)) by {
                if la@.contains(x) {
                    let q = choose|q: int| 0 <= q < la@.len() && la@[q] == x;
                    assert(!lb@.contains(la@[q]));
                }
            }
        }
        Err(Error::NotFound("the commits share no ancestor".to_owned()))
    }
}


/// A successful walk only visits commits of the graph, each older than the one before.
pub proof fn lemma_walk_descends(g: Seq<CommitView>, h: CommitHash, fuel: nat)
    requires
        well_formed(g),
        holds(g, h),
        ancestor_walk(g, h, fuel) is Some,
    ensures
        ({
            let s = ancestor_walk(g, h, fuel)->Some_0;
            &&& forall|q: int| 0 <= q < s.len() ==> holds(g, #[trigger] s[q])
            &&& forall|q: int| 0 <= q < s.len() ==> index_of(g, #[trigger] s[q]) < index_of(g, h)
            &&& forall|p: int, q: int|
                0 <= p < q < s.len() ==> index_of(g, #[trigger] s[q]) < index_of(g, #[trigger] s[p])
        }),
    decreases fuel,
{
    let ps = parents_of(g, h);
    if fuel > 0 && ps.len() == 1 {
        lemma_parent_before(g, h, 0);
        lemma_walk_descends(g, ps[0], (fuel - 1) as nat);
        let t = ancestor_walk(g, ps[0], (fuel - 1) as nat)->Some_0;
        let s = ancestor_walk(g, h, fuel)->Some_0;
        assert(s == seq![ps[0]] + t);
        assert forall|q: int| 0 <= q < s.len() implies holds(g, #[trigger] s[q]) && index_of(g, s[q])
            < index_of(g, h) by {
            if q > 0 {
                assert(s[q] == t[q - 1]);
            }
        }
        assert forall|p: int, q: int| 0 <= p < q < s.len() implies index_of(
            g,
            #[trigger] s[q],
        ) < index_of(g, #[trigger] s[p]) by {
            assert(s[q] == t[q - 1]);
            if p > 0 {
                assert(s[p] == t[p - 1]);
            }
        }
    }
}

/// The lineage of `h` is `h` and then ever older commits of the graph.
pub proof fn lemma_lineage_descends(g: Seq<CommitView>, h: CommitHash)
    requires
        well_formed(g),
        holds(g, h),
        linear_from(g, h),
    ensures
        lineage(g, h)[0] == h,
        forall|q: int| 0 <= q < lineage(g, h).len() ==> holds(g, #[trigger] lineage(g, h)[q]),
        forall|p: int, q: int|
            0 <= p < q < lineage(g, h).len() ==> index_of(g, #[trigger] lineage(g, h)[q]) < index_of(
                g,
                #[trigger] lineage(g, h)[p],
            ),
{
    let s = ancestor_walk(g, h, g.len())->Some_0;
    lemma_walk_descends(g, h, g.len());
    let l = lineage(g, h);
    assert forall|q: int| 0 <= q < l.len() implies holds(g, #[trigger] l[q]) by {
        if q > 0 {
            assert(l[q] == s[q - 1]);
        }
    }
    assert forall|p: int, q: int| 0 <= p < q < l.len() implies index_of(g, #[trigger] l[q])
        < index_of(g, #[trigger] l[p]) by {
        assert(l[q] == s[q - 1]);
        if p > 0 {
            assert(l[p] == s[p - 1]);
        }
    }
}

/// A root has depth 0, and each step to a parent lowers the depth by one.
proof fn lemma_depth_bound(g: Seq<CommitView>, h: CommitHash)
    requires
        well_formed(g),
        holds(g, h),
    ensures
        depth(g, h) <= index_of(g, h),
    decreases index_of(g, h),
{
    let ps = parents_of(g, h);
    if ps.len() > 0 {
        lemma_parent_before(g, h, 0);
        lemma_depth_bound(g, ps[0]);
    }
}

proof fn lemma_walk_chain(g: Seq<CommitView>, h: CommitHash, fuel: nat)
    requires
        well_formed(g),
        holds(g, h),
        ancestor_walk(g, h, fuel) is Some,
    ensures
        ({
            let s = ancestor_walk(g, h, fuel)->Some_0;
            &&& s.len() == if fuel < depth(g, h) { fuel } else { depth(g, h) }
            &&& s.len() > 0 ==> parents_of(g, h) == seq![s[0]]
            &&& forall|q: int|
                0 <= q < s.len() - 1 ==> parents_of(g, #[trigger] s[q]) == seq![s[q + 1]]
            &&& fuel > depth(g, h) && s.len() > 0 ==> parents_of(g, s[s.len() - 1]).len() == 0
            &&& fuel > depth(g, h) && s.len() == 0 ==> parents_of(g, h).len() == 0
        }),
    decreases fuel,
{
    let ps = parents_of(g, h);
    let s = ancestor_walk(g, h, fuel)->Some_0;
    if ps.len() > 0 {
        lemma_parent_before(g, h, 0);
    }
    if fuel > 0 && ps.len() == 1 {
        let p = ps[0];
        lemma_walk_chain(g, p, (fuel - 1) as nat);
        let t = ancestor_walk(g, p, (fuel - 1) as nat)->Some_0;
        assert(s == seq![p] + t);
        assert(ps =~= seq![s[0]]);
        assert forall|q: int| 0 <= q < s.len() - 1 implies parents_of(g, #[trigger] s[q])
            == seq![s[q + 1]] by {
            assert(s[q + 1] == t[q]);
            if q > 0 {
                assert(s[q] == t[q - 1]);
            } else if t.len() > 0 {
                assert(s[0] == p);
            }
        }
        if fuel > depth(g, h) && t.len() > 0 {
            assert(s[s.len() - 1] == t[t.len() - 1]);
        }
    }
}

/// An unbounded ancestor walk from a non-root commit whose first-parent path
/// has no merge commit lists exactly the commit's depth many ancestors, the
/// direct parent first, each entry the sole parent of the one before, and
/// ends at a root.
pub proof fn lemma_ancestors_reach_root(g: Seq<CommitView>, c: CommitHash)
    requires
        well_formed(g),
        holds(g, c),
        parents_of(g, c).len() > 0,
        linear_from(g, c),
    ensures
        ({
            let s = ancestor_walk(g, c, g.len())->Some_0;
            &&& s.len() == depth(g, c)
            &&& s.len() > 0
            &&& s[0] == parents_of(g, c)[0]
            &&& forall|q: int|
                0 <= q < s.len() - 1 ==> parents_of(g, #[trigger] s[q]) == seq![s[q + 1]]
            &&& parents_of(g, s[s.len() - 1]).len() == 0
        }),
{
    lemma_depth_bound(g, c);
    lemma_index_of_held(g, c);
    lemma_walk_chain(g, c, g.len());
    let s = ancestor_walk(g, c, g.len())->Some_0;
    lemma_parent_before(g, c, 0);
    assert(depth(g, c) > 0);
}

proof fn lemma_index_of_held(g: Seq<CommitView>, h: CommitHash)
    requires
        holds(g, h),
    ensures
        0 <= index_of(g, h) < g.len(),
        g[index_of(g, h)].hash == h,
{
}

/// A walk with a smaller budget returns a prefix of the walk with a larger one.
pub proof fn lemma_walk_prefix(g: Seq<CommitView>, h: CommitHash, k: nat, n: nat)
    requires
        k <= n,
        ancestor_walk(g, h, n) is Some,
    ensures
        ancestor_walk(g, h, k) is Some,
        ({
            let s = ancestor_walk(g, h, n)->Some_0;
            ancestor_walk(g, h, k)->Some_0 == s.subrange(
                0,
                if (k as int) < s.len() {
                    k as int
                } else {
                    s.len() as int
                },
            )
        }),
    decreases k,
{
    let ps = parents_of(g, h);
    let s = ancestor_walk(g, h, n)->Some_0;
    if k == 0 {
        assert(s.subrange(0, 0) =~= Seq::<CommitHash>::empty());
    } else if ps.len() == 0 {
        assert(s.subrange(0, 0) =~= Seq::<CommitHash>::empty());
    } else {
        lemma_walk_prefix(g, ps[0], (k - 1) as nat, (n - 1) as nat);
        let t = ancestor_walk(g, ps[0], (n - 1) as nat)->Some_0;
        let u = ancestor_walk(g, ps[0], (k - 1) as nat)->Some_0;
        assert(s == seq![ps[0]] + t);
        assert(ancestor_walk(g, h, k)->Some_0 == seq![ps[0]] + u);
        let e: int = if (k as int) < s.len() {
            k as int
        } else {
            s.len() as int
        };
        assert(seq![ps[0]] + u =~= s.subrange(0, e));
    }
}

/// With `k` at most the depth of `c`, the ancestor walk bounded by `k` lists
/// exactly the first `k` entries of the unbounded walk.
pub proof fn lemma_ancestors_bounded_prefix(g: Seq<CommitView>, c: CommitHash, k: nat)
    requires
        well_formed(g),
        holds(g, c),
        linear_from(g, c),
        k <= depth(g, c),
    ensures
        ancestor_walk(g, c, k) is Some,
        ancestor_walk(g, c, k)->Some_0.len() == k,
        ancestor_walk(g, c, k)->Some_0 == ancestor_walk(g, c, g.len())->Some_0.subrange(
            0,
            k as int,
        ),
{
    lemma_depth_bound(g, c);
    lemma_index_of_held(g, c);
    lemma_walk_chain(g, c, g.len());
    lemma_walk_prefix(g, c, k, g.len());
}

/// The merge base of a commit with itself is the commit.
pub proof fn lemma_merge_base_self(g: Seq<CommitView>, a: CommitHash)
    requires
        well_formed(g),
        holds(g, a),
        linear_from(g, a),
    ensures
        is_merge_base(g, a, a, a),
{
    lemma_lineage_descends(g, a);
    let l = lineage(g, a);
    assert(l[0] == a);
    assert forall|x: CommitHash| l.contains(x) && l.contains(x) implies index_of(g, x) <= index_of(
        g,
        a,
    ) by {
        let q = choose|q: int| 0 <= q < l.len() && l[q] == x;
        if q > 0 {
            assert(index_of(g, l[q]) < index_of(g, l[0]));
        }
    }
}

/// The merge base does not depend on the order of the two commits: both
/// orders find a common commit or neither does, and what they find is the same.
pub proof fn lemma_merge_base_symmetric(
    g: Seq<CommitView>,
    a: CommitHash,
    b: CommitHash,
    m1: CommitHash,
    m2: CommitHash,
)
    requires
        well_formed(g),
        holds(g, a),
        holds(g, b),
        linear_from(g, a),
        linear_from(g, b),
        is_merge_base(g, a, b, m1),
        is_merge_base(g, b, a, m2),
    ensures
        share_a_commit(g, a, b) == share_a_commit(g, b, a),
        m1 == m2,
{
    lemma_lineage_descends(g, a);
    let la = lineage(g, a);
    let q1 = choose|q: int| 0 <= q < la.len() && la[q] == m1;
    let q2 = choose|q: int| 0 <= q < la.len() && la[q] == m2;
    assert(holds(g, la[q1]));
    assert(holds(g, la[q2]));
    lemma_index_of_held(g, m1);
    lemma_index_of_held(g, m2);
    assert(index_of(g, m2) <= index_of(g, m1));
    assert(index_of(g, m1) <= index_of(g, m2));
}

} // verus!

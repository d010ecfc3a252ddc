use vstd::prelude::*;

use crate::codec::{decode, encodable, encode, lemma_decode_encode, SemanticCommit};
use crate::error::Error;
use crate::graph::{
    ancestor_walk, children_of, descendant_walk, fuel_of, holds, index_of, is_merge_base, lineage,
    linear_from, message_of, parents_of, share_a_commit, well_formed, CommitGraph, CommitView,
};
use crate::hash::{Branch, CommitHash, Tag};
use crate::refs::{is_valid_ref_name, lists_names, lists_names_at, valid_ref_name, RefTable};

verus! {

/// Where HEAD points: at a branch, which has no commit yet in an empty
/// repository, or straight at a commit.
#[derive(Debug, Clone)]
pub enum Head {
    Attached(Branch),
    Detached(CommitHash),
}

/// The mathematical value of HEAD.
pub enum HeadView {
    Attached(Seq<char>),
    Detached(CommitHash),
}

/// A registered remote: its name and its URL.
pub struct Remote {
    pub name: String,
    pub url: String,
}

/// The state of a repository: its commits, branches, tags, HEAD and
/// remotes. Every branch and tag points at a commit of the graph, and so
/// does a detached HEAD.
pub struct MemRepository {
    graph: CommitGraph,
    branches: RefTable,
    tags: RefTable,
    head: Head,
    remotes: Vec<Remote>,
}

pub open spec fn remote_view(r: Remote) -> (Seq<char>, Seq<char>) {
    (r.name@, r.url@)
}

impl MemRepository {
    pub closed spec fn commits(&self) -> Seq<CommitView> {
        self.graph@
    }

    pub closed spec fn branch_map(&self) -> Map<Seq<char>, CommitHash> {
        self.branches.view()
    }

    pub closed spec fn tag_map(&self) -> Map<Seq<char>, CommitHash> {
        self.tags.view()
    }

    pub closed spec fn head_view(&self) -> HeadView {
        match self.head {
            Head::Attached(b) => HeadView::Attached(b@),
            Head::Detached(h) => HeadView::Detached(h),
        }
    }

    /// The remotes as (name, URL) pairs, in the order they were added.
    pub closed spec fn remote_list(&self) -> Seq<(Seq<char>, Seq<char>)> {
        self.remotes@.map_values(|r: Remote| remote_view(r))
    }

    pub closed spec fn wf(&self) -> bool {
        &&& self.graph.wf()
        &&& self.branches.wf()
        &&& self.tags.wf()
        &&& forall|k: Seq<char>|
            #[trigger] self.branches.view().contains_key(k) ==> holds(
                self.graph@,
                self.branches.view()[k],
            )
        &&& forall|k: Seq<char>|
            #[trigger] self.tags.view().contains_key(k) ==> holds(self.graph@, self.tags.view()[k])
        &&& (self.head matches Head::Detached(h) ==> holds(self.graph@, h))
        &&& forall|i: int, j: int|
            0 <= i < j < self.remotes@.len() ==> #[trigger] self.remotes@[i].name@
                != #[trigger] self.remotes@[j].name@
    }

    /// What a well-formed repository guarantees: its graph is well formed,
    /// every branch and tag and a detached HEAD point at commits of the
    /// graph, and no two remotes share a name.
    pub proof fn lemma_wf(&self)
        requires
            self.wf(),
        ensures
            well_formed(self.commits()),
            forall|k: Seq<char>|
                #[trigger] self.branch_map().contains_key(k) ==> holds(
                    self.commits(),
                    self.branch_map()[k],
                ),
            forall|k: Seq<char>|
                #[trigger] self.tag_map().contains_key(k) ==> holds(self.commits(), self.tag_map()[k]),
            self.head_view() matches HeadView::Detached(h) ==> holds(self.commits(), h),
            forall|i: int, j: int|
                0 <= i < j < self.remote_list().len() ==> #[trigger] self.remote_list()[i].0
                    != #[trigger] self.remote_list()[j].0,
    {
        assert forall|i: int, j: int|
            0 <= i < j < self.remote_list().len() implies #[trigger] self.remote_list()[i].0
            != #[trigger] self.remote_list()[j].0 by {
            assert(self.remote_list()[i].0 == self.remotes@[i].name@);
            assert(self.remote_list()[j].0 == self.remotes@[j].name@);
        }
    }

    /// Whether a remote is registered under `name`.
    pub open spec fn has_remote(&self, name: Seq<char>) -> bool {
        exists|i: int| 0 <= i < self.remote_list().len() && #[trigger] self.remote_list()[i].0 == name
    }

    /// The commit HEAD resolves to, if any.
    pub open spec fn head_commit(&self) -> Option<CommitHash> {
        match self.head_view() {
            HeadView::Attached(b) => if self.branch_map().contains_key(b) {
                Some(self.branch_map()[b])
            } else {
                None
            },
            HeadView::Detached(h) => Some(h),
        }
    }

    /// An empty repository whose HEAD names the branch `default_branch`.
    pub fn init(default_branch: Branch) -> (r: MemRepository)
        ensures
            r.wf(),
            r.commits() == Seq::<CommitView>::empty(),
            r.branch_map() == Map::<Seq<char>, CommitHash>::empty(),
            r.tag_map() == Map::<Seq<char>, CommitHash>::empty(),
            r.head_view() == HeadView::Attached(default_branch@),
            r.remote_list() == Seq::<(Seq<char>, Seq<char>)>::empty(),
    {
        let r = MemRepository {
            graph: CommitGraph::new(),
            branches: RefTable::new(),
            tags: RefTable::new(),
            head: Head::Attached(default_branch),
            remotes: Vec::new(),
        };
        assert(r.remote_list() =~= Seq::<(Seq<char>, Seq<char>)>::empty());
        r
    }

    // ----------------------
    // Branches
    // ----------------------

    /// All branch names, each once.
    pub fn list_branches(&self) -> (r: Vec<Branch>)
        requires
            self.wf(),
        ensures
            lists_names(r@, self.branch_map()),
    {
        self.branches.names()
    }

    /// Creates branch `name` on `commit`.
    ///
    /// Fails with `InvalidRepository` where `name` is not a valid branch
    /// name, with `NotFound` for an unknown commit and with `AlreadyExists`
    /// where the name is taken; nothing changes then.
    pub fn create_branch(&mut self, name: &Branch, commit: CommitHash) -> (r: Result<(), Error>)
        requires
            old(self).wf(),
        ensures
            final(self).wf(),
            final(self).commits() == old(self).commits(),
            final(self).tag_map() == old(self).tag_map(),
            final(self).head_view() == old(self).head_view(),
            final(self).remote_list() == old(self).remote_list(),
            match r {
                Ok(()) => {
                    &&& valid_ref_name(name@)
                    &&& holds(old(self).commits(), commit)
                    &&& !old(self).branch_map().contains_key(name@)
                    &&& final(self).branch_map() == old(self).branch_map().insert(name@, commit)
                },
                Err(Error::InvalidRepository(_)) => !valid_ref_name(name@) && final(
                    self).branch_map() == old(self).branch_map(),
                Err(Error::NotFound(_)) => valid_ref_name(name@) && !holds(old(self).commits(), commit)
                    && final(self).branch_map() == old(self).branch_map(),
                Err(Error::AlreadyExists(_)) => {
                    &&& valid_ref_name(name@)
                    &&& holds(old(self).commits(), commit)
                    &&& old(self).branch_map().contains_key(name@)
                    &&& final(self).branch_map() == old(self).branch_map()
                },
                _ => false,
            },
    {
        if !is_valid_ref_name(name) {
            return Err(Error::InvalidRepository("the name is not a valid branch name".to_owned()));
        }
        if !self.graph.contains(&commit) {
            return Err(Error::NotFound("the commit does not exist".to_owned()));
        }
        let r = self.branches.insert(name, commit);
        assert(forall|k: Seq<char>|
            #[trigger] self.branches.view().contains_key(k) ==> holds(
                self.graph@,
                self.branches.view()[k],
            ));
        r
    }

    /// The commit that branch `name` points at.
    ///
    /// Fails with `NotFound` where there is no such branch.
    pub fn locate_branch(&self, name: &Branch) -> (r: Result<CommitHash, Error>)
        requires
            self.wf(),
        ensures
            match r {
                Ok(h) => self.branch_map().contains_key(name@) && h == self.branch_map()[name@],
                Err(Error::NotFound(_)) => !self.branch_map().contains_key(name@),
                _ => false,
            },
    {
        self.branches.locate(name)
    }

    /// The branches that point at `commit`, each once; none for a commit
    /// that no branch points at, known or not.
    pub fn get_branches(&self, commit: &CommitHash) -> (r: Result<Vec<Branch>, Error>)
        requires
            self.wf(),
        ensures
            r matches Ok(v) && lists_names_at(v@, self.branch_map(), *commit),
    {
        Ok(self.branches.names_at(commit))
    }

    /// Points the existing branch `name` at `commit`.
    ///
    /// Fails with `NotFound` where the commit or the branch does not exist;
    /// nothing changes then.
    pub fn move_branch(&mut self, name: &Branch, commit: &CommitHash) -> (r: Result<(), Error>)
        requires
            old(self).wf(),
        ensures
            final(self).wf(),
            final(self).commits() == old(self).commits(),
            final(self).tag_map() == old(self).tag_map(),
            final(self).head_view() == old(self).head_view(),
            final(self).remote_list() == old(self).remote_list(),
            match r {
                Ok(()) => {
                    &&& holds(old(self).commits(), *commit)
                    &&& old(self).branch_map().contains_key(name@)
                    &&& final(self).branch_map() == old(self).branch_map().insert(name@, *commit)
                },
                Err(Error::NotFound(_)) => {
                    &&& !holds(old(self).commits(), *commit) || !old(self).branch_map().contains_key(
                        name@,
                    )
                    &&& final(self).branch_map() == old(self).branch_map()
                },
                _ => false,
            },
    {
        if !self.graph.contains(commit) {
            return Err(Error::NotFound("the commit does not exist".to_owned()));
        }
        let r = self.branches.update(name, *commit);
        assert(forall|k: Seq<char>|
            #[trigger] self.branches.view().contains_key(k) ==> holds(
                self.graph@,
                self.branches.view()[k],
            ));
        r
    }

    /// Deletes branch `name`.
    ///
    /// Fails with `NotFound` where there is no such branch; the branches
    /// are unchanged then.
    pub fn delete_branch(&mut self, name: &Branch) -> (r: Result<(), Error>)
        requires
            old(self).wf(),
        ensures
            final(self).wf(),
            final(self).commits() == old(self).commits(),
            final(self).tag_map() == old(self).tag_map(),
            final(self).head_view() == old(self).head_view(),
            final(self).remote_list() == old(self).remote_list(),
            match r {
                Ok(()) => old(self).branch_map().contains_key(name@) && final(self).branch_map()
                    == old(self).branch_map().remove(name@),
                Err(Error::NotFound(_)) => !old(self).branch_map().contains_key(name@) && final(
                    self).branch_map() == old(self).branch_map(),
                _ => false,
            },
    {
        let r = self.branches.remove(name);
        assert(forall|k: Seq<char>|
            #[trigger] self.branches.view().contains_key(k) ==> holds(
                self.graph@,
                self.branches.view()[k],
            )) by {
            assert forall|k: Seq<char>| #[trigger] self.branches.view().contains_key(k) implies holds(
                self.graph@,
                self.branches.view()[k],
            ) by {
                assert(old(self).branches.view().contains_key(k));
            }
        }
        r
    }

    // ----------------------
    // Tags
    // ----------------------

    /// All tag names, each once.
    pub fn list_tags(&self) -> (r: Vec<Tag>)
        requires
            self.wf(),
        ensures
            lists_names(r@, self.tag_map()),
    {
        self.tags.names()
    }

    /// Creates tag `name` on `commit`.
    ///
    /// Fails with `InvalidRepository` where `name` is not a valid tag name,
    /// with `NotFound` for an unknown commit and with `AlreadyExists` where
    /// the name is taken; nothing changes then.
    pub fn create_tag(&mut self, name: &Tag, commit: &CommitHash) -> (r: Result<(), Error>)
        requires
            old(self).wf(),
        ensures
            final(self).wf(),
            final(self).commits() == old(self).commits(),
            final(self).branch_map() == old(self).branch_map(),
            final(self).head_view() == old(self).head_view(),
            final(self).remote_list() == old(self).remote_list(),
            match r {
                Ok(()) => {
                    &&& valid_ref_name(name@)
                    &&& holds(old(self).commits(), *commit)
                    &&& !old(self).tag_map().contains_key(name@)
                    &&& final(self).tag_map() == old(self).tag_map().insert(name@, *commit)
                },
                Err(Error::InvalidRepository(_)) => !valid_ref_name(name@) && final(
                    self).tag_map() == old(self).tag_map(),
                Err(Error::NotFound(_)) => valid_ref_name(name@) && !holds(old(self).commits(), *commit)
                    && final(self).tag_map() == old(self).tag_map(),
                Err(Error::AlreadyExists(_)) => {
                    &&& valid_ref_name(name@)
                    &&& holds(old(self).commits(), *commit)
                    &&& old(self).tag_map().contains_key(name@)
                    &&& final(self).tag_map() == old(self).tag_map()
                },
                _ => false,
            },
    {
        if !is_valid_ref_name(name) {
            return Err(Error::InvalidRepository("the name is not a valid tag name".to_owned()));
        }
        if !self.graph.contains(commit) {
            return Err(Error::NotFound("the commit does not exist".to_owned()));
        }
        let r = self.tags.insert(name, *commit);
        assert(forall|k: Seq<char>|
            #[trigger] self.tags.view().contains_key(k) ==> holds(self.graph@, self.tags.view()[k]));
        r
    }

    /// The commit that tag `name` points at.
    ///
    /// Fails with `NotFound` where there is no such tag.
    pub fn locate_tag(&self, name: &Tag) -> (r: Result<CommitHash, Error>)
        requires
            self.wf(),
        ensures
            match r {
                Ok(h) => self.tag_map().contains_key(name@) && h == self.tag_map()[name@],
                Err(Error::NotFound(_)) => !self.tag_map().contains_key(name@),
                _ => false,
            },
    {
        self.tags.locate(name)
    }

    /// The tags on `commit`, each once; none for a commit that no tag is
    /// on, known or not.
    pub fn get_tag(&self, commit: &CommitHash) -> (r: Result<Vec<Tag>, Error>)
        requires
            self.wf(),
        ensures
            r matches Ok(v) && lists_names_at(v@, self.tag_map(), *commit),
    {
        Ok(self.tags.names_at(commit))
    }

    /// Removes tag `name`.
    ///
    /// Fails with `NotFound` where there is no such tag; the tags are
    /// unchanged then.
    pub fn remove_tag(&mut self, name: &Tag) -> (r: Result<(), Error>)
        requires
            old(self).wf(),
        ensures
            final(self).wf(),
            final(self).commits() == old(self).commits(),
            final(self).branch_map() == old(self).branch_map(),
            final(self).head_view() == old(self).head_view(),
            final(self).remote_list() == old(self).remote_list(),
            match r {
                Ok(()) => old(self).tag_map().contains_key(name@) && final(self).tag_map() == old(
                    self).tag_map().remove(name@),
                Err(Error::NotFound(_)) => !old(self).tag_map().contains_key(name@) && final(
                    self).tag_map() == old(self).tag_map(),
                _ => false,
            },
    {
        let r = self.tags.remove(name);
        assert(forall|k: Seq<char>|
            #[trigger] self.tags.view().contains_key(k) ==> holds(self.graph@, self.tags.view()[k]))
            by {
            assert forall|k: Seq<char>| #[trigger] self.tags.view().contains_key(k) implies holds(
                self.graph@,
                self.tags.view()[k],
            ) by {
                assert(old(self).tags.view().contains_key(k));
            }
        }
        r
    }

    // ----------------------
    // Commits
    // ----------------------

    /// Records the commit `hash`, which the object store made from
    /// `message` and the staged content, on the checked-out branch: its
    /// parent is the branch's tip, or none where the branch has no commit
    /// yet, and the branch then points at it.
    ///
    /// Fails with `InvalidRepository` where HEAD is detached and with
    /// `AlreadyExists` where the graph holds `hash`; nothing changes then.
    pub fn create_commit(&mut self, message: String, hash: CommitHash) -> (r: Result<
        CommitHash,
        Error,
    >)
        requires
            old(self).wf(),
        ensures
            final(self).wf(),
            final(self).tag_map() == old(self).tag_map(),
            final(self).head_view() == old(self).head_view(),
            final(self).remote_list() == old(self).remote_list(),
            match r {
                Ok(h) => {
                    &&& h == hash
                    &&& old(self).head_view() matches HeadView::Attached(b)
                    &&& !holds(old(self).commits(), hash)
                    &&& final(self).commits() == old(self).commits().push(
                        CommitView {
                            hash,
                            parents: if old(self).branch_map().contains_key(b) {
                                seq![old(self).branch_map()[b]]
                            } else {
                                Seq::empty()
                            },
                            message: message@,
                        },
                    )
                    &&& final(self).branch_map() == old(self).branch_map().insert(b, hash)
                },
                Err(Error::InvalidRepository(_)) => {
                    &&& old(self).head_view() is Detached
                    &&& final(self).commits() == old(self).commits()
                    &&& final(self).branch_map() == old(self).branch_map()
                },
                Err(Error::AlreadyExists(_)) => {
                    &&& old(self).head_view() is Attached
                    &&& holds(old(self).commits(), hash)
                    &&& final(self).commits() == old(self).commits()
                    &&& final(self).branch_map() == old(self).branch_map()
                },
                _ => false,
            },
    {
        let branch = match self.commit_branch() {
            Ok(b) => b,
            Err(e) => {
                return Err(e);
            },
        };
        let tip = self.branches.locate(&branch);
        let mut parents: Vec<CommitHash> = Vec::new();
        match tip {
            Ok(p) => parents.push(p),
            Err(_) => {},
        }
        let ghost g0 = self.graph@;
        match self.graph.add_commit(hash, parents, message) {
            Ok(()) => {},
            Err(e) => {
                return Err(e);
            },
        }
        let ghost m0 = self.branches.view();
        let moved = if self.branches.contains(&branch) {
            self.branches.update(&branch, hash)
        } else {
            self.branches.insert(&branch, hash)
        };
        proof {
            assert(holds(self.graph@, hash)) by {
                assert(self.graph@[g0.len() as int].hash == hash);
            }
            assert forall|k: Seq<char>| #[trigger] self.branches.view().contains_key(k) implies holds(
                self.graph@,
                self.branches.view()[k],
            ) by {
                if k != branch@ {
                    assert(m0.contains_key(k));
                    let h = m0[k];
                    let i = choose|i: int| 0 <= i < g0.len() && #[trigger] g0[i].hash == h;
                    assert(self.graph@[i].hash == h);
                }
            }
            if self.head is Detached {
                let h = self.head->Detached_0;
                let i = choose|i: int| 0 <= i < g0.len() && #[trigger] g0[i].hash == h;
                assert(self.graph@[i].hash == h);
            }
            assert forall|k: Seq<char>| #[trigger] self.tags.view().contains_key(k) implies holds(
                self.graph@,
                self.tags.view()[k],
            ) by {
                let h = self.tags.view()[k];
                let i = choose|i: int| 0 <= i < g0.len() && #[trigger] g0[i].hash == h;
                assert(self.graph@[i].hash == h);
            }
        }
        match moved {
            Ok(()) => Ok(hash),
            Err(e) => Err(e),
        }
    }

    /// The branch that a new commit goes on: the one HEAD is attached to.
    ///
    /// Fails with `InvalidRepository` where HEAD is detached.
    pub fn commit_branch(&self) -> (r: Result<Branch, Error>)
        ensures
            match r {
                Ok(b) => self.head_view() == HeadView::Attached(b@),
                Err(Error::InvalidRepository(_)) => self.head_view() is Detached,
                _ => false,
            },
    {
        match &self.head {
            Head::Attached(b) => Ok(b.clone()),
            Head::Detached(_) => Err(
                Error::InvalidRepository("HEAD is detached; no branch to commit on".to_owned()),
            ),
        }
    }

    /// Records a commit that the store already holds, with its parents in
    /// recorded order; no branch, tag or HEAD moves. Loading commits parents
    /// first rebuilds the store's graph.
    ///
    /// Fails with `AlreadyExists` where the graph holds `hash` and with
    /// `NotFound` where it lacks a parent; nothing changes then.
    pub fn import_commit(&mut self, hash: CommitHash, parents: Vec<CommitHash>, message: String) -> (r:
        Result<(), Error>)
        requires
            old(self).wf(),
        ensures
            final(self).wf(),
            final(self).branch_map() == old(self).branch_map(),
            final(self).tag_map() == old(self).tag_map(),
            final(self).head_view() == old(self).head_view(),
            final(self).remote_list() == old(self).remote_list(),
            match r {
                Ok(()) => {
                    &&& !holds(old(self).commits(), hash)
                    &&& forall|k: int|
                        0 <= k < parents@.len() ==> holds(old(self).commits(), #[trigger] parents@[k])
                    &&& final(self).commits() == old(self).commits().push(
                        CommitView { hash, parents: parents@, message: message@ },
                    )
                },
                Err(Error::AlreadyExists(_)) => holds(old(self).commits(), hash) && final(
                    self).commits() == old(self).commits(),
                Err(Error::NotFound(_)) => {
                    &&& !holds(old(self).commits(), hash)
                    &&& exists|k: int|
                        0 <= k < parents@.len() && !holds(old(self).commits(), #[trigger] parents@[k])
                    &&& final(self).commits() == old(self).commits()
                },
                _ => false,
            },
    {
        let ghost g0 = self.graph@;
        let r = self.graph.add_commit(hash, parents, message);
        proof {
            assert forall|h: CommitHash| holds(g0, h) implies holds(self.graph@, h) by {
                let i = choose|i: int| 0 <= i < g0.len() && #[trigger] g0[i].hash == h;
                assert(self.graph@[i].hash == h);
            }
            assert forall|k: Seq<char>| #[trigger] self.branches.view().contains_key(k) implies holds(
                self.graph@,
                self.branches.view()[k],
            ) by {
                assert(holds(g0, self.branches.view()[k]));
            }
            assert forall|k: Seq<char>| #[trigger] self.tags.view().contains_key(k) implies holds(
                self.graph@,
                self.tags.view()[k],
            ) by {
                assert(holds(g0, self.tags.view()[k]));
            }
            if self.head is Detached {
                assert(holds(g0, self.head->Detached_0));
            }
        }
        r
    }

    /// Records the semantic commit `commit` as the commit `hash` on the
    /// checked-out branch; its message is the encoding of the commit.
    ///
    /// Fails with `InvalidRepository` where the parts cannot be encoded or
    /// HEAD is detached, and with `AlreadyExists` where the graph holds
    /// `hash`; nothing changes then.
    pub fn create_semantic_commit(&mut self, commit: &SemanticCommit, hash: CommitHash) -> (r:
        Result<CommitHash, Error>)
        requires
            old(self).wf(),
        ensures
            final(self).wf(),
            final(self).tag_map() == old(self).tag_map(),
            final(self).head_view() == old(self).head_view(),
            final(self).remote_list() == old(self).remote_list(),
            match r {
                Ok(h) => {
                    let (t, b, st) = commit.parts();
                    &&& h == hash
                    &&& encodable(t, b, st)
                    &&& old(self).head_view() matches HeadView::Attached(br)
                    &&& !holds(old(self).commits(), hash)
                    &&& final(self).commits() == old(self).commits().push(
                        CommitView {
                            hash,
                            parents: if old(self).branch_map().contains_key(br) {
                                seq![old(self).branch_map()[br]]
                            } else {
                                Seq::empty()
                            },
                            message: encode(t, b, st),
                        },
                    )
                    &&& final(self).branch_map() == old(self).branch_map().insert(br, hash)
                },
                Err(Error::InvalidRepository(_)) => {
                    let (t, b, st) = commit.parts();
                    &&& !encodable(t, b, st) || old(self).head_view() is Detached
                    &&& final(self).commits() == old(self).commits()
                    &&& final(self).branch_map() == old(self).branch_map()
                },
                Err(Error::AlreadyExists(_)) => {
                    let (t, b, st) = commit.parts();
                    &&& encodable(t, b, st)
                    &&& old(self).head_view() is Attached
                    &&& holds(old(self).commits(), hash)
                    &&& final(self).commits() == old(self).commits()
                    &&& final(self).branch_map() == old(self).branch_map()
                },
                _ => false,
            },
    {
        let message = match commit.to_message() {
            Ok(m) => m,
            Err(e) => {
                return Err(e);
            },
        };
        self.create_commit(message, hash)
    }

    /// Reads commit `commit` back as a semantic commit.
    ///
    /// Fails with `NotFound` for an unknown commit and with
    /// `InvalidRepository` where its message is not in the semantic form.
    pub fn read_semantic_commit(&self, commit: &CommitHash) -> (r: Result<SemanticCommit, Error>)
        requires
            self.wf(),
        ensures
            match r {
                Ok(c) => holds(self.commits(), *commit) && decode(
                    message_of(self.commits(), *commit),
                ) == Some(c.parts()),
                Err(Error::NotFound(_)) => !holds(self.commits(), *commit),
                Err(Error::InvalidRepository(_)) => holds(self.commits(), *commit) && decode(
                    message_of(self.commits(), *commit),
                ) is None,
                _ => false,
            },
    {
        let message = match self.graph.message(commit) {
            Ok(m) => m,
            Err(e) => {
                return Err(e);
            },
        };
        SemanticCommit::from_message(message.as_str())
    }

    // ----------------------
    // Working tree and HEAD
    // ----------------------

    /// Attaches HEAD to the existing branch `name`.
    ///
    /// Fails with `NotFound` where there is no such branch; HEAD is
    /// unchanged then.
    pub fn checkout(&mut self, name: &Branch) -> (r: Result<(), Error>)
        requires
            old(self).wf(),
        ensures
            final(self).wf(),
            final(self).commits() == old(self).commits(),
            final(self).branch_map() == old(self).branch_map(),
            final(self).tag_map() == old(self).tag_map(),
            final(self).remote_list() == old(self).remote_list(),
            match r {
                Ok(()) => old(self).branch_map().contains_key(name@) && final(self).head_view()
                    == HeadView::Attached(name@),
                Err(Error::NotFound(_)) => !old(self).branch_map().contains_key(name@) && final(
                    self).head_view() == old(self).head_view(),
                _ => false,
            },
    {
        if !self.branches.contains(name) {
            return Err(Error::NotFound("the branch does not exist".to_owned()));
        }
        self.head = Head::Attached(name.clone());
        Ok(())
    }

    /// Points HEAD straight at the existing commit `commit`.
    ///
    /// Fails with `NotFound` for an unknown commit; HEAD is unchanged then.
    pub fn checkout_detach(&mut self, commit: &CommitHash) -> (r: Result<(), Error>)
        requires
            old(self).wf(),
        ensures
            final(self).wf(),
            final(self).commits() == old(self).commits(),
            final(self).branch_map() == old(self).branch_map(),
            final(self).tag_map() == old(self).tag_map(),
            final(self).remote_list() == old(self).remote_list(),
            match r {
                Ok(()) => holds(old(self).commits(), *commit) && final(self).head_view()
                    == HeadView::Detached(*commit),
                Err(Error::NotFound(_)) => !holds(old(self).commits(), *commit) && final(
                    self).head_view() == old(self).head_view(),
                _ => false,
            },
    {
        if !self.graph.contains(commit) {
            return Err(Error::NotFound("the commit does not exist".to_owned()));
        }
        self.head = Head::Detached(*commit);
        Ok(())
    }

    /// Where HEAD points.
    pub fn head(&self) -> (r: &Head)
        ensures
            match *r {
                Head::Attached(b) => self.head_view() == HeadView::Attached(b@),
                Head::Detached(h) => self.head_view() == HeadView::Detached(h),
            },
    {
        &self.head
    }

    // ----------------------
    // Queries
    // ----------------------

    /// The commit HEAD resolves to.
    ///
    /// Fails with `InvalidRepository` where HEAD names a branch with no
    /// commit yet.
    pub fn get_head(&self) -> (r: Result<CommitHash, Error>)
        requires
            self.wf(),
        ensures
            match r {
                Ok(h) => self.head_commit() == Some(h),
                Err(Error::InvalidRepository(_)) => self.head_commit() is None,
                _ => false,
            },
    {
        match &self.head {
            Head::Attached(b) => match self.branches.locate(b) {
                Ok(h) => Ok(h),
                Err(_) => Err(Error::InvalidRepository("the repository has no commit yet".to_owned())),
            },
            Head::Detached(h) => Ok(*h),
        }
    }

    /// The root commit that HEAD's first-parent path ends at.
    ///
    /// Fails with `InvalidRepository` where the repository has no commit
    /// yet or a merge commit is on the path.
    pub fn get_initial_commit(&self) -> (r: Result<CommitHash, Error>)
        requires
            self.wf(),
        ensures
            match r {
                Ok(c) => {
                    &&& self.head_commit() is Some
                    &&& linear_from(self.commits(), self.head_commit()->Some_0)
                    &&& c == lineage(self.commits(), self.head_commit()->Some_0).last()
                },
                Err(Error::InvalidRepository(_)) => {
                    ||| self.head_commit() is None
                    ||| !linear_from(self.commits(), self.head_commit()->Some_0)
                },
                _ => false,
            },
    {
        let head = match self.get_head() {
            Ok(h) => h,
            Err(e) => {
                return Err(e);
            },
        };
        proof {
            if self.head is Attached {
                assert(self.branches.view().contains_key(self.head->Attached_0@));
            }
        }
        self.graph.root_of(&head)
    }

    /// The commit against whose tree `commit`'s changes are shown: its one
    /// parent.
    ///
    /// Fails with `NotFound` for an unknown commit and with
    /// `InvalidRepository` for a root or a merge commit.
    pub fn diff_base(&self, commit: &CommitHash) -> (r: Result<CommitHash, Error>)
        requires
            self.wf(),
        ensures
            match r {
                Ok(p) => holds(self.commits(), *commit) && parents_of(self.commits(), *commit)
                    == seq![p],
                Err(Error::NotFound(_)) => !holds(self.commits(), *commit),
                Err(Error::InvalidRepository(_)) => holds(self.commits(), *commit) && parents_of(
                    self.commits(),
                    *commit,
                ).len() != 1,
                _ => false,
            },
    {
        self.graph.single_parent(commit)
    }

    /// See [`CommitGraph::list_ancestors`].
    pub fn list_ancestors(&self, commit: &CommitHash, max: Option<usize>) -> (r: Result<
        Vec<CommitHash>,
        Error,
    >)
        requires
            self.wf(),
        ensures
            match r {
                Ok(v) => {
                    &&& holds(self.commits(), *commit)
                    &&& parents_of(self.commits(), *commit).len() > 0
                    &&& ancestor_walk(self.commits(), *commit, fuel_of(self.commits(), max)) == Some(
                        v@,
                    )
                },
                Err(Error::NotFound(_)) => !holds(self.commits(), *commit),
                Err(Error::InvalidRepository(_)) => {
                    &&& holds(self.commits(), *commit)
                    &&& (parents_of(self.commits(), *commit).len() == 0 || ancestor_walk(
                        self.commits(),
                        *commit,
                        fuel_of(self.commits(), max),
                    ) is None)
                },
                _ => false,
            },
    {
        self.graph.list_ancestors(commit, max)
    }

    /// See [`CommitGraph::list_descendants`].
    pub fn list_descendants(&self, commit: &CommitHash, max: Option<usize>) -> (r: Result<
        Vec<CommitHash>,
        Error,
    >)
        requires
            self.wf(),
        ensures
            match r {
                Ok(v) => holds(self.commits(), *commit) && descendant_walk(
                    self.commits(),
                    *commit,
                    fuel_of(self.commits(), max),
                ) == Some(v@),
                Err(Error::NotFound(_)) => !holds(self.commits(), *commit),
                Err(Error::InvalidRepository(_)) => holds(self.commits(), *commit)
                    && descendant_walk(self.commits(), *commit, fuel_of(self.commits(), max))
                    is None,
                _ => false,
            },
    {
        self.graph.list_descendants(commit, max)
    }

    /// See [`CommitGraph::list_children`].
    pub fn list_children(&self, commit: &CommitHash) -> (r: Result<Vec<CommitHash>, Error>)
        requires
            self.wf(),
        ensures
            match r {
                Ok(v) => holds(self.commits(), *commit) && v@ == children_of(self.commits(), *commit),
                Err(Error::NotFound(_)) => !holds(self.commits(), *commit),
                _ => false,
            },
    {
        self.graph.list_children(commit)
    }

    /// See [`CommitGraph::find_merge_base`].
    pub fn find_merge_base(&self, a: &CommitHash, b: &CommitHash) -> (r: Result<CommitHash, Error>)
        requires
            self.wf(),
        ensures
            match r {
                Ok(m) => {
                    &&& holds(self.commits(), *a) && holds(self.commits(), *b)
                    &&& linear_from(self.commits(), *a) && linear_from(self.commits(), *b)
                    &&& is_merge_base(self.commits(), *a, *b, m)
                },
                Err(Error::NotFound(_)) => {
                    ||| !holds(self.commits(), *a)
                    ||| !holds(self.commits(), *b)
                    ||| {
                        &&& linear_from(self.commits(), *a) && linear_from(self.commits(), *b)
                        &&& !share_a_commit(self.commits(), *a, *b)
                    }
                },
                Err(Error::InvalidRepository(_)) => {
                    &&& holds(self.commits(), *a) && holds(self.commits(), *b)
                    &&& !(linear_from(self.commits(), *a) && linear_from(self.commits(), *b))
                },
                _ => false,
            },
    {
        self.graph.find_merge_base(a, b)
    }

    // ----------------------
    // Remotes
    // ----------------------

    /// The position of the remote named `name`.
    fn remote_position(&self, name: &String) -> (r: Option<usize>)
        ensures
            match r {
                Some(i) => i < self.remote_list().len() && self.remote_list()[i as int].0 == name@,
                None => !self.has_remote(name@),
            },
    {
        let mut i: usize = 0;
        while i < self.remotes.len()
            invariant
                i <= self.remotes.len(),
                forall|j: int| 0 <= j < i ==> self.remote_list()[j].0 != name@,
            decreases self.remotes.len() - i,
        {
            if self.remotes[i].name.eq(name) {
                return Some(i);
            }
            i = i + 1;
        }
        None
    }

    /// Registers the remote `name` at `url`.
    ///
    /// Fails with `AlreadyExists` where a remote has that name; nothing
    /// changes then.
    pub fn add_remote(&mut self, name: &String, url: &String) -> (r: Result<(), Error>)
        requires
            old(self).wf(),
        ensures
            final(self).wf(),
            final(self).commits() == old(self).commits(),
            final(self).branch_map() == old(self).branch_map(),
            final(self).tag_map() == old(self).tag_map(),
            final(self).head_view() == old(self).head_view(),
            match r {
                Ok(()) => !old(self).has_remote(name@) && final(self).remote_list() == old(
                    self).remote_list().push((name@, url@)),
                Err(Error::AlreadyExists(_)) => old(self).has_remote(name@) && final(
                    self).remote_list() == old(self).remote_list(),
                _ => false,
            },
    {
        if self.remote_position(name).is_some() {
            return Err(Error::AlreadyExists("the remote already exists".to_owned()));
        }
        let ghost l0 = self.remote_list();
        self.remotes.push(Remote { name: name.clone(), url: url.clone() });
        proof {
            assert(self.remote_list() =~= l0.push((name@, url@)));
            assert forall|i: int, j: int|
                0 <= i < j < self.remotes@.len() implies #[trigger] self.remotes@[i].name@
                != #[trigger] self.remotes@[j].name@ by {
                if j == l0.len() {
                    assert(l0[i].0 == self.remotes@[i].name@);
                }
            }
        }
        Ok(())
    }

    /// Removes the remote `name`.
    ///
    /// Fails with `NotFound` where no remote has that name; nothing changes
    /// then.
    pub fn remove_remote(&mut self, name: &String) -> (r: Result<(), Error>)
        requires
            old(self).wf(),
        ensures
            final(self).wf(),
            final(self).commits() == old(self).commits(),
            final(self).branch_map() == old(self).branch_map(),
            final(self).tag_map() == old(self).tag_map(),
            final(self).head_view() == old(self).head_view(),
            match r {
                Ok(()) => {
                    &&& !final(self).has_remote(name@)
                    &&& exists|i: int|
                        0 <= i < old(self).remote_list().len() && old(self).remote_list()[i].0
                            == name@ && final(self).remote_list() == old(self).remote_list().remove(i)
                },
                Err(Error::NotFound(_)) => !old(self).has_remote(name@) && final(
                    self).remote_list() == old(self).remote_list(),
                _ => false,
            },
    {
        let i = match self.remote_position(name) {
            Some(i) => i,
            None => {
                return Err(Error::NotFound("the remote does not exist".to_owned()));
            },
        };
        let ghost l0 = self.remote_list();
        let ghost r0 = self.remotes@;
        self.remotes.remove(i);
        proof {
            assert(self.remote_list() =~= l0.remove(i as int));
            assert forall|p: int, q: int|
                0 <= p < q < self.remotes@.len() implies #[trigger] self.remotes@[p].name@
                != #[trigger] self.remotes@[q].name@ by {
                let pp = if p < i { p } else { p + 1 };
                let qq = if q < i { q } else { q + 1 };
                assert(self.remotes@[p] == r0[pp]);
                assert(self.remotes@[q] == r0[qq]);
            }
        }
        Ok(())
    }

    /// The registered remotes as (name, URL) pairs, in the order they were
    /// added.
    pub fn list_remotes(&self) -> (r: Vec<(String, String)>)
        requires
            self.wf(),
        ensures
            r@.len() == self.remote_list().len(),
            forall|i: int, j: int| 0 <= i < j < r@.len() ==> r@[i].0@ != r@[j].0@,
            forall|i: int|
                0 <= i < r@.len() ==> (#[trigger] r@[i]).0@ == self.remote_list()[i].0 && r@[i].1@
                    == self.remote_list()[i].1,
    {
        let mut out: Vec<(String, String)> = Vec::new();
        let mut i: usize = 0;
        while i < self.remotes.len()
            invariant
                i <= self.remotes.len(),
                out@.len() == i,
                forall|j: int|
                    0 <= j < i ==> (#[trigger] out@[j]).0@ == self.remote_list()[j].0 && out@[j].1@
                        == self.remote_list()[j].1,
            decreases self.remotes.len() - i,
        {
            out.push((self.remotes[i].name.clone(), self.remotes[i].url.clone()));
            i = i + 1;
        }
        out
    }
}

/// A semantic commit recorded as a new commit reads back as the same
/// semantic commit: the message found under the new hash decodes to the
/// parts it was encoded from.
pub proof fn lemma_semantic_commit_round_trip(
    g: Seq<CommitView>,
    hash: CommitHash,
    parents: Seq<CommitHash>,
    title: Seq<char>,
    body: Seq<char>,
    state: Option<Seq<char>>,
)
    requires
        !holds(g, hash),
        encodable(title, body, state),
    ensures
        ({
            let g2 = g.push(CommitView { hash, parents, message: encode(title, body, state) });
            holds(g2, hash) && decode(message_of(g2, hash)) == Some((title, body, state))
        }),
{
    let g2 = g.push(CommitView { hash, parents, message: encode(title, body, state) });
    let n = g.len() as int;
    assert(g2[n].hash == hash);
    let i = index_of(g2, hash);
    if i != n {
        assert(g2[i] == g[i]);
    }
    lemma_decode_encode(title, body, state);
}

} // verus!

use vstd::prelude::*;

use crate::error::Error;
use crate::hash::CommitHash;
use crate::text::chars_of;

verus! {

/// Named references to commits, each name held once: the branches or the
/// tags of a repository.
pub struct RefTable {
    entries: Vec<(String, CommitHash)>,
}

pub open spec fn entry_view(e: (String, CommitHash)) -> (Seq<char>, CommitHash) {
    (e.0@, e.1)
}

/// Whether some entry of `s` has name `k`.
pub open spec fn named(s: Seq<(Seq<char>, CommitHash)>, k: Seq<char>) -> bool {
    exists|i: int| #![trigger s[i]] 0 <= i < s.len() && s[i].0 == k
}

/// The map from names to commits that the entries `s` stand for.
pub open spec fn map_of(s: Seq<(Seq<char>, CommitHash)>) -> Map<Seq<char>, CommitHash> {
    Map::new(
        |k: Seq<char>| named(s, k),
        |k: Seq<char>| s[choose|i: int| #![trigger s[i]] 0 <= i < s.len() && s[i].0 == k].1,
    )
}

/// A character that may stand in a branch or tag name: not a space, not a
/// control character, and none of `~^:?*[\`.
pub open spec fn ref_char_ok(c: char) -> bool {
    &&& c != ' '
    &&& (c as u32) >= 32
    &&& !(127 <= (c as u32) && (c as u32) < 160)
    &&& c != '~' && c != '^' && c != ':' && c != '?' && c != '*' && c != '[' && c != '\\'
}

/// A branch or tag name: not empty, only allowed characters, no two `/` in
/// a row, and no `/` at the end.
pub open spec fn valid_ref_name(s: Seq<char>) -> bool {
    &&& s.len() > 0
    &&& forall|i: int| 0 <= i < s.len() ==> ref_char_ok(#[trigger] s[i])
    &&& forall|i: int| 0 <= i < s.len() - 1 ==> !(#[trigger] s[i] == '/' && s[i + 1] == '/')
    &&& s[s.len() - 1] != '/'
}

/// Whether `name` may name a branch or a tag.
pub fn is_valid_ref_name(name: &String) -> (r: bool)
    ensures
        r == valid_ref_name(name@),
{
    let cs = chars_of(name.as_str());
    if cs.len() == 0 {
        return false;
    }
    let mut i: usize = 0;
    while i < cs.len()
        invariant
            cs@ == name@,
            cs.len() > 0,
            i <= cs.len(),
            forall|j: int| 0 <= j < i ==> ref_char_ok(#[trigger] cs@[j]),
            forall|j: int| 0 <= j < i && j < cs.len() - 1 ==> !(#[trigger] cs@[j] == '/' && cs@[j + 1] == '/'),
        decreases cs.len() - i,
    {
        let c = cs[i];
        let code = c as u32;
        if c == ' ' || code < 32 || (127 <= code && code < 160) || c == '~' || c == '^' || c == ':'
            || c == '?' || c == '*' || c == '[' || c == '\\' {
            assert(!ref_char_ok(cs@[i as int]));
            return false;
        }
        if c == '/' && i + 1 < cs.len() && cs[i + 1] == '/' {
            assert(cs@[i as int] == '/' && cs@[i + 1] == '/');
            return false;
        }
        i = i + 1;
    }
    cs[cs.len() - 1] != '/'
}

/// `v` lists each name of `m` exactly once.
pub open spec fn lists_names(v: Seq<String>, m: Map<Seq<char>, CommitHash>) -> bool {
    &&& forall|i: int| 0 <= i < v.len() ==> m.contains_key(#[trigger] v[i]@)
    &&& forall|k: Seq<char>|
        #![trigger m.contains_key(k)]
        m.contains_key(k) ==> exists|i: int| 0 <= i < v.len() && v[i]@ == k
    &&& forall|i: int, j: int| 0 <= i < j < v.len() ==> v[i]@ != v[j]@
}

/// `v` lists each name of `m` that points at `h` exactly once.
pub open spec fn lists_names_at(v: Seq<String>, m: Map<Seq<char>, CommitHash>, h: CommitHash) -> bool {
    &&& forall|i: int| 0 <= i < v.len() ==> m.contains_key(#[trigger] v[i]@) && m[v[i]@] == h
    &&& forall|k: Seq<char>|
        #![trigger m.contains_key(k)]
        m.contains_key(k) && m[k] == h ==> exists|i: int| 0 <= i < v.len() && v[i]@ == k
    &&& forall|i: int, j: int| 0 <= i < j < v.len() ==> v[i]@ != v[j]@
}

pub open spec fn unique_names(s: Seq<(Seq<char>, CommitHash)>) -> bool {
    forall|i: int, j: int| #![trigger s[i], s[j]] 0 <= i < j < s.len() ==> s[i].0 != s[j].0
}

proof fn lemma_map_of_entry(s: Seq<(Seq<char>, CommitHash)>, i: int)
    requires
        unique_names(s),
        0 <= i < s.len(),
    ensures
        map_of(s).contains_key(s[i].0),
        map_of(s)[s[i].0] == s[i].1,
{
    let k = s[i].0;
    assert(named(s, k));
    let j = choose|j: int| #![trigger s[j]] 0 <= j < s.len() && s[j].0 == k;
    if j < i {
        assert(s[j].0 != s[i].0);
    } else if i < j {
        assert(s[i].0 != s[j].0);
    }
}

impl RefTable {
    pub closed spec fn entries(&self) -> Seq<(Seq<char>, CommitHash)> {
        self.entries@.map_values(|e: (String, CommitHash)| entry_view(e))
    }

    pub closed spec fn wf(&self) -> bool {
        unique_names(self.entries())
    }

    /// The map from names to the commits they point at.
    pub closed spec fn view(&self) -> Map<Seq<char>, CommitHash> {
        map_of(self.entries())
    }

    /// An empty table.
    pub fn new() -> (r: RefTable)
        ensures
            r.wf(),
            r.view() == Map::<Seq<char>, CommitHash>::empty(),
    {
        let r = RefTable { entries: Vec::new() };
        assert(r.view() =~= Map::<Seq<char>, CommitHash>::empty());
        r
    }

    /// The position of the entry named `name`.
    fn position(&self, name: &String) -> (r: Option<usize>)
        requires
            self.wf(),
        ensures
            match r {
                Some(i) => i < self.entries().len() && self.entries()[i as int].0 == name@,
                None => !self.view().contains_key(name@),
            },
    {
        let mut i: usize = 0;
        while i < self.entries.len()
            invariant
                i <= self.entries.len(),
                forall|j: int| 0 <= j < i ==> self.entries()[j].0 != name@,
            decreases self.entries.len() - i,
        {
            if self.entries[i].0.eq(name) {
                return Some(i);
            }
            i = i + 1;
        }
        None
    }

    /// The commit that `name` points at.
    ///
    /// Fails with `NotFound` where no entry has that name.
    pub fn locate(&self, name: &String) -> (r: Result<CommitHash, Error>)
        requires
            self.wf(),
        ensures
            match r {
                Ok(h) => self.view().contains_key(name@) && h == self.view()[name@],
                Err(Error::NotFound(_)) => !self.view().contains_key(name@),
                _ => false,
            },
    {
        match self.position(name) {
            Some(i) => {
                proof {
                    lemma_map_of_entry(self.entries(), i as int);
                }
                Ok(self.entries[i].1)
            },
            None => Err(Error::NotFound("no such reference".to_owned())),
        }
    }

    /// Whether some entry has the name `name`.
    pub fn contains(&self, name: &String) -> (r: bool)
        requires
            self.wf(),
        ensures
            r == self.view().contains_key(name@),
    {
        match self.position(name) {
            Some(i) => {
                proof {
                    lemma_map_of_entry(self.entries(), i as int);
                }
                true
            },
            None => false,
        }
    }

    /// All names, each once.
    pub fn names(&self) -> (r: Vec<String>)
        requires
            self.wf(),
        ensures
            lists_names(r@, self.view()),
    {
        self.names_where(None)
    }

    /// The names that point at `h`, each once.
    pub fn names_at(&self, h: &CommitHash) -> (r: Vec<String>)
        requires
            self.wf(),
        ensures
            lists_names_at(r@, self.view(), *h),
    {
        self.names_where(Some(*h))
    }

    /// The names, of all entries or of those that point at the given commit.
    fn names_where(&self, at: Option<CommitHash>) -> (r: Vec<String>)
        requires
            self.wf(),
        ensures
            forall|i: int|
                0 <= i < r.len() ==> self.view().contains_key(#[trigger] r@[i]@) && (at is Some
                    ==> self.view()[r@[i]@] == at->Some_0),
            forall|k: Seq<char>|
                #![trigger self.view().contains_key(k)]
                self.view().contains_key(k) && (at is Some ==> self.view()[k] == at->Some_0)
                    ==> exists|i: int| 0 <= i < r.len() && r@[i]@ == k,
            forall|i: int, j: int| 0 <= i < j < r.len() ==> r@[i]@ != r@[j]@,
    {
        let ghost es = self.entries();
        let ghost mut src: Seq<int> = Seq::empty();
        let ghost mut dst: Seq<int> = Seq::empty();
        let mut out: Vec<String> = Vec::new();
        let mut i: usize = 0;
        while i < self.entries.len()
            invariant
                self.wf(),
                es == self.entries(),
                i <= es.len(),
                src.len() == out.len(),
                dst.len() == i,
                forall|p: int|
                    #![trigger src[p]]
                    0 <= p < out.len() ==> 0 <= src[p] < i && es[src[p]].0 == out@[p]@ && (at is Some
                        ==> es[src[p]].1 == at->Some_0),
                forall|j: int|
                    #![trigger dst[j]]
                    0 <= j < i && (at is Some ==> es[j].1 == at->Some_0) ==> 0 <= dst[j] < out.len()
                        && src[dst[j]] == j,
                forall|p: int, q: int| 0 <= p < q < out.len() ==> src[p] < src[q],
            decreases es.len() - i,
        {
            let keep = match at {
                Some(h) => self.entries[i].1 == h,
                None => true,
            };
            if keep {
                proof {
                    dst = dst.push(out.len() as int);
                    src = src.push(i as int);
                }
                out.push(self.entries[i].0.clone());
            } else {
                proof {
                    dst = dst.push(-1);
                }
            }
            i = i + 1;
        }
        proof {
            assert forall|p: int| 0 <= p < out.len() implies self.view().contains_key(
                #[trigger] out@[p]@,
            ) && (at is Some ==> self.view()[out@[p]@] == at->Some_0) by {
                assert(es[src[p]].0 == out@[p]@);
                lemma_map_of_entry(es, src[p]);
            }
            assert forall|k: Seq<char>|
                #![trigger self.view().contains_key(k)]
                self.view().contains_key(k) && (at is Some ==> self.view()[k] == at->Some_0)
                implies exists|p: int| 0 <= p < out.len() && out@[p]@ == k by {
                let j = choose|j: int| #![trigger es[j]] 0 <= j < es.len() && es[j].0 == k;
                lemma_map_of_entry(es, j);
                let p = dst[j];
                assert(out@[p]@ == k);
            }
            assert forall|p: int, q: int| 0 <= p < q < out.len() implies out@[p]@ != out@[q]@ by {
                assert(src[p] < src[q]);
                assert(es[src[p]].0 != es[src[q]].0);
            }
        }
        out
    }

    /// Adds `name` pointing at `h`.
    ///
    /// Fails with `AlreadyExists`, changing nothing, where the name is taken.
    pub fn insert(&mut self, name: &String, h: CommitHash) -> (r: Result<(), Error>)
        requires
            old(self).wf(),
        ensures
            final(self).wf(),
            match r {
                Ok(()) => !old(self).view().contains_key(name@) && final(self).view() == old(self).view().insert(name@, h),
                Err(Error::AlreadyExists(_)) => old(self).view().contains_key(name@) && final(self).view() == old(self).view(),
                _ => false,
            },
    {
        if self.contains(name) {
            return Err(Error::AlreadyExists("the name is taken".to_owned()));
        }
        let ghost es = self.entries();
        self.entries.push((name.clone(), h));
        proof {
            let es2 = self.entries();
            assert(es2 =~= es.push((name@, h)));
            assert forall|i: int, j: int| #![trigger es2[i], es2[j]] 0 <= i < j < es2.len() implies es2[i].0
                != es2[j].0 by {
                if j == es.len() {
                    assert(es2[i] == es[i]);
                    if es[i].0 == name@ {
                        lemma_map_of_entry(es, i);
                    }
                }
            }
            assert(self.view() =~= map_of(es).insert(name@, h)) by {
                assert forall|k: Seq<char>| named(es2, k) <==> (named(es, k) || k == name@) by {
                    if named(es, k) {
                        let i = choose|i: int| #![trigger es[i]] 0 <= i < es.len() && es[i].0 == k;
                        assert(es2[i] == es[i]);
                    }
                    if k == name@ {
                        assert(es2[es.len() as int].0 == k);
                    }
                }
                assert forall|k: Seq<char>| #[trigger] named(es2, k) implies map_of(es2)[k]
                    == map_of(es).insert(name@, h)[k] by {
                    let i = choose|i: int| #![trigger es2[i]] 0 <= i < es2.len() && es2[i].0 == k;
                    lemma_map_of_entry(es2, i);
                    if i < es.len() {
                        assert(es2[i] == es[i]);
                        lemma_map_of_entry(es, i);
                    }
                }
            }
        }
        Ok(())
    }

    /// Points the existing `name` at `h`.
    ///
    /// Fails with `NotFound`, changing nothing, where no entry has that name.
    pub fn update(&mut self, name: &String, h: CommitHash) -> (r: Result<(), Error>)
        requires
            old(self).wf(),
        ensures
            final(self).wf(),
            match r {
                Ok(()) => old(self).view().contains_key(name@) && final(self).view() == old(self).view().insert(name@, h),
                Err(Error::NotFound(_)) => !old(self).view().contains_key(name@) && final(self).view() == old(self).view(),
                _ => false,
            },
    {
        let i = match self.position(name) {
            Some(i) => i,
            None => {
                return Err(Error::NotFound("no such reference".to_owned()));
            },
        };
        let ghost es = self.entries();
        proof {
            lemma_map_of_entry(es, i as int);
        }
        let n = self.entries[i].0.clone();
        self.entries.set(i, (n, h));
        proof {
            let es2 = self.entries();
            assert(es2 =~= es.update(i as int, (name@, h)));
            assert forall|p: int, q: int| #![trigger es2[p], es2[q]] 0 <= p < q < es2.len() implies es2[p].0
                != es2[q].0 by {
                assert(es2[p].0 == es[p].0);
                assert(es2[q].0 == es[q].0);
            }
            assert(self.view() =~= map_of(es).insert(name@, h)) by {
                assert forall|k: Seq<char>| named(es2, k) <==> named(es, k) by {
                    if named(es, k) {
                        let j = choose|j: int| #![trigger es[j]] 0 <= j < es.len() && es[j].0 == k;
                        assert(es2[j].0 == es[j].0);
                    }
                    if named(es2, k) {
                        let j = choose|j: int| #![trigger es2[j]] 0 <= j < es2.len() && es2[j].0 == k;
                        assert(es2[j].0 == es[j].0);
                    }
                }
                assert forall|k: Seq<char>| #[trigger] named(es2, k) implies map_of(es2)[k]
                    == map_of(es).insert(name@, h)[k] by {
                    let j = choose|j: int| #![trigger es2[j]] 0 <= j < es2.len() && es2[j].0 == k;
                    lemma_map_of_entry(es2, j);
                    if j != i {
                        assert(es2[j] == es[j]);
                        lemma_map_of_entry(es, j);
                    }
                }
            }
        }
        Ok(())
    }

    /// Removes the entry named `name`.
    ///
    /// Fails with `NotFound`, changing nothing, where no entry has that name.
    pub fn remove(&mut self, name: &String) -> (r: Result<(), Error>)
        requires
            old(self).wf(),
        ensures
            final(self).wf(),
            match r {
                Ok(()) => old(self).view().contains_key(name@) && final(self).view() == old(self).view().remove(name@),
                Err(Error::NotFound(_)) => !old(self).view().contains_key(name@) && final(self).view() == old(self).view(),
                _ => false,
            },
    {
        let i = match self.position(name) {
            Some(i) => i,
            None => {
                return Err(Error::NotFound("no such reference".to_owned()));
            },
        };
        let ghost es = self.entries();
        proof {
            lemma_map_of_entry(es, i as int);
        }
        self.entries.remove(i);
        proof {
            let es2 = self.entries();
            assert(es2 =~= es.remove(i as int));
            assert forall|p: int, q: int| #![trigger es2[p], es2[q]] 0 <= p < q < es2.len() implies es2[p].0
                != es2[q].0 by {
                let pp = if p < i { p } else { p + 1 };
                let qq = if q < i { q } else { q + 1 };
                assert(es2[p] == es[pp]);
                assert(es2[q] == es[qq]);
                assert(es[pp].0 != es[qq].0);
            }
            assert(self.view() =~= map_of(es).remove(name@)) by {
                assert forall|k: Seq<char>| named(es2, k) <==> (named(es, k) && k != name@) by {
                    if named(es, k) && k != name@ {
                        let j = choose|j: int| #![trigger es[j]] 0 <= j < es.len() && es[j].0 == k;
                        assert(j != i);
                        let jj = if j < i { j } else { j - 1 };
                        assert(es2[jj] == es[j]);
                    }
                    if named(es2, k) {
                        let j = choose|j: int| #![trigger es2[j]] 0 <= j < es2.len() && es2[j].0 == k;
                        let jj = if j < i { j } else { j + 1 };
                        assert(es2[j] == es[jj]);
                        assert(jj != i ==> es[jj].0 != es[i as int].0);
                    }
                }
                assert forall|k: Seq<char>| #[trigger] named(es2, k) implies map_of(es2)[k]
                    == map_of(es)[k] by {
                    let j = choose|j: int| #![trigger es2[j]] 0 <= j < es2.len() && es2[j].0 == k;
                    let jj = if j < i { j } else { j + 1 };
                    assert(es2[j] == es[jj]);
                    lemma_map_of_entry(es2, j);
                    lemma_map_of_entry(es, jj);
                }
            }
        }
        Ok(())
    }
}

/// Pointing an existing name at a commit and then looking the name up gives
/// that commit.
pub proof fn lemma_update_then_locate(t: Map<Seq<char>, CommitHash>, name: Seq<char>, c: CommitHash)
    requires
        t.contains_key(name),
    ensures
        t.insert(name, c).contains_key(name),
        t.insert(name, c)[name] == c,
{
}

} // verus!

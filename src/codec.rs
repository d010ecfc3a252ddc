use vstd::prelude::*;

use crate::error::Error;
use crate::text::{chars_of, string_of};

verus! {

/// A commit whose only change is to the reserved area: its title, its body,
/// and, if the commit changed it, the new reserved state in serialized form.
#[derive(Debug, Clone)]
pub struct SemanticCommit {
    pub title: String,
    pub body: String,
    /// (If this commit made any change) the new reserved state, serialized.
    pub reserved_state: Option<String>,
}

/// The text form of the marker line, newlines included.
pub const STATE_MARKER: &'static str = "\n[reserved-state]\n";

/// The line that separates the body from the serialized state, with the
/// newline before it and the one after it.
pub open spec fn marker() -> Seq<char> {
    seq!['\n', '[', 'r', 'e', 's', 'e', 'r', 'v', 'e', 'd', '-', 's', 't', 'a', 't', 'e', ']', '\n']
}

/// `m` occurs in `s` at position `p`.
pub open spec fn matches_at(s: Seq<char>, p: int, m: Seq<char>) -> bool {
    0 <= p && p + m.len() <= s.len() && s.subrange(p, p + m.len()) == m
}

/// `p` is the first position at which `m` occurs in `s`.
pub open spec fn is_first_match(s: Seq<char>, m: Seq<char>, p: int) -> bool {
    matches_at(s, p, m) && forall|q: int| 0 <= q < p ==> !matches_at(s, q, m)
}

/// The first position at which `m` occurs in `s`, if any.
pub open spec fn first_match(s: Seq<char>, m: Seq<char>) -> Option<int> {
    if exists|p: int| is_first_match(s, m, p) {
        Some(choose|p: int| is_first_match(s, m, p))
    } else {
        None
    }
}

/// The commit message of a semantic commit: the title, a blank line, the
/// body, and, where there is a state, the marker line and the state.
pub open spec fn encode(title: Seq<char>, body: Seq<char>, state: Option<Seq<char>>) -> Seq<char> {
    match state {
        None => title + seq!['\n', '\n'] + body,
        Some(st) => title + seq!['\n', '\n'] + body + marker() + st,
    }
}

/// The parts that a message splits into: the title up to the first newline,
/// which a blank line must follow; then the body, up to the first marker
/// line; then the state after it.
pub open spec fn decode(msg: Seq<char>) -> Option<(Seq<char>, Seq<char>, Option<Seq<char>>)> {
    match first_match(msg, seq!['\n']) {
        None => None,
        Some(i) => if i + 1 < msg.len() && msg[i + 1] == '\n' {
            let title = msg.subrange(0, i);
            let rest = msg.subrange(i + 2, msg.len() as int);
            match first_match(rest, marker()) {
                None => Some((title, rest, None)),
                Some(p) => Some(
                    (
                        title,
                        rest.subrange(0, p),
                        Some(rest.subrange(p + marker().len(), rest.len() as int)),
                    ),
                ),
            }
        } else {
            None
        },
    }
}

/// The parts can be told apart again: the title holds no newline, and the
/// marker line neither starts inside the body nor, where a state follows,
/// runs from the end of the body into the real marker.
pub open spec fn encodable(title: Seq<char>, body: Seq<char>, state: Option<Seq<char>>) -> bool {
    &&& !title.contains('\n')
    &&& match state {
        None => forall|p: int| !matches_at(body, p, marker()),
        Some(_) => forall|p: int| !matches_at(body.push('\n'), p, marker()),
    }
}

impl SemanticCommit {
    pub open spec fn parts(&self) -> (Seq<char>, Seq<char>, Option<Seq<char>>) {
        (
            self.title@,
            self.body@,
            match self.reserved_state {
                Some(s) => Some(s@),
                None => None,
            },
        )
    }
}

proof fn lemma_first_match(s: Seq<char>, m: Seq<char>, p: int)
    requires
        is_first_match(s, m, p),
    ensures
        first_match(s, m) == Some(p),
{
    let c = choose|q: int| is_first_match(s, m, q);
    assert(is_first_match(s, m, c));
    if c < p {
        assert(!matches_at(s, c, m));
    } else if p < c {
        assert(!matches_at(s, p, m));
    }
}

proof fn lemma_no_match(s: Seq<char>, m: Seq<char>)
    requires
        forall|p: int| !matches_at(s, p, m),
    ensures
        first_match(s, m) is None,
{
}

/// Whether `m` occurs in `s` at position `p`.
fn matches_here(s: &Vec<char>, m: &Vec<char>, p: usize) -> (r: bool)
    requires
        p + m.len() <= s.len(),
    ensures
        r == matches_at(s@, p as int, m@),
{
    let mut k: usize = 0;
    while k < m.len()
        invariant
            p + m.len() <= s.len(),
            k <= m.len(),
            forall|j: int| 0 <= j < k ==> s@[p + j] == m@[j],
        decreases m.len() - k,
    {
        if s[p + k] != m[k] {
            assert(s@.subrange(p as int, p + m@.len())[k as int] != m@[k as int]);
            return false;
        }
        k = k + 1;
    }
    assert(s@.subrange(p as int, p + m@.len()) =~= m@);
    true
}

/// The first position at which `m` occurs in `s`.
fn find_match(s: &Vec<char>, m: &Vec<char>) -> (r: Option<usize>)
    ensures
        match r {
            Some(p) => is_first_match(s@, m@, p as int),
            None => forall|p: int| !matches_at(s@, p, m@),
        },
{
    if m.len() > s.len() {
        return None;
    }
    let last = s.len() - m.len();
    let mut p: usize = 0;
    while p <= last
        invariant
            last == s.len() - m.len(),
            m.len() <= s.len(),
            p <= last,
            forall|q: int| 0 <= q < p ==> !matches_at(s@, q, m@),
        decreases last - p,
    {
        if matches_here(s, m, p) {
            return Some(p);
        }
        if p == last {
            return None;
        }
        p = p + 1;
    }
    None
}

/// The characters of `v` from `a` up to `b` as a string.
fn text_between(v: &Vec<char>, a: usize, b: usize) -> (r: String)
    requires
        a <= b <= v.len(),
    ensures
        r@ == v@.subrange(a as int, b as int),
{
    let part = slice_chars(v, a, b);
    string_of(part.as_slice())
}

/// The characters of `v` from `a` up to `b`.
fn slice_chars(v: &Vec<char>, a: usize, b: usize) -> (r: Vec<char>)
    requires
        a <= b <= v.len(),
    ensures
        r@ == v@.subrange(a as int, b as int),
{
    let mut part: Vec<char> = Vec::new();
    let mut i: usize = a;
    while i < b
        invariant
            a <= i <= b <= v.len(),
            part@ == v@.subrange(a as int, i as int),
        decreases b - i,
    {
        part.push(v[i]);
        i = i + 1;
        assert(part@ =~= v@.subrange(a as int, i as int));
    }
    part
}


/// The marker line as characters.
fn marker_chars() -> (r: Vec<char>)
    ensures
        r@ == marker(),
{
    let m = chars_of(STATE_MARKER);
    proof {
        reveal_strlit("\n[reserved-state]\n");
    }
    assert(m@ =~= marker());
    m
}

proof fn lemma_contains_as_match(s: Seq<char>, c: char)
    ensures
        s.contains(c) <==> exists|p: int| matches_at(s, p, seq![c]),
{
    if s.contains(c) {
        let i = choose|i: int| 0 <= i < s.len() && s[i] == c;
        assert(s.subrange(i, i + 1) =~= seq![c]);
        assert(matches_at(s, i, seq![c]));
    }
    if exists|p: int| matches_at(s, p, seq![c]) {
        let p = choose|p: int| matches_at(s, p, seq![c]);
        assert(s.subrange(p, p + 1)[0] == s[p]);
        assert(s[p] == c);
    }
}

proof fn lemma_marker_shape()
    ensures
        marker().len() == 18,
        marker()[0] == '\n',
        marker()[17] == '\n',
        forall|j: int| 0 < j < 17 ==> marker()[j] != '\n',
{
}

impl SemanticCommit {
    /// The commit message that stands for this semantic commit.
    ///
    /// Fails with `InvalidRepository` where the parts could not be told
    /// apart again: a title with a newline, or a body holding the marker line.
    pub fn to_message(&self) -> (r: Result<String, Error>)
        ensures
            match r {
                Ok(msg) => {
                    let (t, b, st) = self.parts();
                    encodable(t, b, st) && msg@ == encode(t, b, st)
                },
                Err(Error::InvalidRepository(_)) => {
                    let (t, b, st) = self.parts();
                    !encodable(t, b, st)
                },
                _ => false,
            },
    {
        let title = chars_of(self.title.as_str());
        let nl = chars_of("\n");
        proof {
            reveal_strlit("\n");
            assert(nl@ =~= seq!['\n']);
            lemma_contains_as_match(title@, '\n');
        }
        if find_match(&title, &nl).is_some() {
            return Err(Error::InvalidRepository("the title holds a newline".to_owned()));
        }
        let mut body = chars_of(self.body.as_str());
        if self.reserved_state.is_some() {
            body.push('\n');
        }
        let m = marker_chars();
        if find_match(&body, &m).is_some() {
            return Err(Error::InvalidRepository("the body holds the state marker".to_owned()));
        }
        let mut out = String::new();
        out.append(self.title.as_str());
        out.append("\n\n");
        out.append(self.body.as_str());
        match &self.reserved_state {
            Some(st) => {
                out.append(STATE_MARKER);
                out.append(st.as_str());
            },
            None => {},
        }
        proof {
            reveal_strlit("\n\n");
            reveal_strlit("\n[reserved-state]\n");
            assert("\n\n"@ =~= seq!['\n', '\n']);
            assert(STATE_MARKER@ =~= marker());
            let (t, b, st) = self.parts();
            assert(out@ =~= encode(t, b, st));
        }
        Ok(out)
    }

    /// Reads a semantic commit back from its commit message.
    ///
    /// Fails with `InvalidRepository` where the message has no title line
    /// followed by a blank line.
    pub fn from_message(msg: &str) -> (r: Result<SemanticCommit, Error>)
        ensures
            match r {
                Ok(c) => decode(msg@) == Some(c.parts()),
                Err(Error::InvalidRepository(_)) => decode(msg@) is None,
                _ => false,
            },
    {
        let v = chars_of(msg);
        let nl = chars_of("\n");
        proof {
            reveal_strlit("\n");
            assert(nl@ =~= seq!['\n']);
        }
        let i = match find_match(&v, &nl) {
            Some(i) => i,
            None => {
                proof {
                    lemma_no_match(v@, nl@);
                }
                return Err(Error::InvalidRepository("the message has no title line".to_owned()));
            },
        };
        proof {
            lemma_first_match(v@, nl@, i as int);
            assert(i + 1 <= v.len());
        }
        if i + 1 >= v.len() || v[i + 1] != '\n' {
            return Err(
                Error::InvalidRepository("no blank line follows the title".to_owned()),
            );
        }
        let title = text_between(&v, 0, i);
        let rest = slice_chars(&v, i + 2, v.len());
        let m = marker_chars();
        match find_match(&rest, &m) {
            None => {
                proof {
                    lemma_no_match(rest@, m@);
                }
                let body = string_of(rest.as_slice());
                Ok(SemanticCommit { title, body, reserved_state: None })
            },
            Some(p) => {
                proof {
                    lemma_first_match(rest@, m@, p as int);
                }
                let body = text_between(&rest, 0, p);
                let state = text_between(&rest, p + m.len(), rest.len());
                Ok(SemanticCommit { title, body, reserved_state: Some(state) })
            },
        }
    }
}

/// Reading back the message of encodable parts gives the same parts.
pub proof fn lemma_decode_encode(title: Seq<char>, body: Seq<char>, state: Option<Seq<char>>)
    requires
        encodable(title, body, state),
    ensures
        decode(encode(title, body, state)) == Some((title, body, state)),
{
    let msg = encode(title, body, state);
    let nl = seq!['\n'];
    let t = title.len() as int;
    assert(msg[t] == '\n');
    assert(msg.subrange(t, t + 1) =~= nl);
    assert forall|q: int| 0 <= q < t implies !matches_at(msg, q, nl) by {
        assert(msg[q] == title[q]);
        assert(!title.contains('\n'));
        assert(msg.subrange(q, q + 1)[0] == msg[q]);
    }
    lemma_first_match(msg, nl, t);
    assert(msg[t + 1] == '\n');
    assert(msg.subrange(0, t) =~= title);
    let rest = msg.subrange(t + 2, msg.len() as int);
    let m = marker();
    lemma_marker_shape();
    match state {
        None => {
            assert(rest =~= body);
            lemma_no_match(rest, m);
        },
        Some(st) => {
            let b = body.len() as int;
            let l = m.len() as int;
            assert(rest =~= body + m + st);
            assert(rest.subrange(b, b + l) =~= m);
            assert forall|q: int| 0 <= q < b implies !matches_at(rest, q, m) by {
                let bn = body.push('\n');
                if matches_at(rest, q, m) {
                    if q + l <= b + 1 {
                        assert(rest.subrange(q, q + l) =~= bn.subrange(q, q + l));
                        assert(matches_at(bn, q, m));
                    } else {
                        let j = b - q;
                        assert(rest.subrange(q, q + l)[j] == rest[b]);
                        assert(rest[b] == m[0]);
                        assert(m[j] == '\n');
                    }
                }
            }
            lemma_first_match(rest, m, b);
            assert(rest.subrange(0, b) =~= body);
            assert(rest.subrange(b + l, rest.len() as int) =~= st);
        },
    }
}

/// A message that reads back as a semantic commit is exactly the message of
/// the parts it reads back as, and those parts are encodable.
pub proof fn lemma_encode_decode(msg: Seq<char>)
    requires
        decode(msg) is Some,
    ensures
        ({
            let (t, b, st) = decode(msg)->Some_0;
            encodable(t, b, st) && encode(t, b, st) == msg
        }),
{
    let nl = seq!['\n'];
    let i = first_match(msg, nl)->Some_0;
    assert(is_first_match(msg, nl, i)) by {
        let c = choose|p: int| is_first_match(msg, nl, p);
    }
    let title = msg.subrange(0, i);
    assert forall|k: int| 0 <= k < title.len() implies title[k] != '\n' by {
        assert(!matches_at(msg, k, nl));
        if title[k] == '\n' {
            assert(msg.subrange(k, k + 1) =~= nl);
        }
    }
    assert(msg.subrange(i, i + 1)[0] == msg[i]);
    assert(msg[i] == '\n');
    let rest = msg.subrange(i + 2, msg.len() as int);
    let m = marker();
    match first_match(rest, m) {
        None => {
            assert(forall|p: int| !matches_at(rest, p, m)) by {
                if exists|p: int| matches_at(rest, p, m) {
                    let p0 = choose|p: int| matches_at(rest, p, m);
                    lemma_least_match(rest, m, p0);
                }
            }
            assert(title + seq!['\n', '\n'] + rest =~= msg);
        },
        Some(p) => {
            assert(is_first_match(rest, m, p)) by {
                let c = choose|q: int| is_first_match(rest, m, q);
            }
            let body = rest.subrange(0, p);
            let st = rest.subrange(p + m.len(), rest.len() as int);
            let bn = body.push('\n');
            let l = m.len() as int;
            lemma_marker_shape();
            assert forall|q: int| !matches_at(bn, q, m) by {
                if matches_at(bn, q, m) {
                    assert(q + l <= p + 1);
                    assert(q < p);
                    assert(rest.subrange(p, p + l)[0] == rest[p]);
                    assert(rest[p] == m[0]);
                    assert(bn[p] == '\n');
                    assert(rest.subrange(q, q + l) =~= bn.subrange(q, q + l));
                    assert(matches_at(rest, q, m));
                }
            }
            assert(rest.subrange(p, p + l) =~= m);
            assert(body + m + st =~= rest);
            assert(title + seq!['\n', '\n'] + body + m + st =~= msg);
        },
    }
}

/// Where `m` occurs in `s` at all, it has a first occurrence.
proof fn lemma_least_match(s: Seq<char>, m: Seq<char>, p: int)
    requires
        matches_at(s, p, m),
    ensures
        exists|q: int| is_first_match(s, m, q),
    decreases p,
{
    if exists|q: int| 0 <= q < p && matches_at(s, q, m) {
        let q = choose|q: int| 0 <= q < p && matches_at(s, q, m);
        lemma_least_match(s, m, q);
    } else {
        assert(is_first_match(s, m, p));
    }
}

} // verus!

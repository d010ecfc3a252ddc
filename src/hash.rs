use vstd::prelude::*;

use crate::text::{chars_of, string_of};

verus! {

/// The name of a branch.
pub type Branch = String;

/// The name of a tag.
pub type Tag = String;

/// The 20-byte content hash that identifies a commit.
#[derive(Debug, Clone, Copy, Hash)]
pub struct CommitHash {
    pub hash: [u8; 20],
}

impl PartialEq for CommitHash {
    fn eq(&self, other: &CommitHash) -> (r: bool) {
        let mut i: usize = 0;
        while i < 20
            invariant
                i <= 20,
                forall|j: int| 0 <= j < i ==> self.hash[j] == other.hash[j],
            decreases 20 - i,
        {
            if self.hash[i] != other.hash[i] {
                return false;
            }
            i = i + 1;
        }
        assert(self.hash =~= other.hash);
        true
    }
}

impl vstd::std_specs::cmp::PartialEqSpecImpl for CommitHash {
    open spec fn obeys_eq_spec() -> bool {
        true
    }

    open spec fn eq_spec(&self, other: &CommitHash) -> bool {
        *self == *other
    }
}

impl Eq for CommitHash {
}

/// The lowercase hexadecimal digits, by value.
pub open spec fn hex_digits() -> Seq<char> {
    seq!['0', '1', '2', '3', '4', '5', '6', '7', '8', '9', 'a', 'b', 'c', 'd', 'e', 'f']
}

/// Two lowercase hexadecimal digits for each byte, the high one first.
pub open spec fn hex_of(b: Seq<u8>) -> Seq<char> {
    Seq::new(
        2 * b.len(),
        |i: int|
            if i % 2 == 0 {
                hex_digits()[b[i / 2] as int / 16]
            } else {
                hex_digits()[b[i / 2] as int % 16]
            },
    )
}

/// The lowercase hexadecimal digits in order of value, as text.
pub const HEX_DIGITS: &'static str = "0123456789abcdef";

proof fn lemma_hex_digits_distinct()
    ensures
        forall|x: int, y: int|
            0 <= x < 16 && 0 <= y < 16 && x != y ==> hex_digits()[x] != hex_digits()[y],
{
}

/// The lowercase hexadecimal digits as characters.
fn digit_chars() -> (r: Vec<char>)
    ensures
        r@ == hex_digits(),
{
    let d = chars_of(HEX_DIGITS);
    proof {
        reveal_strlit("0123456789abcdef");
    }
    assert(d@ =~= hex_digits());
    d
}

/// The value of the hexadecimal digit `c`, if it is one.
fn digit_value(digits: &Vec<char>, c: char) -> (r: Option<u8>)
    requires
        digits@ == hex_digits(),
    ensures
        match r {
            Some(v) => v < 16 && hex_digits()[v as int] == c,
            None => !hex_digits().contains(c),
        },
{
    let mut v: usize = 0;
    while v < 16
        invariant
            digits@ == hex_digits(),
            v <= 16,
            forall|j: int| 0 <= j < v ==> hex_digits()[j] != c,
        decreases 16 - v,
    {
        if digits[v] == c {
            return Some(v as u8);
        }
        v = v + 1;
    }
    None
}

impl CommitHash {
    /// The 40 lowercase hexadecimal digits of the hash.
    pub fn to_hex(&self) -> (r: String)
        ensures
            r@ == hex_of(self.hash@),
    {
        let digits = digit_chars();
        let mut out: Vec<char> = Vec::new();
        let mut i: usize = 0;
        while i < 20
            invariant
                digits@ == hex_digits(),
                i <= 20,
                out@ == hex_of(self.hash@.subrange(0, i as int)),
            decreases 20 - i,
        {
            let b = self.hash[i];
            out.push(digits[(b / 16) as usize]);
            out.push(digits[(b % 16) as usize]);
            proof {
                let s = self.hash@.subrange(0, i + 1);
                assert(s.subrange(0, i as int) =~= self.hash@.subrange(0, i as int));
                assert(out@ =~= hex_of(s));
            }
            i = i + 1;
        }
        assert(self.hash@.subrange(0, 20) =~= self.hash@);
        string_of(out.as_slice())
    }

    /// Reads a hash from its 40 lowercase hexadecimal digits.
    ///
    /// Returns `None` where `s` is not the text form of any hash.
    pub fn from_hex(s: &str) -> (r: Option<CommitHash>)
        ensures
            match r {
                Some(h) => s@ == hex_of(h.hash@),
                None => forall|h: CommitHash| s@ != hex_of(#[trigger] h.hash@),
            },
    {
        let cs = chars_of(s);
        if cs.len() != 40 {
            return None;
        }
        let digits = digit_chars();
        let mut hash: [u8; 20] = [0u8; 20];
        let mut i: usize = 0;
        while i < 20
            invariant
                digits@ == hex_digits(),
                cs@ == s@,
                cs.len() == 40,
                i <= 20,
                forall|j: int| 0 <= j < 2 * i ==> cs@[j] == hex_of(hash@)[j],
            decreases 20 - i,
        {
            let hi = match digit_value(&digits, cs[2 * i]) {
                Some(v) => v,
                None => {
                    proof {
                        lemma_not_hex(s@, 2 * i as int);
                    }
                    return None;
                },
            };
            let lo = match digit_value(&digits, cs[2 * i + 1]) {
                Some(v) => v,
                None => {
                    proof {
                        lemma_not_hex(s@, 2 * i + 1);
                    }
                    return None;
                },
            };
            let ghost before = hash@;
            hash[i] = hi * 16 + lo;
            proof {
                assert((hi * 16 + lo) / 16 == hi) by (nonlinear_arith)
                    requires hi < 16 && lo < 16;
                assert((hi * 16 + lo) % 16 == lo) by (nonlinear_arith)
                    requires hi < 16 && lo < 16;
                assert forall|j: int| 0 <= j < 2 * i + 2 implies cs@[j] == hex_of(hash@)[j] by {
                    if j < 2 * i {
                        assert(hash@[j / 2] == before[j / 2]);
                        assert(hex_of(hash@)[j] == hex_of(before)[j]);
                    }
                }
            }
            i = i + 1;
        }
        let h = CommitHash { hash };
        assert(s@ =~= hex_of(h.hash@));
        Some(h)
    }
}

/// A 40-character text that is the hex form of some hash has only
/// lowercase hexadecimal digits.
proof fn lemma_not_hex(s: Seq<char>, k: int)
    requires
        0 <= k < s.len(),
        !hex_digits().contains(s[k]),
    ensures
        forall|h: CommitHash| s != hex_of(#[trigger] h.hash@),
{
    assert forall|h: CommitHash| s != hex_of(#[trigger] h.hash@) by {
        if s == hex_of(h.hash@) {
            let b = h.hash@[k / 2];
            let d: int = if k % 2 == 0 { b as int / 16 } else { b as int % 16 };
            assert(s[k] == hex_digits()[d]);
        }
    }
}

/// Reading back the hex form of a hash gives that hash: no other hash has
/// the same hex form.
pub proof fn lemma_hex_round_trip(a: CommitHash, b: CommitHash)
    requires
        hex_of(a.hash@) == hex_of(b.hash@),
    ensures
        a == b,
{
    lemma_hex_digits_distinct();
    assert forall|i: int| 0 <= i < 20 implies a.hash[i] == b.hash[i] by {
        let x = a.hash@[i];
        let y = b.hash@[i];
        assert(hex_of(a.hash@)[2 * i] == hex_of(b.hash@)[2 * i]);
        assert(hex_of(a.hash@)[2 * i + 1] == hex_of(b.hash@)[2 * i + 1]);
        assert((2 * i) / 2 == i && (2 * i) % 2 == 0);
        assert((2 * i + 1) / 2 == i && (2 * i + 1) % 2 == 1);
        assert(hex_of(a.hash@)[2 * i] == hex_digits()[x as int / 16]);
        assert(hex_of(b.hash@)[2 * i] == hex_digits()[y as int / 16]);
        assert(hex_of(a.hash@)[2 * i + 1] == hex_digits()[x as int % 16]);
        assert(hex_of(b.hash@)[2 * i + 1] == hex_digits()[y as int % 16]);
        let (xh, xl, yh, yl) = (x as int / 16, x as int % 16, y as int / 16, y as int % 16);
        assert(0 <= xh < 16 && 0 <= yh < 16 && 0 <= xl < 16 && 0 <= yl < 16);
        assert(hex_digits()[xh] == hex_digits()[yh]);
        assert(hex_digits()[xl] == hex_digits()[yl]);
        assert(xh == yh);
        assert(xl == yl);
        assert(x == 16 * (x / 16) + x % 16);
        assert(y == 16 * (y / 16) + y % 16);
    }
    assert(a.hash =~= b.hash);
}

} // verus!

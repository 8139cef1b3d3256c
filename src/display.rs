use vstd::prelude::*;
use vstd::string::StrSliceExecFns;

use crate::cpumask::{Cpumask, CpumaskError};

verus! {

/// The character of a decimal digit.
pub open spec fn digit_char(d: nat) -> char {
    seq!['0', '1', '2', '3', '4', '5', '6', '7', '8', '9'][d as int]
}

/// The decimal digits of `n`, most significant first, without leading zeros.
pub open spec fn decimal(n: nat) -> Seq<char>
    decreases n,
{
    if n < 10 {
        seq![digit_char(n)]
    } else {
        decimal(n / 10).push(digit_char(n % 10))
    }
}

/// `'1'` and `'0'` for the entries of `s`, the last entry first.
pub open spec fn bit_chars(s: Seq<bool>) -> Seq<char> {
    Seq::new(
        s.len(),
        |i: int|
            if s[s.len() - 1 - i] {
                '1'
            } else {
                '0'
            },
    )
}

/// The text of a mask: its capacity in decimal, then its bits within `:<`
/// and `>`, the highest CPU leftmost.
pub open spec fn display_text(s: Seq<bool>) -> Seq<char> {
    decimal(s.len()) + seq![':', '<'] + bit_chars(s) + seq!['>']
}

/// Whether `t` is the text of some mask.
pub open spec fn is_display_text(t: Seq<char>) -> bool {
    exists|s: Seq<bool>| #[trigger] display_text(s) == t
}

proof fn lemma_decimal_has_no_colon(n: nat)
    ensures
        decimal(n).len() >= 1,
        forall|k: int| 0 <= k < decimal(n).len() ==> #[trigger] decimal(n)[k] != ':',
    decreases n,
{
    if n >= 10 {
        lemma_decimal_has_no_colon(n / 10);
    }
}

/// Where the parts of a mask's text stand.
proof fn lemma_display_shape(s: Seq<bool>)
    ensures
        ({
            let t = display_text(s);
            let c = decimal(s.len()).len() as int;
            &&& t.len() == c + 3 + s.len()
            &&& forall|k: int| 0 <= k < c ==> #[trigger] t[k] != ':'
            &&& t[c] == ':'
            &&& t[c + 1] == '<'
            &&& t[t.len() - 1] == '>'
            &&& t.subrange(0, c) == decimal(s.len())
            &&& forall|k: int| 0 <= k < s.len() ==> #[trigger] t[c + 2 + k] == bit_chars(s)[k]
        }),
{
    lemma_decimal_has_no_colon(s.len());
    let t = display_text(s);
    let c = decimal(s.len()).len() as int;
    assert(t.subrange(0, c) =~= decimal(s.len()));
    assert forall|k: int| 0 <= k < c implies #[trigger] t[k] != ':' by {
        assert(t[k] == decimal(s.len())[k]);
    }
}

/// Two masks with one text have the same bits.
pub proof fn lemma_display_injective(s1: Seq<bool>, s2: Seq<bool>)
    requires
        display_text(s1) == display_text(s2),
    ensures
        s1 == s2,
{
    lemma_display_shape(s1);
    lemma_display_shape(s2);
    let t = display_text(s1);
    let c1 = decimal(s1.len()).len() as int;
    let c2 = decimal(s2.len()).len() as int;
    if c1 < c2 {
        assert(t[c1] == ':');
    } else if c2 < c1 {
        assert(t[c2] == ':');
    }
    assert(s1.len() == s2.len());
    assert forall|i: int| 0 <= i < s1.len() implies s1[i] == s2[i] by {
        let k = s1.len() - 1 - i;
        assert(t[c1 + 2 + k] == bit_chars(s1)[k]);
        assert(t[c1 + 2 + k] == bit_chars(s2)[k]);
    }
    assert(s1 =~= s2);
}

/// Decoding the text of a mask gives back exactly the mask's bits.
pub proof fn lemma_display_round_trip(s: Seq<bool>, decoded: Seq<bool>)
    requires
        display_text(decoded) == display_text(s),
    ensures
        is_display_text(display_text(s)),
        decoded == s,
{
    lemma_display_injective(decoded, s);
}

/// What every text of a mask holds, `c` being the place of its first `:`.
proof fn lemma_display_parts(t: Seq<char>, c: int)
    requires
        is_display_text(t),
        0 <= c <= t.len(),
        forall|k: int| 0 <= k < c ==> #[trigger] t[k] != ':',
        c == t.len() || t[c] == ':',
    ensures
        c + 3 <= t.len(),
        t[c + 1] == '<',
        t[t.len() - 1] == '>',
        t.subrange(0, c) == decimal((t.len() - c - 3) as nat),
        forall|k: int| 0 <= k < t.len() - c - 3 ==> #[trigger] t[c + 2 + k] == '0' || t[c + 2 + k] == '1',
{
    let s = choose|s: Seq<bool>| #[trigger] display_text(s) == t;
    lemma_display_shape(s);
    let dc = decimal(s.len()).len() as int;
    if c < dc {
        assert(t[c] != ':');
    } else if dc < c {
        assert(t[dc] == ':');
    }
    assert forall|k: int| 0 <= k < t.len() - c - 3 implies #[trigger] t[c + 2 + k] == '0' || t[c + 2 + k] == '1' by {
        assert(t[c + 2 + k] == bit_chars(s)[k]);
    }
}

/// Relies on the `ToString` of `usize`: its decimal digits, without sign or
/// padding.
#[verifier::external_body]
fn decimal_string(n: usize) -> (r: String)
    ensures
        r@ == decimal(n as nat),
{
    n.to_string()
}

impl Cpumask {
    /// The mask as text, such as `4:<0101>` for CPUs 0 and 2 of four.
    pub fn to_string(&self) -> (r: String)
        requires
            self.wf(),
        ensures
            r@ == display_text(self@),
    {
        let n = self.len();
        let mut out = decimal_string(n);
        out.append(":<");
        proof {
            reveal_strlit(":<");
        }
        let ghost head = decimal(n as nat) + seq![':', '<'];
        assert(out@ =~= head);
        let mut i: usize = 0;
        while i < n
            invariant
                self.wf(),
                n == self@.len(),
                i <= n,
                out@ == head + bit_chars(self@).subrange(0, i as int),
            decreases n - i,
        {
            proof {
                reveal_strlit("1");
                reveal_strlit("0");
            }
            if self.test_cpu(n - 1 - i) {
                out.append("1");
            } else {
                out.append("0");
            }
            assert(out@ =~= head + bit_chars(self@).subrange(0, i + 1));
            i = i + 1;
        }
        out.append(">");
        proof {
            reveal_strlit(">");
        }
        assert(bit_chars(self@).subrange(0, n as int) =~= bit_chars(self@));
        assert(out@ =~= display_text(self@));
        out
    }
    /// Reads back the text that `to_string` gives: `ParseError` for any text
    /// that is not the text of a mask.
    pub fn from_display(text: &String) -> (r: Result<Cpumask, CpumaskError>)
        ensures
            r is Ok <==> is_display_text(text@),
            r is Err ==> r == Err::<Cpumask, CpumaskError>(CpumaskError::ParseError),
            r matches Ok(m) ==> m.wf() && display_text(m@) == text@,
    {
        let t = text.as_str();
        let len = t.unicode_len();
        let mut c: usize = 0;
        let mut found: bool = false;
        while !found && c < len
            invariant
                t@ == text@,
                len == t@.len(),
                c <= len,
                found ==> c < len && t@[c as int] == ':',
                forall|k: int| 0 <= k < c ==> #[trigger] t@[k] != ':',
            decreases len - c + if found {
                0int
            } else {
                1int
            },
        {
            if t.get_char(c) == ':' {
                found = true;
            } else {
                c = c + 1;
            }
        }
        if !found || len - c < 3 || t.get_char(c + 1) != '<' || t.get_char(len - 1) != '>' {
            proof {
                if is_display_text(text@) {
                    lemma_display_parts(text@, c as int);
                }
            }
            return Err(CpumaskError::ParseError);
        }
        let n = len - c - 3;
        let dec = decimal_string(n);
        let d = dec.as_str();
        let dlen = d.unicode_len();
        if dlen != c {
            proof {
                if is_display_text(text@) {
                    lemma_display_parts(text@, c as int);
                }
            }
            return Err(CpumaskError::ParseError);
        }
        let mut k: usize = 0;
        while k < c
            invariant
                t@ == text@,
                d@ == decimal(n as nat),
                dlen == c,
                forall|j: int| 0 <= j < c ==> #[trigger] t@[j] != ':',
                t@[c as int] == ':',
                t@[c + 1] == '<',
                t@[len - 1] == '>',
                n == len - c - 3,
                c == d@.len(),
                c < len,
                len == t@.len(),
                k <= c,
                forall|j: int| 0 <= j < k ==> #[trigger] t@[j] == d@[j],
            decreases c - k,
        {
            if t.get_char(k) != d.get_char(k) {
                proof {
                    if is_display_text(text@) {
                    lemma_display_parts(text@, c as int);
                }
                }
                return Err(CpumaskError::ParseError);
            }
            k = k + 1;
        }
        proof {
            assert(t@.subrange(0, c as int) =~= decimal(n as nat));
        }
        let mut m = Cpumask::new(n);
        let mut i: usize = 0;
        while i < n
            invariant
                t@ == text@,
                len == t@.len(),
                n == len - c - 3,
                c + 3 <= len,
                forall|j: int| 0 <= j < c ==> #[trigger] t@[j] != ':',
                t@[c as int] == ':',
                t@[c + 1] == '<',
                t@[len - 1] == '>',
                t@.subrange(0, c as int) == decimal(n as nat),
                i <= n,
                m.wf(),
                m@.len() == n,
                forall|j: int| 0 <= j < i ==> #[trigger] t@[c + 2 + j] == '0' || t@[c + 2 + j] == '1',
                m@ == Seq::new(n as nat, |j: int| n - 1 - j < i && t@[c + 2 + (n - 1 - j)] == '1'),
            decreases n - i,
        {
            let ch = t.get_char(c + 2 + i);
            if ch == '1' {
                m.write_cpu(n - 1 - i, true);
            } else if ch != '0' {
                proof {
                    if is_display_text(text@) {
                    lemma_display_parts(text@, c as int);
                }
                }
                return Err(CpumaskError::ParseError);
            }
            proof {
                assert(m@ =~= Seq::new(
                    n as nat,
                    |j: int| n - 1 - j < i + 1 && t@[c + 2 + (n - 1 - j)] == '1',
                ));
            }
            i = i + 1;
        }
        proof {
            let s = m@;
            assert(bit_chars(s) =~= t@.subrange(c + 2, len - 1));
            assert(display_text(s) =~= t@);
        }
        Ok(m)
    }
}

} // verus!

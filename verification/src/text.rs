use vstd::prelude::*;
use vstd::string::*;

verus! {

/// The decimal digit character of `d` (`0 <= d < 10`).
pub open spec fn digit_char(d: nat) -> char {
    (d + 48) as char
}

/// The decimal digits of `n`, most significant first, without leading zeros.
pub open spec fn decimal_digits(n: nat) -> Seq<char>
    decreases n,
{
    if n < 10 {
        seq![digit_char(n)]
    } else {
        decimal_digits(n / 10) + seq![digit_char(n % 10)]
    }
}

/// The decimal text of `n`, with a leading `-` when negative.
pub open spec fn decimal_text(n: int) -> Seq<char> {
    if n < 0 {
        seq!['-'] + decimal_digits((-n) as nat)
    } else {
        decimal_digits(n as nat)
    }
}

/// Calls `ToString::to_string` on an `i32`. Trusted: the text is the decimal
/// form of the number, as `Display` for integers writes it.
#[verifier::external_body]
pub(crate) fn i32_text(n: i32) -> (res: String)
    ensures
        res@ == decimal_text(n as int),
{
    n.to_string()
}

/// `c` with an ASCII upper-case letter mapped to its lower-case letter.
pub open spec fn ascii_lower(c: char) -> char {
    if 'A' <= c <= 'Z' {
        ((c as int) + 32) as char
    } else {
        c
    }
}

/// `a` and `b` are equal when ASCII letters are compared without case.
pub open spec fn eq_ignore_ascii_case(a: Seq<char>, b: Seq<char>) -> bool {
    &&& a.len() == b.len()
    &&& forall|i: int| 0 <= i < a.len() ==> #[trigger] ascii_lower(a[i]) == ascii_lower(b[i])
}

/// Comparing without ASCII case is an equivalence: every text matches
/// itself, matching is symmetric, and two texts that match a third match each
/// other.
pub proof fn lemma_eq_ignore_ascii_case_equivalence(a: Seq<char>, b: Seq<char>, c: Seq<char>)
    ensures
        eq_ignore_ascii_case(a, a),
        eq_ignore_ascii_case(a, b) ==> eq_ignore_ascii_case(b, a),
        eq_ignore_ascii_case(a, b) && eq_ignore_ascii_case(b, c) ==> eq_ignore_ascii_case(a, c),
{
    if eq_ignore_ascii_case(a, b) && eq_ignore_ascii_case(b, c) {
        assert forall|i: int| 0 <= i < a.len() implies #[trigger] ascii_lower(a[i]) == ascii_lower(
            c[i],
        ) by {
            assert(ascii_lower(a[i]) == ascii_lower(b[i]));
            assert(ascii_lower(b[i]) == ascii_lower(c[i]));
        }
    }
}

/// Two texts match without ASCII case exactly when they have the same length
/// and, position by position, the characters are equal or are the upper- and
/// lower-case forms of one ASCII letter (`'A'..='Z'` and the letter 32 code
/// points further).
pub proof fn lemma_eq_ignore_ascii_case_characterized(a: Seq<char>, b: Seq<char>)
    ensures
        eq_ignore_ascii_case(a, b) <==> (a.len() == b.len() && forall|i: int|
            0 <= i < a.len() ==> #[trigger] a[i] == b[i] || ('A' <= a[i] <= 'Z' && b[i] as int
                == a[i] as int + 32) || ('A' <= b[i] <= 'Z' && a[i] as int == b[i] as int + 32)),
{
    if a.len() == b.len() {
        if eq_ignore_ascii_case(a, b) {
            assert forall|i: int| 0 <= i < a.len() implies #[trigger] a[i] == b[i] || ('A' <= a[i]
                <= 'Z' && b[i] as int == a[i] as int + 32) || ('A' <= b[i] <= 'Z' && a[i] as int
                == b[i] as int + 32) by {
                assert(ascii_lower(a[i]) == ascii_lower(b[i]));
            }
        }
        if forall|i: int|
            0 <= i < a.len() ==> #[trigger] a[i] == b[i] || ('A' <= a[i] <= 'Z' && b[i] as int
                == a[i] as int + 32) || ('A' <= b[i] <= 'Z' && a[i] as int == b[i] as int + 32) {
            assert forall|i: int| 0 <= i < a.len() implies #[trigger] ascii_lower(a[i])
                == ascii_lower(b[i]) by {
                assert(a[i] == b[i] || ('A' <= a[i] <= 'Z' && b[i] as int == a[i] as int + 32) || (
                'A' <= b[i] <= 'Z' && a[i] as int == b[i] as int + 32));
            }
        }
    }
}

/// Whether two characters are equal when ASCII letters are compared without case.
fn char_eq_ignore_ascii_case(a: char, b: char) -> (res: bool)
    ensures
        res == (ascii_lower(a) == ascii_lower(b)),
{
    let ua = a as u32;
    let ub = b as u32;
    let a_upper = 65 <= ua && ua <= 90;
    let b_upper = 65 <= ub && ub <= 90;
    let la = if a_upper { ua + 32 } else { ua };
    let lb = if b_upper { ub + 32 } else { ub };
    la == lb
}

/// Whether two texts are equal when ASCII letters are compared without case
/// (as `str::eq_ignore_ascii_case`).
pub fn str_eq_ignore_ascii_case(a: &str, b: &str) -> (res: bool)
    ensures
        res == eq_ignore_ascii_case(a@, b@),
{
    let n = a.unicode_len();
    if n != b.unicode_len() {
        return false;
    }
    let mut i: usize = 0;
    while i < n
        invariant
            n == a@.len() == b@.len(),
            i <= n,
            forall|j: int| 0 <= j < i ==> #[trigger] ascii_lower(a@[j]) == ascii_lower(b@[j]),
        decreases n - i,
    {
        let ca = a.get_char(i);
        let cb = b.get_char(i);
        if !char_eq_ignore_ascii_case(ca, cb) {
            return false;
        }
        i = i + 1;
    }
    true
}

} // verus!

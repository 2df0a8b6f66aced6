//! Numbers as decimal text.

use vstd::prelude::*;
use vstd::string::*;

verus! {

/// The text of one decimal digit.
pub open spec fn digit_text(d: nat) -> Seq<char> {
    if d == 0 {
        "0"@
    } else if d == 1 {
        "1"@
    } else if d == 2 {
        "2"@
    } else if d == 3 {
        "3"@
    } else if d == 4 {
        "4"@
    } else if d == 5 {
        "5"@
    } else if d == 6 {
        "6"@
    } else if d == 7 {
        "7"@
    } else if d == 8 {
        "8"@
    } else {
        "9"@
    }
}

/// A number in decimal digits, without leading zeros.
pub open spec fn decimal_spec(n: nat) -> Seq<char>
    decreases n,
{
    if n < 10 {
        digit_text(n)
    } else {
        decimal_spec(n / 10) + digit_text(n % 10)
    }
}

fn digit(d: u128) -> (r: &'static str)
    requires
        d < 10,
    ensures
        r@ == digit_text(d as nat),
{
    if d == 0 {
        "0"
    } else if d == 1 {
        "1"
    } else if d == 2 {
        "2"
    } else if d == 3 {
        "3"
    } else if d == 4 {
        "4"
    } else if d == 5 {
        "5"
    } else if d == 6 {
        "6"
    } else if d == 7 {
        "7"
    } else if d == 8 {
        "8"
    } else {
        "9"
    }
}

/// Writes a number in decimal digits.
pub fn decimal(n: u128) -> (r: String)
    ensures
        r@ == decimal_spec(n as nat),
    decreases n,
{
    if n < 10 {
        String::from_str(digit(n))
    } else {
        let mut s = decimal(n / 10);
        s.append(digit(n % 10));
        s
    }
}

/// `a` and `b` agree on their first `k` characters, and there `a` ends or
/// has the smaller character.
pub open spec fn le_at(a: Seq<char>, b: Seq<char>, k: int) -> bool {
    &&& 0 <= k <= a.len()
    &&& k <= b.len()
    &&& forall|j: int| 0 <= j < k ==> a[j] == b[j]
    &&& (k == a.len() || (k < b.len() && (a[k] as u32) < (b[k] as u32)))
}

/// `a` comes before `b` in the order of strings, or equals it: `a` is the
/// beginning of `b`, or has the smaller character where they first differ.
pub open spec fn text_le(a: Seq<char>, b: Seq<char>) -> bool {
    exists|k: int| le_at(a, b, k)
}

/// Whether `a` comes before `b` in the order of strings, or equals it. Of two
/// strings one always comes before the other.
pub fn le(a: &String, b: &String) -> (r: bool)
    ensures
        r == text_le(a@, b@),
        !r ==> text_le(b@, a@),
{
    let sa = a.as_str();
    let sb = b.as_str();
    let la = sa.unicode_len();
    let lb = sb.unicode_len();
    let mut i: usize = 0;
    while i < la && i < lb
        invariant
            i <= la,
            i <= lb,
            la == a@.len(),
            lb == b@.len(),
            sa@ == a@,
            sb@ == b@,
            forall|j: int| 0 <= j < i ==> a@[j] == b@[j],
        decreases la - i,
    {
        let ca = sa.get_char(i);
        let cb = sb.get_char(i);
        if ca != cb {
            let r = (ca as u32) < (cb as u32);
            proof {
                if r {
                    assert(le_at(a@, b@, i as int));
                } else {
                    assert(le_at(b@, a@, i as int));
                    assert forall|k: int| !le_at(a@, b@, k) by {
                        if k > i {
                            assert(a@[i as int] != b@[i as int]);
                        }
                    }
                }
            }
            return r;
        }
        i += 1;
    }
    let r = i == la;
    proof {
        if r {
            assert(le_at(a@, b@, i as int));
        } else {
            assert(le_at(b@, a@, i as int));
            assert forall|k: int| !le_at(a@, b@, k) by {}
        }
    }
    r
}

} // verus!

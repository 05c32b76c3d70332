//! Character-level helpers: converting between strings and character
//! vectors, rendering sequence indices in decimal, and parsing a segment
//! as a non-negative index the way std's integer parser reads it.

use vstd::prelude::*;
use vstd::string::StrSliceExecFns;
use vstd::string::StringExecFns;

verus! {

/// Relies on std's `String::push`: it appends exactly the given character.
pub assume_specification[ String::push ](s: &mut String, c: char)
    ensures
        final(s)@ == old(s)@.push(c),
;

/// The characters of a string slice, in order.
pub fn chars_of(s: &str) -> (r: Vec<char>)
    ensures
        r@ == s@,
{
    let n = s.unicode_len();
    let mut r: Vec<char> = Vec::new();
    let mut i: usize = 0;
    while i < n
        invariant
            0 <= i <= n,
            n == s@.len(),
            r@ == s@.subrange(0, i as int),
        decreases n - i,
    {
        let c = s.get_char(i);
        r.push(c);
        proof {
            assert(r@ =~= s@.subrange(0, i + 1));
        }
        i = i + 1;
    }
    proof {
        assert(s@.subrange(0, n as int) =~= s@);
    }
    r
}

/// The string holding exactly the given characters.
pub fn string_of(chars: &Vec<char>) -> (r: String)
    ensures
        r@ == chars@,
{
    let n = chars.len();
    let mut r = String::new();
    let mut i: usize = 0;
    while i < n
        invariant
            0 <= i <= n,
            n == chars@.len(),
            r@ == chars@.subrange(0, i as int),
        decreases n - i,
    {
        r.push(chars[i]);
        proof {
            assert(r@ =~= chars@.subrange(0, i + 1));
        }
        i = i + 1;
    }
    proof {
        assert(chars@.subrange(0, n as int) =~= chars@);
    }
    r
}

/// The two pieces joined into one string.
pub fn concat_str(a: &str, b: &str) -> (r: String)
    ensures
        r@ == a@ + b@,
{
    let mut r = a.to_owned();
    r.append(b);
    r
}

/// Decimal digit for one value below ten.
pub open spec fn digit_char(d: nat) -> char {
    if d == 0 {
        '0'
    } else if d == 1 {
        '1'
    } else if d == 2 {
        '2'
    } else if d == 3 {
        '3'
    } else if d == 4 {
        '4'
    } else if d == 5 {
        '5'
    } else if d == 6 {
        '6'
    } else if d == 7 {
        '7'
    } else if d == 8 {
        '8'
    } else {
        '9'
    }
}

/// Decimal text of a number, most significant digit first, no sign and no
/// leading zero (except for zero itself).
pub open spec fn decimal(n: nat) -> Seq<char>
    decreases n,
{
    if n < 10 {
        seq![digit_char(n)]
    } else {
        decimal(n / 10).push(digit_char(n % 10))
    }
}

fn digit_char_exec(d: usize) -> (c: char)
    requires
        d < 10,
    ensures
        c == digit_char(d as nat),
{
    if d == 0 {
        '0'
    } else if d == 1 {
        '1'
    } else if d == 2 {
        '2'
    } else if d == 3 {
        '3'
    } else if d == 4 {
        '4'
    } else if d == 5 {
        '5'
    } else if d == 6 {
        '6'
    } else if d == 7 {
        '7'
    } else if d == 8 {
        '8'
    } else {
        '9'
    }
}

/// The decimal text of an index.
pub fn usize_to_string(n: usize) -> (r: String)
    ensures
        r@ == decimal(n as nat),
    decreases n,
{
    if n < 10 {
        let mut r = String::new();
        r.push(digit_char_exec(n));
        proof {
            assert(r@ =~= decimal(n as nat));
        }
        r
    } else {
        let mut r = usize_to_string(n / 10);
        r.push(digit_char_exec(n % 10));
        proof {
            assert(r@ =~= decimal(n as nat));
        }
        r
    }
}

/// An ASCII decimal digit.
pub open spec fn is_digit(c: char) -> bool {
    48 <= c as u32 <= 57
}

/// Numeric value of a decimal digit.
pub open spec fn digit_val(c: char) -> nat {
    ((c as u32) - 48) as nat
}

pub open spec fn all_digits(s: Seq<char>) -> bool {
    forall|i: int| 0 <= i < s.len() ==> is_digit(#[trigger] s[i])
}

/// Value of a digit string, most significant digit first.
pub open spec fn digits_val(s: Seq<char>) -> nat
    decreases s.len(),
{
    if s.len() == 0 {
        0
    } else {
        digits_val(s.drop_last()) * 10 + digit_val(s.last())
    }
}

/// What std's parser reads the number from: everything after an optional
/// leading plus sign.
pub open spec fn index_body(s: Seq<char>) -> Seq<char> {
    if s.len() > 0 && s[0] == '+' {
        s.drop_first()
    } else {
        s
    }
}

/// A segment std's `usize` parser accepts: an optional `+`, then one or
/// more decimal digits, with a value that fits the machine word.
pub open spec fn is_index(s: Seq<char>) -> bool {
    &&& index_body(s).len() > 0
    &&& all_digits(index_body(s))
    &&& digits_val(index_body(s)) <= usize::MAX
}

/// The index a segment denotes.
pub open spec fn index_val(s: Seq<char>) -> nat {
    digits_val(index_body(s))
}

/// A digit-string prefix never exceeds the whole string's value.
proof fn lemma_digits_val_prefix_le(s: Seq<char>, k: int)
    requires
        0 <= k <= s.len(),
    ensures
        digits_val(s.subrange(0, k)) <= digits_val(s),
    decreases s.len(),
{
    if k < s.len() {
        assert(s.subrange(0, k) =~= s.drop_last().subrange(0, k));
        lemma_digits_val_prefix_le(s.drop_last(), k);
    } else {
        assert(s.subrange(0, k) =~= s);
    }
}

/// The segment's index, when the segment is one std's parser accepts.
#[verifier::loop_isolation(false)]
pub fn parse_index(s: &Vec<char>) -> (r: Option<usize>)
    ensures
        is_index(s@) ==> r == Some(index_val(s@) as usize),
        !is_index(s@) ==> r is None,
{
    let n = s.len();
    let start: usize = if n > 0 && s[0] == '+' {
        1
    } else {
        0
    };
    let ghost body = index_body(s@);
    proof {
        assert(body =~= s@.subrange(start as int, n as int));
    }
    if start == n {
        return None;
    }
    let mut acc: u128 = 0;
    let mut i: usize = start;
    while i < n
        invariant
            start <= i <= n,
            n == s@.len(),
            body == s@.subrange(start as int, n as int),
            acc == digits_val(s@.subrange(start as int, i as int)),
            acc <= usize::MAX,
            all_digits(s@.subrange(start as int, i as int)),
        decreases n - i,
    {
        let u = s[i] as u32;
        if u < 48 || u > 57 {
            proof {
                assert(body[i - start] == s@[i as int]);
                assert(!is_digit(body[i - start]));
            }
            return None;
        }
        let d: u128 = (u - 48) as u128;
        acc = acc * 10 + d;
        proof {
            let pre = s@.subrange(start as int, i as int);
            let cur = s@.subrange(start as int, i + 1);
            assert(cur.drop_last() =~= pre);
            assert(cur.last() == s@[i as int]);
            assert(forall|k: int| 0 <= k < cur.len() ==> is_digit(#[trigger] cur[k]));
        }
        if acc > usize::MAX as u128 {
            proof {
                let cur = s@.subrange(start as int, i + 1);
                assert(cur =~= body.subrange(0, i + 1 - start));
                lemma_digits_val_prefix_le(body, i + 1 - start);
            }
            return None;
        }
        i = i + 1;
    }
    proof {
        assert(s@.subrange(start as int, n as int) =~= body);
    }
    Some(acc as usize)
}


/// Decimal text is digits only, and never empty.
pub proof fn lemma_decimal_digits(n: nat)
    ensures
        decimal(n).len() > 0,
        all_digits(decimal(n)),
    decreases n,
{
    if n < 10 {
        assert(48 <= digit_char(n) as u32 <= 57);
        assert(forall|k: int|
            0 <= k < decimal(n).len() ==> is_digit(#[trigger] decimal(n)[k]));
    } else {
        lemma_decimal_digits(n / 10);
        let pre = decimal(n / 10);
        assert(48 <= digit_char(n % 10) as u32 <= 57);
        assert(forall|k: int|
            0 <= k < decimal(n).len() ==> is_digit(#[trigger] decimal(n)[k])) by {
            assert(forall|k: int| 0 <= k < pre.len() ==> decimal(n)[k] == #[trigger] pre[k]);
            assert(decimal(n)[pre.len() as int] == digit_char(n % 10));
        }
    }
}

/// Decimal text reads back as the number it renders.
pub proof fn lemma_decimal_value(n: nat)
    ensures
        digits_val(decimal(n)) == n,
    decreases n,
{
    if n < 10 {
        assert(decimal(n).drop_last() =~= Seq::<char>::empty());
        assert(digit_val(digit_char(n)) == n);
        assert(decimal(n).last() == digit_char(n));
        assert(digits_val(decimal(n)) == digits_val(decimal(n).drop_last()) * 10 + digit_val(
            decimal(n).last(),
        ));
        assert(digits_val(decimal(n)) == n);
    } else {
        lemma_decimal_value(n / 10);
        vstd::arithmetic::div_mod::lemma_fundamental_div_mod(n as int, 10);
        let whole = decimal(n);
        assert(whole.drop_last() =~= decimal(n / 10));
        assert(whole.last() == digit_char(n % 10));
        assert(digit_val(digit_char(n % 10)) == n % 10);
        assert(whole.len() > 0);
        assert(digits_val(whole) == digits_val(whole.drop_last()) * 10 + digit_val(whole.last()));
        assert(digits_val(whole.drop_last()) == n / 10);
        assert(digits_val(whole) == (n / 10) * 10 + n % 10);
        assert(digits_val(whole) == n);
    }
}

} // verus!

//! Deterministic identifier naming: the camel-case transform of a seed
//! string. Pure and idempotent on its own output.

use vstd::prelude::*;
use crate::text::{chars_of, string_of};

verus! {

/// A token boundary in a seed string.
pub open spec fn is_separator(c: char) -> bool {
    c == '_' || c == '-' || c == '/' || c == ' '
}

/// ASCII lower-casing of one character.
pub open spec fn lower(c: char) -> char {
    if 65 <= c as u32 <= 90 {
        (((c as u32) + 32) as u8) as char
    } else {
        c
    }
}

/// ASCII upper-casing of one character.
pub open spec fn upper(c: char) -> char {
    if 97 <= c as u32 <= 122 {
        (((c as u32) - 32) as u8) as char
    } else {
        c
    }
}

/// The camel-case transform, one character at a time. Separators are
/// dropped; the first character of the first token is lower-cased, the
/// first character of every later token upper-cased; everything else is
/// kept as written. `boundary` says a token may start here, `begun` says
/// some token already produced output.
pub open spec fn camel_rec(s: Seq<char>, boundary: bool, begun: bool) -> Seq<char>
    decreases s.len(),
{
    if s.len() == 0 {
        Seq::empty()
    } else {
        let c = s[0];
        let rest = s.drop_first();
        if is_separator(c) {
            camel_rec(rest, true, begun)
        } else if boundary && !begun {
            seq![lower(c)] + camel_rec(rest, false, true)
        } else if boundary {
            seq![upper(c)] + camel_rec(rest, false, true)
        } else {
            seq![c] + camel_rec(rest, false, begun)
        }
    }
}

/// The camel-case transform of a seed string.
pub open spec fn camel(s: Seq<char>) -> Seq<char> {
    camel_rec(s, true, false)
}

fn lower_char(c: char) -> (r: char)
    ensures
        r == lower(c),
{
    let u = c as u32;
    if 65 <= u && u <= 90 {
        ((u + 32) as u8) as char
    } else {
        c
    }
}

fn upper_char(c: char) -> (r: char)
    ensures
        r == upper(c),
{
    let u = c as u32;
    if 97 <= u && u <= 122 {
        ((u - 32) as u8) as char
    } else {
        c
    }
}

/// The camel-case identifier derived from a seed string.
#[verifier::loop_isolation(false)]
pub fn camel_case(input: &str) -> (r: String)
    ensures
        r@ == camel(input@),
{
    let chars = chars_of(input);
    let n = chars.len();
    let mut out: Vec<char> = Vec::new();
    let mut boundary = true;
    let mut begun = false;
    let mut i: usize = 0;
    proof {
        assert(input@.skip(0) =~= input@);
    }
    while i < n
        invariant
            0 <= i <= n,
            n == input@.len(),
            chars@ == input@,
            camel(input@) == out@ + camel_rec(input@.skip(i as int), boundary, begun),
        decreases n - i,
    {
        let ghost pre = out@;
        let ghost b0 = boundary;
        let ghost g0 = begun;
        let ghost rest = input@.skip(i as int);
        proof {
            assert(rest[0] == input@[i as int]);
            assert(rest.drop_first() =~= input@.skip(i + 1));
        }
        let c = chars[i];
        if c == '_' || c == '-' || c == '/' || c == ' ' {
            boundary = true;
        } else if boundary && !begun {
            out.push(lower_char(c));
            boundary = false;
            begun = true;
            proof {
                assert(out@ =~= pre + seq![lower(c)]);
            }
        } else if boundary {
            out.push(upper_char(c));
            boundary = false;
            proof {
                assert(out@ =~= pre + seq![upper(c)]);
            }
        } else {
            out.push(c);
            proof {
                assert(out@ =~= pre + seq![c]);
            }
        }
        proof {
            assert(pre + camel_rec(rest, b0, g0) =~= out@ + camel_rec(
                input@.skip(i + 1),
                boundary,
                begun,
            ));
        }
        i = i + 1;
    }
    proof {
        assert(input@.skip(n as int) =~= Seq::<char>::empty());
        assert(out@ =~= camel(input@));
    }
    string_of(&out)
}

proof fn lemma_camel_rec_no_sep(s: Seq<char>, boundary: bool, begun: bool)
    ensures
        forall|k: int|
            0 <= k < camel_rec(s, boundary, begun).len() ==> !is_separator(
                #[trigger] camel_rec(s, boundary, begun)[k],
            ),
    decreases s.len(),
{
    if s.len() > 0 {
        let c = s[0];
        let rest = s.drop_first();
        lemma_camel_rec_no_sep(rest, true, begun);
        lemma_camel_rec_no_sep(rest, false, true);
        lemma_camel_rec_no_sep(rest, false, begun);
        let whole = camel_rec(s, boundary, begun);
        assert forall|k: int| 0 <= k < whole.len() implies !is_separator(whole[k]) by {
            if is_separator(c) {
                assert(whole == camel_rec(rest, true, begun));
            } else if boundary && !begun {
                assert(whole == seq![lower(c)] + camel_rec(rest, false, true));
                if k == 0 {
                    assert(whole[0] == lower(c));
                    assert(!is_separator(lower(c)));
                } else {
                    assert(whole[k] == camel_rec(rest, false, true)[k - 1]);
                }
            } else if boundary {
                assert(whole == seq![upper(c)] + camel_rec(rest, false, true));
                if k == 0 {
                    assert(whole[0] == upper(c));
                    assert(!is_separator(upper(c)));
                } else {
                    assert(whole[k] == camel_rec(rest, false, true)[k - 1]);
                }
            } else {
                assert(whole == seq![c] + camel_rec(rest, false, begun));
                if k == 0 {
                    assert(whole[0] == c);
                } else {
                    assert(whole[k] == camel_rec(rest, false, begun)[k - 1]);
                }
            }
        }
    }
}

proof fn lemma_camel_rec_plain(t: Seq<char>)
    requires
        forall|k: int| 0 <= k < t.len() ==> !is_separator(#[trigger] t[k]),
    ensures
        camel_rec(t, false, true) == t,
    decreases t.len(),
{
    if t.len() > 0 {
        let rest = t.drop_first();
        assert(forall|k: int| 0 <= k < rest.len() ==> rest[k] == t[k + 1]);
        lemma_camel_rec_plain(rest);
        assert(camel_rec(t, false, true) =~= t);
    }
}

proof fn lemma_camel_first(s: Seq<char>, begun: bool)
    requires
        camel_rec(s, true, begun).len() > 0,
        !begun,
    ensures
        lower(camel_rec(s, true, begun)[0]) == camel_rec(s, true, begun)[0],
    decreases s.len(),
{
    if s.len() > 0 {
        let c = s[0];
        let rest = s.drop_first();
        if is_separator(c) {
            lemma_camel_first(rest, begun);
        } else {
            assert(camel_rec(s, true, begun)[0] == lower(c));
        }
    }
}

/// The camel-case transform is idempotent: transforming its own output
/// changes nothing.
pub proof fn lemma_camel_case_idempotent(s: Seq<char>)
    ensures
        camel(camel(s)) == camel(s),
{
    let t = camel(s);
    lemma_camel_rec_no_sep(s, true, false);
    if t.len() == 0 {
    } else {
        lemma_camel_first(s, false);
        assert(lower(t[0]) == t[0]);
        assert(!is_separator(t[0]));
        let rest = t.drop_first();
        assert(forall|k: int| 0 <= k < rest.len() ==> rest[k] == t[k + 1]);
        lemma_camel_rec_plain(rest);
        assert(camel(t) == seq![lower(t[0])] + camel_rec(rest, false, true));
        assert(camel(t) =~= t);
    }
}

} // verus!

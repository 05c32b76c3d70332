//! Segment escaping: in a pointer segment, `~0` stands for `~` and `~1`
//! stands for `/`. Unescaping applies the two textual replacements one
//! after the other, `~0` first and `~1` second, each pass rewriting
//! non-overlapping occurrences from the left — exactly the order the
//! resolver has always used, double-unescapes and all.

use vstd::prelude::*;

verus! {

/// A segment with `~` and `/` escaped: `~` becomes `~0`, `/` becomes `~1`.
pub open spec fn escaped(s: Seq<char>) -> Seq<char>
    decreases s.len(),
{
    if s.len() == 0 {
        Seq::empty()
    } else {
        let head: Seq<char> = if s[0] == '~' {
            seq!['~', '0']
        } else if s[0] == '/' {
            seq!['~', '1']
        } else {
            seq![s[0]]
        };
        head + escaped(s.drop_first())
    }
}

/// One unescaping pass: each `~` followed by `second` becomes `rep`,
/// scanning from the left over non-overlapping occurrences.
pub open spec fn strip_pass(s: Seq<char>, second: char, rep: char) -> Seq<char>
    decreases s.len(),
{
    if s.len() >= 2 && s[0] == '~' && s[1] == second {
        seq![rep] + strip_pass(s.skip(2), second, rep)
    } else if s.len() >= 1 {
        seq![s[0]] + strip_pass(s.drop_first(), second, rep)
    } else {
        Seq::empty()
    }
}

/// A segment unescaped the way the resolver does it: `~0` to `~` first,
/// then `~1` to `/`.
pub open spec fn unescaped(s: Seq<char>) -> Seq<char> {
    strip_pass(strip_pass(s, '0', '~'), '1', '/')
}

/// Whether `~1` occurs in the text. Such a segment cannot survive the
/// escape/unescape round trip: the first unescaping pass can manufacture
/// a fresh `~1` out of its escaped form, which the second pass then eats.
pub open spec fn has_tilde_one(s: Seq<char>) -> bool
    decreases s.len(),
{
    if s.len() < 2 {
        false
    } else {
        (s[0] == '~' && s[1] == '1') || has_tilde_one(s.drop_first())
    }
}

/// The escaped text, computed one character at a time.
#[verifier::loop_isolation(false)]
pub fn escape_chars(v: &Vec<char>) -> (r: Vec<char>)
    ensures
        r@ == escaped(v@),
{
    let n = v.len();
    let mut out: Vec<char> = Vec::new();
    let mut i: usize = 0;
    proof {
        assert(v@.skip(0) =~= v@);
        assert(out@ + escaped(v@) =~= escaped(v@));
    }
    while i < n
        invariant
            0 <= i <= n,
            escaped(v@) == out@ + escaped(v@.skip(i as int)),
        decreases n - i,
    {
        let ghost pre = out@;
        let ghost rest = v@.skip(i as int);
        let c = v[i];
        if c == '~' {
            out.push('~');
            out.push('0');
        } else if c == '/' {
            out.push('~');
            out.push('1');
        } else {
            out.push(c);
        }
        proof {
            assert(rest[0] == c);
            assert(rest.drop_first() =~= v@.skip(i + 1));
            if c == '~' {
                assert(out@ =~= pre + seq!['~', '0']);
                assert(escaped(rest) =~= seq!['~', '0'] + escaped(rest.drop_first()));
            } else if c == '/' {
                assert(out@ =~= pre + seq!['~', '1']);
                assert(escaped(rest) =~= seq!['~', '1'] + escaped(rest.drop_first()));
            } else {
                assert(out@ =~= pre + seq![c]);
                assert(escaped(rest) =~= seq![c] + escaped(rest.drop_first()));
            }
            assert(out@ + escaped(v@.skip(i + 1)) =~= pre + escaped(rest));
        }
        i = i + 1;
    }
    proof {
        assert(v@.skip(n as int) =~= Seq::<char>::empty());
        assert(escaped(v@) =~= out@);
    }
    out
}

/// One unescaping pass, computed over a character vector.
#[verifier::loop_isolation(false)]
pub fn strip_pass_chars(v: &Vec<char>, second: char, rep: char) -> (r: Vec<char>)
    ensures
        r@ == strip_pass(v@, second, rep),
{
    let n = v.len();
    let mut out: Vec<char> = Vec::new();
    let mut i: usize = 0;
    proof {
        assert(v@.skip(0) =~= v@);
        assert(out@ + strip_pass(v@, second, rep) =~= strip_pass(v@, second, rep));
    }
    while i < n
        invariant
            0 <= i <= n,
            strip_pass(v@, second, rep) == out@ + strip_pass(v@.skip(i as int), second, rep),
        decreases n - i,
    {
        let ghost pre = out@;
        let ghost rest = v@.skip(i as int);
        if i + 1 < n && v[i] == '~' && v[i + 1] == second {
            out.push(rep);
            proof {
                assert(rest[0] == '~' && rest[1] == second);
                assert(rest.skip(2) =~= v@.skip(i + 2));
                assert(out@ =~= pre + seq![rep]);
                assert(strip_pass(rest, second, rep) =~= seq![rep] + strip_pass(
                    rest.skip(2),
                    second,
                    rep,
                ));
                assert(out@ + strip_pass(v@.skip(i + 2), second, rep) =~= pre + strip_pass(
                    rest,
                    second,
                    rep,
                ));
            }
            i = i + 2;
        } else {
            let c = v[i];
            out.push(c);
            proof {
                assert(rest[0] == c);
                assert(!(rest.len() >= 2 && rest[0] == '~' && rest[1] == second));
                assert(rest.drop_first() =~= v@.skip(i + 1));
                assert(out@ =~= pre + seq![c]);
                assert(strip_pass(rest, second, rep) =~= seq![c] + strip_pass(
                    rest.drop_first(),
                    second,
                    rep,
                ));
                assert(out@ + strip_pass(v@.skip(i + 1), second, rep) =~= pre + strip_pass(
                    rest,
                    second,
                    rep,
                ));
            }
            i = i + 1;
        }
    }
    proof {
        assert(v@.skip(n as int) =~= Seq::<char>::empty());
        assert(strip_pass(v@, second, rep) =~= out@);
    }
    out
}

/// The unescaped text: both passes, in the fixed order.
pub fn unescape_chars(v: &Vec<char>) -> (r: Vec<char>)
    ensures
        r@ == unescaped(v@),
{
    let first = strip_pass_chars(v, '0', '~');
    strip_pass_chars(&first, '1', '/')
}


/// What the first unescaping pass leaves of an escaped segment: only the
/// `/` escapes remain.
spec fn slash_escaped(s: Seq<char>) -> Seq<char>
    decreases s.len(),
{
    if s.len() == 0 {
        Seq::empty()
    } else {
        let head: Seq<char> = if s[0] == '/' {
            seq!['~', '1']
        } else {
            seq![s[0]]
        };
        head + slash_escaped(s.drop_first())
    }
}

proof fn lemma_strip_zero_escaped(s: Seq<char>)
    ensures
        strip_pass(escaped(s), '0', '~') == slash_escaped(s),
    decreases s.len(),
{
    if s.len() == 0 {
        assert(escaped(s) =~= Seq::<char>::empty());
        assert(strip_pass(escaped(s), '0', '~') =~= slash_escaped(s));
    } else {
        let rest = s.drop_first();
        lemma_strip_zero_escaped(rest);
        let e = escaped(s);
        let er = escaped(rest);
        if s[0] == '~' {
            assert(e == seq!['~', '0'] + er);
            assert(e.len() >= 2 && e[0] == '~' && e[1] == '0');
            assert(e.skip(2) =~= er);
            assert(strip_pass(e, '0', '~') == seq!['~'] + strip_pass(er, '0', '~'));
            assert(slash_escaped(s) == seq!['~'] + slash_escaped(rest));
            assert(strip_pass(e, '0', '~') =~= slash_escaped(s));
        } else if s[0] == '/' {
            assert(e == seq!['~', '1'] + er);
            assert(e.len() >= 2 && e[0] == '~' && e[1] == '1');
            let t1 = e.drop_first();
            assert(t1 =~= seq!['1'] + er);
            assert(t1[0] == '1');
            assert(t1.drop_first() =~= er);
            assert(strip_pass(t1, '0', '~') == seq!['1'] + strip_pass(er, '0', '~'));
            assert(strip_pass(e, '0', '~') == seq!['~'] + strip_pass(t1, '0', '~'));
            assert(slash_escaped(s) == seq!['~', '1'] + slash_escaped(rest));
            assert(strip_pass(e, '0', '~') =~= slash_escaped(s));
        } else {
            assert(e == seq![s[0]] + er);
            assert(e[0] == s[0] && s[0] != '~');
            assert(e.drop_first() =~= er);
            assert(strip_pass(e, '0', '~') == seq![s[0]] + strip_pass(er, '0', '~'));
            assert(slash_escaped(s) == seq![s[0]] + slash_escaped(rest));
            assert(strip_pass(e, '0', '~') =~= slash_escaped(s));
        }
    }
}

proof fn lemma_strip_one_slash_escaped(s: Seq<char>)
    requires
        !has_tilde_one(s),
    ensures
        strip_pass(slash_escaped(s), '1', '/') == s,
    decreases s.len(),
{
    if s.len() == 0 {
        assert(slash_escaped(s) =~= Seq::<char>::empty());
        assert(strip_pass(slash_escaped(s), '1', '/') =~= s);
    } else {
        let rest = s.drop_first();
        assert(!has_tilde_one(rest));
        lemma_strip_one_slash_escaped(rest);
        let g = slash_escaped(s);
        let gr = slash_escaped(rest);
        if s[0] == '/' {
            assert(g == seq!['~', '1'] + gr);
            assert(g.len() >= 2 && g[0] == '~' && g[1] == '1');
            assert(g.skip(2) =~= gr);
            assert(strip_pass(g, '1', '/') == seq!['/'] + strip_pass(gr, '1', '/'));
            assert(strip_pass(g, '1', '/') =~= s);
        } else {
            assert(g == seq![s[0]] + gr);
            assert(g[0] == s[0]);
            if s[0] == '~' && g.len() >= 2 {
                assert(g[1] == gr[0]);
                if rest.len() > 0 {
                    assert(gr == (if rest[0] == '/' {
                        seq!['~', '1']
                    } else {
                        seq![rest[0]]
                    }) + slash_escaped(rest.drop_first()));
                    if rest[0] == '/' {
                        assert(gr[0] == '~');
                    } else {
                        assert(gr[0] == rest[0]);
                        assert(rest[0] != '1');
                    }
                }
                assert(g[1] != '1');
            }
            assert(!(g.len() >= 2 && g[0] == '~' && g[1] == '1'));
            assert(g.drop_first() =~= gr);
            assert(strip_pass(g, '1', '/') == seq![s[0]] + strip_pass(gr, '1', '/'));
            assert(strip_pass(g, '1', '/') =~= s);
        }
    }
}

/// Unescaping inverts escaping on every segment free of a literal `~1`.
/// (On a segment holding `~1` the two passes double-unescape: see the
/// module comment.)
pub proof fn lemma_unescape_escape(s: Seq<char>)
    requires
        !has_tilde_one(s),
    ensures
        unescaped(escaped(s)) == s,
{
    lemma_strip_zero_escaped(s);
    lemma_strip_one_slash_escaped(s);
}

/// The canonical escaped form: no raw `/`, every `~` starts an escape
/// pair, and no `~0` pair is followed by a literal `1` (the second
/// unescaping pass would eat the `~1` that the first pass uncovers).
pub open spec fn canonical_escape(s: Seq<char>) -> bool
    decreases s.len(),
{
    if s.len() == 0 {
        true
    } else if s[0] == '~' {
        &&& s.len() >= 2
        &&& (s[1] == '0' || s[1] == '1')
        &&& (s[1] == '0' ==> !(s.len() >= 3 && s[2] == '1'))
        &&& canonical_escape(s.skip(2))
    } else {
        s[0] != '/' && canonical_escape(s.drop_first())
    }
}

proof fn lemma_strip_zero_first(t: Seq<char>)
    requires
        t.len() > 0,
    ensures
        strip_pass(t, '0', '~').len() > 0,
        strip_pass(t, '0', '~')[0] == (if t[0] == '~' {
            '~'
        } else {
            t[0]
        }),
{
    if t.len() >= 2 && t[0] == '~' && t[1] == '0' {
        assert(strip_pass(t, '0', '~') == seq!['~'] + strip_pass(t.skip(2), '0', '~'));
    } else {
        assert(strip_pass(t, '0', '~') == seq![t[0]] + strip_pass(t.drop_first(), '0', '~'));
    }
}

/// Escaping inverts unescaping exactly on canonically escaped segments.
pub proof fn lemma_escape_unescape(s: Seq<char>)
    requires
        canonical_escape(s),
    ensures
        escaped(unescaped(s)) == s,
    decreases s.len(),
{
    if s.len() == 0 {
        assert(strip_pass(s, '0', '~') =~= Seq::<char>::empty());
        assert(unescaped(s) =~= Seq::<char>::empty());
        assert(escaped(unescaped(s)) =~= s);
    } else if s[0] == '~' && s[1] == '0' {
        let t = s.skip(2);
        lemma_escape_unescape(t);
        assert(strip_pass(s, '0', '~') == seq!['~'] + strip_pass(t, '0', '~'));
        let u = strip_pass(t, '0', '~');
        let w = seq!['~'] + u;
        if t.len() > 0 {
            lemma_strip_zero_first(t);
            assert(s[2int] == t[0]);
            assert(t[0] != '1');
            assert(u[0] != '1');
        }
        assert(!(w.len() >= 2 && w[0] == '~' && w[1] == '1'));
        assert(w.drop_first() =~= u);
        assert(strip_pass(w, '1', '/') == seq!['~'] + strip_pass(u, '1', '/'));
        assert(unescaped(s) == seq!['~'] + unescaped(t));
        let x = unescaped(t);
        let y = seq!['~'] + x;
        assert(y[0] == '~');
        assert(y.drop_first() =~= x);
        assert(escaped(y) == seq!['~', '0'] + escaped(x));
        assert(escaped(unescaped(s)) =~= s);
    } else if s[0] == '~' && s[1] == '1' {
        let t = s.skip(2);
        lemma_escape_unescape(t);
        let d1 = s.drop_first();
        assert(d1[0] == '1');
        assert(d1.drop_first() =~= t);
        assert(!(d1.len() >= 2 && d1[0] == '~'));
        assert(strip_pass(d1, '0', '~') == seq!['1'] + strip_pass(t, '0', '~'));
        assert(strip_pass(s, '0', '~') == seq!['~'] + (seq!['1'] + strip_pass(t, '0', '~')));
        let u = strip_pass(t, '0', '~');
        let w = seq!['~'] + (seq!['1'] + u);
        assert(w.len() >= 2 && w[0] == '~' && w[1] == '1');
        assert(w.skip(2) =~= u);
        assert(strip_pass(w, '1', '/') == seq!['/'] + strip_pass(u, '1', '/'));
        assert(unescaped(s) == seq!['/'] + unescaped(t));
        let x = unescaped(t);
        let y = seq!['/'] + x;
        assert(y[0] == '/');
        assert(y.drop_first() =~= x);
        assert(escaped(y) == seq!['~', '1'] + escaped(x));
        assert(escaped(unescaped(s)) =~= s);
    } else {
        let t = s.drop_first();
        let c = s[0];
        assert(c != '~' && c != '/');
        lemma_escape_unescape(t);
        assert(strip_pass(s, '0', '~') == seq![c] + strip_pass(t, '0', '~'));
        let u = strip_pass(t, '0', '~');
        let w = seq![c] + u;
        assert(!(w.len() >= 2 && w[0] == '~' && w[1] == '1'));
        assert(w.drop_first() =~= u);
        assert(strip_pass(w, '1', '/') == seq![c] + strip_pass(u, '1', '/'));
        assert(unescaped(s) == seq![c] + unescaped(t));
        let x = unescaped(t);
        let y = seq![c] + x;
        assert(y[0] == c);
        assert(y.drop_first() =~= x);
        assert(escaped(y) == seq![c] + escaped(x));
        assert(escaped(unescaped(s)) =~= s);
    }
}


/// Escaping never emits a raw `/`.
pub proof fn lemma_escaped_no_slash(s: Seq<char>)
    ensures
        forall|k: int| 0 <= k < escaped(s).len() ==> (#[trigger] escaped(s)[k]) != '/',
    decreases s.len(),
{
    if s.len() > 0 {
        let rest = s.drop_first();
        lemma_escaped_no_slash(rest);
        let whole = escaped(s);
        assert forall|k: int| 0 <= k < whole.len() implies whole[k] != '/' by {
            if s[0] == '~' {
                assert(whole == seq!['~', '0'] + escaped(rest));
                if k >= 2 {
                    assert(whole[k] == escaped(rest)[k - 2]);
                }
            } else if s[0] == '/' {
                assert(whole == seq!['~', '1'] + escaped(rest));
                if k >= 2 {
                    assert(whole[k] == escaped(rest)[k - 2]);
                }
            } else {
                assert(whole == seq![s[0]] + escaped(rest));
                if k >= 1 {
                    assert(whole[k] == escaped(rest)[k - 1]);
                }
            }
        }
    }
}

/// An unescaping pass changes nothing in text that holds no `~`.
pub proof fn lemma_strip_pass_identity(s: Seq<char>, second: char, rep: char)
    requires
        forall|k: int| 0 <= k < s.len() ==> (#[trigger] s[k]) != '~',
    ensures
        strip_pass(s, second, rep) == s,
    decreases s.len(),
{
    if s.len() > 0 {
        let rest = s.drop_first();
        assert(forall|k: int| 0 <= k < rest.len() ==> rest[k] == s[k + 1]);
        lemma_strip_pass_identity(rest, second, rep);
        assert(s[0] != '~');
        assert(strip_pass(s, second, rep) =~= s);
    }
}

/// Unescaping changes nothing in text that holds no `~`.
pub proof fn lemma_unescaped_identity(s: Seq<char>)
    requires
        forall|k: int| 0 <= k < s.len() ==> (#[trigger] s[k]) != '~',
    ensures
        unescaped(s) == s,
{
    lemma_strip_pass_identity(s, '0', '~');
    lemma_strip_pass_identity(s, '1', '/');
}


proof fn lemma_escaped_first(t: Seq<char>)
    requires
        t.len() > 0,
    ensures
        escaped(t).len() > 0,
        escaped(t)[0] == (if t[0] == '~' || t[0] == '/' {
            '~'
        } else {
            t[0]
        }),
{
    if t[0] == '~' {
        assert(escaped(t) == seq!['~', '0'] + escaped(t.drop_first()));
    } else if t[0] == '/' {
        assert(escaped(t) == seq!['~', '1'] + escaped(t.drop_first()));
    } else {
        assert(escaped(t) == seq![t[0]] + escaped(t.drop_first()));
    }
}

/// Escaping a segment free of a literal `~1` always lands in the
/// canonical escaped form — the two round-trip laws line up.
pub proof fn lemma_escaped_canonical(s: Seq<char>)
    requires
        !has_tilde_one(s),
    ensures
        canonical_escape(escaped(s)),
    decreases s.len(),
{
    if s.len() == 0 {
    } else {
        let rest = s.drop_first();
        assert(!has_tilde_one(rest));
        lemma_escaped_canonical(rest);
        let e = escaped(s);
        let er = escaped(rest);
        if s[0] == '~' {
            assert(e == seq!['~', '0'] + er);
            assert(e.skip(2) =~= er);
            if rest.len() > 0 {
                lemma_escaped_first(rest);
                assert(rest[0] != '1');
                assert(e[2int] == er[0]);
                assert(e[2int] != '1');
            }
            assert(canonical_escape(e));
        } else if s[0] == '/' {
            assert(e == seq!['~', '1'] + er);
            assert(e.skip(2) =~= er);
            assert(canonical_escape(e));
        } else {
            assert(e == seq![s[0]] + er);
            assert(e.drop_first() =~= er);
            assert(e[0] == s[0] && s[0] != '~' && s[0] != '/');
            assert(canonical_escape(e));
        }
    }
}

} // verus!

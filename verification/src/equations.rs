use vstd::prelude::*;
use crate::report::{
    is_white_space, strip_leading, strip_trailing, trimmed, white_space, push_char,
    lemma_strip_leading_from, lemma_strip_trailing_to,
};
use crate::slots::AppliedId;
use crate::worklist::{aids_view, all_wf, contains_aid};

verus! {

/// The two sides of `l = r`, split at the first `=` and trimmed; nothing where there
/// is no `=`.
pub open spec fn equation_sides(s: Seq<char>) -> Option<(Seq<char>, Seq<char>)> {
    if exists|i: int| 0 <= i < s.len() && #[trigger] s[i] == '=' {
        let i = choose|i: int|
            0 <= i < s.len() && #[trigger] s[i] == '=' && forall|j: int| 0 <= j < i ==> s[j] != '=';
        Some((trimmed(s.subrange(0, i)), trimmed(s.subrange(i + 1, s.len() as int))))
    } else {
        None
    }
}

/// The characters `from..to` of `s` without surrounding white space.
pub fn trim_range(s: &str, from: usize, to: usize) -> (r: String)
    requires
        from <= to <= s@.len(),
    ensures
        r@ == trimmed(s@.subrange(from as int, to as int)),
{
    let ghost c = s@.subrange(from as int, to as int);
    let mut lo: usize = from;
    while lo < to && white_space(s.get_char(lo))
        invariant
            from <= lo <= to,
            to <= s@.len(),
            c == s@.subrange(from as int, to as int),
            forall|i: int| 0 <= i < lo - from ==> is_white_space(#[trigger] c[i]),
        decreases to - lo,
    {
        assert(c[lo - from] == s@[lo as int]);
        lo = lo + 1;
    }
    let mut hi: usize = to;
    while hi > lo && white_space(s.get_char(hi - 1))
        invariant
            from <= lo <= hi <= to,
            to <= s@.len(),
            c == s@.subrange(from as int, to as int),
            forall|i: int| hi - from <= i < c.len() ==> is_white_space(#[trigger] c[i]),
        decreases hi,
    {
        assert(c[hi - 1 - from] == s@[hi - 1]);
        hi = hi - 1;
    }
    proof {
        let a = (lo - from) as int;
        let b = (hi - from) as int;
        lemma_strip_leading_from(c, a);
        let t = c.subrange(a, c.len() as int);
        if a < c.len() {
            assert(t[0] == c[a]);
        }
        assert(strip_leading(t) == t);
        lemma_strip_trailing_to(t, b - a);
        let u = t.subrange(0, b - a);
        assert(u =~= c.subrange(a, b));
        if b > a {
            assert(u.last() == c[b - 1]);
        }
        assert(strip_trailing(u) == u);
        assert(c.subrange(a, b) =~= s@.subrange(lo as int, hi as int));
    }
    String::from_str(s.substring_char(lo, hi))
}

/// Splits `l = r` at its first `=` into the trimmed sides.
pub fn split_equation(s: &str) -> (r: Option<(String, String)>)
    ensures
        match r {
            Some((l, rr)) => equation_sides(s@) == Some((l@, rr@)),
            None => equation_sides(s@) is None,
        },
{
    let n = s.unicode_len();
    let mut i: usize = 0;
    while i < n
        invariant
            n == s@.len(),
            0 <= i <= n,
            forall|j: int| 0 <= j < i ==> s@[j] != '=',
        decreases n - i,
    {
        if s.get_char(i) == '=' {
            let l = trim_range(s, 0, i);
            let rr = trim_range(s, i + 1, n);
            proof {
                assert(s@[i as int] == '=');
                let k = choose|k: int|
                    0 <= k < s@.len() && #[trigger] s@[k] == '=' && forall|j: int|
                        0 <= j < k ==> s@[j] != '=';
                if k < i {
                    assert(s@[k] != '=');
                } else if k > i {
                    assert(s@[i as int] != '=');
                }
            }
            return Some((l, rr));
        }
        i = i + 1;
    }
    None
}

/// The decimal digit `d`.
pub open spec fn digit(d: int) -> char {
    if d == 0 {
        '0'
    } else if d == 1 {
        '1'
    } else if d == 2 {
        '2'
    } else if d == 3 {
        '3'
    } else if d == 4 {
        '4'
    } else if d == 5 {
        '5'
    } else if d == 6 {
        '6'
    } else if d == 7 {
        '7'
    } else if d == 8 {
        '8'
    } else {
        '9'
    }
}

/// The decimal numeral of `n`.
pub open spec fn decimal(n: nat) -> Seq<char>
    decreases n,
{
    if n < 10 {
        seq![digit(n as int)]
    } else {
        decimal(n / 10).push(digit((n % 10) as int))
    }
}

fn digit_char(d: u8) -> (c: char)
    requires
        d < 10,
    ensures
        c == digit(d as int),
{
    if d == 0 {
        '0'
    } else if d == 1 {
        '1'
    } else if d == 2 {
        '2'
    } else if d == 3 {
        '3'
    } else if d == 4 {
        '4'
    } else if d == 5 {
        '5'
    } else if d == 6 {
        '6'
    } else if d == 7 {
        '7'
    } else if d == 8 {
        '8'
    } else {
        '9'
    }
}

/// Appends the decimal numeral of `n`.
fn push_decimal(out: &mut String, n: u8)
    ensures
        final(out)@ == old(out)@ + decimal(n as nat),
{
    let ghost o = out@;
    if n >= 100 {
        push_char(out, digit_char(n / 100));
        push_char(out, digit_char((n / 10) % 10));
        push_char(out, digit_char(n % 10));
        proof {
            assert(decimal((n / 100) as nat) == seq![digit((n / 100) as int)]);
            assert(decimal((n / 10) as nat) =~= seq![digit((n / 100) as int), digit(((n / 10) % 10) as int)]);
            assert(out@ =~= o + decimal(n as nat));
        }
    } else if n >= 10 {
        push_char(out, digit_char(n / 10));
        push_char(out, digit_char(n % 10));
        proof {
            assert(decimal((n / 10) as nat) == seq![digit((n / 10) as int)]);
            assert(out@ =~= o + decimal(n as nat));
        }
    } else {
        push_char(out, digit_char(n));
        assert(out@ =~= o + decimal(n as nat));
    }
}

/// The term `f` applied to the variables `$var_0 ... $var_{k-1}`, written out.
pub open spec fn pattern(f: Seq<char>, k: nat) -> Seq<char>
    decreases k,
{
    if k == 0 {
        f
    } else {
        "(app "@ + pattern(f, (k - 1) as nat) + " (var $var_"@ + decimal((k - 1) as nat) + "))"@
    }
}

/// The term `f $var_0 ... $var_{n-1}` that stands for every application of the symbol
/// `f` of arity `n`.
pub fn deduction_pattern(f: &str, n: u8) -> (r: String)
    ensures
        r@ == pattern(f@, n as nat),
{
    let mut s = String::from_str(f);
    let mut i: u8 = 0;
    while i < n
        invariant
            0 <= i <= n,
            s@ == pattern(f@, i as nat),
        decreases n - i,
    {
        let mut t = String::from_str("(app ");
        t.append(s.as_str());
        t.append(" (var $var_");
        push_decimal(&mut t, i);
        t.append("))");
        s = t;
        i = i + 1;
    }
    s
}

/// Appends `a` to the worklist unless an equal applied id is there already.
pub fn push_unique(v: &mut Vec<AppliedId>, a: AppliedId)
    requires
        all_wf(old(v)@),
        a.wf(),
    ensures
        all_wf(final(v)@),
        aids_view(final(v)@) == (if aids_view(old(v)@).contains(a@) {
            aids_view(old(v)@)
        } else {
            aids_view(old(v)@).push(a@)
        }),
{
    if !contains_aid(v, &a) {
        let ghost v0 = v@;
        let ghost av = a@;
        v.push(a);
        assert(aids_view(v@) =~= aids_view(v0).push(av));
    }
}

} // verus!

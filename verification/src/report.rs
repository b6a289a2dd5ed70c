use vstd::prelude::*;

verus! {

/// Why a saturation run stopped.
#[derive(Debug, Clone)]
pub enum CCXStopReason<T = String> {
    EmptyUs,
    IterationLimit,
    TimeLimit,
    NodeLimit,
    Other(T),
}

/// The characters that carry the Unicode `White_Space` property.
pub open spec fn is_white_space(c: char) -> bool {
    let u = c as u32;
    ||| 0x09 <= u <= 0x0D
    ||| u == 0x20
    ||| u == 0x85
    ||| u == 0xA0
    ||| u == 0x1680
    ||| 0x2000 <= u <= 0x200A
    ||| u == 0x2028
    ||| u == 0x2029
    ||| u == 0x202F
    ||| u == 0x205F
    ||| u == 0x3000
}

/// Characters that would split a field of a `;`-separated record.
pub open spec fn is_field_breaker(c: char) -> bool {
    c == ';' || c == '\n' || c == '\r'
}

/// A message with every field breaker replaced by a space.
pub open spec fn cleaned(s: Seq<char>) -> Seq<char> {
    s.map_values(|c: char| if is_field_breaker(c) { ' ' } else { c })
}

/// `s` without its leading white space.
pub open spec fn strip_leading(s: Seq<char>) -> Seq<char>
    decreases s.len(),
{
    if s.len() > 0 && is_white_space(s[0]) {
        strip_leading(s.drop_first())
    } else {
        s
    }
}

/// `s` without its trailing white space.
pub open spec fn strip_trailing(s: Seq<char>) -> Seq<char>
    decreases s.len(),
{
    if s.len() > 0 && is_white_space(s.last()) {
        strip_trailing(s.drop_last())
    } else {
        s
    }
}

/// `s` without leading and trailing white space.
pub open spec fn trimmed(s: Seq<char>) -> Seq<char> {
    strip_trailing(strip_leading(s))
}

/// The single CSV-safe token that names a stop reason.
pub open spec fn stop_token(r: CCXStopReason<String>) -> Seq<char> {
    match r {
        CCXStopReason::EmptyUs => "EmptyUs"@,
        CCXStopReason::IterationLimit => "IterationLimit"@,
        CCXStopReason::TimeLimit => "TimeLimit"@,
        CCXStopReason::NodeLimit => "NodeLimit"@,
        CCXStopReason::Other(msg) => "Other("@ + trimmed(cleaned(msg@)) + ")"@,
    }
}

/// Appends one character to a string: a call of `String::push`, which the
/// standard documentation describes as appending the given char to the end.
#[verifier::external_body]
pub(crate) fn push_char(s: &mut String, c: char)
    ensures
        final(s)@ == old(s)@.push(c),
{
    s.push(c);
}

pub(crate) fn white_space(c: char) -> (r: bool)
    ensures
        r == is_white_space(c),
{
    let u = c as u32;
    (0x09 <= u && u <= 0x0D) || u == 0x20 || u == 0x85 || u == 0xA0 || u == 0x1680 || (0x2000
        <= u && u <= 0x200A) || u == 0x2028 || u == 0x2029 || u == 0x202F || u == 0x205F || u
        == 0x3000
}

fn clean_char(c: char) -> (r: char)
    ensures
        r == (if is_field_breaker(c) { ' ' } else { c }),
{
    if c == ';' || c == '\n' || c == '\r' {
        ' '
    } else {
        c
    }
}

pub proof fn lemma_strip_leading_from(s: Seq<char>, lo: int)
    requires
        0 <= lo <= s.len(),
        forall|i: int| 0 <= i < lo ==> is_white_space(#[trigger] s[i]),
    ensures
        strip_leading(s) == strip_leading(s.subrange(lo, s.len() as int)),
    decreases lo,
{
    if lo > 0 {
        assert(s.drop_first() =~= s.subrange(1, s.len() as int));
        lemma_strip_leading_from(s.drop_first(), lo - 1);
        assert(s.drop_first().subrange(lo - 1, s.drop_first().len() as int) =~= s.subrange(
            lo,
            s.len() as int,
        ));
    } else {
        assert(s.subrange(0, s.len() as int) =~= s);
    }
}

pub proof fn lemma_strip_trailing_to(s: Seq<char>, hi: int)
    requires
        0 <= hi <= s.len(),
        forall|i: int| hi <= i < s.len() ==> is_white_space(#[trigger] s[i]),
    ensures
        strip_trailing(s) == strip_trailing(s.subrange(0, hi)),
    decreases s.len() - hi,
{
    if hi < s.len() {
        lemma_strip_trailing_to(s.drop_last(), hi);
        assert(s.drop_last().subrange(0, hi) =~= s.subrange(0, hi));
    } else {
        assert(s.subrange(0, hi) =~= s);
    }
}

proof fn lemma_strip_leading_suffix(s: Seq<char>)
    ensures
        exists|k: int| 0 <= k <= s.len() && strip_leading(s) == s.subrange(k, s.len() as int),
    decreases s.len(),
{
    if s.len() > 0 && is_white_space(s[0]) {
        lemma_strip_leading_suffix(s.drop_first());
        let k = choose|k: int|
            0 <= k <= s.drop_first().len() && strip_leading(s.drop_first()) == s.drop_first().subrange(
                k,
                s.drop_first().len() as int,
            );
        assert(s.drop_first().subrange(k, s.drop_first().len() as int) =~= s.subrange(
            k + 1,
            s.len() as int,
        ));
    } else {
        assert(s.subrange(0, s.len() as int) =~= s);
    }
}

proof fn lemma_strip_trailing_prefix(s: Seq<char>)
    ensures
        exists|k: int| 0 <= k <= s.len() && strip_trailing(s) == s.subrange(0, k),
    decreases s.len(),
{
    if s.len() > 0 && is_white_space(s.last()) {
        lemma_strip_trailing_prefix(s.drop_last());
        let k = choose|k: int|
            0 <= k <= s.drop_last().len() && strip_trailing(s.drop_last()) == s.drop_last().subrange(
                0,
                k,
            );
        assert(s.drop_last().subrange(0, k) =~= s.subrange(0, k));
    } else {
        assert(s.subrange(0, s.len() as int) =~= s);
    }
}

/// A stop token is a single field of a `;`-separated record: it holds no `;` and no
/// line break.
pub proof fn lemma_token_csv_safe(r: CCXStopReason<String>)
    ensures
        forall|i: int| 0 <= i < stop_token(r).len() ==> !is_field_breaker(#[trigger] stop_token(r)[i]),
{
    reveal_strlit("EmptyUs");
    reveal_strlit("IterationLimit");
    reveal_strlit("TimeLimit");
    reveal_strlit("NodeLimit");
    reveal_strlit("Other(");
    reveal_strlit(")");
    if let CCXStopReason::Other(msg) = r {
        let c = cleaned(msg@);
        assert forall|i: int| 0 <= i < c.len() implies !is_field_breaker(#[trigger] c[i]) by {}
        lemma_strip_leading_suffix(c);
        let k1 = choose|k: int| 0 <= k <= c.len() && strip_leading(c) == c.subrange(k, c.len() as int);
        let l = strip_leading(c);
        lemma_strip_trailing_prefix(l);
        let k2 = choose|k: int| 0 <= k <= l.len() && strip_trailing(l) == l.subrange(0, k);
        let tr = trimmed(msg@.map_values(|ch: char| if is_field_breaker(ch) { ' ' } else { ch }));
        assert(tr == l.subrange(0, k2));
        assert forall|i: int| 0 <= i < tr.len() implies !is_field_breaker(#[trigger] tr[i]) by {
            assert(tr[i] == c[k1 + i]);
        }
        let tok = stop_token(r);
        assert forall|i: int| 0 <= i < tok.len() implies !is_field_breaker(#[trigger] tok[i]) by {
            let p = "Other("@;
            if i < p.len() {
                assert(tok[i] == p[i]);
            } else if i < p.len() + tr.len() {
                assert(tok[i] == tr[i - p.len()]);
            } else {
                assert(tok[i] == ")"@[i - p.len() - tr.len()]);
            }
        }
    }
}

impl CCXStopReason<String> {
    /// A single token without `;` or line breaks that names this stop reason.
    pub fn to_token(&self) -> (r: String)
        ensures
            r@ == stop_token(*self),
    {
        match self {
            CCXStopReason::EmptyUs => String::from_str("EmptyUs"),
            CCXStopReason::IterationLimit => String::from_str("IterationLimit"),
            CCXStopReason::TimeLimit => String::from_str("TimeLimit"),
            CCXStopReason::NodeLimit => String::from_str("NodeLimit"),
            CCXStopReason::Other(msg) => {
                let s = msg.as_str();
                let n = s.unicode_len();
                let ghost c = cleaned(msg@);
                let mut lo: usize = 0;
                while lo < n && white_space(clean_char(s.get_char(lo)))
                    invariant
                        n == s@.len(),
                        s@ == msg@,
                        c == cleaned(msg@),
                        0 <= lo <= n,
                        forall|i: int| 0 <= i < lo ==> is_white_space(#[trigger] c[i]),
                    decreases n - lo,
                {
                    lo = lo + 1;
                }
                let mut hi: usize = n;
                while hi > lo && white_space(clean_char(s.get_char(hi - 1)))
                    invariant
                        n == s@.len(),
                        s@ == msg@,
                        c == cleaned(msg@),
                        0 <= lo <= hi <= n,
                        forall|i: int| hi <= i < n ==> is_white_space(#[trigger] c[i]),
                    decreases hi,
                {
                    hi = hi - 1;
                }
                proof {
                    lemma_strip_leading_from(c, lo as int);
                    let t = c.subrange(lo as int, n as int);
                    if lo < n {
                        assert(t[0] == c[lo as int]);
                    }
                    assert(strip_leading(t) == t);
                    lemma_strip_trailing_to(t, (hi - lo) as int);
                    let u = t.subrange(0, (hi - lo) as int);
                    assert(u =~= c.subrange(lo as int, hi as int));
                    if hi > lo {
                        assert(u.last() == c[hi - 1]);
                    }
                    assert(strip_trailing(u) == u);
                }
                let mut out = String::from_str("Other(");
                let mut k: usize = lo;
                while k < hi
                    invariant
                        n == s@.len(),
                        s@ == msg@,
                        c == cleaned(msg@),
                        lo <= k <= hi <= n,
                        out@ == "Other("@ + c.subrange(lo as int, k as int),
                    decreases hi - k,
                {
                    let ch = clean_char(s.get_char(k));
                    push_char(&mut out, ch);
                    proof {
                        assert(c.subrange(lo as int, k + 1) =~= c.subrange(lo as int, k as int).push(
                            c[k as int],
                        ));
                    }
                    k = k + 1;
                }
                out.append(")");
                out
            },
        }
    }
}

} // verus!

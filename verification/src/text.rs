//! Splitting text into whitespace-separated tokens and reading numbers,
//! with exact specifications: the pieces the pipeline's text inputs are
//! parsed with.
use vstd::prelude::*;

verus! {

/// The whitespace characters token splitting breaks on.
pub open spec fn spec_is_ws(c: char) -> bool {
    c == ' ' || c == '\t' || c == '\n' || c == '\r'
}

/// The length of the token starting at `p`: the run of non-whitespace
/// characters.
pub open spec fn spec_token_len(s: Seq<char>, p: int) -> int
    decreases s.len() - p,
{
    if p < 0 || p >= s.len() || spec_is_ws(s[p]) {
        0
    } else {
        1 + spec_token_len(s, p + 1)
    }
}

/// The whitespace-separated tokens of `s`, from position `p` on.
pub open spec fn spec_tokens_from(s: Seq<char>, p: int) -> Seq<Seq<char>>
    decreases s.len() - p,
    via spec_tokens_from_dec
{
    if p < 0 || p >= s.len() {
        Seq::empty()
    } else if spec_is_ws(s[p]) {
        spec_tokens_from(s, p + 1)
    } else {
        let tl = spec_token_len(s, p);
        seq![s.subrange(p, p + tl)] + spec_tokens_from(s, p + tl)
    }
}

#[via_fn]
proof fn spec_tokens_from_dec(s: Seq<char>, p: int) {
    if 0 <= p < s.len() && !spec_is_ws(s[p]) {
        lemma_token_len_bounds(s, p);
        assert(spec_token_len(s, p) == 1 + spec_token_len(s, p + 1));
        lemma_token_len_bounds_weak(s, p + 1);
    }
}

proof fn lemma_token_len_bounds_weak(s: Seq<char>, p: int)
    ensures
        spec_token_len(s, p) >= 0,
    decreases s.len() - p,
{
    if 0 <= p < s.len() && !spec_is_ws(s[p]) {
        lemma_token_len_bounds_weak(s, p + 1);
    }
}

/// The whitespace-separated tokens of `s`.
pub open spec fn spec_tokens(s: Seq<char>) -> Seq<Seq<char>> {
    spec_tokens_from(s, 0)
}

proof fn lemma_token_len_bounds(s: Seq<char>, p: int)
    requires
        0 <= p <= s.len(),
    ensures
        0 <= spec_token_len(s, p),
        p + spec_token_len(s, p) <= s.len(),
    decreases s.len() - p,
{
    if p < s.len() && !spec_is_ws(s[p]) {
        lemma_token_len_bounds(s, p + 1);
    }
}

/// Whether `c` is a whitespace character.
fn is_ws(c: char) -> (b: bool)
    ensures
        b == spec_is_ws(c),
{
    c == ' ' || c == '\t' || c == '\n' || c == '\r'
}

/// Splits a string into its whitespace-separated tokens, each returned
/// as its characters.
pub fn tokenize(s: &str) -> (r: Vec<Vec<char>>)
    ensures
        r.deep_view() == spec_tokens(s@),
{
    let n = s.unicode_len();
    let mut out: Vec<Vec<char>> = Vec::new();
    let mut p: usize = 0;
    proof {
        assert(out.deep_view() + spec_tokens_from(s@, 0) =~= spec_tokens(s@));
    }
    while p < n
        invariant
            0 <= p <= n,
            n == s@.len(),
            out.deep_view() + spec_tokens_from(s@, p as int) == spec_tokens(s@),
        decreases n - p,
    {
        let c = s.get_char(p);
        if is_ws(c) {
            proof {
                assert(spec_tokens_from(s@, p as int) == spec_tokens_from(s@, p as int + 1));
            }
            p += 1;
        } else {
            let ghost p0 = p as int;
            let ghost tl = spec_token_len(s@, p0);
            proof {
                lemma_token_len_bounds(s@, p0);
            }
            let mut tok: Vec<char> = Vec::new();
            let mut q: usize = p;
            while q < n && !is_ws(s.get_char(q))
                invariant
                    0 <= p0 <= q <= n,
                    q == p0 + tok@.len(),
                    n == s@.len(),
                    forall|j: int| p0 <= j < q ==> !spec_is_ws(s@[j]),
                    tok@ == s@.subrange(p0, q as int),
                    spec_token_len(s@, p0) == (q - p0) + spec_token_len(s@, q as int),
                decreases n - q,
            {
                let ghost qv = q as int;
                tok.push(s.get_char(q));
                proof {
                    assert(tok@ =~= s@.subrange(p0, qv + 1));
                    assert(spec_token_len(s@, qv) == 1 + spec_token_len(s@, qv + 1));
                }
                q += 1;
            }
            proof {
                assert(spec_token_len(s@, q as int) == 0);
                assert(tl == q - p0);
                assert(tok@ == s@.subrange(p0, p0 + tl));
            }
            let ghost dout = out.deep_view();
            let ghost dtok = tok@;
            out.push(tok);
            proof {
                assert(out.deep_view().len() == dout.len() + 1);
                assert forall|j: int| 0 <= j < dout.len() implies #[trigger] out.deep_view()[j]
                    == dout[j] by {
                    assert(out.deep_view()[j] == out@[j].deep_view());
                }
                assert(out.deep_view()[dout.len() as int] == out@[dout.len() as int].deep_view());
                assert(out@[dout.len() as int].deep_view() =~= dtok);
                assert(out.deep_view() =~= dout.push(dtok));
                assert(spec_tokens_from(s@, p0) == seq![s@.subrange(p0, p0 + tl)]
                    + spec_tokens_from(s@, p0 + tl));
                assert(out.deep_view() + spec_tokens_from(s@, p0 + tl) =~= spec_tokens(s@));
            }
            p = q;
        }
    }
    proof {
        assert(spec_tokens_from(s@, n as int) =~= Seq::<Seq<char>>::empty());
        assert(out.deep_view() =~= spec_tokens(s@));
    }
    out
}

/// Whether `c` is a decimal digit.
pub open spec fn spec_is_digit(c: char) -> bool {
    c == '0' || c == '1' || c == '2' || c == '3' || c == '4' || c == '5' || c == '6' || c == '7'
        || c == '8' || c == '9'
}

/// The value of one decimal digit.
pub open spec fn spec_digit_val(c: char) -> int {
    if c == '0' {
        0
    } else if c == '1' {
        1
    } else if c == '2' {
        2
    } else if c == '3' {
        3
    } else if c == '4' {
        4
    } else if c == '5' {
        5
    } else if c == '6' {
        6
    } else if c == '7' {
        7
    } else if c == '8' {
        8
    } else {
        9
    }
}

/// A nonempty run of decimal digits.
pub open spec fn spec_all_digits(s: Seq<char>) -> bool {
    s.len() >= 1 && (forall|i: int| 0 <= i < s.len() ==> spec_is_digit(#[trigger] s[i]))
}

/// The number a run of digits denotes.
pub open spec fn spec_digits_val(s: Seq<char>) -> int
    decreases s.len(),
{
    if s.len() == 0 {
        0
    } else {
        spec_digits_val(s.drop_last()) * 10 + spec_digit_val(s.last())
    }
}

proof fn lemma_digits_val_nonneg(s: Seq<char>)
    ensures
        spec_digits_val(s) >= 0,
    decreases s.len(),
{
    if s.len() > 0 {
        lemma_digits_val_nonneg(s.drop_last());
    }
}

/// Longer digit runs never denote smaller numbers than their prefixes.
proof fn lemma_digits_val_prefix_le(s: Seq<char>, k: int)
    requires
        0 <= k <= s.len(),
    ensures
        spec_digits_val(s.subrange(0, k)) <= spec_digits_val(s),
    decreases s.len() - k,
{
    if k < s.len() {
        lemma_digits_val_prefix_le(s, k + 1);
        let a = s.subrange(0, k);
        let b = s.subrange(0, k + 1);
        assert(b.drop_last() =~= a);
        lemma_digits_val_nonneg(a);
        assert(spec_digits_val(b) == spec_digits_val(a) * 10 + spec_digit_val(b.last()));
        assert(spec_digits_val(a) * 10 >= spec_digits_val(a)) by (nonlinear_arith)
            requires
                spec_digits_val(a) >= 0,
        ;
    } else {
        assert(s.subrange(0, k) =~= s);
    }
}

/// Reads a nonnegative number from a digit token. Succeeds exactly on
/// nonempty all-digit tokens whose value fits the result type.
pub fn parse_usize(tok: &Vec<char>) -> (r: Option<usize>)
    ensures
        r is Some <==> (spec_all_digits(tok@) && spec_digits_val(tok@) <= usize::MAX),
        r matches Some(v) ==> v as int == spec_digits_val(tok@),
{
    if tok.len() == 0 {
        return None;
    }
    let mut acc: usize = 0;
    let mut i: usize = 0;
    while i < tok.len()
        invariant
            0 <= i <= tok@.len(),
            tok@.len() >= 1,
            forall|j: int| 0 <= j < i ==> spec_is_digit(#[trigger] tok@[j]),
            acc as int == spec_digits_val(tok@.subrange(0, i as int)),
        decreases tok@.len() - i,
    {
        let c = tok[i];
        let d: usize = match c {
            '0' => 0,
            '1' => 1,
            '2' => 2,
            '3' => 3,
            '4' => 4,
            '5' => 5,
            '6' => 6,
            '7' => 7,
            '8' => 8,
            '9' => 9,
            _ => {
                proof {
                    assert(!spec_is_digit(tok@[i as int]));
                }
                return None;
            },
        };
        proof {
            assert(d as int == spec_digit_val(tok@[i as int]));
        }
        if acc > (usize::MAX - d) / 10 {
            proof {
                let pre = tok@.subrange(0, i as int);
                let cur = tok@.subrange(0, i as int + 1);
                assert(cur.drop_last() =~= pre);
                assert(spec_digits_val(cur) == spec_digits_val(pre) * 10 + spec_digit_val(
                    tok@[i as int],
                ));
                assert(spec_digits_val(pre) * 10 + d > usize::MAX) by (nonlinear_arith)
                    requires
                        spec_digits_val(pre) == acc as int,
                        acc > (usize::MAX - d) / 10,
                        0 <= d <= 9,
                ;
                lemma_digits_val_prefix_le(tok@, i as int + 1);
            }
            return None;
        }
        proof {
            let pre = tok@.subrange(0, i as int);
            let cur = tok@.subrange(0, i as int + 1);
            assert(cur.drop_last() =~= pre);
            assert((acc as int) * 10 + d <= usize::MAX) by (nonlinear_arith)
                requires
                    acc <= (usize::MAX - d) / 10,
                    0 <= d <= 9,
                    acc >= 0,
            ;
        }
        acc = acc * 10 + d;
        i += 1;
    }
    proof {
        assert(tok@.subrange(0, tok@.len() as int) =~= tok@);
    }
    Some(acc)
}

/// Whether the token is exactly the given literal's characters.
pub fn token_is(tok: &Vec<char>, lit: &str) -> (b: bool)
    ensures
        b == (tok@ == lit@),
{
    let n = lit.unicode_len();
    if tok.len() != n {
        proof {
            assert(tok@.len() != lit@.len());
        }
        return false;
    }
    let mut i: usize = 0;
    while i < n
        invariant
            0 <= i <= n,
            n == lit@.len(),
            tok@.len() == n,
            forall|j: int| 0 <= j < i ==> tok@[j] == lit@[j],
        decreases n - i,
    {
        if tok[i] != lit.get_char(i) {
            return false;
        }
        i += 1;
    }
    proof {
        assert(tok@ =~= lit@);
    }
    true
}

} // verus!
